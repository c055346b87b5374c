//! Documents and relations as rows: what is written into the columns of a
//! table and how a row that was read becomes a record again.
//!
//! Tags are stored as one text, separated by commas, the empty text standing
//! for no tags. Vectors are stored in the binary codec. Flags are stored as
//! the integers 0 and 1.

use vstd::prelude::*;
use vstd::string::StringExecFns;
use crate::codec::{decode_words, deserialize_vector, encode_words, serialize_vector};
use crate::models::{opt_view, Document, DocumentRelation, DocumentView};
use crate::sql::{woven, SqlValue, ValueView, values};
use crate::text::{chars_of, clone_opt_string, lemma_pieces_nonempty, pieces, string_of, views};

verus! {

/// The columns of one row of a document table.
#[derive(Debug)]
pub struct DocumentRow {
    pub id: String,
    pub content: String,
    pub metadata: String,
    pub tags: String,
    pub vector: Option<Vec<u8>>,
    pub created_at: i64,
    pub updated_at: i64,
    pub is_embedded: i32,
    pub vectorize: i32,
    pub is_chunk: i32,
    pub parent_id: Option<String>,
    pub chunk_index: Option<i32>,
    pub token_count: Option<i32>,
    pub is_vectorized: i32,
}

/// The columns of one row of the relations table.
#[derive(Debug)]
pub struct RelationRow {
    pub id: String,
    pub source_id: String,
    pub target_id: String,
    pub relation_type: String,
    pub metadata: String,
    pub created_at: i64,
}

/// The comma.
pub open spec fn comma() -> Seq<char> {
    seq![',']
}

/// The stored text of tags: the tags with a comma between each and the next.
pub open spec fn joined(tags: Seq<Seq<char>>) -> Seq<char> {
    woven(tags, comma())
}

/// The tags of a stored text: none for the empty text, else its pieces
/// between commas.
pub open spec fn tags_of(text: Seq<char>) -> Seq<Seq<char>> {
    if text.len() == 0 {
        Seq::<Seq<char>>::empty()
    } else {
        pieces(text, ',')
    }
}

/// Whether `tag` holds no comma.
pub open spec fn comma_free(tag: Seq<char>) -> bool {
    forall|i: int| 0 <= i < tag.len() ==> tag[i] != ','
}

/// A text followed by a text without separator has the pieces of the first,
/// the last of them extended.
proof fn lemma_pieces_extend(text: Seq<char>, more: Seq<char>)
    requires
        comma_free(more),
    ensures
        pieces(text, ',').len() >= 1,
        pieces(text + more, ',') == pieces(text, ',').drop_last().push(
            pieces(text, ',').last() + more,
        ),
    decreases more.len(),
{
    lemma_pieces_nonempty(text, ',');
    let p = pieces(text, ',');
    if more.len() == 0 {
        assert(text + more =~= text);
        assert(p.last() + more =~= p.last());
        assert(p.drop_last().push(p.last()) =~= p);
    } else {
        let init = more.drop_last();
        assert(comma_free(init)) by {
            assert forall|i: int| 0 <= i < init.len() implies init[i] != ',' by {
                assert(init[i] == more[i]);
            }
        }
        lemma_pieces_extend(text, init);
        assert((text + more).drop_last() =~= text + init);
        assert((text + more).last() == more.last());
        assert(more.last() == more[more.len() - 1]);
        let q = pieces(text + init, ',');
        assert(q.drop_last() =~= p.drop_last());
        assert(q.last().push(more.last()) =~= p.last() + more);
    }
}

/// Reading stored tags gives back the tags that were written, where no tag
/// holds a comma and the tags are not a single empty tag.
pub proof fn lemma_tags_round_trip(tags: Seq<Seq<char>>)
    requires
        forall|i: int| 0 <= i < tags.len() ==> comma_free(#[trigger] tags[i]),
        !(tags.len() == 1 && tags[0].len() == 0),
    ensures
        tags_of(joined(tags)) == tags,
{
    if tags.len() > 0 {
        lemma_pieces_of_joined(tags);
        if joined(tags).len() == 0 {
            // only a single empty tag is stored as the empty text
            lemma_joined_len(tags);
        }
    }
}

proof fn lemma_joined_len(tags: Seq<Seq<char>>)
    requires
        tags.len() >= 1,
    ensures
        joined(tags).len() >= tags.len() - 1,
        joined(tags).len() >= tags[0].len(),
    decreases tags.len(),
{
    if tags.len() > 1 {
        lemma_joined_len(tags.drop_last());
    }
}

proof fn lemma_pieces_of_joined(tags: Seq<Seq<char>>)
    requires
        tags.len() >= 1,
        forall|i: int| 0 <= i < tags.len() ==> comma_free(#[trigger] tags[i]),
    ensures
        pieces(joined(tags), ',') == tags,
    decreases tags.len(),
{
    if tags.len() == 1 {
        let empty = Seq::<char>::empty();
        lemma_pieces_extend(empty, tags[0]);
        assert(empty + tags[0] =~= tags[0]);
        assert(pieces(empty, ',') =~= seq![empty]);
        assert(seq![empty].drop_last().push(empty + tags[0]) =~= tags);
    } else {
        let init = tags.drop_last();
        assert forall|i: int| 0 <= i < init.len() implies comma_free(#[trigger] init[i]) by {
            assert(init[i] == tags[i]);
        }
        lemma_pieces_of_joined(init);
        let head = joined(init) + comma();
        assert(head.drop_last() =~= joined(init));
        assert(head.last() == ',');
        assert(pieces(head, ',') == init.push(Seq::<char>::empty()));
        lemma_pieces_extend(head, tags.last());
        assert(joined(tags) =~= head + tags.last());
        assert(init.push(Seq::<char>::empty()).drop_last().push(
            Seq::<char>::empty() + tags.last(),
        ) =~= tags);
    }
}

/// Writes tags as one text.
pub fn join_tags(tags: &Vec<String>) -> (text: String)
    ensures
        text@ == joined(views(tags@)),
{
    let mut text = String::new();
    let mut i: usize = 0;
    let ghost all = views(tags@);
    proof {
        assert(all.take(0) =~= Seq::<Seq<char>>::empty());
    }
    while i < tags.len()
        invariant
            i <= tags.len(),
            all == views(tags@),
            text@ == joined(all.take(i as int)),
        decreases tags.len() - i,
    {
        proof {
            assert(all.take(i as int + 1).drop_last() =~= all.take(i as int));
            assert(all.take(i as int + 1).last() == tags@[i as int]@);
            crate::text::reveal_comma();
            if i == 0 {
                assert(text@ + tags@[0]@ =~= tags@[0]@);
            }
        }
        if i > 0 {
            text.append(",");
        }
        text.append(tags[i].as_str());
        i = i + 1;
    }
    proof {
        assert(all.take(i as int) =~= all);
    }
    text
}

/// Reads the tags of a stored text.
pub fn split_tags(text: &str) -> (tags: Vec<String>)
    ensures
        views(tags@) == tags_of(text@),
{
    let chars = chars_of(text);
    let mut tags: Vec<String> = Vec::new();
    if chars.len() == 0 {
        proof {
            assert(views(tags@) =~= Seq::<Seq<char>>::empty());
        }
        return tags;
    }
    let mut current: Vec<char> = Vec::new();
    let mut i: usize = 0;
    proof {
        assert(chars@.take(0) =~= Seq::<char>::empty());
        assert(views(tags@).push(current@) =~= seq![Seq::<char>::empty()]);
    }
    while i < chars.len()
        invariant
            i <= chars.len(),
            chars@ == text@,
            pieces(chars@.take(i as int), ',') == views(tags@).push(current@),
        decreases chars.len() - i,
    {
        let c: char = chars[i];
        proof {
            assert(chars@.take(i as int + 1).drop_last() =~= chars@.take(i as int));
            assert(chars@.take(i as int + 1).last() == c);
        }
        let ghost done = views(tags@);
        let ghost piece = current@;
        if c == ',' {
            let tag = string_of(&current);
            tags.push(tag);
            current = Vec::new();
            proof {
                assert(views(tags@) =~= done.push(piece));
                assert(current@ =~= Seq::<char>::empty());
            }
        } else {
            current.push(c);
            proof {
                assert(done.push(piece).drop_last() =~= done);
            }
        }
        i = i + 1;
    }
    let ghost done = views(tags@);
    tags.push(string_of(&current));
    proof {
        assert(chars@.take(i as int) =~= chars@);
        assert(views(tags@) =~= done.push(current@));
    }
    tags
}

/// The token count that a document without one is stored with: a quarter of
/// the content's length in bytes, rounded up, and no more than the column
/// holds.
pub open spec fn default_token_count(bytes: nat) -> i32 {
    if (bytes + 3) / 4 > i32::MAX {
        i32::MAX
    } else {
        ((bytes + 3) / 4) as i32
    }
}

/// Computes `default_token_count`.
pub fn estimate_tokens(bytes: usize) -> (n: i32)
    ensures
        n == default_token_count(bytes as nat),
{
    let quarter: usize = bytes / 4 + if bytes % 4 == 0 {
        0
    } else {
        1
    };
    assert(quarter == (bytes + 3) / 4);
    if quarter > i32::MAX as usize {
        i32::MAX
    } else {
        quarter as i32
    }
}

/// The integer of a flag.
pub open spec fn flag(b: bool) -> int {
    if b {
        1
    } else {
        0
    }
}

/// The values under which a document is stored, in column order. A document
/// is stored as embedded and vectorized exactly when it carries a vector.
pub open spec fn document_values(doc: Document) -> Seq<ValueView> {
    seq![
        ValueView::Text(doc.id@),
        ValueView::Text(doc.content@),
        ValueView::Text(doc.metadata@),
        ValueView::Text(joined(views(doc.tags@))),
        match doc.vector {
            Some(v) => ValueView::Blob(encode_words(v@)),
            None => ValueView::Null,
        },
        ValueView::Timestamp(doc.created_at as int),
        ValueView::Timestamp(doc.updated_at as int),
        ValueView::Integer(flag(doc.vector is Some)),
        ValueView::Integer(flag(doc.vectorize)),
        ValueView::Integer(flag(doc.is_chunk)),
        match doc.parent_id {
            Some(p) => ValueView::Text(p@),
            None => ValueView::Null,
        },
        match doc.chunk_index {
            Some(i) => ValueView::Integer(i as int),
            None => ValueView::Null,
        },
        ValueView::Integer(
            match doc.token_count {
                Some(n) => n as int,
                None => default_token_count(crate::chunking::utf8_len(doc.content@)) as int,
            },
        ),
        ValueView::Integer(flag(doc.vector is Some)),
    ]
}

fn flag_value(b: bool) -> (v: SqlValue)
    ensures
        v@ == ValueView::Integer(flag(b)),
{
    if b {
        SqlValue::Integer(1)
    } else {
        SqlValue::Integer(0)
    }
}

/// Computes `document_values`.
pub fn document_params(doc: &Document) -> (params: Vec<SqlValue>)
    ensures
        values(params@) == document_values(*doc),
{
    let mut params: Vec<SqlValue> = Vec::new();
    params.push(SqlValue::Text(doc.id.clone()));
    params.push(SqlValue::Text(doc.content.clone()));
    params.push(SqlValue::Text(doc.metadata.clone()));
    params.push(SqlValue::Text(join_tags(&doc.tags)));
    let embedded: bool = match &doc.vector {
        Some(v) => {
            params.push(SqlValue::Blob(serialize_vector(v)));
            true
        },
        None => {
            params.push(SqlValue::Null);
            false
        },
    };
    params.push(SqlValue::Timestamp(doc.created_at));
    params.push(SqlValue::Timestamp(doc.updated_at));
    params.push(flag_value(embedded));
    params.push(flag_value(doc.vectorize));
    params.push(flag_value(doc.is_chunk));
    match &doc.parent_id {
        Some(p) => params.push(SqlValue::Text(p.clone())),
        None => params.push(SqlValue::Null),
    }
    match doc.chunk_index {
        Some(i) => params.push(SqlValue::Integer(i as i64)),
        None => params.push(SqlValue::Null),
    }
    let tokens: i32 = match doc.token_count {
        Some(n) => n,
        None => estimate_tokens(doc.content.as_str().as_bytes().len()),
    };
    params.push(SqlValue::Integer(tokens as i64));
    params.push(flag_value(embedded));
    proof {
        assert(values(params@) =~= document_values(*doc));
    }
    params
}

/// The document that a row of table `table` of database `db` holds.
pub open spec fn document_of(db: Seq<char>, table: Seq<char>, row: DocumentRow) -> DocumentView {
    DocumentView {
        id: row.id@,
        db,
        table,
        content: row.content@,
        metadata: row.metadata@,
        tags: tags_of(row.tags@),
        vector: match row.vector {
            Some(bytes) => Some(decode_words(bytes@)),
            None => None,
        },
        created_at: row.created_at,
        updated_at: row.updated_at,
        is_embedded: row.is_embedded == 1,
        vectorize: row.vectorize == 1,
        is_chunk: row.is_chunk == 1,
        parent_id: opt_view(row.parent_id),
        chunk_index: row.chunk_index,
        token_count: row.token_count,
        is_vectorized: row.is_vectorized == 1,
    }
}

/// Reads a document from a row.
pub fn document_from_row(db: &str, table: &str, row: &DocumentRow) -> (doc: Document)
    ensures
        doc@ == document_of(db@, table@, *row),
{
    let vector: Option<Vec<u32>> = match &row.vector {
        Some(bytes) => Some(deserialize_vector(bytes)),
        None => None,
    };
    Document {
        id: row.id.clone(),
        db: db.to_owned(),
        table: table.to_owned(),
        content: row.content.clone(),
        metadata: row.metadata.clone(),
        tags: split_tags(row.tags.as_str()),
        vector,
        created_at: row.created_at,
        updated_at: row.updated_at,
        is_embedded: row.is_embedded == 1,
        vectorize: row.vectorize == 1,
        is_chunk: row.is_chunk == 1,
        parent_id: clone_opt_string(&row.parent_id),
        chunk_index: row.chunk_index,
        token_count: row.token_count,
        is_vectorized: row.is_vectorized == 1,
    }
}

/// The pending document that a row holds: as `document_of`, but without a
/// vector and not embedded, whatever the row says.
pub open spec fn pending_of(db: Seq<char>, table: Seq<char>, row: DocumentRow) -> DocumentView {
    DocumentView { vector: None, is_embedded: false, ..document_of(db, table, row) }
}

/// Reads a pending document from a row.
pub fn pending_from_row(db: &str, table: &str, row: &DocumentRow) -> (doc: Document)
    ensures
        doc@ == pending_of(db@, table@, *row),
{
    let mut doc = document_from_row(db, table, row);
    doc.vector = None;
    doc.is_embedded = false;
    doc
}

/// Reads the documents of rows, in order.
pub fn documents_from_rows(db: &str, table: &str, rows: &Vec<DocumentRow>) -> (docs: Vec<Document>)
    ensures
        docs@.len() == rows@.len(),
        forall|i: int|
            0 <= i < docs@.len() ==> (#[trigger] docs@[i])@ == document_of(db@, table@, rows@[i]),
{
    let mut docs: Vec<Document> = Vec::new();
    let mut i: usize = 0;
    while i < rows.len()
        invariant
            i <= rows.len(),
            docs@.len() == i,
            forall|k: int|
                0 <= k < i ==> (#[trigger] docs@[k])@ == document_of(db@, table@, rows@[k]),
        decreases rows.len() - i,
    {
        docs.push(document_from_row(db, table, &rows[i]));
        i = i + 1;
    }
    docs
}

/// Reads the pending documents of rows, in order.
pub fn pending_from_rows(db: &str, table: &str, rows: &Vec<DocumentRow>) -> (docs: Vec<Document>)
    ensures
        docs@.len() == rows@.len(),
        forall|i: int|
            0 <= i < docs@.len() ==> (#[trigger] docs@[i])@ == pending_of(db@, table@, rows@[i]),
{
    let mut docs: Vec<Document> = Vec::new();
    let mut i: usize = 0;
    while i < rows.len()
        invariant
            i <= rows.len(),
            docs@.len() == i,
            forall|k: int|
                0 <= k < i ==> (#[trigger] docs@[k])@ == pending_of(db@, table@, rows@[k]),
        decreases rows.len() - i,
    {
        docs.push(pending_from_row(db, table, &rows[i]));
        i = i + 1;
    }
    docs
}

/// `relation` holds what `row` holds, column by column.
pub open spec fn relation_of(relation: DocumentRelation, row: RelationRow) -> bool {
    &&& relation.id@ == row.id@
    &&& relation.source_id@ == row.source_id@
    &&& relation.target_id@ == row.target_id@
    &&& relation.relation_type@ == row.relation_type@
    &&& relation.metadata@ == row.metadata@
    &&& relation.created_at == row.created_at
}

/// Reads a relation from a row.
pub fn relation_from_row(row: &RelationRow) -> (relation: DocumentRelation)
    ensures
        relation_of(relation, *row),
{
    DocumentRelation {
        id: row.id.clone(),
        source_id: row.source_id.clone(),
        target_id: row.target_id.clone(),
        relation_type: row.relation_type.clone(),
        metadata: row.metadata.clone(),
        created_at: row.created_at,
    }
}

/// A vector that was written and read again is the same vector, and the
/// document that holds it is embedded.
pub proof fn lemma_stored_vector_reads_back(db: Seq<char>, table: Seq<char>, row: DocumentRow, vector: Seq<u32>)
    requires
        row.vector matches Some(bytes) && bytes@ == encode_words(vector),
        row.is_embedded == 1,
    ensures
        document_of(db, table, row).vector == Some(vector),
        document_of(db, table, row).is_embedded,
{
    crate::codec::lemma_codec_round_trip(vector);
}

} // verus!
