//! The write path before anything is persisted: attaching a synchronous
//! embedding and splitting a long document into chunk documents.

use vstd::prelude::*;
use crate::ambient::{fresh_id, now_millis};
use crate::chunking::{Chunker, FixedTokenChunker, MarkdownChunker};
use crate::config::ChunkingConfig;
use crate::error::CoreError;
use crate::models::{opt_view, Document};
use crate::text::{
    chars_of, clone_strings, deep, pieces, split_on, string_of_range, trim_range, trimmed, views,
};

verus! {

/// A token count as it is stored: the low 32 bits, read as a signed number.
pub open spec fn stored_count(n: nat) -> i32 {
    (n as usize) as i32
}

/// The stored token count of an optional count.
pub open spec fn stored_opt_count(n: Option<nat>) -> Option<i32> {
    match n {
        Some(k) => Some(stored_count(k)),
        None => None,
    }
}

/// `chunk` is the chunk at position `index` of `parent` with content `text`:
/// it points at its parent, copies the parent's database, table, metadata and
/// tags, asks for an embedding and has none yet.
pub open spec fn is_chunk_of(
    chunk: Document,
    parent: Document,
    index: int,
    text: Seq<char>,
    tokens: Option<nat>,
) -> bool {
    &&& chunk.content@ == text
    &&& chunk.db@ == parent.db@
    &&& chunk.table@ == parent.table@
    &&& chunk.metadata@ == parent.metadata@
    &&& views(chunk.tags@) == views(parent.tags@)
    &&& chunk.vector is None
    &&& !chunk.is_embedded
    &&& !chunk.is_vectorized
    &&& chunk.vectorize
    &&& chunk.is_chunk
    &&& opt_view(chunk.parent_id) == Some(parent.id@)
    &&& chunk.chunk_index == Some((index as usize) as i32)
    &&& chunk.token_count == stored_opt_count(tokens)
    &&& chunk.updated_at == chunk.created_at
}

/// `chunks` are the chunks of `parent` for `texts`, in order.
pub open spec fn are_chunks_of<C: Chunker>(
    chunker: &C,
    chunks: Seq<Document>,
    parent: Document,
    texts: Seq<Seq<char>>,
) -> bool {
    &&& chunks.len() == texts.len()
    &&& forall|i: int|
        0 <= i < chunks.len() ==> is_chunk_of(
            #[trigger] chunks[i],
            parent,
            i,
            texts[i],
            chunker.tokens_in(texts[i]),
        )
}

/// Builds one chunk document per text, with a fresh id and the current time.
pub fn build_chunks<C: Chunker>(chunker: &C, parent: &Document, texts: &Vec<String>) -> (chunks:
    Vec<Document>)
    ensures
        are_chunks_of(chunker, chunks@, *parent, views(texts@)),
        forall|i: int|
            0 <= i < chunks@.len() && i <= i32::MAX ==> (#[trigger] chunks@[i]).well_formed(),
{
    let mut chunks: Vec<Document> = Vec::new();
    let mut i: usize = 0;
    while i < texts.len()
        invariant
            i <= texts.len(),
            chunks@.len() == i,
            forall|k: int|
                0 <= k < i ==> is_chunk_of(
                    #[trigger] chunks@[k],
                    *parent,
                    k,
                    texts@[k]@,
                    chunker.tokens_in(texts@[k]@),
                ),
            forall|k: int| 0 <= k < i && k <= i32::MAX ==> (#[trigger] chunks@[k]).well_formed(),
        decreases texts.len() - i,
    {
        let text: &String = &texts[i];
        let token_count: Option<i32> = match chunker.count_tokens(text.as_str()) {
            Ok(n) => Some(n as i32),
            Err(_) => None,
        };
        let now: i64 = now_millis();
        let chunk = Document {
            id: fresh_id(),
            db: parent.db.clone(),
            table: parent.table.clone(),
            content: text.clone(),
            metadata: parent.metadata.clone(),
            tags: clone_strings(&parent.tags),
            vector: None,
            created_at: now,
            updated_at: now,
            is_embedded: false,
            vectorize: true,
            is_chunk: true,
            parent_id: Some(parent.id.clone()),
            chunk_index: Some(i as i32),
            token_count,
            is_vectorized: false,
        };
        proof {
            if i <= i32::MAX {
                assert((i as i32) == i as int) by (bit_vector)
                    requires
                        i <= 0x7fff_ffff,
                ;
            }
        }
        chunks.push(chunk);
        i = i + 1;
    }
    chunks
}

/// The effect of `split_document` on the document: its token count is
/// recorded where the tokenizer gives one, and it stops asking for an
/// embedding of its own where it has more tokens than the threshold.
pub open spec fn split_parent<C: Chunker>(
    chunker: &C,
    before: Document,
    after: Document,
    token_threshold: nat,
) -> bool {
    match chunker.tokens_in(before.content@) {
        None => after == before,
        Some(n) => after == Document {
            token_count: Some(stored_count(n)),
            vectorize: if n > token_threshold {
                false
            } else {
                before.vectorize
            },
            ..before
        },
    }
}

/// The texts that `split_document` makes chunks of: those of the chunker
/// where the document has more tokens than the threshold and the chunker
/// succeeds, none otherwise.
pub open spec fn split_texts<C: Chunker>(
    chunker: &C,
    content: Seq<char>,
    config: ChunkingConfig,
) -> Seq<Seq<char>> {
    match chunker.tokens_in(content) {
        None => Seq::<Seq<char>>::empty(),
        Some(n) => if n > config.token_threshold {
            match chunker.chunks_of(content, config.chunk_size as nat, config.chunk_overlap as nat) {
                Some(texts) => texts,
                None => Seq::<Seq<char>>::empty(),
            }
        } else {
            Seq::<Seq<char>>::empty()
        },
    }
}

/// Counts the tokens of `doc` and, where there are more than the threshold,
/// marks it as chunked and returns its chunks. A tokenizer failure leaves
/// the document as it is, or chunked without chunks.
pub fn split_document<C: Chunker>(chunker: &C, doc: &mut Document, config: &ChunkingConfig) -> (chunks:
    Vec<Document>)
    requires
        config.chunk_size >= 1,
    ensures
        split_parent(chunker, *old(doc), *final(doc), config.token_threshold as nat),
        are_chunks_of(
            chunker,
            chunks@,
            *final(doc),
            split_texts(chunker, old(doc).content@, *config),
        ),
        forall|i: int|
            0 <= i < chunks@.len() && i <= i32::MAX ==> (#[trigger] chunks@[i]).well_formed(),
{
    let token_count: usize = match chunker.count_tokens(doc.content.as_str()) {
        Ok(n) => n,
        Err(_) => {
            return Vec::new();
        },
    };
    doc.token_count = Some(token_count as i32);
    if token_count <= config.token_threshold {
        return Vec::new();
    }
    doc.vectorize = false;
    match chunker.chunk(doc.content.as_str(), config.chunk_size, config.chunk_overlap) {
        Ok(texts) => build_chunks(chunker, doc, &texts),
        Err(_) => Vec::new(),
    }
}

/// Chunks `doc` anew, whatever its length: one chunk document per chunk of
/// its content, or the chunker's error.
pub fn rechunk<C: Chunker>(chunker: &C, doc: &Document, config: &ChunkingConfig) -> (r: Result<
    Vec<Document>,
    CoreError,
>)
    requires
        config.chunk_size >= 1,
    ensures
        match r {
            Ok(chunks) => chunker.chunks_of(
                doc.content@,
                config.chunk_size as nat,
                config.chunk_overlap as nat,
            ) matches Some(texts) && are_chunks_of(chunker, chunks@, *doc, texts),
            Err(e) => chunker.chunks_of(
                doc.content@,
                config.chunk_size as nat,
                config.chunk_overlap as nat,
            ) is None && e.kind == crate::error::ErrorKind::ChunkerError,
        },
{
    match chunker.chunk(doc.content.as_str(), config.chunk_size, config.chunk_overlap) {
        Ok(texts) => Ok(build_chunks(chunker, doc, &texts)),
        Err(e) => Err(e),
    }
}

/// Attaches a computed embedding to a document.
pub fn attach_embedding(doc: &mut Document, vector: Vec<u32>)
    ensures
        *final(doc) == (Document { vector: Some(vector), is_embedded: true, ..*old(doc) }),
        old(doc).well_formed() ==> final(doc).well_formed(),
{
    doc.vector = Some(vector);
    doc.is_embedded = true;
}


/// Whether a configuration asks for the markdown strategy.
pub open spec fn wants_markdown(strategy: Seq<char>) -> bool {
    strategy == "markdown"@
}

/// `doc` was split by `chunker`.
pub open spec fn was_split<C: Chunker>(
    chunker: &C,
    before: Document,
    after: Document,
    chunks: Seq<Document>,
    config: ChunkingConfig,
) -> bool {
    &&& split_parent(chunker, before, after, config.token_threshold as nat)
    &&& are_chunks_of(chunker, chunks, after, split_texts(chunker, before.content@, config))
}

/// Whether a document is looked at for chunking: the feature is on,
/// chunking is enabled, the document asks for an embedding, and chunks have
/// a size.
pub open spec fn chunking_applies(feature: bool, config: ChunkingConfig, doc: Document) -> bool {
    feature && config.enabled && doc.vectorize && config.chunk_size >= 1
}

/// Splits a new document where the configuration calls for it, by the
/// markdown strategy where the configuration names it and by the fixed-token
/// strategy otherwise. Where chunking does not apply, or the tokenizer
/// cannot be had, the document stays as it is and has no chunks.
pub fn plan_chunks(doc: &mut Document, feature: bool, config: &ChunkingConfig) -> (chunks: Vec<
    Document,
>)
    ensures
        !chunking_applies(feature, *config, *old(doc)) ==> *final(doc) == *old(doc) && chunks@.len()
            == 0,
        chunking_applies(feature, *config, *old(doc)) ==> {
            ||| *final(doc) == *old(doc) && chunks@.len() == 0
            ||| wants_markdown(config.strategy@) && forall|c: MarkdownChunker|
                was_split(&c, *old(doc), *final(doc), chunks@, *config)
            ||| !wants_markdown(config.strategy@) && forall|c: FixedTokenChunker|
                was_split(&c, *old(doc), *final(doc), chunks@, *config)
        },
{
    if !(feature && config.enabled && doc.vectorize && config.chunk_size >= 1) {
        return Vec::new();
    }
    if config.strategy == "markdown".to_owned() {
        let loaded = MarkdownChunker::new();
        let ghost outcome = loaded;
        let chunks = split_with(loaded, doc, config);
        proof {
            if let Ok(chunker) = outcome {
                assert forall|c: MarkdownChunker|
                    was_split(&c, *old(doc), *doc, chunks@, *config) by {
                    assert(split_texts(&c, old(doc).content@, *config) == split_texts(
                        &chunker,
                        old(doc).content@,
                        *config,
                    ));
                }
            }
        }
        chunks
    } else {
        let loaded = FixedTokenChunker::new();
        let ghost outcome = loaded;
        let chunks = split_with(loaded, doc, config);
        proof {
            if let Ok(chunker) = outcome {
                assert forall|c: FixedTokenChunker|
                    was_split(&c, *old(doc), *doc, chunks@, *config) by {
                    assert(split_texts(&c, old(doc).content@, *config) == split_texts(
                        &chunker,
                        old(doc).content@,
                        *config,
                    ));
                }
            }
        }
        chunks
    }
}

/// Splits `doc` with the chunker that could be had: as `split_document`
/// does with that chunker, and not at all where there is none, in which
/// case the document stays as it is and has no chunks.
pub fn split_with<C: Chunker>(loaded: Result<C, CoreError>, doc: &mut Document, config: &ChunkingConfig) -> (chunks:
    Vec<Document>)
    requires
        config.chunk_size >= 1,
    ensures
        match loaded {
            Ok(chunker) => was_split(&chunker, *old(doc), *final(doc), chunks@, *config),
            Err(_) => *final(doc) == *old(doc) && chunks@.len() == 0,
        },
{
    match loaded {
        Ok(chunker) => split_document(&chunker, doc, config),
        Err(_) => Vec::new(),
    }
}

/// The position of the first `c` in `text`, or -1.
pub open spec fn first_of(text: Seq<char>, c: char) -> int
    decreases text.len(),
{
    if text.len() == 0 {
        -1
    } else if text[0] == c {
        0
    } else {
        let rest = first_of(text.drop_first(), c);
        if rest < 0 {
            -1
        } else {
            rest + 1
        }
    }
}

/// The feature that one part of a feature list names: nothing for a blank
/// part; name and value where the part holds `=`; the part as a name with
/// an empty value otherwise. White space around names and values is
/// dropped.
pub open spec fn feature_of(part: Seq<char>) -> Option<(Seq<char>, Seq<char>)> {
    let t = trimmed(part);
    if t.len() == 0 {
        None
    } else {
        let k = first_of(t, '=');
        if k >= 0 {
            Some((trimmed(t.subrange(0, k)), trimmed(t.subrange(k + 1, t.len() as int))))
        } else {
            Some((t, Seq::<char>::empty()))
        }
    }
}

/// The features of the first `n` parts, in order.
pub open spec fn features_in(parts: Seq<Seq<char>>, n: int) -> Seq<(Seq<char>, Seq<char>)>
    decreases n,
{
    if n <= 0 {
        Seq::<(Seq<char>, Seq<char>)>::empty()
    } else {
        match feature_of(parts[n - 1]) {
            Some(f) => features_in(parts, n - 1).push(f),
            None => features_in(parts, n - 1),
        }
    }
}

/// The features that a client names: the parts of the list between
/// semicolons.
pub open spec fn features_of(header: Seq<char>) -> Seq<(Seq<char>, Seq<char>)> {
    features_in(pieces(header, ';'), pieces(header, ';').len() as int)
}

/// Names and values as mathematical values.
pub open spec fn feature_views(v: Seq<(String, String)>) -> Seq<(Seq<char>, Seq<char>)> {
    v.map_values(|f: (String, String)| (f.0@, f.1@))
}

proof fn lemma_first_of(text: Seq<char>, c: char, k: int)
    requires
        0 <= k <= text.len(),
        forall|i: int| 0 <= i < k ==> text[i] != c,
        k < text.len() ==> text[k] == c,
    ensures
        first_of(text, c) == if k < text.len() {
            k
        } else {
            -1
        },
    decreases k,
{
    if k > 0 {
        let rest = text.drop_first();
        assert forall|i: int| 0 <= i < k - 1 implies rest[i] != c by {
            assert(rest[i] == text[i + 1]);
        }
        if k < text.len() {
            assert(rest[k - 1] == text[k]);
        }
        lemma_first_of(rest, c, k - 1);
    }
}

/// Reads a list of client features of the form `name=value; name; ...`.
pub fn parse_client_features(header: &str) -> (features: Vec<(String, String)>)
    ensures
        feature_views(features@) == features_of(header@),
{
    let chars = chars_of(header);
    let parts = split_on(&chars, ';');
    let ghost all = pieces(header@, ';');
    let mut features: Vec<(String, String)> = Vec::new();
    let mut n: usize = 0;
    proof {
        assert(feature_views(features@) =~= Seq::<(Seq<char>, Seq<char>)>::empty());
    }
    while n < parts.len()
        invariant
            n <= parts.len(),
            all == deep(parts@),
            feature_views(features@) == features_in(all, n as int),
        decreases parts.len() - n,
    {
        let part: &Vec<char> = &parts[n];
        let (a, b) = trim_range(part, 0, part.len());
        let ghost t = part@.subrange(a as int, b as int);
        proof {
            assert(all[n as int] == part@);
            assert(part@.subrange(0, part@.len() as int) =~= part@);
        }
        if b > a {
            let mut k: usize = a;
            while k < b && part[k] != '='
                invariant
                    a <= k <= b <= part.len(),
                    t == part@.subrange(a as int, b as int),
                    forall|i: int| 0 <= i < k - a ==> t[i] != '=',
                decreases b - k,
            {
                k = k + 1;
            }
            proof {
                lemma_first_of(t, '=', k - a);
            }
            let ghost before = feature_views(features@);
            if k < b {
                let (na, nb) = trim_range(part, a, k);
                let (va, vb) = trim_range(part, k + 1, b);
                let name = string_of_range(part, na, nb);
                let value = string_of_range(part, va, vb);
                proof {
                    assert(part@.subrange(a as int, k as int) =~= t.subrange(0, k - a));
                    assert(part@.subrange(k as int + 1, b as int) =~= t.subrange(
                        k - a + 1,
                        t.len() as int,
                    ));
                }
                features.push((name, value));
                proof {
                    assert(feature_views(features@) =~= before.push((name@, value@)));
                }
            } else {
                let name = string_of_range(part, a, b);
                features.push((name, String::new()));
                proof {
                    assert(feature_views(features@) =~= before.push((t, Seq::<char>::empty())));
                }
            }
        }
        n = n + 1;
    }
    features
}

/// The value that the features give for `name`: that of the last feature of
/// that name.
pub open spec fn feature_value(features: Seq<(Seq<char>, Seq<char>)>, name: Seq<char>) -> Option<
    Seq<char>,
>
    decreases features.len(),
{
    if features.len() == 0 {
        None
    } else if features.last().0 == name {
        Some(features.last().1)
    } else {
        feature_value(features.drop_last(), name)
    }
}

/// Whether a new document is embedded before the request is answered: the
/// embedding feature is on, an embedder is there, and the client did not
/// ask for `embed=async`.
pub open spec fn embeds_at_once(
    feature: bool,
    has_embedder: bool,
    features: Seq<(Seq<char>, Seq<char>)>,
) -> bool {
    feature && has_embedder && feature_value(features, "embed"@) != Some("async"@)
}

/// Decides `embeds_at_once`.
pub fn should_embed_sync(feature: bool, has_embedder: bool, features: &Vec<(String, String)>) -> (r:
    bool)
    ensures
        r == embeds_at_once(feature, has_embedder, feature_views(features@)),
{
    if !(feature && has_embedder) {
        return false;
    }
    let name = "embed".to_owned();
    let wanted = "async".to_owned();
    let ghost all = feature_views(features@);
    let mut n: usize = features.len();
    proof {
        assert(all.take(n as int) =~= all);
    }
    while n > 0
        invariant
            n <= features.len(),
            feature && has_embedder,
            all == feature_views(features@),
            name@ == "embed"@,
            wanted@ == "async"@,
            feature_value(all, "embed"@) == feature_value(all.take(n as int), "embed"@),
        decreases n,
    {
        n = n - 1;
        proof {
            assert(all.take(n as int + 1).drop_last() =~= all.take(n as int));
            assert(all.take(n as int + 1).last() == (features@[n as int].0@, features@[n as int].1@));
        }
        if features[n].0 == name {
            return !(features[n].1 == wanted);
        }
    }
    true
}

/// The chunks of a document are numbered in order from 0, each once, point
/// at their parent and ask for an embedding.
pub proof fn lemma_chunks_numbered<C: Chunker>(
    chunker: &C,
    chunks: Seq<Document>,
    parent: Document,
    texts: Seq<Seq<char>>,
)
    requires
        are_chunks_of(chunker, chunks, parent, texts),
        chunks.len() <= i32::MAX,
    ensures
        chunks.len() == texts.len(),
        forall|i: int|
            0 <= i < chunks.len() ==> {
                &&& (#[trigger] chunks[i]).chunk_index == Some(i as i32)
                &&& chunks[i].chunk_index->0 == i
                &&& chunks[i].is_chunk
                &&& chunks[i].vectorize
                &&& opt_view(chunks[i].parent_id) == Some(parent.id@)
                &&& chunks[i].content@ == texts[i]
            },
        forall|i: int, j: int|
            0 <= i < j < chunks.len() ==> (#[trigger] chunks[i]).chunk_index != (
            #[trigger] chunks[j]).chunk_index,
{
    assert forall|i: int| 0 <= i < chunks.len() implies {
        &&& (#[trigger] chunks[i]).chunk_index == Some(i as i32)
        &&& chunks[i].chunk_index->0 == i
        &&& chunks[i].is_chunk
        &&& chunks[i].vectorize
        &&& opt_view(chunks[i].parent_id) == Some(parent.id@)
        &&& chunks[i].content@ == texts[i]
    } by {
        assert(is_chunk_of(chunks[i], parent, i, texts[i], chunker.tokens_in(texts[i])));
        let u = i as usize;
        assert((u as i32) == u as int) by (bit_vector)
            requires
                u <= 0x7fff_ffff,
        ;
    }
}

} // verus!
