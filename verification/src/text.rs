//! Text as sequences of characters: conversions between strings and character
//! vectors, copying, and whitespace trimming.

use vstd::prelude::*;

verus! {

/// Appends one character with `String::push`; the string's characters
/// afterwards are the old ones followed by `c`.
#[verifier::external_body]
fn push_char(s: &mut String, c: char)
    ensures
        final(s)@ == old(s)@.push(c),
{
    s.push(c)
}

/// The characters of `s`, in order.
pub fn chars_of(s: &str) -> (v: Vec<char>)
    ensures
        v@ == s@,
{
    let mut v: Vec<char> = Vec::new();
    for c in it: s.chars()
        invariant
            v@ == it.seq().take(it.index() as int),
            it.seq() == s@,
    {
        v.push(c);
    }
    v
}

/// The string made of `chars[from..to]`.
pub fn string_of_range(chars: &Vec<char>, from: usize, to: usize) -> (s: String)
    requires
        from <= to <= chars.len(),
    ensures
        s@ == chars@.subrange(from as int, to as int),
{
    let mut s = String::new();
    let mut i: usize = from;
    while i < to
        invariant
            from <= i <= to <= chars.len(),
            s@ == chars@.subrange(from as int, i as int),
        decreases to - i,
    {
        push_char(&mut s, chars[i]);
        proof {
            assert(chars@.subrange(from as int, i as int + 1) =~= chars@.subrange(
                from as int,
                i as int,
            ).push(chars@[i as int]));
        }
        i = i + 1;
    }
    s
}

/// The string made of all of `chars`.
pub fn string_of(chars: &Vec<char>) -> (s: String)
    ensures
        s@ == chars@,
{
    let s = string_of_range(chars, 0, chars.len());
    proof {
        assert(chars@.subrange(0, chars@.len() as int) =~= chars@);
    }
    s
}

/// A copy of each string, in order.
pub fn clone_strings(items: &Vec<String>) -> (copy: Vec<String>)
    ensures
        copy@ == items@,
{
    let mut copy: Vec<String> = Vec::new();
    let mut i: usize = 0;
    while i < items.len()
        invariant
            i <= items.len(),
            copy@ == items@.take(i as int),
        decreases items.len() - i,
    {
        copy.push(items[i].clone());
        proof {
            assert(items@.take(i as int + 1) =~= items@.take(i as int).push(items@[i as int]));
        }
        i = i + 1;
    }
    proof {
        assert(items@.take(items@.len() as int) =~= items@);
    }
    copy
}

/// A copy of an optional string.
pub fn clone_opt_string(item: &Option<String>) -> (copy: Option<String>)
    ensures
        copy == *item,
{
    match item {
        Some(s) => Some(s.clone()),
        None => None,
    }
}

/// The view of each string of a sequence.
pub open spec fn views(items: Seq<String>) -> Seq<Seq<char>> {
    items.map_values(|s: String| s@)
}

/// Whether `c` has the Unicode property White_Space.
pub open spec fn is_space(c: char) -> bool {
    let u = c as u32;
    ||| 0x09 <= u <= 0x0d
    ||| u == 0x20
    ||| u == 0x85
    ||| u == 0xa0
    ||| u == 0x1680
    ||| 0x2000 <= u <= 0x200a
    ||| u == 0x2028
    ||| u == 0x2029
    ||| u == 0x202f
    ||| u == 0x205f
    ||| u == 0x3000
}

/// Decides `is_space`.
pub fn is_whitespace(c: char) -> (r: bool)
    ensures
        r == is_space(c),
{
    let u: u32 = c as u32;
    (0x09 <= u && u <= 0x0d) || u == 0x20 || u == 0x85 || u == 0xa0 || u == 0x1680 || (0x2000 <= u
        && u <= 0x200a) || u == 0x2028 || u == 0x2029 || u == 0x202f || u == 0x205f || u == 0x3000
}

/// The number of leading white-space characters of `s`.
pub open spec fn leading_spaces(s: Seq<char>) -> nat
    decreases s.len(),
{
    if s.len() > 0 && is_space(s[0]) {
        1 + leading_spaces(s.drop_first())
    } else {
        0
    }
}

/// The number of trailing white-space characters of `s`.
pub open spec fn trailing_spaces(s: Seq<char>) -> nat
    decreases s.len(),
{
    if s.len() > 0 && is_space(s.last()) {
        1 + trailing_spaces(s.drop_last())
    } else {
        0
    }
}

/// `s` without its leading and trailing white space.
pub open spec fn trimmed(s: Seq<char>) -> Seq<char> {
    let a = leading_spaces(s);
    if a == s.len() {
        Seq::<char>::empty()
    } else {
        s.subrange(a as int, s.len() - trailing_spaces(s))
    }
}

/// A prefix of white space of length `n` followed by a character that is none
/// fixes the number of leading spaces.
proof fn lemma_leading_is(s: Seq<char>, n: nat)
    requires
        n <= s.len(),
        forall|i: int| 0 <= i < n ==> is_space(#[trigger] s[i]),
        n < s.len() ==> !is_space(s[n as int]),
    ensures
        leading_spaces(s) == n,
    decreases n,
{
    if n > 0 {
        let t = s.drop_first();
        assert(is_space(s[0]));
        assert forall|i: int| 0 <= i < n - 1 implies is_space(#[trigger] t[i]) by {
            assert(t[i] == s[i + 1]);
        }
        lemma_leading_is(t, (n - 1) as nat);
    }
}

proof fn lemma_trailing_is(s: Seq<char>, n: nat)
    requires
        n <= s.len(),
        forall|i: int| s.len() - n <= i < s.len() ==> is_space(#[trigger] s[i]),
        n < s.len() ==> !is_space(s[s.len() - n - 1]),
    ensures
        trailing_spaces(s) == n,
    decreases n,
{
    if n > 0 {
        let t = s.drop_last();
        assert(is_space(s[s.len() - 1]));
        assert forall|i: int| t.len() - (n - 1) <= i < t.len() implies is_space(#[trigger] t[i]) by {
            assert(t[i] == s[i]);
        }
        lemma_trailing_is(t, (n - 1) as nat);
    }
}

/// The bounds of `chars[from..to]` without its leading and trailing white
/// space: `trimmed` of that range is `chars[a..b]`.
pub fn trim_range(chars: &Vec<char>, from: usize, to: usize) -> (bounds: (usize, usize))
    requires
        from <= to <= chars.len(),
    ensures
        from <= bounds.0 <= bounds.1 <= to,
        chars@.subrange(bounds.0 as int, bounds.1 as int) == trimmed(
            chars@.subrange(from as int, to as int),
        ),
{
    let ghost s = chars@.subrange(from as int, to as int);
    let mut a: usize = from;
    while a < to && is_whitespace(chars[a])
        invariant
            from <= a <= to <= chars.len(),
            s == chars@.subrange(from as int, to as int),
            forall|i: int| 0 <= i < a - from ==> is_space(#[trigger] s[i]),
        decreases to - a,
    {
        a = a + 1;
    }
    proof {
        lemma_leading_is(s, (a - from) as nat);
    }
    if a == to {
        proof {
            assert(chars@.subrange(a as int, a as int) =~= Seq::<char>::empty());
        }
        return (a, a);
    }
    let mut b: usize = to;
    while b > a && is_whitespace(chars[b - 1])
        invariant
            from <= a < to <= chars.len(),
            a <= b <= to,
            s == chars@.subrange(from as int, to as int),
            !is_space(s[a - from]),
            forall|i: int| b - from <= i < s.len() ==> is_space(#[trigger] s[i]),
        decreases b,
    {
        b = b - 1;
    }
    proof {
        assert(b > a);
        lemma_trailing_is(s, (to - b) as nat);
        assert(chars@.subrange(a as int, b as int) =~= s.subrange(
            a - from,
            s.len() - (to - b),
        ));
    }
    (a, b)
}

/// A copy of `s` without leading and trailing white space.
pub fn trim_string(s: &str) -> (t: String)
    ensures
        t@ == trimmed(s@),
{
    let chars = chars_of(s);
    let (a, b) = trim_range(&chars, 0, chars.len());
    proof {
        assert(chars@.subrange(0, chars@.len() as int) =~= chars@);
    }
    string_of_range(&chars, a, b)
}

/// The position of `id` in `ids`, or -1.
pub open spec fn position(ids: Seq<Seq<char>>, id: Seq<char>) -> int
    decreases ids.len(),
{
    if ids.len() == 0 {
        -1
    } else {
        let before = position(ids.drop_last(), id);
        if before >= 0 {
            before
        } else if ids.last() == id {
            ids.len() - 1
        } else {
            -1
        }
    }
}

/// Facts about `position`: a found position is in range and holds the id;
/// an id that is not found does not occur.
pub proof fn lemma_position(ids: Seq<Seq<char>>, id: Seq<char>)
    ensures
        -1 <= position(ids, id) < ids.len(),
        position(ids, id) >= 0 ==> ids[position(ids, id)] == id,
        position(ids, id) < 0 ==> forall|i: int| 0 <= i < ids.len() ==> ids[i] != id,
        forall|i: int| 0 <= i < position(ids, id) ==> ids[i] != id,
    decreases ids.len(),
{
    if ids.len() > 0 {
        lemma_position(ids.drop_last(), id);
        assert forall|i: int| 0 <= i < ids.len() - 1 implies ids[i] == ids.drop_last()[i] by {}
    }
}

/// A position that was found stays when ids are added behind.
pub proof fn lemma_position_grows(ids: Seq<Seq<char>>, more: Seq<Seq<char>>, id: Seq<char>)
    requires
        position(ids, id) >= 0,
    ensures
        position(ids + more, id) == position(ids, id),
    decreases more.len(),
{
    if more.len() == 0 {
        assert(ids + more =~= ids);
    } else {
        lemma_position_grows(ids, more.drop_last(), id);
        assert((ids + more).drop_last() =~= ids + more.drop_last());
    }
}

/// No id occurs twice.
pub open spec fn distinct(ids: Seq<Seq<char>>) -> bool {
    forall|i: int, j: int| 0 <= i < j < ids.len() ==> ids[i] != ids[j]
}

/// In a list without repetition every id stands at its position.
pub proof fn lemma_position_of_member(ids: Seq<Seq<char>>, i: int)
    requires
        distinct(ids),
        0 <= i < ids.len(),
    ensures
        position(ids, ids[i]) == i,
{
    lemma_position(ids, ids[i]);
}

/// The position of `id` in `ids`.
pub fn find_id(ids: &Vec<String>, id: &String) -> (r: Option<usize>)
    ensures
        match r {
            Some(i) => i == position(views(ids@), id@) && i < ids@.len(),
            None => position(views(ids@), id@) == -1,
        },
{
    let mut i: usize = 0;
    while i < ids.len()
        invariant
            i <= ids.len(),
            position(views(ids@).take(i as int), id@) == -1,
        decreases ids.len() - i,
    {
        proof {
            assert(views(ids@).take(i as int + 1).drop_last() =~= views(ids@).take(i as int));
        }
        if ids[i] == *id {
            proof {
                let all = views(ids@);
                assert(all =~= all.take(i as int + 1) + all.skip(i as int + 1));
                lemma_position_grows(all.take(i as int + 1), all.skip(i as int + 1), id@);
            }
            return Some(i);
        }
        i = i + 1;
    }
    proof {
        assert(views(ids@).take(i as int) =~= views(ids@));
    }
    None
}


/// The text `","` is a single comma.
pub proof fn reveal_comma()
    ensures
        ","@ == seq![','],
{
    reveal_strlit(",");
    assert(","@ =~= seq![',']);
}

/// The pieces of `text` between the occurrences of `sep`; a text without
/// `sep` is one piece.
pub open spec fn pieces(text: Seq<char>, sep: char) -> Seq<Seq<char>>
    decreases text.len(),
{
    if text.len() == 0 {
        seq![Seq::<char>::empty()]
    } else {
        let before = pieces(text.drop_last(), sep);
        if text.last() == sep {
            before.push(Seq::<char>::empty())
        } else {
            before.drop_last().push(before.last().push(text.last()))
        }
    }
}

pub proof fn lemma_pieces_nonempty(text: Seq<char>, sep: char)
    ensures
        pieces(text, sep).len() >= 1,
    decreases text.len(),
{
    if text.len() > 0 {
        lemma_pieces_nonempty(text.drop_last(), sep);
    }
}

/// The characters of each vector.
pub open spec fn deep(items: Seq<Vec<char>>) -> Seq<Seq<char>> {
    items.map_values(|v: Vec<char>| v@)
}

/// Splits `chars` at every `sep`.
pub fn split_on(chars: &Vec<char>, sep: char) -> (parts: Vec<Vec<char>>)
    ensures
        deep(parts@) == pieces(chars@, sep),
        parts@.len() >= 1,
{
    let mut parts: Vec<Vec<char>> = Vec::new();
    let mut current: Vec<char> = Vec::new();
    let mut i: usize = 0;
    proof {
        assert(chars@.take(0) =~= Seq::<char>::empty());
        assert(deep(parts@).push(current@) =~= seq![Seq::<char>::empty()]);
    }
    while i < chars.len()
        invariant
            i <= chars.len(),
            pieces(chars@.take(i as int), sep) == deep(parts@).push(current@),
        decreases chars.len() - i,
    {
        let c: char = chars[i];
        proof {
            assert(chars@.take(i as int + 1).drop_last() =~= chars@.take(i as int));
            assert(chars@.take(i as int + 1).last() == c);
        }
        let ghost done = deep(parts@);
        let ghost piece = current@;
        if c == sep {
            let mut next: Vec<char> = Vec::new();
            core::mem::swap(&mut next, &mut current);
            parts.push(next);
            proof {
                assert(deep(parts@) =~= done.push(piece));
                assert(current@ =~= Seq::<char>::empty());
            }
        } else {
            current.push(c);
            proof {
                assert(done.push(piece).drop_last() =~= done);
            }
        }
        i = i + 1;
    }
    let ghost done = deep(parts@);
    let ghost piece = current@;
    parts.push(current);
    proof {
        assert(chars@.take(i as int) =~= chars@);
        assert(deep(parts@) =~= done.push(piece));
    }
    parts
}

} // verus!
