//! Splitting text into ordered chunks under a token budget.
//!
//! The fixed-token strategy slides a window over the tokens of the text. The
//! character-proxy strategy needs no tokenizer and counts four bytes a token.

use vstd::prelude::*;
use vstd::slice::slice_subrange;
use crate::error::{CoreError, ErrorKind};
use vstd::string::StringExecFns;
use crate::text::{chars_of, deep, pieces, split_on, string_of_range, trim_range, trim_string, trimmed, views};

verus! {

/// The byte-pair encoder of `tiktoken_rs`, carried as it is.
#[verifier::external_type_specification]
#[verifier::external_body]
pub struct ExCoreBPE(tiktoken_rs::CoreBPE);

/// The tokens that the `cl100k_base` vocabulary of `tiktoken_rs` gives for a
/// text when special tokens are allowed, or `None` where its `encode` fails.
pub uninterp spec fn cl100k_encoding(text: Seq<char>) -> Option<Seq<u32>>;

/// The text that the `cl100k_base` vocabulary of `tiktoken_rs` decodes the
/// tokens to, or `None` where a token is unknown or the bytes are no UTF-8.
pub uninterp spec fn cl100k_decoding(tokens: Seq<u32>) -> Option<Seq<char>>;

/// The `cl100k_base` byte-pair tokenizer.
pub struct Cl100k {
    bpe: tiktoken_rs::CoreBPE,
}

/// The tokens of an optional token vector.
pub open spec fn opt_tokens(v: Option<Vec<u32>>) -> Option<Seq<u32>> {
    match v {
        Some(t) => Some(t@),
        None => None,
    }
}

/// The characters of an optional string.
pub open spec fn opt_text(s: Option<String>) -> Option<Seq<char>> {
    match s {
        Some(t) => Some(t@),
        None => None,
    }
}

impl Cl100k {
    /// Builds the tokenizer with `tiktoken_rs::cl100k_base`. Nothing is
    /// claimed about whether the vocabulary loads.
    #[verifier::external_body]
    fn load() -> (r: Option<Cl100k>) {
        match tiktoken_rs::cl100k_base() {
            Ok(bpe) => Some(Cl100k { bpe }),
            Err(_) => None,
        }
    }

    /// Tokenizes with `CoreBPE::encode`, allowing every special token of the
    /// vocabulary (`CoreBPE::special_tokens`). The result is the one named
    /// `cl100k_encoding`.
    #[verifier::external_body]
    fn encode(&self, text: &str) -> (r: Option<Vec<u32>>)
        ensures
            opt_tokens(r) == cl100k_encoding(text@),
    {
        match self.bpe.encode(text, &self.bpe.special_tokens()) {
            Ok((tokens, _)) => Some(tokens),
            Err(_) => None,
        }
    }

    /// Decodes with `CoreBPE::decode`. The result is the one named
    /// `cl100k_decoding`.
    #[verifier::external_body]
    fn decode(&self, tokens: &[u32]) -> (r: Option<String>)
        ensures
            opt_text(r) == cl100k_decoding(tokens@),
    {
        match self.bpe.decode(tokens) {
            Ok(text) => Some(text),
            Err(_) => None,
        }
    }
}

/// A chunking strategy.
pub trait Chunker {
    /// The chunks of `text`, in order, or `None` where the tokenizer fails.
    spec fn chunks_of(&self, text: Seq<char>, chunk_size: nat, overlap: nat) -> Option<
        Seq<Seq<char>>,
    >;

    /// The number of tokens of `text`, or `None` where the tokenizer fails.
    spec fn tokens_in(&self, text: Seq<char>) -> Option<nat>;

    /// Splits `text` into chunks of at most `chunk_size` tokens.
    fn chunk(&self, text: &str, chunk_size: usize, overlap: usize) -> (r: Result<
        Vec<String>,
        CoreError,
    >)
        requires
            chunk_size >= 1,
        ensures
            chunk_outcome(r, self.chunks_of(text@, chunk_size as nat, overlap as nat)),
    ;

    /// Counts the tokens of `text`.
    fn count_tokens(&self, text: &str) -> (r: Result<usize, CoreError>)
        ensures
            count_outcome(r, self.tokens_in(text@)),
    ;
}

/// `r` reports `expected`: the chunks where there are any, a chunker error
/// where there are none.
pub open spec fn chunk_outcome(
    r: Result<Vec<String>, CoreError>,
    expected: Option<Seq<Seq<char>>>,
) -> bool {
    match r {
        Ok(chunks) => expected == Some(views(chunks@)),
        Err(e) => expected is None && e.kind == ErrorKind::ChunkerError,
    }
}

/// `r` reports `expected`: the count where there is one, a chunker error where
/// there is none.
pub open spec fn count_outcome(r: Result<usize, CoreError>, expected: Option<nat>) -> bool {
    match r {
        Ok(n) => expected == Some(n as nat),
        Err(e) => expected is None && e.kind == ErrorKind::ChunkerError,
    }
}

/// The distance between the starts of adjacent windows: the window size less
/// the overlap, which counts for at most one token less than the size.
pub open spec fn window_step(chunk_size: int, overlap: int) -> int {
    chunk_size - (if overlap < chunk_size - 1 {
        overlap
    } else {
        chunk_size - 1
    })
}

/// The windows over `n` tokens from `start` on: each holds `chunk_size`
/// tokens and begins `step` after the one before; the last ends at `n`.
pub open spec fn windows_from(start: int, n: int, chunk_size: int, step: int) -> Seq<(int, int)>
    decreases n - start,
{
    if step <= 0 || chunk_size < step || n - start <= chunk_size {
        seq![(start, n)]
    } else {
        seq![(start, start + chunk_size)] + windows_from(start + step, n, chunk_size, step)
    }
}

/// The token windows of a text of `n` tokens.
pub open spec fn window_bounds(n: int, chunk_size: int, overlap: int) -> Seq<(int, int)> {
    windows_from(0, n, chunk_size, window_step(chunk_size, overlap))
}

/// The bounds of a vector of windows as integers.
pub open spec fn bounds_of(windows: Seq<(usize, usize)>) -> Seq<(int, int)> {
    windows.map_values(|w: (usize, usize)| (w.0 as int, w.1 as int))
}

/// Every window from `start` on holds at least one and at most `chunk_size`
/// tokens and lies within the text; the first begins at `start`, the last
/// ends at `n`; each next one begins `step` after its predecessor and no
/// later than where that one ends.
pub proof fn lemma_windows_from(start: int, n: int, chunk_size: int, step: int)
    requires
        0 <= start < n,
        1 <= step <= chunk_size,
    ensures
        ({
            let w = windows_from(start, n, chunk_size, step);
            &&& w.len() >= 1
            &&& w[0].0 == start
            &&& w.last().1 == n
            &&& forall|i: int|
                0 <= i < w.len() ==> start <= (#[trigger] w[i]).0 < w[i].1 <= n && w[i].1 - w[i].0
                    <= chunk_size
            &&& forall|i: int|
                0 <= i < w.len() - 1 ==> (#[trigger] w[i + 1]).0 == w[i].0 + step && w[i + 1].0
                    <= w[i].1 && w[i].1 - w[i].0 == chunk_size
        }),
    decreases n - start,
{
    let w = windows_from(start, n, chunk_size, step);
    if n - start > chunk_size {
        let rest = windows_from(start + step, n, chunk_size, step);
        lemma_windows_from(start + step, n, chunk_size, step);
        assert(w =~= seq![(start, start + chunk_size)] + rest);
        assert forall|i: int| 0 <= i < w.len() implies start <= (#[trigger] w[i]).0 < w[i].1 <= n
            && w[i].1 - w[i].0 <= chunk_size by {
            if i > 0 {
                assert(w[i] == rest[i - 1]);
            }
        }
        assert forall|i: int| 0 <= i < w.len() - 1 implies (#[trigger] w[i + 1]).0 == w[i].0 + step
            && w[i + 1].0 <= w[i].1 && w[i].1 - w[i].0 == chunk_size by {
            if i > 0 {
                assert(w[i] == rest[i - 1]);
                assert(w[i + 1] == rest[i - 1 + 1]);
            } else {
                assert(w[1] == rest[0]);
            }
        }
        assert(w.last() == rest.last());
    }
}

/// The token budget of the fixed-token strategy: every window of a text of
/// `n` tokens holds between one and `chunk_size` tokens; the windows start at
/// the first token and end at the last; adjacent windows leave no gap, and
/// share exactly the effective overlap.
pub proof fn lemma_window_budget(n: int, chunk_size: int, overlap: int)
    requires
        n >= 1,
        chunk_size >= 1,
        overlap >= 0,
    ensures
        ({
            let w = window_bounds(n, chunk_size, overlap);
            let shared = chunk_size - window_step(chunk_size, overlap);
            &&& w.len() >= 1
            &&& w[0].0 == 0
            &&& w.last().1 == n
            &&& forall|i: int|
                0 <= i < w.len() ==> 0 <= (#[trigger] w[i]).0 < w[i].1 <= n && w[i].1 - w[i].0
                    <= chunk_size
            &&& forall|i: int|
                0 <= i < w.len() - 1 ==> (#[trigger] w[i + 1]).0 == w[i].1 - shared
            &&& 0 <= shared < chunk_size
            &&& shared <= overlap
        }),
{
    let step = window_step(chunk_size, overlap);
    lemma_windows_from(0, n, chunk_size, step);
}

/// Computes the token windows of a text of `n` tokens.
pub fn token_windows(n: usize, chunk_size: usize, overlap: usize) -> (windows: Vec<(usize, usize)>)
    requires
        chunk_size >= 1,
    ensures
        bounds_of(windows@) == window_bounds(n as int, chunk_size as int, overlap as int),
{
    let shared: usize = if overlap < chunk_size - 1 {
        overlap
    } else {
        chunk_size - 1
    };
    let step: usize = chunk_size - shared;
    let mut windows: Vec<(usize, usize)> = Vec::new();
    let mut start: usize = 0;
    while n - start > chunk_size
        invariant
            start <= n,
            1 <= step <= chunk_size,
            step == window_step(chunk_size as int, overlap as int),
            bounds_of(windows@) + windows_from(start as int, n as int, chunk_size as int, step as int)
                == window_bounds(n as int, chunk_size as int, overlap as int),
        decreases n - start,
    {
        let ghost before = bounds_of(windows@);
        windows.push((start, start + chunk_size));
        proof {
            let rest = windows_from(start + step, n as int, chunk_size as int, step as int);
            assert(bounds_of(windows@) =~= before.push((start as int, start + chunk_size)));
            assert(before.push((start as int, start + chunk_size)) + rest =~= before + (seq![
                (start as int, start + chunk_size),
            ] + rest));
        }
        start = start + step;
    }
    let ghost before = bounds_of(windows@);
    windows.push((start, n));
    proof {
        assert(bounds_of(windows@) =~= before + seq![(start as int, n as int)]);
    }
    windows
}

/// The texts of the windows `bounds` over `tokens`, or `None` where one of
/// them does not decode.
pub open spec fn decode_all(tokens: Seq<u32>, bounds: Seq<(int, int)>) -> Option<Seq<Seq<char>>>
    decreases bounds.len(),
{
    if bounds.len() == 0 {
        Some(Seq::<Seq<char>>::empty())
    } else {
        match (
            decode_all(tokens, bounds.drop_last()),
            cl100k_decoding(tokens.subrange(bounds.last().0, bounds.last().1)),
        ) {
            (Some(done), Some(text)) => Some(done.push(text)),
            _ => None,
        }
    }
}

/// Where a prefix of the windows does not decode, neither does the whole.
proof fn lemma_decode_prefix_fails(tokens: Seq<u32>, bounds: Seq<(int, int)>, k: int)
    requires
        0 <= k <= bounds.len(),
        decode_all(tokens, bounds.take(k)) is None,
    ensures
        decode_all(tokens, bounds) is None,
    decreases bounds.len(),
{
    if k < bounds.len() {
        assert(bounds.drop_last().take(k) =~= bounds.take(k));
        lemma_decode_prefix_fails(tokens, bounds.drop_last(), k);
    } else {
        assert(bounds.take(k) =~= bounds);
    }
}

/// Where all windows decode, there is one text for each window, and it is
/// the decoding of the tokens of that window.
pub proof fn lemma_decode_all(tokens: Seq<u32>, bounds: Seq<(int, int)>)
    requires
        decode_all(tokens, bounds) is Some,
    ensures
        decode_all(tokens, bounds)->0.len() == bounds.len(),
        forall|i: int|
            0 <= i < bounds.len() ==> cl100k_decoding(
                tokens.subrange((#[trigger] bounds[i]).0, bounds[i].1),
            ) == Some(decode_all(tokens, bounds)->0[i]),
    decreases bounds.len(),
{
    if bounds.len() > 0 {
        let init = bounds.drop_last();
        lemma_decode_all(tokens, init);
        let texts = decode_all(tokens, bounds)->0;
        let before = decode_all(tokens, init)->0;
        assert forall|i: int| 0 <= i < bounds.len() implies cl100k_decoding(
            tokens.subrange((#[trigger] bounds[i]).0, bounds[i].1),
        ) == Some(texts[i]) by {
            if i < init.len() {
                assert(bounds[i] == init[i]);
                assert(texts[i] == before[i]);
            }
        }
    }
}

/// What the fixed-token strategy returns for `text`.
pub open spec fn fixed_chunks(text: Seq<char>, chunk_size: nat, overlap: nat) -> Option<
    Seq<Seq<char>>,
> {
    if text.len() == 0 {
        Some(Seq::<Seq<char>>::empty())
    } else {
        match cl100k_encoding(text) {
            None => None,
            Some(tokens) => if tokens.len() <= chunk_size {
                Some(seq![text])
            } else {
                decode_all(tokens, window_bounds(tokens.len() as int, chunk_size as int, overlap as int))
            },
        }
    }
}

/// The chunks of a text of more than `chunk_size` tokens are the decoded
/// token windows: as many chunks as windows, each the text of a window of
/// at most `chunk_size` tokens, the windows covering all tokens in order.
pub proof fn lemma_fixed_chunks_are_windows(text: Seq<char>, chunk_size: nat, overlap: nat)
    requires
        chunk_size >= 1,
        text.len() > 0,
        cl100k_encoding(text) matches Some(tokens) && tokens.len() > chunk_size,
        fixed_chunks(text, chunk_size, overlap) is Some,
    ensures
        ({
            let tokens = cl100k_encoding(text)->0;
            let chunks = fixed_chunks(text, chunk_size, overlap)->0;
            let w = window_bounds(tokens.len() as int, chunk_size as int, overlap as int);
            &&& chunks.len() == w.len()
            &&& w[0].0 == 0
            &&& w.last().1 == tokens.len()
            &&& forall|i: int|
                0 <= i < w.len() ==> {
                    &&& 0 <= (#[trigger] w[i]).0 < w[i].1 <= tokens.len()
                    &&& w[i].1 - w[i].0 <= chunk_size
                    &&& cl100k_decoding(tokens.subrange(w[i].0, w[i].1)) == Some(chunks[i])
                }
            &&& forall|i: int| 0 <= i < w.len() - 1 ==> w[i].0 < (#[trigger] w[i + 1]).0 <= w[i].1
        }),
{
    let tokens = cl100k_encoding(text)->0;
    let w = window_bounds(tokens.len() as int, chunk_size as int, overlap as int);
    lemma_window_budget(tokens.len() as int, chunk_size as int, overlap as int);
    lemma_decode_all(tokens, w);
    lemma_windows_from(
        0,
        tokens.len() as int,
        chunk_size as int,
        window_step(chunk_size as int, overlap as int),
    );
}

/// The number of `cl100k_base` tokens of `text`.
pub open spec fn fixed_token_count(text: Seq<char>) -> Option<nat> {
    match cl100k_encoding(text) {
        Some(tokens) => Some(tokens.len()),
        None => None,
    }
}

/// Chunker over `cl100k_base` tokens with a sliding window.
pub struct FixedTokenChunker {
    bpe: Cl100k,
}

impl FixedTokenChunker {
    /// Loads the tokenizer; a chunker error where it cannot be initialised.
    pub fn new() -> (r: Result<FixedTokenChunker, CoreError>)
        ensures
            r matches Err(e) ==> e.kind == ErrorKind::ChunkerError,
    {
        // Whether the vocabulary loads is the tokenizer's to decide; what
        // comes of either outcome is `with_tokenizer`'s to say.
        let loaded = Cl100k::load();
        Self::with_tokenizer(loaded)
    }

    /// Decodes each window of `windows` over `tokens`.
    pub fn decode_windows(&self, tokens: &Vec<u32>, windows: &Vec<(usize, usize)>) -> (r: Result<
        Vec<String>,
        CoreError,
    >)
        requires
            forall|i: int|
                0 <= i < windows@.len() ==> (#[trigger] windows@[i]).0 <= windows@[i].1
                    <= tokens@.len(),
        ensures
            chunk_outcome(r, decode_all(tokens@, bounds_of(windows@))),
    {
        let ghost bounds = bounds_of(windows@);
        let mut chunks: Vec<String> = Vec::new();
        let mut i: usize = 0;
        while i < windows.len()
            invariant
                i <= windows.len(),
                bounds == bounds_of(windows@),
                forall|k: int|
                    0 <= k < windows@.len() ==> (#[trigger] windows@[k]).0 <= windows@[k].1
                        <= tokens@.len(),
                decode_all(tokens@, bounds.take(i as int)) == Some(views(chunks@)),
            decreases windows.len() - i,
        {
            let (from, to) = windows[i];
            let piece = slice_subrange(tokens.as_slice(), from, to);
            proof {
                assert(bounds.take(i as int + 1).drop_last() =~= bounds.take(i as int));
                assert(bounds.take(i as int + 1).last() == (from as int, to as int));
            }
            match self.bpe.decode(piece) {
                Some(text) => {
                    let ghost before = views(chunks@);
                    chunks.push(text);
                    proof {
                        assert(views(chunks@) =~= before.push(text@));
                    }
                },
                None => {
                    proof {
                        lemma_decode_prefix_fails(tokens@, bounds, i as int + 1);
                    }
                    return Err(
                        CoreError::with_message(ErrorKind::ChunkerError, "tokens do not decode"),
                    );
                },
            }
            i = i + 1;
        }
        proof {
            assert(bounds.take(i as int) =~= bounds);
        }
        Ok(chunks)
    }
}

impl Chunker for FixedTokenChunker {
    open spec fn chunks_of(&self, text: Seq<char>, chunk_size: nat, overlap: nat) -> Option<
        Seq<Seq<char>>,
    > {
        fixed_chunks(text, chunk_size, overlap)
    }

    open spec fn tokens_in(&self, text: Seq<char>) -> Option<nat> {
        fixed_token_count(text)
    }

    fn chunk(&self, text: &str, chunk_size: usize, overlap: usize) -> (r: Result<
        Vec<String>,
        CoreError,
    >) {
        if text.is_empty() {
            let none: Vec<String> = Vec::new();
            proof {
                assert(views(none@) =~= Seq::<Seq<char>>::empty());
            }
            return Ok(none);
        }
        let tokens = match self.bpe.encode(text) {
            Some(tokens) => tokens,
            None => {
                return Err(CoreError::with_message(ErrorKind::ChunkerError, "text does not encode"));
            },
        };
        if tokens.len() <= chunk_size {
            let mut whole: Vec<String> = Vec::new();
            whole.push(text.to_owned());
            proof {
                assert(views(whole@) =~= seq![text@]);
            }
            return Ok(whole);
        }
        let windows = token_windows(tokens.len(), chunk_size, overlap);
        proof {
            lemma_window_budget(tokens.len() as int, chunk_size as int, overlap as int);
            let w = window_bounds(tokens.len() as int, chunk_size as int, overlap as int);
            assert forall|i: int| 0 <= i < windows@.len() implies (#[trigger] windows@[i]).0
                <= windows@[i].1 <= tokens@.len() by {
                assert(bounds_of(windows@)[i] == w[i]);
            }
        }
        self.decode_windows(&tokens, &windows)
    }

    fn count_tokens(&self, text: &str) -> (r: Result<usize, CoreError>) {
        match self.bpe.encode(text) {
            Some(tokens) => Ok(tokens.len()),
            None => Err(CoreError::with_message(ErrorKind::ChunkerError, "text does not encode")),
        }
    }
}

/// The pieces of `text` of `window` characters each; the last may be shorter.
pub open spec fn char_windows(text: Seq<char>, window: int) -> Seq<Seq<char>>
    decreases text.len(),
{
    if text.len() == 0 {
        Seq::<Seq<char>>::empty()
    } else if window <= 0 || text.len() <= window {
        seq![text]
    } else {
        seq![text.take(window)] + char_windows(text.skip(window), window)
    }
}

/// The pieces one after the other.
pub open spec fn concatenated(parts: Seq<Seq<char>>) -> Seq<char>
    decreases parts.len(),
{
    if parts.len() == 0 {
        Seq::<char>::empty()
    } else {
        parts[0] + concatenated(parts.drop_first())
    }
}

/// The windows of the character-proxy strategy are not empty, hold at most
/// `window` characters, and together are the text.
pub proof fn lemma_char_windows(text: Seq<char>, window: int)
    requires
        window >= 1,
    ensures
        concatenated(char_windows(text, window)) == text,
        forall|i: int|
            0 <= i < char_windows(text, window).len() ==> 0 < (#[trigger] char_windows(
                text,
                window,
            )[i]).len() <= window,
    decreases text.len(),
{
    let w = char_windows(text, window);
    if text.len() == 0 {
    } else if text.len() <= window {
        assert(w.drop_first() =~= Seq::<Seq<char>>::empty());
        assert(concatenated(w.drop_first()) =~= Seq::<char>::empty());
        assert(concatenated(w) =~= text);
    } else {
        let rest = char_windows(text.skip(window), window);
        lemma_char_windows(text.skip(window), window);
        assert(w.drop_first() =~= rest);
        assert(concatenated(w) =~= text.take(window) + text.skip(window));
        assert(text.take(window) + text.skip(window) =~= text);
        assert forall|i: int| 0 <= i < w.len() implies 0 < (#[trigger] w[i]).len() <= window by {
            if i > 0 {
                assert(w[i] == rest[i - 1]);
            }
        }
    }
}

/// The number of bytes of the UTF-8 encoding of `text`.
pub open spec fn utf8_len(text: Seq<char>) -> nat {
    vstd::utf8::encode_utf8(text).len()
}

/// Character-proxy chunker for installations without a tokenizer: a token is
/// taken to be four units long.
pub struct CustomChunker;

impl Chunker for CustomChunker {
    open spec fn chunks_of(&self, text: Seq<char>, chunk_size: nat, overlap: nat) -> Option<
        Seq<Seq<char>>,
    > {
        Some(char_windows(text, (chunk_size * 4) as int))
    }

    open spec fn tokens_in(&self, text: Seq<char>) -> Option<nat> {
        Some(utf8_len(text) / 4)
    }

    fn chunk(&self, text: &str, chunk_size: usize, overlap: usize) -> (r: Result<
        Vec<String>,
        CoreError,
    >) {
        let chars = chars_of(text);
        let n: usize = chars.len();
        let window: usize = if chunk_size > usize::MAX / 4 {
            usize::MAX
        } else {
            chunk_size * 4
        };
        let mut chunks: Vec<String> = Vec::new();
        let mut start: usize = 0;
        proof {
            assert(chars@.skip(0) =~= chars@);
            assert(views(chunks@) =~= Seq::<Seq<char>>::empty());
        }
        while start < n
            invariant
                start <= n,
                n == chars@.len(),
                chars@ == text@,
                chunk_size >= 1,
                window >= 1,
                window == chunk_size * 4 || (window == usize::MAX && chunk_size * 4 > usize::MAX),
                views(chunks@) + char_windows(chars@.skip(start as int), chunk_size * 4)
                    == char_windows(chars@, chunk_size * 4),
            decreases n - start,
        {
            let end: usize = if n - start <= window {
                n
            } else {
                start + window
            };
            let piece = string_of_range(&chars, start, end);
            let ghost before = views(chunks@);
            let ghost rest = chars@.skip(start as int);
            chunks.push(piece);
            proof {
                assert(views(chunks@) =~= before.push(piece@));
                assert(rest.len() == n - start);
                if n - start <= window {
                    assert(piece@ =~= rest);
                    assert(chars@.skip(end as int) =~= Seq::<char>::empty());
                    assert(char_windows(rest, chunk_size * 4) =~= seq![rest]);
                    assert(before.push(piece@) + char_windows(
                        chars@.skip(end as int),
                        chunk_size * 4,
                    ) =~= before + seq![rest]);
                } else {
                    assert(piece@ =~= rest.take(window as int));
                    assert(rest.skip(window as int) =~= chars@.skip(end as int));
                    assert(before.push(piece@) + char_windows(
                        chars@.skip(end as int),
                        chunk_size * 4,
                    ) =~= before + (seq![piece@] + char_windows(
                        chars@.skip(end as int),
                        chunk_size * 4,
                    )));
                }
            }
            start = end;
        }
        proof {
            assert(chars@.skip(n as int) =~= Seq::<char>::empty());
            assert(views(chunks@) + Seq::<Seq<char>>::empty() =~= views(chunks@));
        }
        Ok(chunks)
    }

    fn count_tokens(&self, text: &str) -> (r: Result<usize, CoreError>) {
        let bytes = text.as_bytes();
        Ok(bytes.len() / 4)
    }
}


/// `line` without one carriage return at its end.
pub open spec fn strip_cr(line: Seq<char>) -> Seq<char> {
    if line.len() > 0 && line.last() == '\r' {
        line.drop_last()
    } else {
        line
    }
}

/// The lines of `text`: it is split at every line feed, a carriage return
/// before a line feed goes with it, and what follows the last line feed is
/// a line unless it is empty.
pub open spec fn lines_of(text: Seq<char>) -> Seq<Seq<char>> {
    let raw = pieces(text, '\n');
    let count = if raw.last().len() == 0 {
        raw.len() - 1
    } else {
        raw.len() as int
    };
    Seq::new(
        count as nat,
        |i: int|
            if i < raw.len() - 1 {
                strip_cr(raw[i])
            } else {
                raw[i]
            },
    )
}

/// Whether `line` is a horizontal rule: without the white space around it,
/// three or more of one of the characters `-`, `_` and `*`, and nothing else.
pub open spec fn is_rule(line: Seq<char>) -> bool {
    let t = trimmed(line);
    &&& t.len() >= 3
    &&& (t[0] == '-' || t[0] == '_' || t[0] == '*')
    &&& forall|i: int| 0 <= i < t.len() ==> #[trigger] t[i] == t[0]
}

/// The sections that the lines so far have closed, and the section that is
/// open: a rule closes the open section unless it is empty; any other line
/// is added to it with a line feed behind.
pub open spec fn section_state(lines: Seq<Seq<char>>) -> (Seq<Seq<char>>, Seq<char>)
    decreases lines.len(),
{
    if lines.len() == 0 {
        (Seq::<Seq<char>>::empty(), Seq::<char>::empty())
    } else {
        let (done, open) = section_state(lines.drop_last());
        let line = lines.last();
        if is_rule(line) {
            if open.len() > 0 {
                (done.push(trimmed(open)), Seq::<char>::empty())
            } else {
                (done, open)
            }
        } else {
            (done, open + line + seq!['\n'])
        }
    }
}

/// The sections of `text` between horizontal rules, each without the white
/// space around it.
pub open spec fn sections_of(text: Seq<char>) -> Seq<Seq<char>> {
    let (done, open) = section_state(lines_of(text));
    if open.len() > 0 {
        done.push(trimmed(open))
    } else {
        done
    }
}

/// The paragraphs of `text` from `start` on, the search for the next blank
/// line standing at `at`: a paragraph ends before two line feeds, and the
/// next begins behind them.
pub open spec fn blocks_from(text: Seq<char>, start: int, at: int) -> Seq<Seq<char>>
    decreases text.len() - at,
{
    if at + 1 >= text.len() {
        seq![text.subrange(start, text.len() as int)]
    } else if text[at] == '\n' && text[at + 1] == '\n' {
        seq![text.subrange(start, at)] + blocks_from(text, at + 2, at + 2)
    } else {
        blocks_from(text, start, at + 1)
    }
}

/// The paragraphs of `text`.
pub open spec fn blocks(text: Seq<char>) -> Seq<Seq<char>> {
    blocks_from(text, 0, 0)
}

/// `chunks` with the open chunk closed: added without the white space around
/// it, unless it is empty.
pub open spec fn closed_with(chunks: Seq<Seq<char>>, open: Seq<char>) -> Seq<Seq<char>> {
    if open.len() > 0 {
        chunks.push(trimmed(open))
    } else {
        chunks
    }
}

/// The overlap with which a paragraph that is too long is split.
pub const PARAGRAPH_OVERLAP: usize = 50;

/// The chunks that the paragraphs so far have closed, and the chunk that is
/// open. A paragraph of more than `max` tokens closes the open chunk and is
/// split by the fixed-token strategy. Another paragraph is added to the open
/// chunk behind a blank line, unless the chunk would then hold more than
/// `max` tokens: then the open chunk is closed and the paragraph opens the
/// next. `None` where the tokenizer fails.
pub open spec fn paragraph_state(paragraphs: Seq<Seq<char>>, max: nat) -> Option<
    (Seq<Seq<char>>, Seq<char>),
>
    decreases paragraphs.len(),
{
    if paragraphs.len() == 0 {
        Some((Seq::<Seq<char>>::empty(), Seq::<char>::empty()))
    } else {
        match paragraph_state(paragraphs.drop_last(), max) {
            None => None,
            Some((chunks, open)) => {
                let p = paragraphs.last();
                match (cl100k_encoding(p), cl100k_encoding(open)) {
                    (Some(pt), Some(ot)) => if pt.len() > max {
                        match fixed_chunks(p, max, PARAGRAPH_OVERLAP as nat) {
                            None => None,
                            Some(split) => Some(
                                (closed_with(chunks, open) + split, Seq::<char>::empty()),
                            ),
                        }
                    } else if ot.len() + pt.len() > max && open.len() > 0 {
                        Some((chunks.push(trimmed(open)), p + "\n\n"@))
                    } else if open.len() > 0 {
                        Some((chunks, open + "\n\n"@ + p))
                    } else {
                        Some((chunks, p))
                    },
                    _ => None,
                }
            },
        }
    }
}

/// The chunks of a section that is too long, paragraph by paragraph.
pub open spec fn paragraph_chunks(text: Seq<char>, max: nat) -> Option<Seq<Seq<char>>> {
    match paragraph_state(blocks(text), max) {
        None => None,
        Some((chunks, open)) => Some(closed_with(chunks, open)),
    }
}

/// The chunks of the sections: a section of at most `chunk_size` tokens is
/// a chunk, a longer one is split by paragraphs.
pub open spec fn section_chunks(sections: Seq<Seq<char>>, chunk_size: nat) -> Option<Seq<Seq<char>>>
    decreases sections.len(),
{
    if sections.len() == 0 {
        Some(Seq::<Seq<char>>::empty())
    } else {
        match section_chunks(sections.drop_last(), chunk_size) {
            None => None,
            Some(chunks) => match cl100k_encoding(sections.last()) {
                None => None,
                Some(tokens) => if tokens.len() <= chunk_size {
                    Some(chunks.push(sections.last()))
                } else {
                    match paragraph_chunks(sections.last(), chunk_size) {
                        None => None,
                        Some(more) => Some(chunks + more),
                    }
                },
            },
        }
    }
}

/// What the markdown strategy returns for `text`.
pub open spec fn markdown_chunks(text: Seq<char>, chunk_size: nat) -> Option<Seq<Seq<char>>> {
    if text.len() == 0 {
        Some(Seq::<Seq<char>>::empty())
    } else {
        section_chunks(sections_of(text), chunk_size)
    }
}

/// Chunker that splits at horizontal rules, and sections that are too long
/// at blank lines.
pub struct MarkdownChunker {
    bpe: FixedTokenChunker,
}

fn rule_in(chars: &Vec<char>, from: usize, to: usize) -> (r: bool)
    requires
        from <= to <= chars.len(),
    ensures
        r == is_rule(chars@.subrange(from as int, to as int)),
{
    let (a, b) = trim_range(chars, from, to);
    let ghost t = chars@.subrange(a as int, b as int);
    if b - a < 3 {
        return false;
    }
    let first: char = chars[a];
    assert(t[0] == first);
    if !(first == '-' || first == '_' || first == '*') {
        return false;
    }
    let mut i: usize = a;
    while i < b
        invariant
            a <= i <= b <= chars.len(),
            b - a >= 3,
            t == chars@.subrange(a as int, b as int),
            t == trimmed(chars@.subrange(from as int, to as int)),
            t[0] == first,
            first == '-' || first == '_' || first == '*',
            forall|k: int| 0 <= k < i - a ==> t[k] == first,
        decreases b - i,
    {
        if chars[i] != first {
            assert(t[i - a] == chars@[i as int]);
            return false;
        }
        i = i + 1;
    }
    true
}

fn append_chars(target: &mut Vec<char>, source: &Vec<char>, to: usize)
    requires
        to <= source.len(),
    ensures
        final(target)@ == old(target)@ + source@.subrange(0, to as int),
{
    let mut i: usize = 0;
    proof {
        assert(target@ + source@.subrange(0, 0) =~= target@);
    }
    while i < to
        invariant
            i <= to <= source.len(),
            target@ == old(target)@ + source@.subrange(0, i as int),
        decreases to - i,
    {
        target.push(source[i]);
        proof {
            assert(old(target)@ + source@.subrange(0, i as int + 1) =~= (old(target)@
                + source@.subrange(0, i as int)).push(source@[i as int]));
        }
        i = i + 1;
    }
}

fn close_chunk(chunks: &mut Vec<String>, open: &String)
    ensures
        views(final(chunks)@) == closed_with(views(old(chunks)@), open@),
{
    if !open.as_str().is_empty() {
        let ghost before = views(chunks@);
        chunks.push(trim_string(open.as_str()));
        proof {
            assert(views(chunks@) =~= before.push(trimmed(open@)));
        }
    }
}

fn extend_chunks(chunks: &mut Vec<String>, more: Vec<String>)
    ensures
        views(final(chunks)@) == views(old(chunks)@) + views(more@),
{
    let mut rest = more;
    let ghost before = views(chunks@);
    chunks.append(&mut rest);
    proof {
        assert(views(chunks@) =~= before + views(more@));
    }
}

/// Splits `chars` into paragraphs.
fn split_blocks(chars: &Vec<char>) -> (paragraphs: Vec<String>)
    ensures
        views(paragraphs@) == blocks(chars@),
{
    let mut paragraphs: Vec<String> = Vec::new();
    let mut start: usize = 0;
    let mut at: usize = 0;
    let n: usize = chars.len();
    proof {
        assert(views(paragraphs@) + blocks_from(chars@, 0, 0) =~= blocks(chars@));
    }
    while n - at > 1
        invariant
            start <= at <= n,
            n == chars.len(),
            views(paragraphs@) + blocks_from(chars@, start as int, at as int) == blocks(chars@),
        decreases n - at,
    {
        if chars[at] == '\n' && chars[at + 1] == '\n' {
            let ghost before = views(paragraphs@);
            let piece = string_of_range(chars, start, at);
            paragraphs.push(piece);
            proof {
                let rest = blocks_from(chars@, at as int + 2, at as int + 2);
                assert(views(paragraphs@) =~= before.push(piece@));
                assert(before.push(piece@) + rest =~= before + (seq![piece@] + rest));
            }
            start = at + 2;
            at = at + 2;
        } else {
            at = at + 1;
        }
    }
    let ghost before = views(paragraphs@);
    let last = string_of_range(chars, start, n);
    paragraphs.push(last);
    proof {
        assert(views(paragraphs@) =~= before + seq![last@]);
    }
    paragraphs
}

impl MarkdownChunker {
    /// Loads the tokenizer; a chunker error where it cannot be initialised.
    pub fn new() -> (r: Result<MarkdownChunker, CoreError>)
        ensures
            r matches Err(e) ==> e.kind == ErrorKind::ChunkerError,
    {
        // Whether the vocabulary loads is the tokenizer's to decide; what
        // comes of either outcome is `over`'s to say.
        let loaded = FixedTokenChunker::new();
        Self::over(loaded)
    }

    /// Splits `text` into the sections between horizontal rules.
    pub fn split_by_sections(&self, text: &str) -> (sections: Vec<String>)
        ensures
            views(sections@) == sections_of(text@),
    {
        let chars = chars_of(text);
        let raw = split_on(&chars, '\n');
        let ghost all = pieces(text@, '\n');
        let ghost lines = lines_of(text@);
        let count: usize = if raw[raw.len() - 1].len() == 0 {
            raw.len() - 1
        } else {
            raw.len()
        };
        proof {
            assert(deep(raw@)[raw@.len() - 1] == raw@[raw@.len() - 1]@);
            assert(lines.len() == count);
        }
        let mut sections: Vec<String> = Vec::new();
        let mut open: Vec<char> = Vec::new();
        let mut i: usize = 0;
        proof {
            assert(lines.take(0) =~= Seq::<Seq<char>>::empty());
            assert(views(sections@) =~= Seq::<Seq<char>>::empty());
        }
        while i < count
            invariant
                i <= count <= raw.len(),
                all == deep(raw@),
                lines.len() == count,
                forall|k: int|
                    0 <= k < count ==> lines[k] == if k < all.len() - 1 {
                        strip_cr(all[k])
                    } else {
                        all[k]
                    },
                section_state(lines.take(i as int)) == (views(sections@), open@),
            decreases count - i,
        {
            let line: &Vec<char> = &raw[i];
            let to: usize = if i + 1 < raw.len() && line.len() > 0 && line[line.len() - 1] == '\r' {
                line.len() - 1
            } else {
                line.len()
            };
            proof {
                assert(all[i as int] == line@);
                assert(line@.subrange(0, to as int) =~= lines[i as int]);
                assert(lines.take(i as int + 1).drop_last() =~= lines.take(i as int));
                assert(lines.take(i as int + 1).last() == lines[i as int]);
            }
            if rule_in(line, 0, to) {
                if open.len() > 0 {
                    let ghost done = views(sections@);
                    let ghost was = open@;
                    let (a, b) = trim_range(&open, 0, open.len());
                    proof {
                        assert(open@.subrange(0, open@.len() as int) =~= open@);
                    }
                    sections.push(string_of_range(&open, a, b));
                    open = Vec::new();
                    proof {
                        assert(views(sections@) =~= done.push(trimmed(was)));
                        assert(open@ =~= Seq::<char>::empty());
                    }
                }
            } else {
                let ghost before = open@;
                append_chars(&mut open, line, to);
                open.push('\n');
                proof {
                    assert(open@ =~= before + lines[i as int] + seq!['\n']);
                }
            }
            i = i + 1;
        }
        proof {
            assert(lines.take(i as int) =~= lines);
        }
        if open.len() > 0 {
            let ghost done = views(sections@);
            let (a, b) = trim_range(&open, 0, open.len());
            proof {
                assert(open@.subrange(0, open@.len() as int) =~= open@);
            }
            sections.push(string_of_range(&open, a, b));
            proof {
                assert(views(sections@) =~= done.push(trimmed(open@)));
            }
        }
        sections
    }

    /// Splits a section that is too long by paragraphs.
    pub fn split_by_paragraphs(&self, text: &str, max_tokens: usize) -> (r: Result<Vec<String>, CoreError>)
        requires
            max_tokens >= 1,
        ensures
            chunk_outcome(r, paragraph_chunks(text@, max_tokens as nat)),
    {
        let chars = chars_of(text);
        let paragraphs = split_blocks(&chars);
        let ghost all = blocks(text@);
        let mut chunks: Vec<String> = Vec::new();
        let mut open = String::new();
        let mut i: usize = 0;
        proof {
            assert(all.take(0) =~= Seq::<Seq<char>>::empty());
            assert(views(chunks@) =~= Seq::<Seq<char>>::empty());
        }
        while i < paragraphs.len()
            invariant
                i <= paragraphs.len(),
                max_tokens >= 1,
                all == views(paragraphs@),
                all == blocks(text@),
                paragraph_state(all.take(i as int), max_tokens as nat) == Some(
                    (views(chunks@), open@),
                ),
            decreases paragraphs.len() - i,
        {
            let p: &String = &paragraphs[i];
            proof {
                assert(all.take(i as int + 1).drop_last() =~= all.take(i as int));
                assert(all.take(i as int + 1).last() == p@);
            }
            let counted = (self.bpe.count_tokens(p.as_str()), self.bpe.count_tokens(open.as_str()));
            let (pt, ot): (usize, usize) = match counted {
                (Ok(pt), Ok(ot)) => (pt, ot),
                (Err(e), _) => {
                    proof {
                        assert(cl100k_encoding(p@) is None);
                        assert(paragraph_state(all.take(i as int + 1), max_tokens as nat) is None);
                        lemma_paragraphs_fail(all, max_tokens as nat, i as int + 1);
                    }
                    return Err(e);
                },
                (_, Err(e)) => {
                    proof {
                        assert(cl100k_encoding(open@) is None);
                        assert(paragraph_state(all.take(i as int + 1), max_tokens as nat) is None);
                        lemma_paragraphs_fail(all, max_tokens as nat, i as int + 1);
                    }
                    return Err(e);
                },
            };
            if pt > max_tokens {
                let split = match self.bpe.chunk(p.as_str(), max_tokens, PARAGRAPH_OVERLAP) {
                    Ok(split) => split,
                    Err(e) => {
                        proof {
                            assert(fixed_chunks(p@, max_tokens as nat, PARAGRAPH_OVERLAP as nat) is None);
                            assert(paragraph_state(all.take(i as int + 1), max_tokens as nat) is None);
                            lemma_paragraphs_fail(all, max_tokens as nat, i as int + 1);
                        }
                        return Err(e);
                    },
                };
                close_chunk(&mut chunks, &open);
                extend_chunks(&mut chunks, split);
                open = String::new();
            } else if ot > max_tokens - pt && !open.as_str().is_empty() {
                let ghost before = views(chunks@);
                chunks.push(trim_string(open.as_str()));
                proof {
                    assert(views(chunks@) =~= before.push(trimmed(open@)));
                }
                let mut next = p.clone();
                next.append("\n\n");
                open = next;
            } else if !open.as_str().is_empty() {
                open.append("\n\n");
                open.append(p.as_str());
            } else {
                open = p.clone();
            }
            i = i + 1;
        }
        proof {
            assert(all.take(i as int) =~= all);
        }
        close_chunk(&mut chunks, &open);
        Ok(chunks)
    }
}

/// Where the tokenizer fails on a paragraph, it fails on the whole section.
proof fn lemma_paragraphs_fail(paragraphs: Seq<Seq<char>>, max: nat, k: int)
    requires
        0 <= k <= paragraphs.len(),
        paragraph_state(paragraphs.take(k), max) is None,
    ensures
        paragraph_state(paragraphs, max) is None,
    decreases paragraphs.len(),
{
    if k < paragraphs.len() {
        assert(paragraphs.drop_last().take(k) =~= paragraphs.take(k));
        lemma_paragraphs_fail(paragraphs.drop_last(), max, k);
    } else {
        assert(paragraphs.take(k) =~= paragraphs);
    }
}

/// Where the tokenizer fails on a section, it fails on the whole text.
proof fn lemma_sections_fail(sections: Seq<Seq<char>>, chunk_size: nat, k: int)
    requires
        0 <= k <= sections.len(),
        section_chunks(sections.take(k), chunk_size) is None,
    ensures
        section_chunks(sections, chunk_size) is None,
    decreases sections.len(),
{
    if k < sections.len() {
        assert(sections.drop_last().take(k) =~= sections.take(k));
        lemma_sections_fail(sections.drop_last(), chunk_size, k);
    } else {
        assert(sections.take(k) =~= sections);
    }
}

impl Chunker for MarkdownChunker {
    open spec fn chunks_of(&self, text: Seq<char>, chunk_size: nat, overlap: nat) -> Option<
        Seq<Seq<char>>,
    > {
        markdown_chunks(text, chunk_size)
    }

    open spec fn tokens_in(&self, text: Seq<char>) -> Option<nat> {
        fixed_token_count(text)
    }

    fn chunk(&self, text: &str, chunk_size: usize, overlap: usize) -> (r: Result<
        Vec<String>,
        CoreError,
    >) {
        let mut chunks: Vec<String> = Vec::new();
        proof {
            assert(views(chunks@) =~= Seq::<Seq<char>>::empty());
        }
        if text.is_empty() {
            return Ok(chunks);
        }
        let sections = self.split_by_sections(text);
        let ghost all = sections_of(text@);
        let mut i: usize = 0;
        proof {
            assert(all.take(0) =~= Seq::<Seq<char>>::empty());
        }
        while i < sections.len()
            invariant
                i <= sections.len(),
                chunk_size >= 1,
                all == views(sections@),
                all == sections_of(text@),
                text@.len() > 0,
                section_chunks(all.take(i as int), chunk_size as nat) == Some(views(chunks@)),
            decreases sections.len() - i,
        {
            let section: &String = &sections[i];
            proof {
                assert(all.take(i as int + 1).drop_last() =~= all.take(i as int));
                assert(all.take(i as int + 1).last() == section@);
            }
            let tokens: usize = match self.bpe.count_tokens(section.as_str()) {
                Ok(n) => n,
                Err(e) => {
                    proof {
                        assert(cl100k_encoding(section@) is None);
                        assert(section_chunks(all.take(i as int + 1), chunk_size as nat) is None);
                        lemma_sections_fail(all, chunk_size as nat, i as int + 1);
                    }
                    return Err(e);
                },
            };
            if tokens <= chunk_size {
                let ghost before = views(chunks@);
                chunks.push(section.clone());
                proof {
                    assert(views(chunks@) =~= before.push(section@));
                }
            } else {
                match self.split_by_paragraphs(section.as_str(), chunk_size) {
                    Ok(more) => {
                        extend_chunks(&mut chunks, more);
                    },
                    Err(e) => {
                        proof {
                            assert(paragraph_chunks(section@, chunk_size as nat) is None);
                            assert(section_chunks(all.take(i as int + 1), chunk_size as nat) is None);
                            lemma_sections_fail(all, chunk_size as nat, i as int + 1);
                        }
                        return Err(e);
                    },
                }
            }
            i = i + 1;
        }
        proof {
            assert(all.take(i as int) =~= all);
        }
        Ok(chunks)
    }

    fn count_tokens(&self, text: &str) -> (r: Result<usize, CoreError>) {
        self.bpe.count_tokens(text)
    }
}

/// The message of the error that reports a tokenizer that did not load.
pub open spec fn tokenizer_unavailable() -> Seq<char> {
    "tokenizer unavailable"@
}

impl FixedTokenChunker {
    /// The chunker over a tokenizer that was loaded, or the chunker error
    /// where loading gave none.
    pub fn with_tokenizer(loaded: Option<Cl100k>) -> (r: Result<FixedTokenChunker, CoreError>)
        ensures
            r is Ok <==> loaded is Some,
            r matches Err(e) ==> e.kind == ErrorKind::ChunkerError && (e.message matches Some(m)
                && m@ == tokenizer_unavailable()),
    {
        match loaded {
            Some(bpe) => Ok(FixedTokenChunker { bpe }),
            None => Err(CoreError::with_message(ErrorKind::ChunkerError, "tokenizer unavailable")),
        }
    }
}

impl MarkdownChunker {
    /// The markdown chunker over a fixed-token chunker that could be had,
    /// or the error that was reported in its place.
    pub fn over(loaded: Result<FixedTokenChunker, CoreError>) -> (r: Result<
        MarkdownChunker,
        CoreError,
    >)
        ensures
            r is Ok <==> loaded is Ok,
            r matches Err(e) ==> loaded == Err::<FixedTokenChunker, CoreError>(e),
    {
        match loaded {
            Ok(bpe) => Ok(MarkdownChunker { bpe }),
            Err(e) => Err(e),
        }
    }
}

} // verus!
