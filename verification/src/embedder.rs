//! The embedding client's rules: where to send a text, what to accept of the
//! answer, and how a batch of texts is split among workers.

use vstd::prelude::*;
use vstd::string::StringExecFns;
use crate::error::{CoreError, ErrorKind};

verus! {

/// The ranges of `size` items each that cover `start..n` in order; the last
/// may be shorter.
pub open spec fn ranges_from(start: int, n: int, size: int) -> Seq<(int, int)>
    decreases n - start,
{
    if start >= n || size <= 0 {
        Seq::<(int, int)>::empty()
    } else if n - start <= size {
        seq![(start, n)]
    } else {
        seq![(start, start + size)] + ranges_from(start + size, n, size)
    }
}

/// The batches of `n` items: ranges of `size` items that cover `0..n`.
pub open spec fn batch_bounds(n: int, size: int) -> Seq<(int, int)> {
    ranges_from(0, n, size)
}

/// Ranges as integers.
pub open spec fn bounds_view(v: Seq<(usize, usize)>) -> Seq<(int, int)> {
    v.map_values(|r: (usize, usize)| (r.0 as int, r.1 as int))
}

/// The batches partition the items in order: they are not empty and not
/// larger than `size`, the first begins at `start`, each begins where the
/// one before ends, and the last ends at `n`.
pub proof fn lemma_ranges_partition(start: int, n: int, size: int)
    requires
        0 <= start <= n,
        size >= 1,
    ensures
        ({
            let r = ranges_from(start, n, size);
            &&& (r.len() == 0) == (start == n)
            &&& r.len() > 0 ==> r[0].0 == start && r.last().1 == n
            &&& forall|i: int| 0 <= i < r.len() ==> 0 < (#[trigger] r[i]).1 - r[i].0 <= size
            &&& forall|i: int| 0 <= i < r.len() - 1 ==> (#[trigger] r[i + 1]).0 == r[i].1
            &&& r.len() <= n - start
        }),
    decreases n - start,
{
    let r = ranges_from(start, n, size);
    if start < n && n - start > size {
        let rest = ranges_from(start + size, n, size);
        lemma_ranges_partition(start + size, n, size);
        assert(r =~= seq![(start, start + size)] + rest);
        assert forall|i: int| 0 <= i < r.len() implies 0 < (#[trigger] r[i]).1 - r[i].0 <= size by {
            if i > 0 {
                assert(r[i] == rest[i - 1]);
            }
        }
        assert forall|i: int| 0 <= i < r.len() - 1 implies (#[trigger] r[i + 1]).0 == r[i].1 by {
            if i > 0 {
                assert(r[i] == rest[i - 1]);
                assert(r[i + 1] == rest[i - 1 + 1]);
            } else {
                assert(r[1] == rest[0]);
                assert(rest[0].0 == start + size);
            }
        }
        assert(r.last() == rest.last());
    }
}

/// Splits `n` items into batches of `size`.
pub fn batch_ranges(n: usize, size: usize) -> (batches: Vec<(usize, usize)>)
    requires
        size >= 1,
    ensures
        bounds_view(batches@) == batch_bounds(n as int, size as int),
{
    let mut batches: Vec<(usize, usize)> = Vec::new();
    let mut start: usize = 0;
    proof {
        assert(bounds_view(batches@) =~= Seq::<(int, int)>::empty());
    }
    while start < n
        invariant
            start <= n,
            size >= 1,
            bounds_view(batches@) + ranges_from(start as int, n as int, size as int) == batch_bounds(
                n as int,
                size as int,
            ),
        decreases n - start,
    {
        let end: usize = if n - start <= size {
            n
        } else {
            start + size
        };
        let ghost before = bounds_view(batches@);
        batches.push((start, end));
        proof {
            let rest = ranges_from(end as int, n as int, size as int);
            assert(bounds_view(batches@) =~= before.push((start as int, end as int)));
            assert(before.push((start as int, end as int)) + rest =~= before + (seq![
                (start as int, end as int),
            ] + rest));
            if end == n {
                assert(rest =~= Seq::<(int, int)>::empty());
                assert(seq![(start as int, end as int)] + rest =~= seq![(start as int, n as int)]);
            }
        }
        start = end;
    }
    proof {
        assert(bounds_view(batches@) + Seq::<(int, int)>::empty() =~= bounds_view(batches@));
    }
    batches
}

/// The vectors of all batches, one batch after the other.
pub open spec fn gathered(batches: Seq<Vec<Vec<u32>>>) -> Seq<Vec<u32>>
    decreases batches.len(),
{
    if batches.len() == 0 {
        Seq::<Vec<u32>>::empty()
    } else {
        gathered(batches.drop_last()) + batches.last()@
    }
}

/// A pool that embeds texts in batches with a bounded number of workers.
pub struct ParallelEmbedder {
    max_workers: usize,
    batch_size: usize,
    dimensions: usize,
}

impl ParallelEmbedder {
    /// The number of texts of a batch.
    pub closed spec fn batch(&self) -> nat {
        self.batch_size as nat
    }

    /// The number of batches that are embedded at a time.
    pub closed spec fn workers(&self) -> nat {
        self.max_workers as nat
    }

    /// The dimension of the embedder's vectors.
    pub closed spec fn dimension(&self) -> nat {
        self.dimensions as nat
    }

    /// A pool over an embedder of `dimensions` values a vector.
    pub fn new(dimensions: usize, max_workers: usize, batch_size: usize) -> (p: ParallelEmbedder)
        ensures
            p.batch() == batch_size,
            p.workers() == max_workers,
            p.dimension() == dimensions,
    {
        ParallelEmbedder { max_workers, batch_size, dimensions }
    }

    /// The batches into which `texts` texts are split, in input order.
    pub fn plan(&self, texts: usize) -> (batches: Vec<(usize, usize)>)
        requires
            self.batch() >= 1,
        ensures
            bounds_view(batches@) == batch_bounds(texts as int, self.batch() as int),
    {
        batch_ranges(texts, self.batch_size)
    }

    /// The number of permits of the pool.
    pub fn permits(&self) -> (n: usize)
        ensures
            n == self.workers(),
    {
        self.max_workers
    }

    /// Puts the results of the batches together in the order of the batches.
    pub fn embed_parallel(&self, results: Vec<Vec<Vec<u32>>>) -> (all: Vec<Vec<u32>>)
        ensures
            all@ == gathered(results@),
    {
        let mut all: Vec<Vec<u32>> = Vec::new();
        let mut rest = results;
        let ghost whole = rest@;
        let ghost mut done: int = 0;
        proof {
            assert(whole.take(0) =~= Seq::<Vec<Vec<u32>>>::empty());
            assert(whole.skip(0) =~= whole);
        }
        while rest.len() > 0
            invariant
                0 <= done <= whole.len(),
                rest@ == whole.skip(done),
                all@ == gathered(whole.take(done)),
            decreases rest.len(),
        {
            let mut batch = rest.remove(0);
            proof {
                assert(batch == whole[done]);
                assert(whole.skip(done).remove(0) =~= whole.skip(done + 1));
                assert(whole.take(done + 1).drop_last() =~= whole.take(done));
                assert(whole.take(done + 1).last() == batch);
                done = done + 1;
            }
            all.append(&mut batch);
        }
        proof {
            assert(whole.take(done) =~= whole);
        }
        all
    }

    /// The dimension of the embedder's vectors.
    pub fn dimensions(&self) -> (d: usize)
        ensures
            d == self.dimension(),
    {
        self.dimensions
    }
}

/// The decimal digits of `n`.
pub open spec fn decimal(n: nat) -> Seq<char>
    decreases n,
{
    if n < 10 {
        seq![digit(n)]
    } else {
        decimal(n / 10).push(digit(n % 10))
    }
}

/// The character of a digit.
pub open spec fn digit(d: nat) -> char {
    (('0' as u8) + (d as u8)) as char
}

/// Writes a number in decimal digits.
pub fn decimal_string(n: u16) -> (s: String)
    ensures
        s@ == decimal(n as nat),
{
    let mut digits: Vec<char> = Vec::new();
    let mut rest: u16 = n;
    // the digits behind the first, from the last on
    let mut low: Vec<char> = Vec::new();
    proof {
        assert(decimal(rest as nat) + low@.reverse() =~= decimal(rest as nat));
    }
    while rest >= 10
        invariant
            decimal(n as nat) == decimal(rest as nat) + low@.reverse(),
        decreases rest,
    {
        let d: u8 = (rest % 10) as u8;
        let ghost before = low@;
        low.push((48u8 + d) as char);
        proof {
            assert(low@.reverse() =~= seq![digit((rest % 10) as nat)] + before.reverse());
            assert(decimal(rest as nat) =~= decimal((rest / 10) as nat).push(
                digit((rest % 10) as nat),
            ));
            assert(decimal((rest / 10) as nat).push(digit((rest % 10) as nat)) + before.reverse()
                =~= decimal((rest / 10) as nat) + low@.reverse());
        }
        rest = rest / 10;
    }
    digits.push((48u8 + (rest as u8)) as char);
    proof {
        assert(digits@ =~= decimal(rest as nat) + low@.reverse().take(0));
    }
    let mut i: usize = low.len();
    while i > 0
        invariant
            i <= low.len(),
            rest < 10,
            decimal(n as nat) == decimal(rest as nat) + low@.reverse(),
            digits@ == decimal(rest as nat) + low@.reverse().take(low@.len() - i),
        decreases i,
    {
        i = i - 1;
        digits.push(low[i]);
        proof {
            let r = low@.reverse();
            assert(r[low@.len() - 1 - i] == low@[i as int]);
            assert(r.take(low@.len() - i) =~= r.take(low@.len() - i - 1).push(r[low@.len() - 1 - i]));
        }
    }
    proof {
        assert(low@.reverse().take(low@.len() as int) =~= low@.reverse());
    }
    crate::text::string_of(&digits)
}

/// Whether an HTTP status reports success.
pub open spec fn is_success(status: u16) -> bool {
    200 <= status <= 299
}

/// The message of a failed call: status and body.
pub open spec fn failure_message(status: u16, body: Seq<char>) -> Seq<char> {
    "Embedding service returned status "@ + decimal(status as nat) + ": "@ + body
}

/// The client of the embedding service.
pub struct OpenAIEmbedder {
    base_url: String,
    dimensions: usize,
    model: String,
    insecure_skip_verify: bool,
}

impl OpenAIEmbedder {
    /// The base address of the service.
    pub closed spec fn base(&self) -> Seq<char> {
        self.base_url@
    }

    /// The declared dimension.
    pub closed spec fn dimension(&self) -> nat {
        self.dimensions as nat
    }

    /// The model that requests name.
    pub closed spec fn model_name(&self) -> Seq<char> {
        self.model@
    }

    /// Whether certificates are accepted unverified.
    pub closed spec fn insecure(&self) -> bool {
        self.insecure_skip_verify
    }

    /// A client of the service at `base_url` for the model `default`.
    pub fn new(base_url: String, dimensions: usize, insecure_skip_verify: bool) -> (e: OpenAIEmbedder)
        ensures
            e.base() == base_url@,
            e.dimension() == dimensions,
            e.model_name() == "default"@,
            e.insecure() == insecure_skip_verify,
    {
        OpenAIEmbedder { base_url, dimensions, model: "default".to_owned(), insecure_skip_verify }
    }

    /// The address that embedding requests are posted to.
    pub fn endpoint(&self) -> (url: String)
        ensures
            url@ == self.base() + "/v1/embeddings"@,
    {
        let mut url = self.base_url.clone();
        url.append("/v1/embeddings");
        url
    }

    /// The model that requests name.
    pub fn model(&self) -> (m: &String)
        ensures
            m@ == self.model_name(),
    {
        &self.model
    }

    /// Whether certificates are accepted unverified.
    pub fn accepts_invalid_certs(&self) -> (r: bool)
        ensures
            r == self.insecure(),
    {
        self.insecure_skip_verify
    }

    /// The declared dimension.
    pub fn dimensions(&self) -> (d: usize)
        ensures
            d == self.dimension(),
    {
        self.dimensions
    }

    /// Judges the service's answer: `status` and `body` as received, and
    /// the first embedding of the body where it could be read and holds one.
    /// A status outside 200..=299 is a service error that carries status and
    /// body; a missing embedding or one of another length than the declared
    /// dimension is a dimension mismatch.
    pub fn check_response(&self, status: u16, body: &str, embedding: Option<Vec<u32>>) -> (r: Result<
        Vec<u32>,
        CoreError,
    >)
        ensures
            match r {
                Ok(vector) => {
                    &&& is_success(status)
                    &&& embedding == Some(vector)
                    &&& vector@.len() == self.dimension()
                },
                Err(e) => if !is_success(status) {
                    &&& e.kind == ErrorKind::EmbeddingServiceError
                    &&& e.message matches Some(m) && m@ == failure_message(status, body@)
                } else {
                    &&& e.kind == ErrorKind::DimensionMismatch
                    &&& match embedding {
                        Some(vector) => vector@.len() != self.dimension(),
                        None => true,
                    }
                },
            },
    {
        if status < 200 || status > 299 {
            let mut message = "Embedding service returned status ".to_owned();
            let number = decimal_string(status);
            message.append(number.as_str());
            message.append(": ");
            message.append(body);
            return Err(CoreError { kind: ErrorKind::EmbeddingServiceError, message: Some(message) });
        }
        match embedding {
            None => Err(
                CoreError::with_message(ErrorKind::DimensionMismatch, "no embedding in response"),
            ),
            Some(vector) => {
                if vector.len() != self.dimensions {
                    Err(
                        CoreError::with_message(
                            ErrorKind::DimensionMismatch,
                            "embedding has another dimension than declared",
                        ),
                    )
                } else {
                    Ok(vector)
                }
            },
        }
    }

    /// The error of an answer that cannot be read.
    pub fn parse_failure(&self) -> (e: CoreError)
        ensures
            e.kind == ErrorKind::EmbeddingServiceError,
    {
        CoreError::with_message(ErrorKind::EmbeddingServiceError, "failed to parse embedding response")
    }
}

} // verus!
