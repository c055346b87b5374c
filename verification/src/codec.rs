//! Binary vector codec: a vector of 32-bit IEEE-754 values, each held as its
//! bit pattern, is stored as contiguous little-endian 4-byte groups with no
//! header.

use vstd::prelude::*;

verus! {

/// The four little-endian bytes of one 32-bit pattern.
pub open spec fn word_bytes(w: u32) -> Seq<u8> {
    seq![
        (w & 0xff) as u8,
        ((w >> 8) & 0xff) as u8,
        ((w >> 16) & 0xff) as u8,
        ((w >> 24) & 0xff) as u8,
    ]
}

/// The 32-bit pattern whose little-endian bytes are `b0 b1 b2 b3`.
pub open spec fn word_of(b0: u8, b1: u8, b2: u8, b3: u8) -> u32 {
    (b0 as u32) | ((b1 as u32) << 8) | ((b2 as u32) << 16) | ((b3 as u32) << 24)
}

/// The byte string that stores `words`: the bytes of each word in order.
pub open spec fn encode_words(words: Seq<u32>) -> Seq<u8>
    decreases words.len(),
{
    if words.len() == 0 {
        Seq::<u8>::empty()
    } else {
        encode_words(words.drop_last()) + word_bytes(words.last())
    }
}

/// The words stored in `bytes`: one per complete group of four bytes; a
/// trailing incomplete group is ignored.
pub open spec fn decode_words(bytes: Seq<u8>) -> Seq<u32> {
    Seq::new(
        (bytes.len() / 4) as nat,
        |i: int| word_of(bytes[4 * i], bytes[4 * i + 1], bytes[4 * i + 2], bytes[4 * i + 3]),
    )
}

pub proof fn lemma_encode_len(words: Seq<u32>)
    ensures
        encode_words(words).len() == 4 * words.len(),
    decreases words.len(),
{
    if words.len() > 0 {
        lemma_encode_len(words.drop_last());
    }
}

/// Byte `4 * i + j` of the encoding is byte `j` of word `i`.
pub proof fn lemma_encode_index(words: Seq<u32>, i: int, j: int)
    requires
        0 <= i < words.len(),
        0 <= j < 4,
    ensures
        encode_words(words).len() == 4 * words.len(),
        encode_words(words)[4 * i + j] == word_bytes(words[i])[j],
    decreases words.len(),
{
    lemma_encode_len(words);
    lemma_encode_len(words.drop_last());
    if i < words.len() - 1 {
        lemma_encode_index(words.drop_last(), i, j);
    }
}

proof fn lemma_word_round_trip(w: u32)
    ensures
        word_of(word_bytes(w)[0], word_bytes(w)[1], word_bytes(w)[2], word_bytes(w)[3]) == w,
{
    let b0 = (w & 0xff) as u8;
    let b1 = ((w >> 8) & 0xff) as u8;
    let b2 = ((w >> 16) & 0xff) as u8;
    let b3 = ((w >> 24) & 0xff) as u8;
    assert(((b0 as u32) | ((b1 as u32) << 8) | ((b2 as u32) << 16) | ((b3 as u32) << 24)) == w)
        by (bit_vector)
        requires
            b0 == (w & 0xff) as u8,
            b1 == ((w >> 8) & 0xff) as u8,
            b2 == ((w >> 16) & 0xff) as u8,
            b3 == ((w >> 24) & 0xff) as u8,
    ;
}

/// Decoding an encoding gives back the same bit patterns, whatever they are.
pub proof fn lemma_codec_round_trip(words: Seq<u32>)
    ensures
        decode_words(encode_words(words)) == words,
{
    let bytes = encode_words(words);
    lemma_encode_len(words);
    assert forall|i: int| 0 <= i < words.len() implies decode_words(bytes)[i] == words[i] by {
        lemma_encode_index(words, i, 0);
        lemma_encode_index(words, i, 1);
        lemma_encode_index(words, i, 2);
        lemma_encode_index(words, i, 3);
        lemma_word_round_trip(words[i]);
    }
    assert(decode_words(bytes) =~= words);
}

/// Writes `vector` as little-endian bytes.
pub fn serialize_vector(vector: &Vec<u32>) -> (bytes: Vec<u8>)
    ensures
        bytes@ == encode_words(vector@),
        bytes@.len() == 4 * vector@.len(),
{
    let mut bytes: Vec<u8> = Vec::new();
    let mut i: usize = 0;
    while i < vector.len()
        invariant
            i <= vector.len(),
            bytes@ == encode_words(vector@.take(i as int)),
        decreases vector.len() - i,
    {
        let w: u32 = vector[i];
        bytes.push((w & 0xff) as u8);
        bytes.push(((w >> 8) & 0xff) as u8);
        bytes.push(((w >> 16) & 0xff) as u8);
        bytes.push(((w >> 24) & 0xff) as u8);
        proof {
            let next = vector@.take(i as int + 1);
            assert(next.drop_last() =~= vector@.take(i as int));
            assert(next.last() == w);
            assert(bytes@ =~= encode_words(vector@.take(i as int)) + word_bytes(w));
        }
        i = i + 1;
    }
    proof {
        assert(vector@.take(i as int) =~= vector@);
        lemma_encode_len(vector@);
    }
    bytes
}

/// Reads the words stored in `bytes`, ignoring a trailing incomplete group.
pub fn deserialize_vector(bytes: &Vec<u8>) -> (vector: Vec<u32>)
    ensures
        vector@ == decode_words(bytes@),
{
    let n: usize = bytes.len() / 4;
    let mut vector: Vec<u32> = Vec::new();
    let mut i: usize = 0;
    while i < n
        invariant
            n == bytes.len() / 4,
            i <= n,
            vector@.len() == i,
            forall|k: int| 0 <= k < i ==> vector@[k] == decode_words(bytes@)[k],
        decreases n - i,
    {
        let b0: u8 = bytes[4 * i];
        let b1: u8 = bytes[4 * i + 1];
        let b2: u8 = bytes[4 * i + 2];
        let b3: u8 = bytes[4 * i + 3];
        let w: u32 = (b0 as u32) | ((b1 as u32) << 8) | ((b2 as u32) << 16) | ((b3 as u32) << 24);
        vector.push(w);
        i = i + 1;
    }
    proof {
        assert(vector@ =~= decode_words(bytes@));
    }
    vector
}

} // verus!
