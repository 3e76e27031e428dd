//! Bounded-memory processing: the input is taken one chunk at a time, and
//! the chunks' outputs, in order, are what a single pass would give.
use vstd::prelude::*;
use crate::codec::{
    HexError, decode_range, decode_spec, decode_pairs, decoded_before_failure, encode_range,
    encode_spec, hex_prefix_len, is_hex_digit, lemma_decode_pairs_concat, lemma_encode_concat,
    lemma_hex_prefix_len_at, lemma_hex_prefix_len_bounds,
};
use crate::text::clear_string;

verus! {

/// The most raw bytes held at once by a chunked encoding or decoding.
pub const BYTE_BUFFER_SIZE: usize = 4096;

/// The most hex digits held at once: the text of one byte chunk. Even, so
/// that no pair of digits is split between two chunks.
pub const HEX_BUFFER_SIZE: usize = BYTE_BUFFER_SIZE * 2;

/// Where the chunk that starts at `start` ends, for chunks of `size` items
/// out of `len`: the last chunk may be short.
pub open spec fn chunk_end(len: nat, start: nat, size: nat) -> nat {
    if start + size <= len {
        start + size
    } else {
        len
    }
}

/// The concatenated encodings of the chunks of `b` from `start` on.
pub open spec fn chunked_encode_from(b: Seq<u8>, size: nat, start: nat, lower: bool) -> Seq<char>
    decreases b.len() - start,
{
    if size == 0 || start >= b.len() {
        Seq::empty()
    } else {
        let end = chunk_end(b.len(), start, size);
        encode_spec(b.subrange(start as int, end as int), lower) + chunked_encode_from(
            b,
            size,
            end,
            lower,
        )
    }
}

/// Decoding the chunks of `h` from `start` on, one after the other: the
/// first chunk that fails ends it with that chunk's error; else the
/// decoded chunks, concatenated.
pub open spec fn chunked_decode_from(h: Seq<u8>, size: nat, start: nat) -> Result<Seq<u8>, HexError>
    decreases h.len() - start,
{
    if size == 0 || start >= h.len() {
        Ok(Seq::empty())
    } else {
        let end = chunk_end(h.len(), start, size);
        match decode_spec(h.subrange(start as int, end as int)) {
            Err(e) => Err(e),
            Ok(d) => match chunked_decode_from(h, size, end) {
                Ok(r) => Ok(d + r),
                Err(e) => Err(e),
            },
        }
    }
}

/// Encoding chunk by chunk gives the encoding of the whole input, for
/// every chunk size.
pub proof fn lemma_encode_chunked(b: Seq<u8>, size: nat, lower: bool)
    requires
        size > 0,
    ensures
        chunked_encode_from(b, size, 0, lower) == encode_spec(b, lower),
{
    lemma_encode_chunked_from(b, size, 0, lower);
    assert(b.subrange(0, b.len() as int) =~= b);
}

proof fn lemma_encode_chunked_from(b: Seq<u8>, size: nat, start: nat, lower: bool)
    requires
        size > 0,
        start <= b.len(),
    ensures
        chunked_encode_from(b, size, start, lower) == encode_spec(
            b.subrange(start as int, b.len() as int),
            lower,
        ),
    decreases b.len() - start,
{
    if start == b.len() {
        assert(b.subrange(start as int, b.len() as int) =~= Seq::<u8>::empty());
    } else {
        let end = chunk_end(b.len(), start, size);
        lemma_encode_chunked_from(b, size, end, lower);
        let x = b.subrange(start as int, end as int);
        let y = b.subrange(end as int, b.len() as int);
        assert(b.subrange(start as int, b.len() as int) =~= x + y);
        lemma_encode_concat(x, y, lower);
    }
}

/// Decoding `a + b`, where `a` has even length, is decoding `a` and then
/// `b`: the first error wins, else the results are concatenated.
pub proof fn lemma_decode_concat(a: Seq<u8>, b: Seq<u8>)
    requires
        a.len() % 2 == 0,
    ensures
        decode_spec(a + b) == match decode_spec(a) {
            Err(e) => Err(e),
            Ok(d) => match decode_spec(b) {
                Ok(r) => Ok(d + r),
                Err(e) => Err::<Seq<u8>, HexError>(e),
            },
        },
{
    let ab = a + b;
    lemma_hex_prefix_len_bounds(a);
    lemma_hex_prefix_len_bounds(b);
    let pa = hex_prefix_len(a);
    let pb = hex_prefix_len(b);
    if pa < a.len() {
        assert(forall|j: int| 0 <= j < pa ==> ab[j] == a[j]);
        assert(ab[pa as int] == a[pa as int]);
        lemma_hex_prefix_len_at(ab, pa);
    } else {
        assert forall|j: int| 0 <= j < a.len() + pb implies is_hex_digit(#[trigger] ab[j]) by {
            if j >= a.len() {
                assert(ab[j] == b[j - a.len()]);
            }
        }
        if pb < b.len() {
            assert(ab[(a.len() + pb) as int] == b[pb as int]);
        }
        lemma_hex_prefix_len_at(ab, a.len() + pb);
        lemma_decode_pairs_concat(a, b);
    }
}

/// Decoding chunk by chunk gives what decoding the whole text gives, the
/// same bytes or the same error, for every even chunk size.
pub proof fn lemma_decode_chunked(h: Seq<u8>, size: nat)
    requires
        size > 0,
        size % 2 == 0,
    ensures
        chunked_decode_from(h, size, 0) == decode_spec(h),
{
    lemma_decode_chunked_from(h, size, 0);
    assert(h.subrange(0, h.len() as int) =~= h);
}

proof fn lemma_decode_chunked_from(h: Seq<u8>, size: nat, start: nat)
    requires
        size > 0,
        size % 2 == 0,
        start <= h.len(),
    ensures
        chunked_decode_from(h, size, start) == decode_spec(h.subrange(start as int, h.len() as int)),
    decreases h.len() - start,
{
    if start == h.len() {
        let e = h.subrange(start as int, h.len() as int);
        assert(e =~= Seq::<u8>::empty());
        lemma_hex_prefix_len_at(e, 0);
        assert(decode_pairs(e) == Seq::<u8>::empty());
    } else {
        let end = chunk_end(h.len(), start, size);
        lemma_decode_chunked_from(h, size, end);
        let x = h.subrange(start as int, end as int);
        let y = h.subrange(end as int, h.len() as int);
        assert(h.subrange(start as int, h.len() as int) =~= x + y);
        if end < h.len() {
            lemma_decode_concat(x, y);
        } else {
            assert(y =~= Seq::<u8>::empty());
            assert(x + y =~= x);
            lemma_hex_prefix_len_at(y, 0);
            assert(decode_pairs(y) == Seq::<u8>::empty());
            assert(decode_spec(x) matches Ok(d) ==> d + Seq::<u8>::empty() == d);
        }
    }
}


/// Encodes the chunk of `bytes` that starts at `start` (at most `size`
/// bytes) into `res`, which is emptied first; returns where the chunk ends,
/// which is where the next one starts.
pub fn encode_chunk(bytes: &[u8], start: usize, size: usize, res: &mut String, lower: bool) -> (end: usize)
    requires
        size > 0,
        start <= bytes@.len(),
    ensures
        end == chunk_end(bytes@.len(), start as nat, size as nat),
        final(res)@ == encode_spec(bytes@.subrange(start as int, end as int), lower),
        start < bytes@.len() ==> chunked_encode_from(bytes@, size as nat, start as nat, lower)
            == final(res)@ + chunked_encode_from(bytes@, size as nat, end as nat, lower),
{
    let end = if size <= bytes.len() - start {
        start + size
    } else {
        bytes.len()
    };
    clear_string(res);
    encode_range(bytes, start, end, res, lower);
    proof {
        assert(res@ =~= encode_spec(bytes@.subrange(start as int, end as int), lower));
    }
    end
}

/// Decodes the chunk of the hex text `bytes` that starts at `start` (at
/// most `size` digits) into `res`, which is emptied first; returns where
/// the chunk ends, or the chunk's error. The even `size` keeps each pair of
/// digits within one chunk.
pub fn decode_chunk(bytes: &[u8], start: usize, size: usize, res: &mut Vec<u8>) -> (r: Result<usize, HexError>)
    requires
        size > 0,
        size % 2 == 0,
        start <= bytes@.len(),
    ensures
        ({
            let end = chunk_end(bytes@.len(), start as nat, size as nat);
            let h = bytes@.subrange(start as int, end as int);
            match decode_spec(h) {
                Ok(d) => r == Ok::<usize, HexError>(end as usize) && final(res)@ == d,
                Err(e) => r == Err::<usize, HexError>(e) && final(res)@ == decoded_before_failure(h),
            }
        }),
        start < bytes@.len() ==> match r {
            Ok(end) => chunked_decode_from(bytes@, size as nat, start as nat) == match chunked_decode_from(
                bytes@,
                size as nat,
                end as nat,
            ) {
                Ok(rest) => Ok(final(res)@ + rest),
                Err(e) => Err::<Seq<u8>, HexError>(e),
            },
            Err(e) => chunked_decode_from(bytes@, size as nat, start as nat) == Err::<Seq<u8>, HexError>(e),
        },
{
    let end = if size <= bytes.len() - start {
        start + size
    } else {
        bytes.len()
    };
    res.clear();
    let ghost h = bytes@.subrange(start as int, end as int);
    match decode_range(bytes, start, end, res) {
        Ok(()) => {
            proof {
                assert(res@ =~= decode_spec(h)->Ok_0);
            }
            Ok(end)
        },
        Err(e) => {
            proof {
                assert(res@ =~= decoded_before_failure(h));
            }
            Err(e)
        },
    }
}

} // verus!
