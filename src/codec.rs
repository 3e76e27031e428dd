//! The encoder and decoder: byte sequences to hex text and back.
use vstd::prelude::*;
use crate::text::push_char;

verus! {

/// The lowercase digit alphabet, indexed by nibble value.
pub const LOWER: [char; 16] = ['0', '1', '2', '3', '4', '5', '6', '7', '8', '9', 'a', 'b', 'c', 'd', 'e', 'f'];

/// The uppercase digit alphabet, indexed by nibble value.
pub const UPPER: [char; 16] = ['0', '1', '2', '3', '4', '5', '6', '7', '8', '9', 'A', 'B', 'C', 'D', 'E', 'F'];

/// The digit for nibble `n` (0 to 15) in the chosen alphabet.
pub open spec fn hex_digit(n: u8, lower: bool) -> char {
    if n < 10 {
        seq!['0', '1', '2', '3', '4', '5', '6', '7', '8', '9'][n as int]
    } else if lower {
        seq!['a', 'b', 'c', 'd', 'e', 'f'][n - 10]
    } else {
        seq!['A', 'B', 'C', 'D', 'E', 'F'][n - 10]
    }
}

/// The two digits of one byte: high nibble, then low nibble.
pub open spec fn byte_hex(x: u8, lower: bool) -> Seq<char> {
    seq![hex_digit(x / 16, lower), hex_digit(x % 16, lower)]
}

/// The hex text of a byte sequence: two digits per byte, in order.
pub open spec fn encode_spec(b: Seq<u8>, lower: bool) -> Seq<char>
    decreases b.len(),
{
    if b.len() == 0 {
        Seq::empty()
    } else {
        byte_hex(b[0], lower) + encode_spec(b.drop_first(), lower)
    }
}

/// Encoding a concatenation encodes each part.
pub proof fn lemma_encode_concat(a: Seq<u8>, b: Seq<u8>, lower: bool)
    ensures
        encode_spec(a + b, lower) == encode_spec(a, lower) + encode_spec(b, lower),
    decreases a.len(),
{
    if a.len() == 0 {
        assert(a + b =~= b);
    } else {
        assert((a + b).drop_first() =~= a.drop_first() + b);
        lemma_encode_concat(a.drop_first(), b, lower);
    }
}

/// Every byte encodes to exactly two digits.
pub proof fn lemma_encode_len(b: Seq<u8>, lower: bool)
    ensures
        encode_spec(b, lower).len() == 2 * b.len(),
    decreases b.len(),
{
    if b.len() > 0 {
        lemma_encode_len(b.drop_first(), lower);
    }
}

/// The digit of nibble `n` from the alphabet's table.
fn digit_char(n: u8, lower: bool) -> (c: char)
    requires
        n < 16,
    ensures
        c == hex_digit(n, lower),
{
    if lower {
        LOWER[n as usize]
    } else {
        UPPER[n as usize]
    }
}

/// Encodes `bytes[start..end]` and appends the digits to `res`.
pub(crate) fn encode_range(bytes: &[u8], start: usize, end: usize, res: &mut String, lower: bool)
    requires
        start <= end <= bytes@.len(),
    ensures
        final(res)@ == old(res)@ + encode_spec(bytes@.subrange(start as int, end as int), lower),
{
    let mut i: usize = start;
    while i < end
        invariant
            start <= i <= end <= bytes@.len(),
            res@ == old(res)@ + encode_spec(bytes@.subrange(start as int, i as int), lower),
        decreases end - i,
    {
        let byte = bytes[i];
        let hi = byte >> 4;
        let lo = byte & 15;
        assert(hi == byte / 16 && lo == byte % 16) by (bit_vector)
            requires
                hi == byte >> 4,
                lo == byte & 15,
        ;
        push_char(res, digit_char(hi, lower));
        push_char(res, digit_char(lo, lower));
        proof {
            let done = bytes@.subrange(start as int, i as int);
            let one = seq![byte];
            assert(bytes@.subrange(start as int, i + 1) =~= done + one);
            lemma_encode_concat(done, one, lower);
            assert(encode_spec(one, lower) =~= byte_hex(byte, lower)) by {
                assert(one.drop_first() =~= Seq::<u8>::empty());
                assert(encode_spec(one.drop_first(), lower) == Seq::<char>::empty());
            }
        }
        i = i + 1;
    }
}

/// Appends the hex text of `bytes` to `res`, two digits per byte, from
/// the lowercase alphabet when `lower` holds and the uppercase one else.
pub fn hex_encode(bytes: &[u8], res: &mut String, lower: bool)
    ensures
        final(res)@ == old(res)@ + encode_spec(bytes@, lower),
        final(res)@.len() == old(res)@.len() + 2 * bytes@.len(),
{
    encode_range(bytes, 0, bytes.len(), res, lower);
    proof {
        assert(bytes@.subrange(0, bytes@.len() as int) =~= bytes@);
        lemma_encode_len(bytes@, lower);
    }
}

/// Why a hex text could not be decoded.
#[derive(Debug, Clone, Copy, PartialEq, Eq, Structural)]
pub enum HexError {
    /// A byte outside `0-9`, `A-F` and `a-f`; it carries that byte.
    InvalidChar(u8),
    /// The text ends in a single digit that completes no byte.
    OddLength,
}

/// Whether `c` is the ASCII code of a hex digit, in either case.
pub open spec fn is_hex_digit(c: u8) -> bool {
    (48 <= c && c <= 57) || (65 <= c && c <= 70) || (97 <= c && c <= 102)
}

/// The value (0 to 15) of a hex digit.
pub open spec fn nibble_value(c: u8) -> u8 {
    if 48 <= c && c <= 57 {
        (c - 48) as u8
    } else if 65 <= c && c <= 70 {
        (c - 55) as u8
    } else {
        (c - 87) as u8
    }
}

/// Maps one ASCII hex digit to its value; any other byte is refused.
pub fn hex_value(byte: u8) -> (r: Result<u8, HexError>)
    ensures
        is_hex_digit(byte) ==> r == Ok::<u8, HexError>(nibble_value(byte)),
        !is_hex_digit(byte) ==> r == Err::<u8, HexError>(HexError::InvalidChar(byte)),
{
    if 48 <= byte && byte <= 57 {
        Ok(byte - 48)
    } else if 65 <= byte && byte <= 70 {
        Ok(byte - 55)
    } else if 97 <= byte && byte <= 102 {
        Ok(byte - 87)
    } else {
        Err(HexError::InvalidChar(byte))
    }
}


/// How many bytes at the start of `h` are hex digits.
pub open spec fn hex_prefix_len(h: Seq<u8>) -> nat
    decreases h.len(),
{
    if h.len() == 0 || !is_hex_digit(h[0]) {
        0
    } else {
        1 + hex_prefix_len(h.drop_first())
    }
}

/// The byte whose high nibble is the digit `hi` and low nibble the digit `lo`.
pub open spec fn pair_byte(hi: u8, lo: u8) -> u8 {
    (nibble_value(hi) * 16 + nibble_value(lo)) as u8
}

/// The bytes that the complete digit pairs of `h` stand for, in order.
pub open spec fn decode_pairs(h: Seq<u8>) -> Seq<u8>
    decreases h.len(),
{
    if h.len() < 2 {
        Seq::empty()
    } else {
        seq![pair_byte(h[0], h[1])] + decode_pairs(h.subrange(2, h.len() as int))
    }
}

/// What decoding `h` gives: the first byte that is no hex digit is refused;
/// else a text of odd length is refused; else every pair makes one byte.
pub open spec fn decode_spec(h: Seq<u8>) -> Result<Seq<u8>, HexError> {
    let p = hex_prefix_len(h);
    if p < h.len() {
        Err(HexError::InvalidChar(h[p as int]))
    } else if h.len() % 2 == 1 {
        Err(HexError::OddLength)
    } else {
        Ok(decode_pairs(h))
    }
}

/// The bytes that a decoding of `h` has appended when it stops: one for
/// each complete pair before the point of failure.
pub open spec fn decoded_before_failure(h: Seq<u8>) -> Seq<u8> {
    decode_pairs(h.subrange(0, 2 * (hex_prefix_len(h) / 2) as int))
}

/// `p` is the length of the run of hex digits that starts `h`.
pub proof fn lemma_hex_prefix_len_at(h: Seq<u8>, p: nat)
    requires
        p <= h.len(),
        forall|j: int| 0 <= j < p ==> is_hex_digit(#[trigger] h[j]),
        p == h.len() || !is_hex_digit(h[p as int]),
    ensures
        hex_prefix_len(h) == p,
    decreases p,
{
    if p > 0 {
        assert(is_hex_digit(h[0]));
        lemma_hex_prefix_len_at(h.drop_first(), (p - 1) as nat);
    }
}

/// The run of hex digits that starts `h` ends at the end or at a non-digit.
pub proof fn lemma_hex_prefix_len_bounds(h: Seq<u8>)
    ensures
        hex_prefix_len(h) <= h.len(),
        forall|j: int| 0 <= j < hex_prefix_len(h) ==> is_hex_digit(#[trigger] h[j]),
        hex_prefix_len(h) == h.len() || !is_hex_digit(h[hex_prefix_len(h) as int]),
    decreases h.len(),
{
    if h.len() > 0 && is_hex_digit(h[0]) {
        let t = h.drop_first();
        lemma_hex_prefix_len_bounds(t);
        assert forall|j: int| 0 <= j < hex_prefix_len(h) implies is_hex_digit(#[trigger] h[j]) by {
            if j > 0 {
                assert(h[j] == t[j - 1]);
            }
        }
    }
}

/// Pairs do not straddle the seam of `a + b` when `a` has even length.
pub proof fn lemma_decode_pairs_concat(a: Seq<u8>, b: Seq<u8>)
    requires
        a.len() % 2 == 0,
    ensures
        decode_pairs(a + b) == decode_pairs(a) + decode_pairs(b),
    decreases a.len(),
{
    if a.len() == 0 {
        assert(a + b =~= b);
    } else {
        let rest = a.subrange(2, a.len() as int);
        assert((a + b).subrange(2, (a + b).len() as int) =~= rest + b);
        lemma_decode_pairs_concat(rest, b);
        assert(decode_pairs(a + b) =~= decode_pairs(a) + decode_pairs(b));
    }
}

/// Decodes `bytes[start..end]` and appends the bytes to `res`.
pub(crate) fn decode_range(bytes: &[u8], start: usize, end: usize, res: &mut Vec<u8>) -> (r: Result<(), HexError>)
    requires
        start <= end <= bytes@.len(),
    ensures
        ({
            let h = bytes@.subrange(start as int, end as int);
            match decode_spec(h) {
                Ok(d) => r is Ok && final(res)@ == old(res)@ + d,
                Err(e) => r == Err::<(), HexError>(e) && final(res)@ == old(res)@ + decoded_before_failure(h),
            }
        }),
{
    let ghost h = bytes@.subrange(start as int, end as int);
    let mut i: usize = start;
    while i < end
        invariant
            start <= i <= end <= bytes@.len(),
            h == bytes@.subrange(start as int, end as int),
            (i - start) % 2 == 0,
            forall|j: int| start <= j < i ==> is_hex_digit(#[trigger] bytes@[j]),
            res@ == old(res)@ + decode_pairs(bytes@.subrange(start as int, i as int)),
        decreases end - i,
    {
        let ghost done = bytes@.subrange(start as int, i as int);
        proof {
            assert(h.subrange(0, i - start) =~= done);
            assert forall|j: int| 0 <= j < i - start implies is_hex_digit(#[trigger] h[j]) by {
                assert(h[j] == bytes@[start + j]);
            }
        }
        let hi = match hex_value(bytes[i]) {
            Ok(v) => v,
            Err(e) => {
                proof {
                    lemma_hex_prefix_len_at(h, (i - start) as nat);
                    assert(2 * ((i - start) as nat / 2) == i - start);
                }
                return Err(e);
            },
        };
        if i + 1 == end {
            proof {
                lemma_hex_prefix_len_at(h, h.len());
                assert(2 * (h.len() / 2) == i - start);
            }
            return Err(HexError::OddLength);
        }
        let lo = match hex_value(bytes[i + 1]) {
            Ok(v) => v,
            Err(e) => {
                proof {
                    lemma_hex_prefix_len_at(h, (i + 1 - start) as nat);
                    assert(2 * ((i + 1 - start) as nat / 2) == i - start);
                }
                return Err(e);
            },
        };
        let byte = (hi << 4) | lo;
        assert(byte == hi * 16 + lo) by (bit_vector)
            requires
                hi < 16,
                lo < 16,
                byte == (hi << 4) | lo,
        ;
        res.push(byte);
        proof {
            let two = bytes@.subrange(i as int, i + 2);
            assert(bytes@.subrange(start as int, i + 2) =~= done + two);
            lemma_decode_pairs_concat(done, two);
            assert(two.subrange(2, 2) =~= Seq::<u8>::empty());
            assert(decode_pairs(two.subrange(2, 2)) == Seq::<u8>::empty());
            assert(decode_pairs(two) =~= seq![byte]);
        }
        i = i + 2;
    }
    proof {
        assert(bytes@.subrange(start as int, i as int) =~= h);
        assert forall|j: int| 0 <= j < h.len() implies is_hex_digit(#[trigger] h[j]) by {
            assert(h[j] == bytes@[start + j]);
        }
        lemma_hex_prefix_len_at(h, h.len());
    }
    Ok(())
}

/// Decodes the hex text `bytes`, two digits per byte, and appends the bytes
/// to `res`. Fails on the first byte that is no hex digit, else on a text
/// of odd length; by then the pairs before the failure have been appended.
pub fn hex_decode(bytes: &[u8], res: &mut Vec<u8>) -> (r: Result<(), HexError>)
    ensures
        match decode_spec(bytes@) {
            Ok(d) => r is Ok && final(res)@ == old(res)@ + d,
            Err(e) => r == Err::<(), HexError>(e) && final(res)@ == old(res)@ + decoded_before_failure(bytes@),
        },
{
    proof {
        assert(bytes@.subrange(0, bytes@.len() as int) =~= bytes@);
    }
    decode_range(bytes, 0, bytes.len(), res)
}


/// The ASCII codes of a text whose characters are all ASCII, as `as_bytes`
/// gives them.
pub open spec fn text_bytes(s: Seq<char>) -> Seq<u8> {
    Seq::new(s.len(), |i: int| s[i] as u8)
}

/// Each digit of either alphabet is a hex digit whose value is its nibble.
pub proof fn lemma_digit_value(n: u8, lower: bool)
    requires
        n < 16,
    ensures
        is_hex_digit(hex_digit(n, lower) as u8),
        nibble_value(hex_digit(n, lower) as u8) == n,
{
}

/// The ASCII codes of an encoding are hex digits, two per byte, and their
/// pairs give the bytes back.
pub proof fn lemma_encoded_text(b: Seq<u8>, lower: bool)
    ensures
        text_bytes(encode_spec(b, lower)).len() == 2 * b.len(),
        forall|j: int|
            0 <= j < 2 * b.len() ==> is_hex_digit(#[trigger] text_bytes(encode_spec(b, lower))[j]),
        decode_pairs(text_bytes(encode_spec(b, lower))) == b,
    decreases b.len(),
{
    lemma_encode_len(b, lower);
    if b.len() > 0 {
        let rest = b.drop_first();
        let x = b[0];
        let t = text_bytes(encode_spec(b, lower));
        let tr = text_bytes(encode_spec(rest, lower));
        lemma_encoded_text(rest, lower);
        lemma_digit_value(x / 16, lower);
        lemma_digit_value(x % 16, lower);
        assert(t =~= seq![hex_digit(x / 16, lower) as u8, hex_digit(x % 16, lower) as u8] + tr);
        assert forall|j: int| 0 <= j < 2 * b.len() implies is_hex_digit(#[trigger] t[j]) by {
            if j >= 2 {
                assert(t[j] == tr[j - 2]);
            }
        }
        assert(t.subrange(2, t.len() as int) =~= tr);
        assert(pair_byte(t[0], t[1]) == x);
        assert(decode_pairs(t) =~= b);
    }
}

/// Decoding the encoding of any byte sequence, in either alphabet, gives
/// the sequence back.
pub proof fn lemma_decode_encode(b: Seq<u8>, lower: bool)
    ensures
        decode_spec(text_bytes(encode_spec(b, lower))) == Ok::<Seq<u8>, HexError>(b),
{
    let t = text_bytes(encode_spec(b, lower));
    lemma_encoded_text(b, lower);
    lemma_hex_prefix_len_at(t, t.len());
}

/// Decoding does not depend on the alphabet the text was encoded with.
pub proof fn lemma_decode_case_blind(b: Seq<u8>)
    ensures
        decode_spec(text_bytes(encode_spec(b, true))) == decode_spec(text_bytes(encode_spec(b, false))),
        decode_spec(text_bytes(encode_spec(b, false))) == Ok::<Seq<u8>, HexError>(b),
{
    lemma_decode_encode(b, true);
    lemma_decode_encode(b, false);
}

/// The pairs of `h` make half as many bytes as `h` has digits.
pub proof fn lemma_decode_pairs_len(h: Seq<u8>)
    ensures
        decode_pairs(h).len() == h.len() / 2,
    decreases h.len(),
{
    if h.len() >= 2 {
        lemma_decode_pairs_len(h.subrange(2, h.len() as int));
    }
}

/// An encoding has two digits per byte; a successful decoding has one byte
/// per two digits, and a text of even length decodes or is refused for a
/// byte that is no hex digit.
pub proof fn lemma_lengths(b: Seq<u8>, h: Seq<u8>, lower: bool)
    ensures
        encode_spec(b, lower).len() == 2 * b.len(),
        decode_spec(h) is Ok ==> decode_spec(h)->Ok_0.len() == h.len() / 2,
        h.len() % 2 == 0 ==> (decode_spec(h) is Ok || decode_spec(h)->Err_0 is InvalidChar),
{
    lemma_encode_len(b, lower);
    lemma_decode_pairs_len(h);
}

} // verus!
