//! Hex encoding of byte strings.
//!
//! Shard identifiers are the hex image of a client's public key; the
//! bootstrap document carries such identifiers as strings.  Encoding and
//! decoding are done by the `hex` crate; this module pins down exactly
//! what those calls return.

use vstd::prelude::*;

verus! {

/// The lowercase hex digit of a value below 16.
pub open spec fn hex_digit(n: int) -> char
    recommends
        0 <= n < 16,
{
    if n == 0 {
        '0'
    } else if n == 1 {
        '1'
    } else if n == 2 {
        '2'
    } else if n == 3 {
        '3'
    } else if n == 4 {
        '4'
    } else if n == 5 {
        '5'
    } else if n == 6 {
        '6'
    } else if n == 7 {
        '7'
    } else if n == 8 {
        '8'
    } else if n == 9 {
        '9'
    } else if n == 10 {
        'a'
    } else if n == 11 {
        'b'
    } else if n == 12 {
        'c'
    } else if n == 13 {
        'd'
    } else if n == 14 {
        'e'
    } else {
        'f'
    }
}

/// Whether a character is a hex digit, of either case.
pub open spec fn is_hex_char(c: char) -> bool {
    ('0' <= c && c <= '9') || ('a' <= c && c <= 'f') || ('A' <= c && c <= 'F')
}

/// The value of a hex digit, of either case.
pub open spec fn hex_char_val(c: char) -> int
    recommends
        is_hex_char(c),
{
    if '0' <= c && c <= '9' {
        c as int - '0' as int
    } else if 'a' <= c && c <= 'f' {
        c as int - 'a' as int + 10
    } else {
        c as int - 'A' as int + 10
    }
}

/// The lowercase hex image of a byte string: two digits per byte.
pub open spec fn spec_hex_lower(b: Seq<u8>) -> Seq<char>
    decreases b.len(),
{
    if b.len() == 0 {
        Seq::empty()
    } else {
        spec_hex_lower(b.drop_last()) + seq![
            hex_digit(b.last() as int / 16),
            hex_digit(b.last() as int % 16),
        ]
    }
}

/// Whether a string is a well-formed hex image: even length, digits only.
pub open spec fn valid_hex(s: Seq<char>) -> bool {
    s.len() % 2 == 0 && forall|i: int| 0 <= i < s.len() ==> is_hex_char(#[trigger] s[i])
}

/// The bytes read from a hex string, two digits at a time.
pub open spec fn spec_hex_decode(s: Seq<char>) -> Seq<u8>
    recommends
        valid_hex(s),
    decreases s.len(),
{
    if s.len() < 2 {
        Seq::empty()
    } else {
        spec_hex_decode(s.take(s.len() - 2)) + seq![
            (16 * hex_char_val(s[s.len() - 2]) + hex_char_val(s[s.len() - 1])) as u8,
        ]
    }
}

/// Relies on `hex::encode`: the result is the bytes rendered as two
/// lowercase hex digits each, in order.
#[verifier::external_body]
pub(crate) fn hex_encode(b: &[u8]) -> (r: String)
    ensures
        r@ == spec_hex_lower(b@),
{
    hex::encode(b)
}

/// Relies on `hex::decode`: it accepts exactly the even-length strings
/// of hex digits of either case, pairing the digits into bytes, and
/// rejects anything else.
#[verifier::external_body]
pub(crate) fn hex_decode(s: &str) -> (r: Option<Vec<u8>>)
    ensures
        match r {
            Some(v) => valid_hex(s@) && v@ == spec_hex_decode(s@),
            None => !valid_hex(s@),
        },
{
    hex::decode(s).ok()
}

/// Reading back the hex image of a byte string yields the bytes, and the
/// image is well formed.
pub proof fn lemma_hex_round_trip(b: Seq<u8>)
    ensures
        valid_hex(spec_hex_lower(b)),
        spec_hex_decode(spec_hex_lower(b)) == b,
    decreases b.len(),
{
    let s = spec_hex_lower(b);
    if b.len() == 0 {
        assert(s =~= Seq::<char>::empty());
        assert(spec_hex_decode(s) =~= b);
    } else {
        let rest = spec_hex_lower(b.drop_last());
        lemma_hex_round_trip(b.drop_last());
        let hi = b.last() as int / 16;
        let lo = b.last() as int % 16;
        assert(0 <= hi < 16 && 0 <= lo < 16);
        assert(is_hex_char(hex_digit(hi)) && hex_char_val(hex_digit(hi)) == hi);
        assert(is_hex_char(hex_digit(lo)) && hex_char_val(hex_digit(lo)) == lo);
        assert(s.len() == rest.len() + 2);
        assert forall|i: int| 0 <= i < s.len() implies is_hex_char(#[trigger] s[i]) by {
            if i < rest.len() {
                assert(s[i] == rest[i]);
            } else if i == rest.len() {
                assert(s[i] == hex_digit(hi));
            } else {
                assert(s[i] == hex_digit(lo));
            }
        }
        assert(s.take(s.len() - 2) =~= rest);
        assert(s[s.len() - 2] == hex_digit(hi) && s[s.len() - 1] == hex_digit(lo));
        assert(16 * hi + lo == b.last() as int);
        assert(spec_hex_decode(s) =~= b);
    }
}

/// Distinct byte strings have distinct hex images.
pub proof fn lemma_hex_lower_injective(a: Seq<u8>, b: Seq<u8>)
    requires
        spec_hex_lower(a) == spec_hex_lower(b),
    ensures
        a == b,
{
    lemma_hex_round_trip(a);
    lemma_hex_round_trip(b);
}

} // verus!
