//! CBOR encoding of the data that crosses the wire or sits in files.
//!
//! Two record shapes are fixed: a shard (an array of `[key, value]`
//! pairs, each value a one-entry map from its type name to its payload)
//! and a certificate (a map with the fields `public_key` and
//! `private_key` as 32-byte strings).  The encoder writes the canonical
//! form - minimal-width length heads - and the decoder accepts exactly
//! that form.

use vstd::prelude::*;

use vstd::utf8::{decode_utf8, encode_utf8, valid_utf8};
use crate::coffer::{CofferShard, CofferValue, ValueView};
use crate::wire::{
    spec_u32_be, spec_u32_from_be, spec_u64_be, spec_u64_from_be, push_u32_be, push_u64_be,
    u32_be_at, u64_be_at, bytes_eq, sub_vec, lemma_u32_be_round_trip, lemma_u32_be_canonical,
    lemma_u64_be_round_trip, lemma_u64_be_canonical,
};
use crate::coffer::pairs_view;

verus! {

/// The canonical CBOR head: major type and minimal-width argument.
pub open spec fn spec_head(major: int, n: nat) -> Seq<u8>
    recommends
        0 <= major < 8,
        n <= u64::MAX,
{
    if n < 24 {
        seq![(major * 32 + n) as u8]
    } else if n <= 0xff {
        seq![(major * 32 + 24) as u8, n as u8]
    } else if n <= 0xffff {
        seq![(major * 32 + 25) as u8, (n / 256) as u8, (n % 256) as u8]
    } else if n <= 0xffffffff {
        seq![(major * 32 + 26) as u8] + spec_u32_be(n as u32)
    } else {
        seq![(major * 32 + 27) as u8] + spec_u64_be(n as u64)
    }
}

/// A text string: head of major 3, then the UTF-8 bytes.
pub open spec fn spec_text(s: Seq<char>) -> Seq<u8> {
    spec_head(3, encode_utf8(s).len()) + encode_utf8(s)
}

/// A byte string: head of major 2, then the bytes.
pub open spec fn spec_byte_str(b: Seq<u8>) -> Seq<u8> {
    spec_head(2, b.len()) + b
}

/// An integer: major 0 for a value, major 1 for `-1 - value`.
pub open spec fn spec_int(i: int) -> Seq<u8> {
    if i >= 0 {
        spec_head(0, i as nat)
    } else {
        spec_head(1, (-1 - i) as nat)
    }
}

/// One coffer value: a one-entry map from the type name to the payload.
pub open spec fn spec_value(v: ValueView) -> Seq<u8> {
    match v {
        ValueView::Str(s) => seq![0xa1u8] + spec_text("String"@) + spec_text(s),
        ValueView::Integer(i) => seq![0xa1u8] + spec_text("Integer"@) + spec_int(i),
        ValueView::Float(bits) => seq![0xa1u8] + spec_text("Float"@) + seq![0xfau8] + spec_u32_be(
            bits,
        ),
        ValueView::Boolean(b) => seq![0xa1u8] + spec_text("Boolean"@) + seq![
            if b {
                0xf5u8
            } else {
                0xf4u8
            },
        ],
    }
}

/// One `[key, value]` pair: a two-element array.
pub open spec fn spec_pair(k: Seq<char>, v: ValueView) -> Seq<u8> {
    seq![0x82u8] + spec_text(k) + spec_value(v)
}

/// The concatenated encodings of a sequence of pairs.
pub open spec fn spec_pairs(ps: Seq<(Seq<char>, ValueView)>) -> Seq<u8>
    decreases ps.len(),
{
    if ps.len() == 0 {
        Seq::empty()
    } else {
        spec_pair(ps[0].0, ps[0].1) + spec_pairs(ps.drop_first())
    }
}

/// A whole shard: an array head, then the pairs.
pub open spec fn spec_shard_cbor(ps: Seq<(Seq<char>, ValueView)>) -> Seq<u8> {
    spec_head(4, ps.len()) + spec_pairs(ps)
}

/// A certificate record: a two-field map of the key halves.
pub open spec fn spec_cert_cbor(pk: Seq<u8>, sk: Seq<u8>) -> Seq<u8> {
    seq![0xa2u8] + spec_text("public_key"@) + spec_byte_str(pk) + spec_text("private_key"@)
        + spec_byte_str(sk)
}

/// Appending one pair extends the pair encoding at the end.
pub proof fn lemma_spec_pairs_push(ps: Seq<(Seq<char>, ValueView)>, k: Seq<char>, v: ValueView)
    ensures
        spec_pairs(ps.push((k, v))) == spec_pairs(ps) + spec_pair(k, v),
    decreases ps.len(),
{
    let q = ps.push((k, v));
    if ps.len() == 0 {
        assert(q[0] == (k, v));
        assert(q.drop_first() =~= Seq::<(Seq<char>, ValueView)>::empty());
        assert(spec_pairs(q.drop_first()) == Seq::<u8>::empty());
        assert(spec_pairs(q) == spec_pair(k, v) + Seq::<u8>::empty());
        assert(spec_pairs(ps) == Seq::<u8>::empty());
        assert(spec_pairs(q) =~= spec_pairs(ps) + spec_pair(k, v));
    } else {
        assert(q[0] == ps[0]);
        assert(q.drop_first() =~= ps.drop_first().push((k, v)));
        lemma_spec_pairs_push(ps.drop_first(), k, v);
        assert(spec_pairs(q) == spec_pair(ps[0].0, ps[0].1) + spec_pairs(ps.drop_first().push((k, v))));
        assert(spec_pairs(ps) == spec_pair(ps[0].0, ps[0].1) + spec_pairs(ps.drop_first()));
        vstd::seq_lib::lemma_concat_associative(
            spec_pair(ps[0].0, ps[0].1),
            spec_pairs(ps.drop_first()),
            spec_pair(k, v),
        );
    }
}

/// Append the canonical head for `major` and argument `n`.
pub fn push_head(out: &mut Vec<u8>, major: u8, n: u64)
    requires
        major < 8,
    ensures
        final(out)@ == old(out)@ + spec_head(major as int, n as nat),
{
    if n < 24 {
        out.push(major * 32 + (n as u8));
        assert(out@ =~= old(out)@ + spec_head(major as int, n as nat));
    } else if n <= 0xff {
        out.push(major * 32 + 24);
        out.push(n as u8);
        assert(out@ =~= old(out)@ + spec_head(major as int, n as nat));
    } else if n <= 0xffff {
        out.push(major * 32 + 25);
        out.push((n / 256) as u8);
        out.push((n % 256) as u8);
        assert(out@ =~= old(out)@ + spec_head(major as int, n as nat));
    } else if n <= 0xffffffff {
        out.push(major * 32 + 26);
        push_u32_be(out, n as u32);
        assert(out@ =~= old(out)@ + spec_head(major as int, n as nat));
    } else {
        out.push(major * 32 + 27);
        push_u64_be(out, n);
        assert(out@ =~= old(out)@ + spec_head(major as int, n as nat));
    }
}

/// Append a text string.
pub fn push_text(out: &mut Vec<u8>, s: &str)
    ensures
        final(out)@ == old(out)@ + spec_text(s@),
{
    let b = s.as_bytes();
    push_head(out, 3, b.len() as u64);
    out.extend_from_slice(b);
    assert(out@ =~= old(out)@ + spec_text(s@));
}

/// Append a byte string.
pub fn push_byte_str(out: &mut Vec<u8>, b: &[u8])
    ensures
        final(out)@ == old(out)@ + spec_byte_str(b@),
{
    push_head(out, 2, b.len() as u64);
    out.extend_from_slice(b);
    assert(out@ =~= old(out)@ + spec_byte_str(b@));
}

/// Append an integer.
pub fn push_int(out: &mut Vec<u8>, i: i32)
    ensures
        final(out)@ == old(out)@ + spec_int(i as int),
{
    if i >= 0 {
        push_head(out, 0, i as u64);
    } else {
        let m: i64 = -1 - (i as i64);
        assert(m == -1 - (i as int));
        push_head(out, 1, m as u64);
    }
}

/// Append one value.
pub fn push_value(out: &mut Vec<u8>, v: &CofferValue)
    ensures
        final(out)@ == old(out)@ + spec_value(v@),
{
    out.push(0xa1);
    match v {
        CofferValue::Str(s) => {
            push_text(out, "String");
            push_text(out, s.as_str());
        },
        CofferValue::Integer(i) => {
            push_text(out, "Integer");
            push_int(out, *i);
        },
        CofferValue::Float(bits) => {
            push_text(out, "Float");
            out.push(0xfa);
            push_u32_be(out, *bits);
        },
        CofferValue::Boolean(b) => {
            push_text(out, "Boolean");
            if *b {
                out.push(0xf5);
            } else {
                out.push(0xf4);
            }
        },
    }
    assert(out@ =~= old(out)@ + spec_value(v@));
}

/// Serialize a shard to its canonical CBOR bytes.
pub fn shard_to_cbor(shard: &CofferShard) -> (r: Vec<u8>)
    ensures
        r@ == spec_shard_cbor(shard@),
{
    let mut out: Vec<u8> = Vec::new();
    let n = shard.0.len();
    push_head(&mut out, 4, n as u64);
    proof {
        assert(spec_pairs(shard@.take(0)) =~= Seq::<u8>::empty());
        assert(out@ =~= spec_head(4, shard@.len()) + spec_pairs(shard@.take(0)));
    }
    let mut i: usize = 0;
    while i < n
        invariant
            n == shard.0.len(),
            i <= n,
            shard@.len() == n,
            out@ == spec_head(4, shard@.len()) + spec_pairs(shard@.take(i as int)),
        decreases n - i,
    {
        let ghost pre = out@;
        out.push(0x82);
        push_text(&mut out, shard.0[i].0.as_str());
        push_value(&mut out, &shard.0[i].1);
        proof {
            let pr = shard@[i as int];
            assert(pr == (shard.0@[i as int].0@, shard.0@[i as int].1@));
            assert(out@ =~= pre + spec_pair(pr.0, pr.1));
            assert(shard@.take(i as int + 1) =~= shard@.take(i as int).push(pr));
            lemma_spec_pairs_push(shard@.take(i as int), pr.0, pr.1);
        }
        i = i + 1;
    }
    proof {
        assert(shard@.take(n as int) =~= shard@);
    }
    out
}

/// Parse a canonical head of the given major type at `pos`: the
/// argument and the position after the head.  Non-minimal encodings are
/// refused.
pub open spec fn parse_head(b: Seq<u8>, pos: int, major: int) -> Option<(nat, int)>
    recommends
        0 <= major < 8,
{
    if pos < 0 || pos >= b.len() || b[pos] as int / 32 != major {
        None
    } else {
        let ai = b[pos] as int % 32;
        if ai < 24 {
            Some((ai as nat, pos + 1))
        } else if ai == 24 {
            if pos + 2 <= b.len() && b[pos + 1] >= 24 {
                Some((b[pos + 1] as nat, pos + 2))
            } else {
                None
            }
        } else if ai == 25 {
            if pos + 3 <= b.len() && b[pos + 1] as int * 256 + b[pos + 2] as int > 0xff {
                Some(((b[pos + 1] as int * 256 + b[pos + 2] as int) as nat, pos + 3))
            } else {
                None
            }
        } else if ai == 26 {
            if pos + 5 <= b.len() && spec_u32_from_be(b.subrange(pos + 1, pos + 5)) > 0xffff {
                Some((spec_u32_from_be(b.subrange(pos + 1, pos + 5)) as nat, pos + 5))
            } else {
                None
            }
        } else if ai == 27 {
            if pos + 9 <= b.len() && spec_u64_from_be(b.subrange(pos + 1, pos + 9)) > 0xffffffff {
                Some((spec_u64_from_be(b.subrange(pos + 1, pos + 9)) as nat, pos + 9))
            } else {
                None
            }
        } else {
            None
        }
    }
}

/// One byte of a block known to stand at `pos` in `b`.
proof fn lemma_seq_prefix_index(b: Seq<u8>, pos: int, h: Seq<u8>, i: int)
    requires
        0 <= pos,
        0 <= i < h.len(),
        pos + h.len() <= b.len(),
        b.subrange(pos, pos + h.len()) == h,
    ensures
        b[pos + i] == h[i],
{
    assert(b.subrange(pos, pos + h.len() as int)[i] == b[pos + i]);
}

/// One slice of a block known to stand at `pos` in `b`.
proof fn lemma_seq_slice_of_prefix(b: Seq<u8>, pos: int, h: Seq<u8>, lo: int, hi: int)
    requires
        0 <= pos,
        0 <= lo <= hi <= h.len(),
        pos + h.len() <= b.len(),
        b.subrange(pos, pos + h.len()) == h,
    ensures
        b.subrange(pos + lo, pos + hi) == h.subrange(lo, hi),
{
    assert forall|k: int| 0 <= k < hi - lo implies b.subrange(pos + lo, pos + hi)[k] == h.subrange(
        lo,
        hi,
    )[k] by {
        assert(b.subrange(pos, pos + h.len() as int)[lo + k] == b[pos + (lo + k)]);
        assert(b.subrange(pos + lo, pos + hi)[k] == b[(pos + lo) + k]);
    }
    assert(b.subrange(pos + lo, pos + hi) =~= h.subrange(lo, hi));
}

/// A parsed head covers exactly the canonical head bytes.
pub proof fn lemma_parse_head_sound(b: Seq<u8>, pos: int, major: int)
    requires
        0 <= major < 8,
        parse_head(b, pos, major) is Some,
    ensures
        ({
            let (n, p2) = parse_head(b, pos, major)->Some_0;
            &&& pos < p2 <= b.len()
            &&& n <= u64::MAX
            &&& p2 - pos == spec_head(major, n).len()
            &&& b.subrange(pos, p2) == spec_head(major, n)
        }),
{
    let (n, p2) = parse_head(b, pos, major)->Some_0;
    let ai = b[pos] as int % 32;
    vstd::arithmetic::div_mod::lemma_fundamental_div_mod(b[pos] as int, 32);
    assert(b[pos] as int == major * 32 + ai);
    if ai < 24 {
        assert(b[pos] == (major * 32 + n) as u8);
        assert(b.subrange(pos, p2) =~= spec_head(major, n));
    } else if ai == 24 {
        assert(b[pos] == (major * 32 + 24) as u8);
        assert(b.subrange(pos, p2) =~= spec_head(major, n));
    } else if ai == 25 {
        let hi = b[pos + 1] as int;
        let lo = b[pos + 2] as int;
        assert(n == hi * 256 + lo);
        assert(n / 256 == hi && n % 256 == lo) by {
            vstd::arithmetic::div_mod::lemma_fundamental_div_mod_converse(n as int, 256, hi, lo);
        }
        assert(b.subrange(pos, p2) =~= spec_head(major, n));
    } else if ai == 26 {
        let s = b.subrange(pos + 1, pos + 5);
        lemma_u32_be_canonical(s);
        assert(n as u32 == spec_u32_from_be(s));
        assert(spec_u32_be(n as u32) == s);
        assert(b.subrange(pos, p2) =~= seq![(major * 32 + 26) as u8] + spec_u32_be(n as u32));
    } else {
        let s = b.subrange(pos + 1, pos + 9);
        lemma_u64_be_canonical(s);
        assert(n as u64 == spec_u64_from_be(s));
        assert(spec_u64_be(n as u64) == s);
        assert(b.subrange(pos, p2) =~= seq![(major * 32 + 27) as u8] + spec_u64_be(n as u64));
    }
}

/// A canonical head standing at `pos` is parsed back as written.
pub proof fn lemma_parse_head_complete(b: Seq<u8>, pos: int, major: int, n: nat)
    requires
        0 <= major < 8,
        n <= u64::MAX,
        0 <= pos,
        pos + spec_head(major, n).len() <= b.len(),
        b.subrange(pos, pos + spec_head(major, n).len()) == spec_head(major, n),
    ensures
        parse_head(b, pos, major) == Some((n, pos + spec_head(major, n).len())),
{
    let h = spec_head(major, n);
    lemma_seq_prefix_index(b, pos, h, 0);
    if n < 24 {
        assert(b[pos] as int == major * 32 + n);
        assert(b[pos] as int / 32 == major && b[pos] as int % 32 == n) by {
            vstd::arithmetic::div_mod::lemma_fundamental_div_mod_converse(
                major * 32 + n,
                32,
                major,
                n as int,
            );
        }
    } else if n <= 0xff {
        lemma_seq_prefix_index(b, pos, h, 1);
        assert(b[pos] as int == major * 32 + 24);
        assert(b[pos] as int / 32 == major && b[pos] as int % 32 == 24) by {
            vstd::arithmetic::div_mod::lemma_fundamental_div_mod_converse(
                major * 32 + 24,
                32,
                major,
                24,
            );
        }
        assert(b[pos + 1] == n as u8);
        assert(b[pos + 1] as nat == n);
    } else if n <= 0xffff {
        lemma_seq_prefix_index(b, pos, h, 1);
        lemma_seq_prefix_index(b, pos, h, 2);
        assert(b[pos] as int == major * 32 + 25);
        assert(b[pos] as int / 32 == major && b[pos] as int % 32 == 25) by {
            vstd::arithmetic::div_mod::lemma_fundamental_div_mod_converse(
                major * 32 + 25,
                32,
                major,
                25,
            );
        }
        assert(b[pos + 1] as int == n / 256 && b[pos + 2] as int == n % 256);
        assert(b[pos + 1] as int * 256 + b[pos + 2] as int == n) by {
            vstd::arithmetic::div_mod::lemma_fundamental_div_mod(n as int, 256);
        }
    } else if n <= 0xffffffff {
        assert(b[pos] as int == major * 32 + 26);
        assert(b[pos] as int / 32 == major && b[pos] as int % 32 == 26) by {
            vstd::arithmetic::div_mod::lemma_fundamental_div_mod_converse(
                major * 32 + 26,
                32,
                major,
                26,
            );
        }
        lemma_seq_slice_of_prefix(b, pos, h, 1, 5);
        assert(h.subrange(1, 5) =~= spec_u32_be(n as u32));
        lemma_u32_be_round_trip(n as u32);
    } else {
        assert(b[pos] as int == major * 32 + 27);
        assert(b[pos] as int / 32 == major && b[pos] as int % 32 == 27) by {
            vstd::arithmetic::div_mod::lemma_fundamental_div_mod_converse(
                major * 32 + 27,
                32,
                major,
                27,
            );
        }
        lemma_seq_slice_of_prefix(b, pos, h, 1, 9);
        assert(h.subrange(1, 9) =~= spec_u64_be(n as u64));
        lemma_u64_be_round_trip(n as u64);
    }
}

/// Parse a text string at `pos`: its characters and the position after.
pub open spec fn parse_text(b: Seq<u8>, pos: int) -> Option<(Seq<char>, int)> {
    match parse_head(b, pos, 3) {
        Some((n, p)) => if p + n <= b.len() && valid_utf8(b.subrange(p, p + n)) {
            Some((decode_utf8(b.subrange(p, p + n)), p + n))
        } else {
            None
        },
        None => None,
    }
}

/// A parsed text covers exactly the encoding of its characters.
pub proof fn lemma_parse_text_sound(b: Seq<u8>, pos: int)
    requires
        parse_text(b, pos) is Some,
    ensures
        ({
            let (s, p2) = parse_text(b, pos)->Some_0;
            &&& pos < p2 <= b.len()
            &&& encode_utf8(s).len() <= u64::MAX
            &&& p2 - pos == spec_text(s).len()
            &&& b.subrange(pos, p2) == spec_text(s)
        }),
{
    let (s, p2) = parse_text(b, pos)->Some_0;
    let (n, p) = parse_head(b, pos, 3)->Some_0;
    lemma_parse_head_sound(b, pos, 3);
    let bytes = b.subrange(p, p + n);
    vstd::utf8::decode_utf8_encode_utf8(bytes);
    assert(encode_utf8(s) == bytes);
    assert(b.subrange(pos, p2) =~= b.subrange(pos, p) + bytes);
    assert(b.subrange(pos, p2) =~= spec_text(s));
}

/// A text encoding standing at `pos` is parsed back as written.
pub proof fn lemma_parse_text_complete(b: Seq<u8>, pos: int, s: Seq<char>)
    requires
        0 <= pos,
        encode_utf8(s).len() <= u64::MAX,
        pos + spec_text(s).len() <= b.len(),
        b.subrange(pos, pos + spec_text(s).len()) == spec_text(s),
    ensures
        parse_text(b, pos) == Some((s, pos + spec_text(s).len())),
{
    let e = encode_utf8(s);
    let w = spec_text(s);
    let h = spec_head(3, e.len());
    let hl = h.len() as int;
    lemma_seq_slice_of_prefix(b, pos, w, 0, hl);
    assert(w.subrange(0, hl) =~= h);
    assert(b.subrange(pos, pos + hl) == w.subrange(0, hl));
    lemma_parse_head_complete(b, pos, 3, e.len());
    let p = pos + hl;
    lemma_seq_slice_of_prefix(b, pos, w, hl, w.len() as int);
    assert(w.subrange(hl, w.len() as int) =~= e);
    vstd::utf8::encode_utf8_valid_utf8(s);
    vstd::utf8::encode_utf8_decode_utf8(s);
}

/// Parse an integer in 32-bit signed range at `pos`.
pub open spec fn parse_int(b: Seq<u8>, pos: int) -> Option<(int, int)> {
    match parse_head(b, pos, 0) {
        Some((n, p)) => if n <= 0x7fffffff {
            Some((n as int, p))
        } else {
            None
        },
        None => match parse_head(b, pos, 1) {
            Some((n, p)) => if n <= 0x7fffffff {
                Some((-1 - n as int, p))
            } else {
                None
            },
            None => None,
        },
    }
}

/// A parsed integer covers exactly its encoding and is in 32-bit range.
pub proof fn lemma_parse_int_sound(b: Seq<u8>, pos: int)
    requires
        parse_int(b, pos) is Some,
    ensures
        ({
            let (i, p2) = parse_int(b, pos)->Some_0;
            &&& pos < p2 <= b.len()
            &&& -0x80000000 <= i <= 0x7fffffff
            &&& p2 - pos == spec_int(i).len()
            &&& b.subrange(pos, p2) == spec_int(i)
        }),
{
    if parse_head(b, pos, 0) is Some {
        lemma_parse_head_sound(b, pos, 0);
    } else {
        lemma_parse_head_sound(b, pos, 1);
    }
}

/// An integer encoding standing at `pos` is parsed back as written.
pub proof fn lemma_parse_int_complete(b: Seq<u8>, pos: int, i: int)
    requires
        0 <= pos,
        -0x80000000 <= i <= 0x7fffffff,
        pos + spec_int(i).len() <= b.len(),
        b.subrange(pos, pos + spec_int(i).len()) == spec_int(i),
    ensures
        parse_int(b, pos) == Some((i, pos + spec_int(i).len())),
{
    if i >= 0 {
        lemma_parse_head_complete(b, pos, 0, i as nat);
    } else {
        lemma_parse_head_complete(b, pos, 1, (-1 - i) as nat);
        lemma_parse_head_sound(b, pos, 1);
        assert(b[pos] as int / 32 == 1);
        assert(parse_head(b, pos, 0) is None);
    }
}

/// The four type names: their encodings are ASCII and pairwise distinct.
proof fn lemma_tag_facts()
    ensures
        encode_utf8("String"@).len() == 6,
        encode_utf8("Integer"@).len() == 7,
        encode_utf8("Float"@).len() == 5,
        encode_utf8("Boolean"@).len() == 7,
        "String"@ != "Integer"@ && "String"@ != "Float"@ && "String"@ != "Boolean"@,
        "Integer"@ != "Float"@ && "Integer"@ != "Boolean"@,
        "Float"@ != "Boolean"@,
{
    reveal_strlit("String");
    reveal_strlit("Integer");
    reveal_strlit("Float");
    reveal_strlit("Boolean");
    assert(vstd::utf8::is_ascii_chars("String"@));
    assert(vstd::utf8::is_ascii_chars("Integer"@));
    assert(vstd::utf8::is_ascii_chars("Float"@));
    assert(vstd::utf8::is_ascii_chars("Boolean"@));
    vstd::utf8::is_ascii_chars_encode_utf8("String"@);
    vstd::utf8::is_ascii_chars_encode_utf8("Integer"@);
    vstd::utf8::is_ascii_chars_encode_utf8("Float"@);
    vstd::utf8::is_ascii_chars_encode_utf8("Boolean"@);
    assert("Integer"@[0] != "Boolean"@[0]);
}

/// Parse one value at `pos`: a one-entry map from a type name to the
/// payload of that type.
pub open spec fn parse_value(b: Seq<u8>, pos: int) -> Option<(ValueView, int)> {
    if pos < 0 || pos >= b.len() || b[pos] != 0xa1u8 {
        None
    } else {
        match parse_text(b, pos + 1) {
            Some((tag, p)) => if tag == "String"@ {
                match parse_text(b, p) {
                    Some((s, p2)) => Some((ValueView::Str(s), p2)),
                    None => None,
                }
            } else if tag == "Integer"@ {
                match parse_int(b, p) {
                    Some((i, p2)) => Some((ValueView::Integer(i), p2)),
                    None => None,
                }
            } else if tag == "Float"@ {
                if p + 5 <= b.len() && b[p] == 0xfau8 {
                    Some((ValueView::Float(spec_u32_from_be(b.subrange(p + 1, p + 5))), p + 5))
                } else {
                    None
                }
            } else if tag == "Boolean"@ {
                if p < b.len() && (b[p] == 0xf4u8 || b[p] == 0xf5u8) {
                    Some((ValueView::Boolean(b[p] == 0xf5u8), p + 1))
                } else {
                    None
                }
            } else {
                None
            },
            None => None,
        }
    }
}

/// A value is encodable: its integer fits 32 bits and its text length
/// fits a head.
pub open spec fn value_fits(v: ValueView) -> bool {
    match v {
        ValueView::Str(s) => encode_utf8(s).len() <= u64::MAX,
        ValueView::Integer(i) => -0x80000000 <= i <= 0x7fffffff,
        ValueView::Float(_) => true,
        ValueView::Boolean(_) => true,
    }
}

/// A parsed value covers exactly its encoding.
pub proof fn lemma_parse_value_sound(b: Seq<u8>, pos: int)
    requires
        parse_value(b, pos) is Some,
    ensures
        ({
            let (v, p2) = parse_value(b, pos)->Some_0;
            &&& pos < p2 <= b.len()
            &&& value_fits(v)
            &&& p2 - pos == spec_value(v).len()
            &&& b.subrange(pos, p2) == spec_value(v)
        }),
{
    let (v, p2) = parse_value(b, pos)->Some_0;
    let (tag, p) = parse_text(b, pos + 1)->Some_0;
    lemma_parse_text_sound(b, pos + 1);
    assert(b.subrange(pos + 1, p) == spec_text(tag));
    if tag == "String"@ {
        lemma_parse_text_sound(b, p);
        assert(b.subrange(pos, p2) =~= seq![0xa1u8] + b.subrange(pos + 1, p) + b.subrange(p, p2));
    } else if tag == "Integer"@ {
        lemma_parse_int_sound(b, p);
        assert(b.subrange(pos, p2) =~= seq![0xa1u8] + b.subrange(pos + 1, p) + b.subrange(p, p2));
    } else if tag == "Float"@ {
        lemma_u32_be_canonical(b.subrange(p + 1, p + 5));
        assert(b.subrange(pos, p2) =~= seq![0xa1u8] + b.subrange(pos + 1, p) + seq![0xfau8]
            + b.subrange(p + 1, p + 5));
    } else {
        assert(b.subrange(pos, p2) =~= seq![0xa1u8] + b.subrange(pos + 1, p) + seq![b[p]]);
    }
}

/// A value encoding standing at `pos` is parsed back as written.
#[verifier::rlimit(50)]
pub proof fn lemma_parse_value_complete(b: Seq<u8>, pos: int, v: ValueView)
    requires
        0 <= pos,
        value_fits(v),
        pos + spec_value(v).len() <= b.len(),
        b.subrange(pos, pos + spec_value(v).len()) == spec_value(v),
    ensures
        parse_value(b, pos) == Some((v, pos + spec_value(v).len())),
{
    let w = spec_value(v);
    let wl = w.len() as int;
    lemma_tag_facts();
    lemma_seq_prefix_index(b, pos, w, 0);
    assert(b[pos] == 0xa1u8);
    match v {
        ValueView::Str(s) => {
            let t = spec_text("String"@);
            let tl = t.len() as int;
            lemma_seq_slice_of_prefix(b, pos, w, 1, 1 + tl);
            assert(w.subrange(1, 1 + tl) =~= t);
            lemma_parse_text_complete(b, pos + 1, "String"@);
            let p = pos + 1 + tl;
            lemma_seq_slice_of_prefix(b, pos, w, 1 + tl, wl);
            assert(w.subrange(1 + tl, wl) =~= spec_text(s));
            lemma_parse_text_complete(b, p, s);
        },
        ValueView::Integer(i) => {
            let t = spec_text("Integer"@);
            let tl = t.len() as int;
            lemma_seq_slice_of_prefix(b, pos, w, 1, 1 + tl);
            assert(w.subrange(1, 1 + tl) =~= t);
            lemma_parse_text_complete(b, pos + 1, "Integer"@);
            let p = pos + 1 + tl;
            lemma_seq_slice_of_prefix(b, pos, w, 1 + tl, wl);
            assert(w.subrange(1 + tl, wl) =~= spec_int(i));
            lemma_parse_int_complete(b, p, i);
        },
        ValueView::Float(bits) => {
            let t = spec_text("Float"@);
            let tl = t.len() as int;
            lemma_seq_slice_of_prefix(b, pos, w, 1, 1 + tl);
            assert(w.subrange(1, 1 + tl) =~= t);
            lemma_parse_text_complete(b, pos + 1, "Float"@);
            let p = pos + 1 + tl;
            lemma_seq_prefix_index(b, pos, w, 1 + tl);
            assert(w[1 + tl] == 0xfau8);
            lemma_seq_slice_of_prefix(b, pos, w, 2 + tl, 6 + tl);
            assert(w.subrange(2 + tl, 6 + tl) =~= spec_u32_be(bits));
            lemma_u32_be_round_trip(bits);
        },
        ValueView::Boolean(v2) => {
            let t = spec_text("Boolean"@);
            let tl = t.len() as int;
            lemma_seq_slice_of_prefix(b, pos, w, 1, 1 + tl);
            assert(w.subrange(1, 1 + tl) =~= t);
            lemma_parse_text_complete(b, pos + 1, "Boolean"@);
            lemma_seq_prefix_index(b, pos, w, 1 + tl);
            assert(w[1 + tl] == if v2 {
                0xf5u8
            } else {
                0xf4u8
            });
        },
    }
}

/// Parse `count` pairs starting at `pos`.
pub open spec fn parse_pairs(b: Seq<u8>, pos: int, count: nat) -> Option<
    (Seq<(Seq<char>, ValueView)>, int),
>
    decreases count,
{
    if count == 0 {
        Some((Seq::empty(), pos))
    } else if pos < 0 || pos >= b.len() || b[pos] != 0x82u8 {
        None
    } else {
        match parse_text(b, pos + 1) {
            Some((k, p)) => match parse_value(b, p) {
                Some((v, p2)) => match parse_pairs(b, p2, (count - 1) as nat) {
                    Some((ps, p3)) => Some((seq![(k, v)] + ps, p3)),
                    None => None,
                },
                None => None,
            },
            None => None,
        }
    }
}

/// Every pair of a sequence is encodable.
pub open spec fn pairs_fit(ps: Seq<(Seq<char>, ValueView)>) -> bool {
    forall|i: int|
        0 <= i < ps.len() ==> encode_utf8((#[trigger] ps[i]).0).len() <= u64::MAX && value_fits(
            ps[i].1,
        )
}

/// Parsed pairs cover exactly their concatenated encodings.
#[verifier::spinoff_prover]
#[verifier::rlimit(100)]
pub proof fn lemma_parse_pairs_sound(b: Seq<u8>, pos: int, count: nat)
    requires
        0 <= pos <= b.len(),
        parse_pairs(b, pos, count) is Some,
    ensures
        ({
            let (ps, p2) = parse_pairs(b, pos, count)->Some_0;
            &&& pos <= p2 <= b.len()
            &&& ps.len() == count
            &&& pairs_fit(ps)
            &&& b.subrange(pos, p2) == spec_pairs(ps)
        }),
    decreases count,
{
    if count == 0 {
        assert(b.subrange(pos, pos) =~= Seq::<u8>::empty());
    } else {
        let (k, p) = parse_text(b, pos + 1)->Some_0;
        let (v, pv) = parse_value(b, p)->Some_0;
        let (ps, p3) = parse_pairs(b, pv, (count - 1) as nat)->Some_0;
        lemma_parse_text_sound(b, pos + 1);
        lemma_parse_value_sound(b, p);
        lemma_parse_pairs_sound(b, pv, (count - 1) as nat);
        let whole = seq![(k, v)] + ps;
        assert(whole[0] == (k, v));
        assert(whole.drop_first() =~= ps);
        assert(spec_pairs(whole) == spec_pair(k, v) + spec_pairs(ps));
        assert(b.subrange(pos, pv) =~= seq![0x82u8] + b.subrange(pos + 1, p) + b.subrange(p, pv));
        assert(b.subrange(pos, p3) =~= b.subrange(pos, pv) + b.subrange(pv, p3));
        assert(b.subrange(pos, p3) == spec_pairs(whole));
        assert forall|i: int| 0 <= i < whole.len() implies encode_utf8(
            (#[trigger] whole[i]).0,
        ).len() <= u64::MAX && value_fits(whole[i].1) by {
            if i > 0 {
                assert(whole[i] == ps[i - 1]);
            }
        }
    }
}

/// Concatenated pair encodings standing at `pos` are parsed back.
#[verifier::rlimit(50)]
pub proof fn lemma_parse_pairs_complete(b: Seq<u8>, pos: int, ps: Seq<(Seq<char>, ValueView)>)
    requires
        0 <= pos,
        pairs_fit(ps),
        pos + spec_pairs(ps).len() <= b.len(),
        b.subrange(pos, pos + spec_pairs(ps).len()) == spec_pairs(ps),
    ensures
        parse_pairs(b, pos, ps.len()) == Some((ps, pos + spec_pairs(ps).len())),
    decreases ps.len(),
{
    if ps.len() == 0 {
        assert(parse_pairs(b, pos, 0) == Some((Seq::<(Seq<char>, ValueView)>::empty(), pos)));
        assert(ps =~= Seq::<(Seq<char>, ValueView)>::empty());
    } else {
        let k = ps[0].0;
        let v = ps[0].1;
        let w = spec_pairs(ps);
        let wl = w.len() as int;
        let sp = spec_pair(k, v);
        let spl = sp.len() as int;
        assert(w == sp + spec_pairs(ps.drop_first()));
        lemma_seq_slice_of_prefix(b, pos, w, 0, spl);
        assert(w.subrange(0, spl) =~= sp);
        assert(b.subrange(pos, pos + spl) == sp);
        lemma_seq_prefix_index(b, pos, sp, 0);
        assert(b[pos] == 0x82u8);
        let tl = spec_text(k).len() as int;
        let vl = spec_value(v).len() as int;
        lemma_seq_slice_of_prefix(b, pos, sp, 1, 1 + tl);
        assert(sp.subrange(1, 1 + tl) =~= spec_text(k));
        lemma_parse_text_complete(b, pos + 1, k);
        let p = pos + 1 + tl;
        lemma_seq_slice_of_prefix(b, pos, sp, 1 + tl, spl);
        assert(sp.subrange(1 + tl, spl) =~= spec_value(v));
        assert(value_fits(v));
        lemma_parse_value_complete(b, p, v);
        let pv = p + vl;
        lemma_seq_slice_of_prefix(b, pos, w, spl, wl);
        assert(w.subrange(spl, wl) =~= spec_pairs(ps.drop_first()));
        assert(pairs_fit(ps.drop_first())) by {
            assert(forall|i: int|
                0 <= i < ps.drop_first().len() ==> #[trigger] ps.drop_first()[i] == ps[i + 1]);
        }
        lemma_parse_pairs_complete(b, pv, ps.drop_first());
        assert(seq![(k, v)] + ps.drop_first() =~= ps);
    }
}

/// Parse a whole shard document: all bytes must be consumed.
pub open spec fn parse_shard(b: Seq<u8>) -> Option<Seq<(Seq<char>, ValueView)>> {
    match parse_head(b, 0, 4) {
        Some((count, p)) => match parse_pairs(b, p, count) {
            Some((ps, p2)) => if p2 == b.len() {
                Some(ps)
            } else {
                None
            },
            None => None,
        },
        None => None,
    }
}

/// A decoded shard document is exactly the encoding of its pairs.
pub proof fn lemma_parse_shard_sound(b: Seq<u8>)
    requires
        parse_shard(b) is Some,
    ensures
        ({
            let ps = parse_shard(b)->Some_0;
            &&& b == spec_shard_cbor(ps)
            &&& pairs_fit(ps)
            &&& ps.len() <= u64::MAX
        }),
{
    let (count, p) = parse_head(b, 0, 4)->Some_0;
    let (ps, p2) = parse_pairs(b, p, count)->Some_0;
    lemma_parse_head_sound(b, 0, 4);
    lemma_parse_pairs_sound(b, p, count);
    assert(b =~= b.subrange(0, p) + b.subrange(p, p2));
}

/// Encoding a shard and parsing it back yields the shard: the CBOR
/// round-trip.
pub proof fn lemma_shard_cbor_round_trip(ps: Seq<(Seq<char>, ValueView)>)
    requires
        ps.len() <= u64::MAX,
        pairs_fit(ps),
    ensures
        parse_shard(spec_shard_cbor(ps)) == Some(ps),
{
    let b = spec_shard_cbor(ps);
    let h = spec_head(4, ps.len());
    let hl = h.len() as int;
    assert(b.subrange(0, b.len() as int) =~= b);
    lemma_seq_slice_of_prefix(b, 0, b, 0, hl);
    assert(b.subrange(0, hl) =~= h);
    lemma_parse_head_complete(b, 0, 4, ps.len());
    assert(b.subrange(hl, hl + spec_pairs(ps).len() as int) =~= spec_pairs(ps));
    lemma_parse_pairs_complete(b, hl, ps);
}

/// A certificate record with the two fields in the other order: some
/// CBOR writers sort map keys, which puts `private_key` first.
pub open spec fn spec_cert_cbor_swapped(pk: Seq<u8>, sk: Seq<u8>) -> Seq<u8> {
    seq![0xa2u8] + spec_text("private_key"@) + spec_byte_str(sk) + spec_text("public_key"@)
        + spec_byte_str(pk)
}

/// Parse one field of a certificate map at `pos`: a text key and a
/// 32-byte byte string.
pub open spec fn parse_cert_field(b: Seq<u8>, pos: int) -> Option<((Seq<char>, Seq<u8>), int)> {
    match parse_text(b, pos) {
        Some((k, p)) => if parse_head(b, p, 2) == Some((32 as nat, p + 2)) && p + 34 <= b.len() {
            Some(((k, b.subrange(p + 2, p + 34)), p + 34))
        } else {
            None
        },
        None => None,
    }
}

/// Parse a certificate document: a two-field map holding the 32-byte
/// public and private key, in either order; all bytes must be consumed,
/// and every head must be in its canonical minimal-width form.
pub open spec fn parse_cert(b: Seq<u8>) -> Option<(Seq<u8>, Seq<u8>)> {
    if b.len() == 0 || b[0] != 0xa2u8 {
        None
    } else {
        match parse_cert_field(b, 1) {
            Some(((k1, v1), p1)) => match parse_cert_field(b, p1) {
                Some(((k2, v2), p2)) => if p2 == b.len() {
                    if k1 == "public_key"@ && k2 == "private_key"@ {
                        Some((v1, v2))
                    } else if k1 == "private_key"@ && k2 == "public_key"@ {
                        Some((v2, v1))
                    } else {
                        None
                    }
                } else {
                    None
                },
                None => None,
            },
            None => None,
        }
    }
}

/// A parsed certificate field covers exactly its encoding.
proof fn lemma_parse_cert_field_sound(b: Seq<u8>, pos: int)
    requires
        parse_cert_field(b, pos) is Some,
    ensures
        ({
            let ((k, v), p2) = parse_cert_field(b, pos)->Some_0;
            &&& pos < p2 <= b.len()
            &&& v.len() == 32
            &&& encode_utf8(k).len() <= u64::MAX
            &&& p2 - pos == spec_text(k).len() + 34
            &&& b.subrange(pos, p2) == spec_text(k) + spec_byte_str(v)
        }),
{
    let ((k, v), p2) = parse_cert_field(b, pos)->Some_0;
    let (k0, p) = parse_text(b, pos)->Some_0;
    lemma_parse_text_sound(b, pos);
    lemma_parse_head_sound(b, p, 2);
    assert(b.subrange(p, p + 2) == spec_head(2, 32));
    assert(spec_byte_str(v) == spec_head(2, v.len()) + v);
    assert(b.subrange(pos, p2) =~= b.subrange(pos, p) + (b.subrange(p, p + 2) + b.subrange(
        p + 2,
        p + 34,
    )));
}

/// A certificate field standing at `pos` is parsed back as written.
proof fn lemma_parse_cert_field_complete(b: Seq<u8>, pos: int, k: Seq<char>, v: Seq<u8>)
    requires
        0 <= pos,
        encode_utf8(k).len() <= u64::MAX,
        v.len() == 32,
        pos + spec_text(k).len() + 34 <= b.len(),
        b.subrange(pos, pos + spec_text(k).len() + 34) == spec_text(k) + spec_byte_str(v),
    ensures
        parse_cert_field(b, pos) == Some(((k, v), pos + spec_text(k).len() + 34)),
{
    let w = spec_text(k) + spec_byte_str(v);
    let tl = spec_text(k).len() as int;
    assert(spec_byte_str(v).len() == 34);
    lemma_seq_slice_of_prefix(b, pos, w, 0, tl);
    assert(w.subrange(0, tl) =~= spec_text(k));
    lemma_parse_text_complete(b, pos, k);
    let p = pos + tl;
    lemma_seq_slice_of_prefix(b, pos, w, tl, tl + 2);
    assert(w.subrange(tl, tl + 2) =~= spec_head(2, 32));
    lemma_parse_head_complete(b, p, 2, 32);
    lemma_seq_slice_of_prefix(b, pos, w, tl + 2, tl + 34);
    assert(w.subrange(tl + 2, tl + 34) =~= v);
}

/// A byte string split into three known blocks is their concatenation.
proof fn lemma_concat3(b: Seq<u8>, a: Seq<u8>, c: Seq<u8>, d: Seq<u8>)
    requires
        b.len() == a.len() + c.len() + d.len(),
        b.subrange(0, a.len() as int) == a,
        b.subrange(a.len() as int, (a.len() + c.len()) as int) == c,
        b.subrange((a.len() + c.len()) as int, b.len() as int) == d,
    ensures
        b == a + c + d,
{
    assert(b =~= a + c + d);
}

/// Regrouping the five blocks of a certificate record.
proof fn lemma_cert_assemble(h: Seq<u8>, t1: Seq<u8>, s1: Seq<u8>, t2: Seq<u8>, s2: Seq<u8>)
    ensures
        h + (t1 + s1) + (t2 + s2) == h + t1 + s1 + t2 + s2,
{
    assert(h + (t1 + s1) + (t2 + s2) =~= h + t1 + s1 + t2 + s2);
}

/// A decoded certificate document is the canonical encoding of its
/// keys, with the two fields in one order or the other.
#[verifier::rlimit(50)]
pub proof fn lemma_parse_cert_sound(b: Seq<u8>)
    requires
        parse_cert(b) is Some,
    ensures
        ({
            let (pk, sk) = parse_cert(b)->Some_0;
            &&& pk.len() == 32
            &&& sk.len() == 32
            &&& (b == spec_cert_cbor(pk, sk) || b == spec_cert_cbor_swapped(pk, sk))
        }),
{
    let ((k1, v1), p1) = parse_cert_field(b, 1)->Some_0;
    let ((k2, v2), p2) = parse_cert_field(b, p1)->Some_0;
    lemma_parse_cert_field_sound(b, 1);
    lemma_parse_cert_field_sound(b, p1);
    let f1 = spec_text(k1) + spec_byte_str(v1);
    let f2 = spec_text(k2) + spec_byte_str(v2);
    assert(b.subrange(0, 1) =~= seq![0xa2u8]);
    lemma_concat3(b, seq![0xa2u8], f1, f2);
    lemma_cert_assemble(seq![0xa2u8], spec_text(k1), spec_byte_str(v1), spec_text(k2), spec_byte_str(v2));
    assert(b == seq![0xa2u8] + spec_text(k1) + spec_byte_str(v1) + spec_text(k2) + spec_byte_str(v2));
}

/// Encoding a certificate and parsing it back yields the keys: the
/// certificate round-trip.
#[verifier::rlimit(50)]
pub proof fn lemma_cert_cbor_round_trip(pk: Seq<u8>, sk: Seq<u8>)
    requires
        pk.len() == 32,
        sk.len() == 32,
    ensures
        parse_cert(spec_cert_cbor(pk, sk)) == Some((pk, sk)),
{
    let b = spec_cert_cbor(pk, sk);
    reveal_strlit("public_key");
    reveal_strlit("private_key");
    assert(vstd::utf8::is_ascii_chars("public_key"@));
    assert(vstd::utf8::is_ascii_chars("private_key"@));
    vstd::utf8::is_ascii_chars_encode_utf8("public_key"@);
    vstd::utf8::is_ascii_chars_encode_utf8("private_key"@);
    let t1 = spec_text("public_key"@);
    let t2 = spec_text("private_key"@);
    assert(t1.len() == 11 && t2.len() == 12);
    assert(b.len() == 92);
    assert(b.subrange(0, b.len() as int) =~= b);
    lemma_seq_prefix_index(b, 0, b, 0);
    assert(b[0] == 0xa2u8);
    assert(b.subrange(1, 46) =~= t1 + spec_byte_str(pk));
    lemma_parse_cert_field_complete(b, 1, "public_key"@, pk);
    assert(b.subrange(46, 92) =~= t2 + spec_byte_str(sk));
    lemma_parse_cert_field_complete(b, 46, "private_key"@, sk);
}

/// The record with the fields in the other order parses to the same
/// keys.
#[verifier::rlimit(50)]
pub proof fn lemma_cert_cbor_swapped_round_trip(pk: Seq<u8>, sk: Seq<u8>)
    requires
        pk.len() == 32,
        sk.len() == 32,
    ensures
        parse_cert(spec_cert_cbor_swapped(pk, sk)) == Some((pk, sk)),
{
    let b = spec_cert_cbor_swapped(pk, sk);
    reveal_strlit("public_key");
    reveal_strlit("private_key");
    assert(vstd::utf8::is_ascii_chars("public_key"@));
    assert(vstd::utf8::is_ascii_chars("private_key"@));
    vstd::utf8::is_ascii_chars_encode_utf8("public_key"@);
    vstd::utf8::is_ascii_chars_encode_utf8("private_key"@);
    let t1 = spec_text("private_key"@);
    let t2 = spec_text("public_key"@);
    assert(t1.len() == 12 && t2.len() == 11);
    assert(b.len() == 92);
    assert(b.subrange(0, b.len() as int) =~= b);
    lemma_seq_prefix_index(b, 0, b, 0);
    assert(b[0] == 0xa2u8);
    assert(b.subrange(1, 47) =~= t1 + spec_byte_str(sk));
    lemma_parse_cert_field_complete(b, 1, "private_key"@, sk);
    assert(b.subrange(47, 92) =~= t2 + spec_byte_str(pk));
    lemma_parse_cert_field_complete(b, 47, "public_key"@, pk);
    assert("private_key"@ != "public_key"@) by {
        assert("private_key"@.len() != "public_key"@.len());
    }
}

/// Relies on `String::from_utf8`: it accepts exactly the valid UTF-8
/// byte strings and returns the string whose UTF-8 image is the input.
#[verifier::external_body]
fn string_from_utf8(b: Vec<u8>) -> (r: Option<String>)
    ensures
        match r {
            Some(s) => valid_utf8(b@) && encode_utf8(s@) == b@,
            None => !valid_utf8(b@),
        },
{
    String::from_utf8(b).ok()
}

/// Two strings with one UTF-8 image are one string.
pub proof fn lemma_encode_utf8_injective(a: Seq<char>, b: Seq<char>)
    requires
        encode_utf8(a) == encode_utf8(b),
    ensures
        a == b,
{
    vstd::utf8::encode_utf8_decode_utf8(a);
    vstd::utf8::encode_utf8_decode_utf8(b);
}

/// Read one canonical head of the given major type.
pub fn parse_head_at(buf: &[u8], pos: usize, major: u8) -> (r: Option<(u64, usize)>)
    requires
        major < 8,
    ensures
        match r {
            Some((n, p2)) => parse_head(buf@, pos as int, major as int) == Some(
                (n as nat, p2 as int),
            ) && pos < p2 <= buf@.len(),
            None => parse_head(buf@, pos as int, major as int) is None,
        },
{
    if pos >= buf.len() {
        return None;
    }
    let ib = buf[pos];
    if ib / 32 != major {
        return None;
    }
    let ai = ib % 32;
    let rem = buf.len() - pos;
    if ai < 24 {
        Some((ai as u64, pos + 1))
    } else if ai == 24 {
        if rem >= 2 && buf[pos + 1] >= 24 {
            Some((buf[pos + 1] as u64, pos + 2))
        } else {
            None
        }
    } else if ai == 25 {
        if rem >= 3 {
            let n = (buf[pos + 1] as u64) * 256 + (buf[pos + 2] as u64);
            if n > 0xff {
                Some((n, pos + 3))
            } else {
                None
            }
        } else {
            None
        }
    } else if ai == 26 {
        if rem >= 5 {
            let n = u32_be_at(buf, pos + 1);
            if n > 0xffff {
                Some((n as u64, pos + 5))
            } else {
                None
            }
        } else {
            None
        }
    } else if ai == 27 {
        if rem >= 9 {
            let n = u64_be_at(buf, pos + 1);
            if n > 0xffffffff {
                Some((n, pos + 9))
            } else {
                None
            }
        } else {
            None
        }
    } else {
        None
    }
}

/// Read one text string.
pub fn parse_text_at(buf: &[u8], pos: usize) -> (r: Option<(String, usize)>)
    ensures
        match r {
            Some((s, p2)) => parse_text(buf@, pos as int) == Some((s@, p2 as int)) && pos < p2
                <= buf@.len(),
            None => parse_text(buf@, pos as int) is None,
        },
{
    let (n, p) = match parse_head_at(buf, pos, 3) {
        Some(x) => x,
        None => {
            return None;
        },
    };
    if n > (buf.len() - p) as u64 {
        return None;
    }
    let n = n as usize;
    let bytes = sub_vec(buf, p, p + n);
    match string_from_utf8(bytes) {
        Some(s) => {
            proof {
                vstd::utf8::encode_utf8_decode_utf8(s@);
            }
            Some((s, p + n))
        },
        None => None,
    }
}

/// Read one integer in 32-bit signed range.
pub fn parse_int_at(buf: &[u8], pos: usize) -> (r: Option<(i32, usize)>)
    ensures
        match r {
            Some((i, p2)) => parse_int(buf@, pos as int) == Some((i as int, p2 as int)) && pos < p2
                <= buf@.len(),
            None => parse_int(buf@, pos as int) is None,
        },
{
    match parse_head_at(buf, pos, 0) {
        Some((n, p)) => if n <= 0x7fffffff {
            Some((n as i32, p))
        } else {
            None
        },
        None => match parse_head_at(buf, pos, 1) {
            Some((n, p)) => if n <= 0x7fffffff {
                let i: i64 = -1 - (n as i64);
                Some((i as i32, p))
            } else {
                None
            },
            None => None,
        },
    }
}

/// Read one value: a one-entry map from a type name to its payload.
pub fn parse_value_at(buf: &[u8], pos: usize) -> (r: Option<(CofferValue, usize)>)
    ensures
        match r {
            Some((v, p2)) => parse_value(buf@, pos as int) == Some((v@, p2 as int)) && pos < p2
                <= buf@.len(),
            None => parse_value(buf@, pos as int) is None,
        },
{
    if pos >= buf.len() || buf[pos] != 0xa1 {
        return None;
    }
    let (tag, p) = match parse_text_at(buf, pos + 1) {
        Some(x) => x,
        None => {
            return None;
        },
    };
    if bytes_eq(tag.as_str().as_bytes(), "String".as_bytes()) {
        proof {
            lemma_encode_utf8_injective(tag@, "String"@);
        }
        match parse_text_at(buf, p) {
            Some((s, p2)) => Some((CofferValue::Str(s), p2)),
            None => None,
        }
    } else if bytes_eq(tag.as_str().as_bytes(), "Integer".as_bytes()) {
        proof {
            lemma_encode_utf8_injective(tag@, "Integer"@);
        }
        match parse_int_at(buf, p) {
            Some((i, p2)) => Some((CofferValue::Integer(i), p2)),
            None => None,
        }
    } else if bytes_eq(tag.as_str().as_bytes(), "Float".as_bytes()) {
        proof {
            lemma_encode_utf8_injective(tag@, "Float"@);
        }
        if buf.len() - p >= 5 && buf[p] == 0xfa {
            let bits = u32_be_at(buf, p + 1);
            Some((CofferValue::Float(bits), p + 5))
        } else {
            None
        }
    } else if bytes_eq(tag.as_str().as_bytes(), "Boolean".as_bytes()) {
        proof {
            lemma_encode_utf8_injective(tag@, "Boolean"@);
        }
        if p < buf.len() && (buf[p] == 0xf4 || buf[p] == 0xf5) {
            Some((CofferValue::Boolean(buf[p] == 0xf5), p + 1))
        } else {
            None
        }
    } else {
        None
    }
}

/// The pairs read so far, joined with what remains to be read.
pub open spec fn pairs_result_join(
    acc: Seq<(Seq<char>, ValueView)>,
    r: Option<(Seq<(Seq<char>, ValueView)>, int)>,
) -> Option<(Seq<(Seq<char>, ValueView)>, int)> {
    match r {
        Some((ps, p)) => Some((acc + ps, p)),
        None => None,
    }
}

/// Joining onto nothing read yet changes nothing.
proof fn lemma_join_unit(r: Option<(Seq<(Seq<char>, ValueView)>, int)>)
    ensures
        pairs_result_join(Seq::empty(), r) == r,
{
    match r {
        Some((ps, p)) => {
            assert(Seq::empty() + ps =~= ps);
        },
        None => {},
    }
}

/// Reading one more pair moves it from the remainder into the read part.
proof fn lemma_join_step(
    acc: Seq<(Seq<char>, ValueView)>,
    one: (Seq<char>, ValueView),
    r: Option<(Seq<(Seq<char>, ValueView)>, int)>,
)
    ensures
        pairs_result_join(acc.push(one), r) == pairs_result_join(
            acc,
            match r {
                Some((ps, p)) => Some((seq![one] + ps, p)),
                None => None,
            },
        ),
{
    match r {
        Some((ps, p)) => {
            assert(acc.push(one) + ps =~= acc + (seq![one] + ps));
        },
        None => {},
    }
}

/// Read `count` pairs.
fn parse_pairs_at(buf: &[u8], start: usize, count: u64) -> (r: Option<
    (Vec<(String, CofferValue)>, usize),
>)
    requires
        start <= buf@.len(),
    ensures
        match r {
            Some((ps, p2)) => parse_pairs(buf@, start as int, count as nat) == Some(
                (pairs_view(ps@), p2 as int),
            ) && p2 <= buf@.len(),
            None => parse_pairs(buf@, start as int, count as nat) is None,
        },
{
    let mut out: Vec<(String, CofferValue)> = Vec::new();
    let mut pos: usize = start;
    let mut i: u64 = 0;
    proof {
        lemma_join_unit(parse_pairs(buf@, start as int, count as nat));
        assert(pairs_view(out@) =~= Seq::<(Seq<char>, ValueView)>::empty());
    }
    while i < count
        invariant
            i <= count,
            pos <= buf@.len(),
            parse_pairs(buf@, start as int, count as nat) == pairs_result_join(
                pairs_view(out@),
                parse_pairs(buf@, pos as int, (count - i) as nat),
            ),
        decreases count - i,
    {
        let ghost acc = pairs_view(out@);
        let ghost rem = (count - i) as nat;
        if pos >= buf.len() || buf[pos] != 0x82 {
            proof {
                assert(parse_pairs(buf@, pos as int, rem) is None);
            }
            return None;
        }
        let (k, p) = match parse_text_at(buf, pos + 1) {
            Some(x) => x,
            None => {
                proof {
                    assert(parse_pairs(buf@, pos as int, rem) is None);
                }
                return None;
            },
        };
        let (v, p2) = match parse_value_at(buf, p) {
            Some(x) => x,
            None => {
                proof {
                    assert(parse_pairs(buf@, pos as int, rem) is None);
                }
                return None;
            },
        };
        proof {
            lemma_join_step(acc, (k@, v@), parse_pairs(buf@, p2 as int, (rem - 1) as nat));
        }
        out.push((k, v));
        proof {
            assert(pairs_view(out@) =~= acc.push((k@, v@)));
        }
        pos = p2;
        i = i + 1;
    }
    proof {
        assert(parse_pairs(buf@, pos as int, 0) == Some(
            (Seq::<(Seq<char>, ValueView)>::empty(), pos as int),
        ));
        assert(pairs_view(out@) + Seq::<(Seq<char>, ValueView)>::empty() =~= pairs_view(out@));
    }
    Some((out, pos))
}

/// Decode a shard from its CBOR bytes; accepts exactly the canonical
/// form that `shard_to_cbor` writes.
pub fn shard_from_cbor(buf: &[u8]) -> (r: Option<CofferShard>)
    ensures
        match r {
            Some(s) => parse_shard(buf@) == Some(s@),
            None => parse_shard(buf@) is None,
        },
{
    let (count, p) = match parse_head_at(buf, 0, 4) {
        Some(x) => x,
        None => {
            return None;
        },
    };
    let (pairs, p2) = match parse_pairs_at(buf, p, count) {
        Some(x) => x,
        None => {
            return None;
        },
    };
    if p2 != buf.len() {
        return None;
    }
    Some(CofferShard(pairs))
}

/// Read one field of a certificate map: a text key and a 32-byte byte
/// string.
fn parse_cert_field_at(buf: &[u8], pos: usize) -> (r: Option<(String, Vec<u8>, usize)>)
    ensures
        match r {
            Some((k, v, p2)) => parse_cert_field(buf@, pos as int) == Some(
                ((k@, v@), p2 as int),
            ) && pos < p2 <= buf@.len(),
            None => parse_cert_field(buf@, pos as int) is None,
        },
{
    let (k, p) = match parse_text_at(buf, pos) {
        Some(x) => x,
        None => {
            return None;
        },
    };
    let (n, q) = match parse_head_at(buf, p, 2) {
        Some(x) => x,
        None => {
            return None;
        },
    };
    if n != 32 || q != p + 2 {
        return None;
    }
    if buf.len() - q < 32 {
        return None;
    }
    let v = sub_vec(buf, q, q + 32);
    Some((k, v, q + 32))
}

/// Decode a certificate record from its CBOR bytes: the canonical
/// minimal-width form, with the two fields in either order.
pub fn cert_from_cbor(buf: &[u8]) -> (r: Option<(Vec<u8>, Vec<u8>)>)
    ensures
        match r {
            Some((pk, sk)) => parse_cert(buf@) == Some((pk@, sk@)),
            None => parse_cert(buf@) is None,
        },
{
    if buf.len() == 0 || buf[0] != 0xa2 {
        return None;
    }
    let (k1, v1, p1) = match parse_cert_field_at(buf, 1) {
        Some(x) => x,
        None => {
            return None;
        },
    };
    let (k2, v2, p2) = match parse_cert_field_at(buf, p1) {
        Some(x) => x,
        None => {
            return None;
        },
    };
    if p2 != buf.len() {
        return None;
    }
    let k1_public = bytes_eq(k1.as_str().as_bytes(), "public_key".as_bytes());
    let k1_private = bytes_eq(k1.as_str().as_bytes(), "private_key".as_bytes());
    let k2_public = bytes_eq(k2.as_str().as_bytes(), "public_key".as_bytes());
    let k2_private = bytes_eq(k2.as_str().as_bytes(), "private_key".as_bytes());
    proof {
        if k1_public {
            lemma_encode_utf8_injective(k1@, "public_key"@);
        }
        if k1_private {
            lemma_encode_utf8_injective(k1@, "private_key"@);
        }
        if k2_public {
            lemma_encode_utf8_injective(k2@, "public_key"@);
        }
        if k2_private {
            lemma_encode_utf8_injective(k2@, "private_key"@);
        }
        assert("public_key"@ != "private_key"@) by {
            reveal_strlit("public_key");
            reveal_strlit("private_key");
            assert("public_key"@.len() != "private_key"@.len());
        }
    }
    if k1_public && k2_private {
        Some((v1, v2))
    } else if k1_private && k2_public {
        Some((v2, v1))
    } else {
        None
    }
}

} // verus!
