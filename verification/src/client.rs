//! The client side of one conversation.
//!
//! A client sends Hello with its public key, sends Get, reads one OkGet
//! frame, says Bye, opens the sealed payload with its certificate, and
//! turns the string values of its shard into environment pairs.  The
//! socket work and the final process handover happen outside this
//! module.

use vstd::prelude::*;

use crate::cbor::{parse_shard, shard_from_cbor, lemma_shard_cbor_round_trip, pairs_fit, spec_shard_cbor};
use crate::certificate::{sealed_open, seals_to, Certificate};
use crate::coffer::{CofferShard, CofferValue, ValueView};
use crate::wire::{
    framed, lemma_frame_round_trip, spec_frame, spec_u64_from_be, MSG_BYE, MSG_GET, MSG_HELLO,
    MSG_OK_GET,
};

verus! {

/// Errors of the client's half of the conversation.
#[derive(Clone, Copy, Debug, PartialEq, Eq, Structural)]
pub enum ClientError {
    /// The server answered with a message type other than OkGet.
    UnexpectedMessage,
    /// The sealed payload did not open under this certificate.
    Crypto,
    /// The opened payload is not a shard document.
    Decode,
}

/// The Hello frame announcing this certificate's public key.
pub fn hello_frame(cert: &Certificate) -> (r: Vec<u8>)
    ensures
        r@ == spec_frame(MSG_HELLO, cert.pk()),
{
    framed(MSG_HELLO, cert.public_key())
}

/// The Get frame.
pub fn get_frame() -> (r: Vec<u8>)
    ensures
        r@ == spec_frame(MSG_GET, Seq::empty()),
{
    let empty: Vec<u8> = Vec::new();
    proof {
        assert(empty@ =~= Seq::<u8>::empty());
    }
    framed(MSG_GET, empty)
}

/// The Bye frame.
pub fn bye_frame() -> (r: Vec<u8>)
    ensures
        r@ == spec_frame(MSG_BYE, Seq::empty()),
{
    let empty: Vec<u8> = Vec::new();
    proof {
        assert(empty@ =~= Seq::<u8>::empty());
    }
    framed(MSG_BYE, empty)
}

/// Handle the server's answer to Get: require an OkGet frame, open the
/// sealed payload with this certificate, and decode the shard.
pub fn handle_response(cert: &Certificate, msg_type: u8, payload: &[u8]) -> (r: Result<
    CofferShard,
    ClientError,
>)
    requires
        cert.wf(),
    ensures
        match r {
            Ok(shard) => msg_type == MSG_OK_GET && (match sealed_open(
                payload@,
                cert.pk(),
                cert.sk(),
            ) {
                Some(body) => parse_shard(body) == Some(shard@),
                None => false,
            }),
            Err(e) => match e {
                ClientError::UnexpectedMessage => msg_type != MSG_OK_GET,
                ClientError::Crypto => msg_type == MSG_OK_GET && sealed_open(
                    payload@,
                    cert.pk(),
                    cert.sk(),
                ) is None,
                ClientError::Decode => msg_type == MSG_OK_GET && (match sealed_open(
                    payload@,
                    cert.pk(),
                    cert.sk(),
                ) {
                    Some(body) => parse_shard(body) is None,
                    None => false,
                }),
            },
        },
{
    if msg_type != MSG_OK_GET {
        return Err(ClientError::UnexpectedMessage);
    }
    let body = match cert.open(payload) {
        Ok(b) => b,
        Err(_) => {
            return Err(ClientError::Crypto);
        },
    };
    match shard_from_cbor(body.as_slice()) {
        Some(shard) => Ok(shard),
        None => Err(ClientError::Decode),
    }
}

/// The characters with the Unicode White_Space property, the set
/// `str::trim` strips.
pub open spec fn is_unicode_whitespace(c: char) -> bool {
    ('\u{09}' <= c && c <= '\u{0d}') || c == ' ' || c == '\u{85}' || c == '\u{a0}' || c
        == '\u{1680}' || ('\u{2000}' <= c && c <= '\u{200a}') || c == '\u{2028}' || c
        == '\u{2029}' || c == '\u{202f}' || c == '\u{205f}' || c == '\u{3000}'
}

/// A string without its leading whitespace.
pub open spec fn spec_trim_start(s: Seq<char>) -> Seq<char>
    decreases s.len(),
{
    if s.len() > 0 && is_unicode_whitespace(s[0]) {
        spec_trim_start(s.drop_first())
    } else {
        s
    }
}

/// A string without its trailing whitespace.
pub open spec fn spec_trim_end(s: Seq<char>) -> Seq<char>
    decreases s.len(),
{
    if s.len() > 0 && is_unicode_whitespace(s.last()) {
        spec_trim_end(s.drop_last())
    } else {
        s
    }
}

/// A string without leading and trailing whitespace.
pub open spec fn spec_trim(s: Seq<char>) -> Seq<char> {
    spec_trim_end(spec_trim_start(s))
}

/// Relies on `str::trim`: it removes the leading and trailing
/// characters with the Unicode White_Space property and depends on the
/// characters alone.
#[verifier::external_body]
fn str_trim(s: &str) -> (r: &str)
    ensures
        r@ == spec_trim(s@),
{
    s.trim()
}

/// The environment pairs of a shard: each string value, with its key,
/// both trimmed; values of other types carry no text and are skipped.
pub open spec fn spec_env_pairs(ps: Seq<(Seq<char>, ValueView)>) -> Seq<(Seq<char>, Seq<char>)>
    decreases ps.len(),
{
    if ps.len() == 0 {
        Seq::empty()
    } else {
        spec_env_pairs(ps.drop_last()) + match ps.last().1 {
            ValueView::Str(s) => seq![(spec_trim(ps.last().0), spec_trim(s))],
            _ => Seq::empty(),
        }
    }
}

/// The environment pairs to inject before the handover.
pub fn env_pairs(shard: &CofferShard) -> (r: Vec<(String, String)>)
    ensures
        r@.map_values(|p: (String, String)| (p.0@, p.1@)) == spec_env_pairs(shard@),
{
    let mut out: Vec<(String, String)> = Vec::new();
    let n = shard.0.len();
    let mut i: usize = 0;
    proof {
        assert(out@.map_values(|p: (String, String)| (p.0@, p.1@)) =~= spec_env_pairs(
            shard@.take(0),
        ));
    }
    while i < n
        invariant
            n == shard.0.len(),
            shard@.len() == n,
            i <= n,
            out@.map_values(|p: (String, String)| (p.0@, p.1@)) == spec_env_pairs(
                shard@.take(i as int),
            ),
        decreases n - i,
    {
        let ghost pre = out@;
        proof {
            assert(shard@[i as int] == (shard.0@[i as int].0@, shard.0@[i as int].1@));
            assert(shard@.take(i as int + 1).drop_last() =~= shard@.take(i as int));
            assert(shard@.take(i as int + 1).last() == shard@[i as int]);
        }
        match &shard.0[i].1 {
            CofferValue::Str(s) => {
                let k = str_trim(shard.0[i].0.as_str());
                let v = str_trim(s.as_str());
                out.push((k.to_owned(), v.to_owned()));
                proof {
                    assert(out@.map_values(|p: (String, String)| (p.0@, p.1@)) =~= pre.map_values(
                        |p: (String, String)| (p.0@, p.1@),
                    ) + seq![(spec_trim(shard@[i as int].0), spec_trim(s@))]);
                }
            },
            _ => {},
        }
        i = i + 1;
    }
    proof {
        assert(shard@.take(n as int) =~= shard@);
    }
    out
}

/// The served frame decodes whole: reading the frame a served Get
/// produced yields its type and sealed payload, the payload opens under
/// the addressed certificate to the CBOR document of that client's
/// shard, and decoding the document yields the shard.
pub proof fn lemma_served_frame_decodes(
    cert: Certificate,
    pairs: Seq<(Seq<char>, ValueView)>,
    ct: Seq<u8>,
)
    requires
        cert.paired(),
        pairs.len() <= u64::MAX,
        pairs_fit(pairs),
        ct.len() <= u64::MAX,
        seals_to(ct, cert.pk(), spec_shard_cbor(pairs)),
    ensures
        ({
            let f = spec_frame(MSG_OK_GET, ct);
            &&& f.len() == 9 + ct.len()
            &&& spec_u64_from_be(f.subrange(0, 8)) == ct.len()
            &&& f[8] == MSG_OK_GET
            &&& f.subrange(9, f.len() as int) == ct
            &&& sealed_open(ct, cert.pk(), cert.sk()) == Some(spec_shard_cbor(pairs))
            &&& parse_shard(spec_shard_cbor(pairs)) == Some(pairs)
        }),
{
    lemma_frame_round_trip(MSG_OK_GET, ct);
    lemma_session_round_trip(cert, pairs, ct);
}

/// Shard round trip across the wire: a payload the server sealed for a
/// certificate opens under that certificate to the CBOR document of the
/// client's shard, and decoding that document yields the shard.
pub proof fn lemma_session_round_trip(
    cert: Certificate,
    pairs: Seq<(Seq<char>, ValueView)>,
    ct: Seq<u8>,
)
    requires
        cert.paired(),
        pairs.len() <= u64::MAX,
        pairs_fit(pairs),
        seals_to(ct, cert.pk(), spec_shard_cbor(pairs)),
    ensures
        sealed_open(ct, cert.pk(), cert.sk()) == Some(spec_shard_cbor(pairs)),
        parse_shard(spec_shard_cbor(pairs)) == Some(pairs),
{
    lemma_shard_cbor_round_trip(pairs);
}

} // verus!
