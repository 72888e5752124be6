//! A keypair container providing sealing and opening of messages.
//!
//! The cryptographic operations are libsodium's anonymous sealed boxes,
//! reached through the `sodiumoxide` bindings: an ephemeral keypair is
//! generated per message, the nonce is derived from the ephemeral and
//! recipient public keys, and the ephemeral public key is prepended to
//! the ciphertext.

use vstd::prelude::*;

verus! {

/// Length in bytes of a public or secret key.
pub const KEY_LEN: usize = 32;

/// Bytes a sealed box adds to its plaintext: the ephemeral public key
/// and the authentication tag.
pub const SEAL_OVERHEAD: usize = 48;

/// Whether a public key and a secret key form one generated keypair.
/// Given meaning only through the contracts of the trusted crypto calls.
pub uninterp spec fn is_keypair(pk: Seq<u8>, sk: Seq<u8>) -> bool;

/// What opening a sealed box with a keypair returns.  Opening is a
/// deterministic function of the ciphertext and the keypair; this name
/// is given meaning only through the contracts of the trusted crypto
/// calls.
pub uninterp spec fn sealed_open(c: Seq<u8>, pk: Seq<u8>, sk: Seq<u8>) -> Option<Seq<u8>>;

/// A ciphertext that every holder of a keypair of `pk` opens to `m`.
pub open spec fn seals_to(c: Seq<u8>, pk: Seq<u8>, m: Seq<u8>) -> bool {
    forall|sk: Seq<u8>| is_keypair(pk, sk) ==> sealed_open(c, pk, sk) == Some(m)
}

/// Relies on sodiumoxide's `box_::gen_keypair`: it returns a fresh
/// 32-byte keypair.
#[verifier::external_body]
pub(crate) fn box_gen_keypair() -> (r: (Vec<u8>, Vec<u8>))
    ensures
        r.0@.len() == KEY_LEN,
        r.1@.len() == KEY_LEN,
        is_keypair(r.0@, r.1@),
{
    let (pk, sk) = sodiumoxide::crypto::box_::gen_keypair();
    (pk.as_ref().to_vec(), sk.as_ref().to_vec())
}

/// Relies on sodiumoxide's `sealedbox::seal` and `PublicKey::from_slice`:
/// `from_slice` accepts exactly the 32-byte slices, and the ciphertext is
/// `SEAL_OVERHEAD` bytes longer than the message and opens to the message
/// under any keypair of the recipient public key.
#[verifier::external_body]
pub(crate) fn sealedbox_seal(m: &[u8], pk: &[u8]) -> (r: Option<Vec<u8>>)
    ensures
        match r {
            Some(c) => pk@.len() == KEY_LEN && c@.len() == m@.len() + SEAL_OVERHEAD && seals_to(
                c@,
                pk@,
                m@,
            ),
            None => pk@.len() != KEY_LEN,
        },
{
    match sodiumoxide::crypto::box_::PublicKey::from_slice(pk) {
        Some(p) => Some(sodiumoxide::crypto::sealedbox::seal(m, &p)),
        None => None,
    }
}

/// Relies on sodiumoxide's `sealedbox::open`: opening is deterministic
/// in the ciphertext and keypair; `Err` means the box did not decrypt.
#[verifier::external_body]
pub(crate) fn sealedbox_open(c: &[u8], pk: &[u8], sk: &[u8]) -> (r: Option<Vec<u8>>)
    requires
        pk@.len() == KEY_LEN,
        sk@.len() == KEY_LEN,
    ensures
        match r {
            Some(m) => sealed_open(c@, pk@, sk@) == Some(m@),
            None => sealed_open(c@, pk@, sk@) is None,
        },
{
    let p = match sodiumoxide::crypto::box_::PublicKey::from_slice(pk) {
        Some(p) => p,
        None => return None,
    };
    let s = match sodiumoxide::crypto::box_::SecretKey::from_slice(sk) {
        Some(s) => s,
        None => return None,
    };
    sodiumoxide::crypto::sealedbox::open(c, &p, &s).ok()
}

/// Errors of the certificate operations.
#[derive(Clone, Copy, Debug, PartialEq, Eq, Structural)]
pub enum CertificateError {
    /// The CBOR bytes do not hold a certificate record.
    Cbor,
    /// A sealed box did not open.
    Crypto,
}

/// A container for one keypair.
///
/// Once constructed the keypair is immutable; sealing and opening are
/// the only operations that consult the secret half.
pub struct Certificate {
    public_key: Vec<u8>,
    secret_key: Vec<u8>,
}

impl Certificate {
    /// The public key bytes.
    pub closed spec fn pk(&self) -> Seq<u8> {
        self.public_key@
    }

    /// The secret key bytes.
    pub closed spec fn sk(&self) -> Seq<u8> {
        self.secret_key@
    }

    /// Both halves have key length.
    pub open spec fn wf(&self) -> bool {
        self.pk().len() == KEY_LEN && self.sk().len() == KEY_LEN
    }

    /// The two halves belong to one generated keypair.
    pub open spec fn paired(&self) -> bool {
        is_keypair(self.pk(), self.sk())
    }

    /// Initialize with a freshly generated keypair.
    pub fn new() -> (r: Certificate)
        ensures
            r.wf(),
            r.paired(),
    {
        let (public_key, secret_key) = box_gen_keypair();
        Certificate { public_key, secret_key }
    }

    /// Initialize from a serialized certificate record in CBOR format;
    /// the record's two fields are accepted in either order.
    pub fn new_from_cbor(bytes: &[u8]) -> (r: Result<Certificate, CertificateError>)
        ensures
            match r {
                Ok(c) => crate::cbor::parse_cert(bytes@) == Some((c.pk(), c.sk())) && c.wf(),
                Err(e) => e == CertificateError::Cbor && crate::cbor::parse_cert(bytes@) is None,
            },
    {
        match crate::cbor::cert_from_cbor(bytes) {
            Some((public_key, secret_key)) => {
                proof {
                    crate::cbor::lemma_parse_cert_sound(bytes@);
                }
                Ok(Certificate { public_key, secret_key })
            },
            None => Err(CertificateError::Cbor),
        }
    }

    /// Serialize the certificate to a CBOR record.
    pub fn to_cbor(&self) -> (r: Vec<u8>)
        requires
            self.wf(),
        ensures
            r@ == crate::cbor::spec_cert_cbor(self.pk(), self.sk()),
    {
        let mut out: Vec<u8> = Vec::new();
        out.push(0xa2);
        crate::cbor::push_text(&mut out, "public_key");
        crate::cbor::push_byte_str(&mut out, self.public_key.as_slice());
        crate::cbor::push_text(&mut out, "private_key");
        crate::cbor::push_byte_str(&mut out, self.secret_key.as_slice());
        proof {
            assert(out@ =~= crate::cbor::spec_cert_cbor(self.pk(), self.sk()));
        }
        out
    }

    /// Clone the bytes of the public key.
    pub fn public_key(&self) -> (r: Vec<u8>)
        ensures
            r@ == self.pk(),
    {
        self.public_key.clone()
    }

    /// Clone the bytes of the secret key.
    pub fn secret_key(&self) -> (r: Vec<u8>)
        ensures
            r@ == self.sk(),
    {
        self.secret_key.clone()
    }

    /// Seal a message in a sealed box addressed to this certificate.
    pub fn seal(&self, message: &[u8]) -> (r: Result<Vec<u8>, CertificateError>)
        requires
            self.wf(),
        ensures
            match r {
                Ok(c) => c@.len() == message@.len() + SEAL_OVERHEAD && seals_to(
                    c@,
                    self.pk(),
                    message@,
                ),
                Err(_) => false,
            },
    {
        match sealedbox_seal(message, self.public_key.as_slice()) {
            Some(c) => Ok(c),
            None => Err(CertificateError::Crypto),
        }
    }

    /// Open a sealed box addressed to this certificate.
    pub fn open(&self, c: &[u8]) -> (r: Result<Vec<u8>, CertificateError>)
        requires
            self.wf(),
        ensures
            match r {
                Ok(m) => sealed_open(c@, self.pk(), self.sk()) == Some(m@),
                Err(e) => e == CertificateError::Crypto && sealed_open(
                    c@,
                    self.pk(),
                    self.sk(),
                ) is None,
            },
    {
        match sealedbox_open(c, self.public_key.as_slice(), self.secret_key.as_slice()) {
            Some(m) => Ok(m),
            None => Err(CertificateError::Crypto),
        }
    }
}

/// Sealing round-trip: a box sealed to a certificate's public key opens
/// under that certificate to the sealed message, whenever the
/// certificate holds a generated keypair.
pub proof fn lemma_seal_round_trip(cert: Certificate, m: Seq<u8>, c: Seq<u8>)
    requires
        cert.paired(),
        seals_to(c, cert.pk(), m),
    ensures
        sealed_open(c, cert.pk(), cert.sk()) == Some(m),
{
}

} // verus!
