//! The server's certificate plus its registry of trusted client keys.

use vstd::prelude::*;

use crate::certificate::{seals_to, sealed_open, Certificate, CertificateError, KEY_LEN, SEAL_OVERHEAD};
use crate::certificate::sealedbox_seal;
use crate::wire::bytes_eq;

verus! {

/// Errors of the keyring operations.
#[derive(Clone, Copy, Debug, PartialEq, Eq, Structural)]
pub enum KeyringError {
    /// Sealing was requested for a public key that is not registered.
    UnknownClientKey,
    /// A registered key must be exactly `KEY_LEN` bytes.
    InvalidClientKey,
    /// A sealed box did not open.
    Crypto,
    /// The bootstrap document could not be understood.
    Parse,
}

/// The keyring: the owner's certificate and the set of known and
/// trusted client public keys.
pub struct Keyring {
    certificate: Certificate,
    known_keys: Vec<Vec<u8>>,
}

impl Keyring {
    /// The registered client keys, in registration order.
    pub closed spec fn keys(&self) -> Seq<Seq<u8>> {
        self.known_keys@.map_values(|k: Vec<u8>| k@)
    }

    /// Whether a client public key is registered.
    pub open spec fn knows(&self, k: Seq<u8>) -> bool {
        self.keys().contains(k)
    }

    /// The owner's certificate.
    pub closed spec fn certificate(&self) -> Certificate {
        self.certificate
    }

    /// The certificate is well formed and every registered key has key
    /// length.
    pub open spec fn wf(&self) -> bool {
        self.certificate().wf() && forall|i: int|
            0 <= i < self.keys().len() ==> (#[trigger] self.keys()[i]).len() == KEY_LEN
    }

    /// A new keyring around a certificate, with no keys registered.
    pub fn new(certificate: Certificate) -> (r: Keyring)
        requires
            certificate.wf(),
        ensures
            r.wf(),
            r.certificate() == certificate,
            r.keys() == Seq::<Seq<u8>>::empty(),
    {
        let r = Keyring { certificate, known_keys: Vec::new() };
        proof {
            assert(r.keys() =~= Seq::<Seq<u8>>::empty());
        }
        r
    }

    /// Register a client public key; rejected unless it has key length.
    pub fn add_known_key(&mut self, key: &[u8]) -> (r: Result<(), KeyringError>)
        requires
            old(self).wf(),
        ensures
            final(self).wf(),
            final(self).certificate() == old(self).certificate(),
            match r {
                Ok(()) => key@.len() == KEY_LEN && final(self).keys() == old(self).keys().push(
                    key@,
                ),
                Err(e) => e == KeyringError::InvalidClientKey && key@.len() != KEY_LEN
                    && final(self).keys() == old(self).keys(),
            },
    {
        if key.len() != KEY_LEN {
            return Err(KeyringError::InvalidClientKey);
        }
        let ghost pre = self.keys();
        let mut k: Vec<u8> = Vec::new();
        k.extend_from_slice(key);
        proof {
            assert(k@ =~= key@);
        }
        self.known_keys.push(k);
        proof {
            assert(self.keys() =~= pre.push(key@));
        }
        Ok(())
    }

    /// Open a sealed message with the owner's certificate.
    pub fn open(&self, message: &[u8]) -> (r: Result<Vec<u8>, KeyringError>)
        requires
            self.wf(),
        ensures
            match r {
                Ok(m) => sealed_open(message@, self.certificate().pk(), self.certificate().sk())
                    == Some(m@),
                Err(e) => e == KeyringError::Crypto && sealed_open(
                    message@,
                    self.certificate().pk(),
                    self.certificate().sk(),
                ) is None,
            },
    {
        match self.certificate.open(message) {
            Ok(m) => Ok(m),
            Err(_) => Err(KeyringError::Crypto),
        }
    }

    /// Whether `key` equals one of the registered keys.
    fn lookup(&self, key: &[u8]) -> (r: bool)
        ensures
            r == self.knows(key@),
    {
        let n = self.known_keys.len();
        let mut i: usize = 0;
        while i < n
            invariant
                n == self.keys().len(),
                i <= n,
                forall|j: int| 0 <= j < i ==> (#[trigger] self.keys()[j]) != key@,
            decreases n - i,
        {
            proof {
                assert(self.keys()[i as int] == self.known_keys@[i as int]@);
            }
            if bytes_eq(self.known_keys[i].as_slice(), key) {
                proof {
                    assert(self.keys().contains(key@));
                }
                return true;
            }
            i = i + 1;
        }
        proof {
            if self.keys().contains(key@) {
                let j = choose|j: int| 0 <= j < self.keys().len() && self.keys()[j] == key@;
                assert(self.keys()[j] != key@);
            }
        }
        false
    }

    /// Seal a message for a registered client: the box opens only under
    /// a keypair of that client's public key.
    pub fn seal(&self, client: &[u8], message: &[u8]) -> (r: Result<Vec<u8>, KeyringError>)
        requires
            self.wf(),
        ensures
            match r {
                Ok(c) => self.knows(client@) && c@.len() == message@.len() + SEAL_OVERHEAD
                    && seals_to(c@, client@, message@),
                Err(e) => e == KeyringError::UnknownClientKey && !self.knows(client@),
            },
    {
        if !self.lookup(client) {
            return Err(KeyringError::UnknownClientKey);
        }
        proof {
            let j = choose|j: int| 0 <= j < self.keys().len() && self.keys()[j] == client@;
            assert(self.keys()[j].len() == KEY_LEN);
        }
        match sealedbox_seal(message, client) {
            Some(c) => Ok(c),
            None => Err(KeyringError::UnknownClientKey),
        }
    }
}

} // verus!
