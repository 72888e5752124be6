//! A network-accessible secret custodian.
//!
//! A long-lived server (the coffer) holds a table of per-client secret
//! bundles; short-lived clients retrieve their own bundle over a framed
//! binary protocol, end-to-end encrypted under the client's public key.
//!
//! This crate is the verified core: the frame codec, the per-connection
//! protocol state machine, the sharded key-value store with its TOML
//! bootstrap loader, the keyring, and the CBOR encoding of the data that
//! crosses the wire.  Sockets, files and process handling live outside it.

pub mod bootstrap;
pub mod cbor;
pub mod certificate;
pub mod client;
pub mod coffer;
pub mod floatbits;
pub mod hexstr;
pub mod keyring;
pub mod protocol;
pub mod wire;
