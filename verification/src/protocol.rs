//! The per-connection protocol state machine.
//!
//! One conversation runs Hello, Get, Bye over a single stream.  The
//! machine decides every transition and builds every byte that is sent;
//! reading and writing the stream happen outside it.  On any unexpected
//! message it moves to `End` without a response, and from `End` it never
//! moves again.

use vstd::prelude::*;

use crate::cbor::{shard_to_cbor, spec_shard_cbor};
use crate::certificate::{seals_to, KEY_LEN};
use crate::coffer::{shard_pairs, CofferMap};
use crate::hexstr::{hex_encode, spec_hex_lower, lemma_hex_lower_injective};
use crate::keyring::Keyring;
use crate::wire::{framed, spec_frame, MSG_BYE, MSG_GET, MSG_HELLO, MSG_OK_GET};

verus! {

/// The states of one connection.
#[derive(Clone, Copy, Debug, PartialEq, Eq, Structural)]
pub enum State {
    /// Nothing has happened yet; only Hello is accepted.
    Start,
    /// The client has announced its public key.
    Link,
    /// The shard was served; only the farewell remains.
    Bye,
    /// Terminal: the connection is closed, nothing more is emitted.
    End,
}

/// A request parsed from one frame.
pub enum Request {
    /// The client's public key.
    Hello(Vec<u8>),
    /// The client asks for its shard.
    Get,
    /// The client says farewell.
    Bye,
}

/// The mathematical image of a request.
pub enum RequestView {
    Hello(Seq<u8>),
    Get,
    Bye,
}

impl View for Request {
    type V = RequestView;

    open spec fn view(&self) -> RequestView {
        match self {
            Request::Hello(pk) => RequestView::Hello(pk@),
            Request::Get => RequestView::Get,
            Request::Bye => RequestView::Bye,
        }
    }
}

/// The request a frame carries, if any: a Hello must carry exactly a
/// public key, Get and Bye carry nothing, and all other message types
/// are refused.
pub open spec fn spec_parse_request(msg_type: u8, payload: Seq<u8>) -> Option<RequestView> {
    if msg_type == MSG_HELLO {
        if payload.len() == KEY_LEN {
            Some(RequestView::Hello(payload))
        } else {
            None
        }
    } else if msg_type == MSG_GET {
        if payload.len() == 0 {
            Some(RequestView::Get)
        } else {
            None
        }
    } else if msg_type == MSG_BYE {
        if payload.len() == 0 {
            Some(RequestView::Bye)
        } else {
            None
        }
    } else {
        None
    }
}

/// Parse one frame into a request; `None` is a protocol violation and
/// ends the connection.
pub fn parse_request(msg_type: u8, payload: Vec<u8>) -> (r: Option<Request>)
    ensures
        match r {
            Some(req) => spec_parse_request(msg_type, payload@) == Some(req@),
            None => spec_parse_request(msg_type, payload@) is None,
        },
{
    if msg_type == MSG_HELLO {
        if payload.len() == KEY_LEN {
            Some(Request::Hello(payload))
        } else {
            None
        }
    } else if msg_type == MSG_GET {
        if payload.len() == 0 {
            Some(Request::Get)
        } else {
            None
        }
    } else if msg_type == MSG_BYE {
        if payload.len() == 0 {
            Some(Request::Bye)
        } else {
            None
        }
    } else {
        None
    }
}

/// Whether a Get can be served: the client announced a key, its shard
/// holds something, and the key is registered for sealing.
pub open spec fn spec_served(
    client: Option<Seq<u8>>,
    store: crate::coffer::StoreView,
    known: Seq<Seq<u8>>,
) -> bool {
    match client {
        Some(c) => shard_pairs(store, spec_hex_lower(c)).len() > 0 && known.contains(c),
        None => false,
    }
}

/// The state after handling one request.
pub open spec fn spec_step_state(st: State, req: RequestView, served: bool) -> State {
    match (st, req) {
        (State::Start, RequestView::Hello(_)) => State::Link,
        (State::Link, RequestView::Get) => if served {
            State::Bye
        } else {
            State::End
        },
        (State::Link, RequestView::Bye) => State::End,
        (State::Bye, RequestView::Bye) => State::End,
        _ => State::End,
    }
}

/// Whether handling one request emits a frame.
pub open spec fn spec_step_emits(st: State, req: RequestView, served: bool) -> bool {
    st == State::Link && req is Get && served
}

/// State monotonicity: from `End` the machine never moves again and
/// never emits a byte.
pub proof fn lemma_end_is_terminal(req: RequestView, served: bool)
    ensures
        spec_step_state(State::End, req, served) == State::End,
        !spec_step_emits(State::End, req, served),
{
}

/// Shard isolation, the deterministic half: two distinct client keys
/// name two distinct shards, so the shard served for one is never the
/// shard of the other; and the served box is sealed to the requesting
/// key alone.  That a box sealed to one key does not open under another
/// is the sealed-box construction's guarantee and is exercised by test.
pub proof fn lemma_distinct_clients_distinct_shards(p: Seq<u8>, q: Seq<u8>)
    requires
        p != q,
    ensures
        spec_hex_lower(p) != spec_hex_lower(q),
{
    if spec_hex_lower(p) == spec_hex_lower(q) {
        lemma_hex_lower_injective(p, q);
    }
}

/// One protocol conversation: the connection state and the client key
/// announced by Hello.
pub struct Protocol {
    state: State,
    client: Option<Vec<u8>>,
}

impl Protocol {
    /// The connection state.
    pub closed spec fn spec_state(&self) -> State {
        self.state
    }

    /// The announced client key, once Hello arrived.
    pub closed spec fn spec_client(&self) -> Option<Seq<u8>> {
        match self.client {
            Some(c) => Some(c@),
            None => None,
        }
    }

    /// A key is on record whenever the conversation is underway.
    pub open spec fn wf(&self) -> bool {
        (self.spec_state() == State::Link || self.spec_state() == State::Bye)
            ==> self.spec_client() is Some
    }

    /// A fresh conversation.
    pub fn new() -> (r: Protocol)
        ensures
            r.spec_state() == State::Start,
            r.spec_client() is None,
            r.wf(),
    {
        Protocol { state: State::Start, client: None }
    }

    /// The current state.
    pub fn state(&self) -> (r: State)
        ensures
            r == self.spec_state(),
    {
        self.state
    }

    /// Handle one request: move the machine and build the bytes to send
    /// back, if any.  A served Get answers with one OkGet frame whose
    /// payload is the client's shard, serialized and sealed to the
    /// client's key; everything unexpected is terminal and silent.
    pub fn step(&mut self, req: Request, store: &CofferMap, keyring: &Keyring) -> (r: Option<
        Vec<u8>,
    >)
        requires
            old(self).wf(),
            keyring.wf(),
        ensures
            final(self).wf(),
            ({
                let served = spec_served(old(self).spec_client(), store@, keyring.keys());
                &&& final(self).spec_state() == spec_step_state(old(self).spec_state(), req@, served)
                &&& r is Some == spec_step_emits(old(self).spec_state(), req@, served)
                &&& match (old(self).spec_state(), req@) {
                    (State::Start, RequestView::Hello(pk)) => final(self).spec_client() == Some(pk),
                    _ => final(self).spec_client() == old(self).spec_client(),
                }
                &&& match r {
                    Some(out) => {
                        let c = old(self).spec_client()->Some_0;
                        let body = spec_shard_cbor(shard_pairs(store@, spec_hex_lower(c)));
                        &&& out@.len() >= 9
                        &&& out@ == spec_frame(MSG_OK_GET, out@.subrange(9, out@.len() as int))
                        &&& seals_to(out@.subrange(9, out@.len() as int), c, body)
                    },
                    None => true,
                }
            }),
    {
        match req {
            Request::Hello(pk) => {
                if self.state == State::Start {
                    self.client = Some(pk);
                    self.state = State::Link;
                    return None;
                }
                self.state = State::End;
                None
            },
            Request::Get => {
                if self.state == State::Link {
                    let client = match &self.client {
                        Some(c) => c,
                        None => {
                            proof {
                                assert(false);
                            }
                            self.state = State::End;
                            return None;
                        },
                    };
                    let sid = hex_encode(client.as_slice());
                    match store.get_shard(&sid) {
                        Some(shard) => {
                            let body = shard_to_cbor(&shard);
                            match keyring.seal(client.as_slice(), body.as_slice()) {
                                Ok(sealed) => {
                                    let ghost ct = sealed@;
                                    let out = framed(MSG_OK_GET, sealed);
                                    self.state = State::Bye;
                                    proof {
                                        assert(out@.subrange(9, out@.len() as int) =~= ct);
                                    }
                                    Some(out)
                                },
                                Err(_) => {
                                    self.state = State::End;
                                    None
                                },
                            }
                        },
                        None => {
                            self.state = State::End;
                            None
                        },
                    }
                } else {
                    self.state = State::End;
                    None
                }
            },
            Request::Bye => {
                self.state = State::End;
                None
            },
        }
    }
}

} // verus!
