use coffer::bootstrap::from_toml;
use coffer::certificate::Certificate;
use coffer::client::{bye_frame, env_pairs, get_frame, handle_response, hello_frame, ClientError};
use coffer::coffer::CofferMap;
use coffer::keyring::Keyring;
use coffer::protocol::{parse_request, Protocol, Request, State};
use coffer::wire::{header_len_ok, read_header, MSG_GET, MSG_OK_GET};

fn server_for(doc: &str) -> (CofferMap, Keyring) {
    let store = from_toml(doc).expect("valid bootstrap");
    let mut ring = Keyring::new(Certificate::new());
    ring.add_known_keys_toml(doc).expect("valid bootstrap");
    (store, ring)
}

/// Drive one frame through the server machinery the way the listener
/// does: split the frame, bound-check the header, parse, step.
fn deliver(
    proto: &mut Protocol,
    frame: &[u8],
    store: &CofferMap,
    ring: &Keyring,
) -> Option<Vec<u8>> {
    let (len, msg_type) = read_header(&frame[0..9]);
    assert!(header_len_ok(len));
    assert_eq!(len as usize, frame.len() - 9);
    let payload = frame[9..].to_vec();
    let req = parse_request(msg_type, payload).expect("well-formed request");
    proto.step(req, store, ring)
}

#[test]
fn happy_path() {
    let client = Certificate::new();
    let doc = format!(
        "[c1]\nid = \"{}\"\npasswd = \"hunter2\"\nport = 8080\n",
        hex::encode(client.public_key())
    );
    let (store, ring) = server_for(&doc);
    let mut proto = Protocol::new();

    assert!(deliver(&mut proto, &hello_frame(&client), &store, &ring).is_none());
    assert_eq!(proto.state(), State::Link);

    let reply = deliver(&mut proto, &get_frame(), &store, &ring).expect("shard served");
    assert_eq!(proto.state(), State::Bye);

    assert!(deliver(&mut proto, &bye_frame(), &store, &ring).is_none());
    assert_eq!(proto.state(), State::End);

    let (len, msg_type) = read_header(&reply[0..9]);
    assert_eq!(msg_type, MSG_OK_GET);
    assert_eq!(len as usize, reply.len() - 9);
    let shard = handle_response(&client, msg_type, &reply[9..]).expect("client decodes");
    let env = env_pairs(&shard);
    assert_eq!(env.len(), 1);
    assert_eq!(env[0].0, "passwd");
    assert_eq!(env[0].1, "hunter2");
}

#[test]
fn values_are_trimmed_for_the_environment() {
    let client = Certificate::new();
    let doc = format!(
        "[c1]\nid = \"{}\"\ntoken = \"\\t  padded \\n\"\n",
        hex::encode(client.public_key())
    );
    let (store, ring) = server_for(&doc);
    let mut proto = Protocol::new();
    deliver(&mut proto, &hello_frame(&client), &store, &ring);
    let reply = deliver(&mut proto, &get_frame(), &store, &ring).expect("shard served");
    let shard = handle_response(&client, MSG_OK_GET, &reply[9..]).expect("client decodes");
    let env = env_pairs(&shard);
    assert_eq!(env, vec![("token".to_string(), "padded".to_string())]);
}

#[test]
fn unknown_client_is_cut_off() {
    let registered = Certificate::new();
    let stranger = Certificate::new();
    let doc = format!(
        "[c1]\nid = \"{}\"\npasswd = \"hunter2\"\n",
        hex::encode(registered.public_key())
    );
    let (store, ring) = server_for(&doc);
    let mut proto = Protocol::new();
    assert!(deliver(&mut proto, &hello_frame(&stranger), &store, &ring).is_none());
    assert_eq!(proto.state(), State::Link);
    assert!(deliver(&mut proto, &get_frame(), &store, &ring).is_none());
    assert_eq!(proto.state(), State::End);
}

#[test]
fn get_without_hello_ends_silently() {
    let client = Certificate::new();
    let doc = format!(
        "[c1]\nid = \"{}\"\npasswd = \"hunter2\"\n",
        hex::encode(client.public_key())
    );
    let (store, ring) = server_for(&doc);
    let mut proto = Protocol::new();
    assert!(deliver(&mut proto, &get_frame(), &store, &ring).is_none());
    assert_eq!(proto.state(), State::End);
}

#[test]
fn end_state_is_terminal() {
    let client = Certificate::new();
    let doc = format!(
        "[c1]\nid = \"{}\"\npasswd = \"hunter2\"\n",
        hex::encode(client.public_key())
    );
    let (store, ring) = server_for(&doc);
    let mut proto = Protocol::new();
    deliver(&mut proto, &get_frame(), &store, &ring);
    assert_eq!(proto.state(), State::End);
    for _ in 0..3 {
        assert!(deliver(&mut proto, &hello_frame(&client), &store, &ring).is_none());
        assert_eq!(proto.state(), State::End);
        assert!(deliver(&mut proto, &get_frame(), &store, &ring).is_none());
        assert_eq!(proto.state(), State::End);
    }
}

#[test]
fn oversized_hello_is_refused_at_the_header() {
    let mut header = [0u8; 9];
    header[2] = 1; // declared length 2^40
    header[8] = 0x00;
    let (len, _) = read_header(&header);
    assert!(!header_len_ok(len));
}

#[test]
fn malformed_requests_are_violations() {
    assert!(parse_request(0x00, vec![1, 2, 3]).is_none()); // Hello must carry 32 bytes
    assert!(parse_request(0x02, vec![0]).is_none()); // Get carries nothing
    assert!(parse_request(0x42, Vec::new()).is_none()); // unknown type
    assert!(parse_request(0x00, vec![7u8; 32]).is_some());
    assert!(parse_request(0x99, Vec::new()).is_some());
}

#[test]
fn bad_length_hello_ends_connection() {
    let client = Certificate::new();
    let doc = format!(
        "[c1]\nid = \"{}\"\npasswd = \"hunter2\"\n",
        hex::encode(client.public_key())
    );
    let (store, ring) = server_for(&doc);
    let mut proto = Protocol::new();
    // a Hello whose payload is not a key is a violation: the listener
    // drops the connection without stepping, mirrored here by Bye-less End
    assert!(parse_request(0x00, vec![1, 2, 3]).is_none());
    // an early Bye is accepted and terminal
    assert!(proto.step(Request::Bye, &store, &ring).is_none());
    assert_eq!(proto.state(), State::End);
}

#[test]
fn two_clients_each_get_only_their_shard() {
    let alpha = Certificate::new();
    let beta = Certificate::new();
    let doc = format!(
        "[a]\nid = \"{}\"\nname = \"alpha\"\n[b]\nid = \"{}\"\nname = \"beta\"\n",
        hex::encode(alpha.public_key()),
        hex::encode(beta.public_key())
    );
    let (store, ring) = server_for(&doc);

    // interleaved conversations over the shared store and keyring
    let mut pa = Protocol::new();
    let mut pb = Protocol::new();
    deliver(&mut pa, &hello_frame(&alpha), &store, &ring);
    deliver(&mut pb, &hello_frame(&beta), &store, &ring);
    let ra = deliver(&mut pa, &get_frame(), &store, &ring).expect("alpha served");
    let rb = deliver(&mut pb, &get_frame(), &store, &ring).expect("beta served");
    deliver(&mut pa, &bye_frame(), &store, &ring);
    deliver(&mut pb, &bye_frame(), &store, &ring);
    assert_eq!(pa.state(), State::End);
    assert_eq!(pb.state(), State::End);

    let sa = handle_response(&alpha, MSG_OK_GET, &ra[9..]).expect("alpha decodes");
    let ea = env_pairs(&sa);
    assert_eq!(ea, vec![("name".to_string(), "alpha".to_string())]);

    let sb = handle_response(&beta, MSG_OK_GET, &rb[9..]).expect("beta decodes");
    let eb = env_pairs(&sb);
    assert_eq!(eb, vec![("name".to_string(), "beta".to_string())]);

    // the response for one client does not open under the other's key
    assert_eq!(
        handle_response(&beta, MSG_OK_GET, &ra[9..]),
        Err(ClientError::Crypto)
    );
    assert_eq!(
        handle_response(&alpha, MSG_OK_GET, &rb[9..]),
        Err(ClientError::Crypto)
    );
}

#[test]
fn violator_does_not_disturb_a_well_behaved_peer() {
    let good = Certificate::new();
    let bad = Certificate::new();
    let doc = format!(
        "[a]\nid = \"{}\"\nname = \"good\"\n[b]\nid = \"{}\"\nname = \"bad\"\n",
        hex::encode(good.public_key()),
        hex::encode(bad.public_key())
    );
    let (store, ring) = server_for(&doc);

    let mut pg = Protocol::new();
    let mut pv = Protocol::new();
    // the violator sends Get before Hello and dies
    assert!(deliver(&mut pv, &get_frame(), &store, &ring).is_none());
    assert_eq!(pv.state(), State::End);
    // the well-behaved one still completes
    deliver(&mut pg, &hello_frame(&good), &store, &ring);
    let reply = deliver(&mut pg, &get_frame(), &store, &ring).expect("still served");
    deliver(&mut pg, &bye_frame(), &store, &ring);
    let shard = handle_response(&good, MSG_OK_GET, &reply[9..]).expect("decodes");
    assert_eq!(env_pairs(&shard), vec![("name".to_string(), "good".to_string())]);
}

#[test]
fn client_rejects_unexpected_message_type() {
    let client = Certificate::new();
    assert_eq!(
        handle_response(&client, MSG_GET, b"whatever"),
        Err(ClientError::UnexpectedMessage)
    );
}

#[test]
fn client_rejects_garbage_payload() {
    let client = Certificate::new();
    let sealed = client.seal(b"not a shard document").expect("sealing works");
    assert_eq!(
        handle_response(&client, MSG_OK_GET, &sealed),
        Err(ClientError::Decode)
    );
    assert_eq!(
        handle_response(&client, MSG_OK_GET, b"not even sealed"),
        Err(ClientError::Crypto)
    );
}
