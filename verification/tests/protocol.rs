use wasm_storage::protocol::{
    connection_step, parse_request, reply, request_is_well_formed, Action, Request, INVALID_REPLY,
    PUT_REPLY,
};

fn buffer(msg: &str) -> Vec<u8> {
    let mut buf = vec![0u8; 1024];
    buf[..msg.len()].copy_from_slice(msg.as_bytes());
    String::from_utf8_lossy(&buf).into_owned().into_bytes()
}

fn put_of(msg: &[u8]) -> (Vec<u8>, Vec<u8>) {
    assert!(request_is_well_formed(msg));
    match parse_request(msg) {
        Request::Put { key, value } => (key, value),
        _ => panic!("not a put"),
    }
}

fn get_of(msg: &[u8]) -> Vec<u8> {
    assert!(request_is_well_formed(msg));
    match parse_request(msg) {
        Request::Get { key } => key,
        _ => panic!("not a get"),
    }
}

#[test]
fn put_message_in_buffer() {
    let (k, v) = put_of(&buffer("put key1=value2222."));
    assert_eq!(k, b"key1".to_vec());
    assert_eq!(v, b"value2222".to_vec());
}

#[test]
fn put_key_may_hold_equals_sign() {
    let (k, v) = put_of(b"put a=b=c.");
    assert_eq!(k, b"a=b".to_vec());
    assert_eq!(v, b"c".to_vec());
}

#[test]
fn put_value_ends_at_last_dot() {
    let (k, v) = put_of(b"put k=v.w.x");
    assert_eq!(k, b"k".to_vec());
    assert_eq!(v, b"v.w".to_vec());
}

#[test]
fn put_with_empty_key_and_value() {
    let (k, v) = put_of(b"put =.");
    assert_eq!(k, Vec::<u8>::new());
    assert_eq!(v, Vec::<u8>::new());
}

#[test]
fn put_with_non_ascii_text() {
    let (k, v) = put_of("put clé=été.".as_bytes());
    assert_eq!(k, "clé".as_bytes().to_vec());
    assert_eq!(v, "été".as_bytes().to_vec());
}

#[test]
fn get_key_ends_at_second_to_last_dot() {
    assert_eq!(get_of(b"get key0.alue0."), b"key0".to_vec());
    assert_eq!(get_of(&buffer("get a.b.c.")), b"a.b".to_vec());
}

#[test]
fn get_after_longer_put_in_same_buffer() {
    let mut buf = buffer("put key0=value0.");
    buf[..9].copy_from_slice(b"get key0.");
    assert_eq!(get_of(&buf), b"key0".to_vec());
}

#[test]
fn other_messages_are_invalid() {
    for msg in [&b"hello"[..], &b""[..], &b"pu"[..], &b"PUT k=v."[..], &b"delete k."[..]] {
        assert!(request_is_well_formed(msg));
        assert!(matches!(parse_request(msg), Request::Invalid));
    }
}

#[test]
fn malformed_messages_are_detected() {
    assert!(!request_is_well_formed(b"put"));
    assert!(!request_is_well_formed(b"put k"));
    assert!(!request_is_well_formed(b"put k=v"));
    assert!(!request_is_well_formed(b"put k.v=w"));
    assert!(!request_is_well_formed(b"get"));
    assert!(!request_is_well_formed(b"get key."));
    assert!(!request_is_well_formed(&buffer("get key.")));
    assert!(!request_is_well_formed("putéx=y.".as_bytes()));
    assert!(request_is_well_formed("put é=y.".as_bytes()));
}

#[test]
fn put_message_round_trip() {
    for (key, value) in [("k", "v"), ("a=b", "c"), ("x.y", ""), ("", "value")] {
        let msg = format!("put {}={}.", key, value);
        let (k, v) = put_of(&buffer(&msg));
        assert_eq!(k, key.as_bytes().to_vec());
        assert_eq!(v, value.as_bytes().to_vec());
    }
}

#[test]
fn get_message_round_trip() {
    for (key, mid) in [("k", ""), ("a.b", "zz"), ("", "m")] {
        let msg = format!("get {}.{}.", key, mid);
        assert_eq!(get_of(&buffer(&msg)), key.as_bytes().to_vec());
    }
}

#[test]
fn replies() {
    let put = Request::Put { key: b"k".to_vec(), value: b"v".to_vec() };
    assert_eq!(reply(&put, b""), b"put success".to_vec());
    assert_eq!(reply(&put, b"anything"), PUT_REPLY.as_bytes().to_vec());
    let get = Request::Get { key: b"key1".to_vec() };
    assert_eq!(reply(&get, b"value2222"), b"get key1=value2222".to_vec());
    assert_eq!(reply(&get, b""), b"get key1=".to_vec());
    assert_eq!(
        reply(&Request::Invalid, b""),
        b"your operation is wrong, only put or get".to_vec()
    );
    assert_eq!(INVALID_REPLY, "your operation is wrong, only put or get");
}

#[test]
fn step_closes_on_empty_read() {
    let acts = connection_step(0, b"put k=v.");
    assert_eq!(acts.len(), 1);
    assert!(matches!(acts[0], Action::Close));
}

#[test]
fn step_for_put_writes_then_answers_then_gossips() {
    let msg = buffer("put key1=value2222.");
    let acts = connection_step(19, &msg);
    assert_eq!(acts.len(), 3);
    match &acts[0] {
        Action::StoreLocally { key, value } => {
            assert_eq!(key, &b"key1".to_vec());
            assert_eq!(value, &b"value2222".to_vec());
        }
        _ => panic!("first action is not the local write"),
    }
    match &acts[1] {
        Action::Send(bytes) => assert_eq!(bytes, &b"put success".to_vec()),
        _ => panic!("second action is not the reply"),
    }
    match &acts[2] {
        Action::Gossip { key, value } => {
            assert_eq!(key, &b"key1".to_vec());
            assert_eq!(value, &b"value2222".to_vec());
        }
        _ => panic!("third action is not the gossip"),
    }
}

#[test]
fn step_for_get_looks_up() {
    let acts = connection_step(15, b"get key0.alue0.");
    assert_eq!(acts.len(), 1);
    match &acts[0] {
        Action::LookupAndReply { key } => assert_eq!(key, &b"key0".to_vec()),
        _ => panic!("not a lookup"),
    }
}

#[test]
fn step_for_other_message_rejects() {
    let acts = connection_step(5, b"hello");
    assert_eq!(acts.len(), 1);
    match &acts[0] {
        Action::Send(bytes) => {
            assert_eq!(bytes, &b"your operation is wrong, only put or get".to_vec())
        }
        _ => panic!("not a rejection"),
    }
}
