use kvs::client::{get_request, read_get_reply, read_rm_reply, read_set_reply, rm_request, set_request};
use kvs::protocol::Proto;
use kvs::server::{reply_item, req_step, Reply, ReqState, Request};

#[test]
fn assemble_set_request() {
    let st = ReqState::Unknown;
    let (st, none) = req_step(st, Proto::Str("SET".to_string())).unwrap();
    assert!(none.is_none());
    let (st, none) = req_step(st, Proto::Bulk(b"key".to_vec())).unwrap();
    assert!(none.is_none());
    let (st, done) = req_step(st, Proto::Bulk(b"value".to_vec())).unwrap();
    assert!(matches!(st, ReqState::Unknown));
    match done {
        Some(Request::Put(k, v)) => {
            assert_eq!(k, "key".to_string());
            assert_eq!(v, "value".to_string());
        }
        other => panic!("expected Put, got {:?}", other.is_some()),
    }
}

#[test]
fn assemble_get_and_rm_requests() {
    let (st, _) = req_step(ReqState::Unknown, Proto::Str("GET".to_string())).unwrap();
    let (_, done) = req_step(st, Proto::Bulk(b"k".to_vec())).unwrap();
    assert!(matches!(done, Some(Request::Get(_))));
    let (st, _) = req_step(ReqState::Unknown, Proto::Str("RM".to_string())).unwrap();
    let (_, done) = req_step(st, Proto::Bulk(b"k".to_vec())).unwrap();
    assert!(matches!(done, Some(Request::Rm(_))));
}

#[test]
fn bad_requests_are_refused() {
    assert!(req_step(ReqState::Unknown, Proto::Str("DEL".to_string())).is_err());
    assert!(req_step(ReqState::Unknown, Proto::Null).is_err());
    assert!(req_step(ReqState::Get, Proto::Str("x".to_string())).is_err());
    assert!(req_step(ReqState::Get, Proto::Bulk(vec![0xff, 0xfe])).is_err());
}

#[test]
fn replies_map_to_items() {
    assert!(matches!(reply_item(Reply::SR(Ok(()))), Proto::Str(_)));
    assert!(matches!(reply_item(Reply::SR(Err("e".to_string()))), Proto::Fail(_)));
    match reply_item(Reply::G(Ok(Some("v".to_string())))) {
        Proto::Bulk(b) => assert_eq!(b, b"v".to_vec()),
        _ => panic!("expected bulk"),
    }
    assert!(matches!(reply_item(Reply::G(Ok(None))), Proto::Null));
}

#[test]
fn client_requests_have_wire_shape() {
    let wire = set_request("k".to_string(), "v".to_string()).ser();
    assert_eq!(wire, b"+SET\r\n$1\r\nk\r\n$1\r\nv\r\n".to_vec());
    let wire = get_request("k".to_string()).ser();
    assert_eq!(wire, b"+GET\r\n$1\r\nk\r\n".to_vec());
    let wire = rm_request("k".to_string()).ser();
    assert_eq!(wire, b"+RM\r\n$1\r\nk\r\n".to_vec());
}

#[test]
fn client_reads_replies() {
    assert!(read_set_reply(Proto::Str(String::new())).is_ok());
    assert!(read_set_reply(Proto::Fail("x".to_string())).is_err());
    assert_eq!(read_get_reply(Proto::Bulk(b"v".to_vec())).unwrap(), Some("v".to_string()));
    assert_eq!(read_get_reply(Proto::Null).unwrap(), None);
    assert!(read_get_reply(Proto::Fail("x".to_string())).is_err());
    assert_eq!(read_rm_reply(Proto::Str(String::new())).unwrap(), true);
    assert_eq!(read_rm_reply(Proto::Null).unwrap(), false);
}
