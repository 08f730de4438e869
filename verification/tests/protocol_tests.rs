use kvs::protocol::{parse_item, ParseOutcome, Proto, ProtoCodec, ProtoError};

#[test]
fn simple_string_exact_bytes() {
    let p = Proto::Str("OK".to_string());
    assert_eq!(p.ser(), b"+OK\r\n".to_vec());
}

#[test]
fn error_exact_bytes() {
    let p = Proto::Fail("boom".to_string());
    assert_eq!(p.ser(), b"-boom\r\n".to_vec());
}

#[test]
fn bulk_exact_bytes() {
    let p = Proto::Bulk(b"hello".to_vec());
    assert_eq!(p.ser(), b"$5\r\nhello\r\n".to_vec());
    let empty = Proto::Bulk(Vec::new());
    assert_eq!(empty.ser(), b"$0\r\n\r\n".to_vec());
}

#[test]
fn null_exact_bytes() {
    assert_eq!(Proto::Null.ser(), b"$-1\r\n".to_vec());
}

#[test]
fn sequence_concatenates_items() {
    let req = Proto::List(vec![
        Proto::Str("SET".to_string()),
        Proto::Bulk(b"key".to_vec()),
        Proto::Bulk(b"value".to_vec()),
    ]);
    assert_eq!(req.ser(), b"+SET\r\n$3\r\nkey\r\n$5\r\nvalue\r\n".to_vec());
}

#[test]
fn parse_simple_string() {
    match parse_item(b"+OK\r\nrest", 0) {
        ParseOutcome::Item(Proto::Str(s), n) => {
            assert_eq!(s, "OK".to_string());
            assert_eq!(n, 5);
        },
        _ => panic!("expected item"),
    }
}

#[test]
fn parse_error_item() {
    match parse_item(b"-bad\r\n", 0) {
        ParseOutcome::Item(Proto::Fail(s), n) => {
            assert_eq!(s, "bad".to_string());
            assert_eq!(n, 6);
        },
        _ => panic!("expected item"),
    }
}

#[test]
fn parse_bulk_and_null() {
    match parse_item(b"$3\r\nabc\r\n", 0) {
        ParseOutcome::Item(Proto::Bulk(b), n) => {
            assert_eq!(b, b"abc".to_vec());
            assert_eq!(n, 9);
        },
        _ => panic!("expected bulk"),
    }
    match parse_item(b"$-1\r\n", 0) {
        ParseOutcome::Item(Proto::Null, 5) => (),
        _ => panic!("expected null"),
    }
}

#[test]
fn parse_at_offset() {
    match parse_item(b"XX+hi\r\n", 2) {
        ParseOutcome::Item(Proto::Str(s), 5) => assert_eq!(s, "hi".to_string()),
        _ => panic!("expected item at offset"),
    }
}

#[test]
fn incomplete_inputs_wait_for_more() {
    assert!(matches!(parse_item(b"", 0), ParseOutcome::Incomplete));
    assert!(matches!(parse_item(b"+par", 0), ParseOutcome::Incomplete));
    assert!(matches!(parse_item(b"$5\r\nab", 0), ParseOutcome::Incomplete));
    assert!(matches!(parse_item(b"$12", 0), ParseOutcome::Incomplete));
    assert!(matches!(parse_item(b"+hi\r", 0), ParseOutcome::Incomplete));
}

#[test]
fn malformed_inputs_are_rejected() {
    assert!(matches!(parse_item(b"?x\r\n", 0), ParseOutcome::Bad(ProtoError::InvalidPrefix(63))));
    assert!(matches!(parse_item(b"+a\nb\r\n", 0), ParseOutcome::Bad(_)));
    assert!(matches!(parse_item(b"$007\r\nabcdefg\r\n", 0), ParseOutcome::Bad(_)));
    assert!(matches!(parse_item(b"$2\r\nabXX", 0), ParseOutcome::Bad(_)));
    assert!(matches!(parse_item(b"$x\r\n", 0), ParseOutcome::Bad(_)));
}

#[test]
fn codec_decodes_one_item_at_a_time() {
    let mut codec = ProtoCodec::new();
    let wire = b"+SET\r\n$3\r\nkey\r\n";
    let (n1, first) = codec.decode(wire).unwrap();
    assert_eq!(n1, 6);
    assert!(matches!(first, Some(Proto::Str(_))));
    let (n2, second) = codec.decode(&wire[n1..]).unwrap();
    assert_eq!(n2, 9);
    match second {
        Some(Proto::Bulk(b)) => assert_eq!(b, b"key".to_vec()),
        _ => panic!("expected bulk"),
    }
    let (n3, third) = codec.decode(&wire[n1 + n2..]).unwrap();
    assert_eq!(n3, 0);
    assert!(third.is_none());
}

#[test]
fn codec_dispatch_selects_states() {
    let codec = ProtoCodec::new();
    assert!(matches!(codec.dispatch(b'+'), Ok(ProtoCodec::Str(0))));
    assert!(matches!(codec.dispatch(b'-'), Ok(ProtoCodec::Fail(0))));
    assert!(matches!(codec.dispatch(b'$'), Ok(ProtoCodec::BulkOrNull(0))));
    assert!(matches!(codec.dispatch(b'@'), Err(ProtoError::InvalidPrefix(64))));
}

#[test]
fn from_bufread_reads_one_item() {
    let wire = Proto::Bulk(b"abc".to_vec()).ser();
    let (item, n) = Proto::from_bufread(wire.as_slice(), 0).unwrap();
    assert_eq!(n, wire.len());
    match item {
        Proto::Bulk(b) => assert_eq!(b, b"abc".to_vec()),
        _ => panic!("expected bulk"),
    }
    assert!(matches!(
        Proto::from_bufread(b"$3\r\nab", 0),
        Err(ProtoError::Truncated)
    ));
}

#[test]
fn wire_round_trip_for_flat_items() {
    let items = vec![
        Proto::Str("GET".to_string()),
        Proto::Fail("key not found".to_string()),
        Proto::Bulk(b"\x00\xffbinary".to_vec()),
        Proto::Null,
    ];
    for item in items {
        let wire = item.ser();
        match parse_item(wire.as_slice(), 0) {
            ParseOutcome::Item(back, n) => {
                assert_eq!(n, wire.len());
                assert_eq!(back.ser(), wire);
            },
            _ => panic!("round trip failed"),
        }
    }
}
