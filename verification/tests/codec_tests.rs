use kvs::codec::{decode_all, Command, TAG_RM, TAG_SET};
use kvs::disk::MetaFile;
use kvs::file::{data, parse_data_name, temp, CmdInfo, Location};
use kvs::kv::{classify_meta, kvs_marker};

#[test]
fn put_record_round_trip() {
    let cmd = Command::Put("key".to_string(), "value".to_string());
    let bytes = cmd.ser();
    assert_eq!(bytes[0], TAG_SET);
    let (back, n) = Command::from_reader(bytes.as_slice(), 0).unwrap();
    assert_eq!(n, bytes.len());
    match back {
        Command::Put(k, v) => {
            assert_eq!(k, "key".to_string());
            assert_eq!(v, "value".to_string());
        },
        other => panic!("expected Put, got {:?}", other),
    }
}

#[test]
fn rm_record_round_trip() {
    let cmd = Command::Rm("key".to_string());
    let bytes = cmd.ser();
    assert_eq!(bytes[0], TAG_RM);
    let (back, n) = Command::from_reader(bytes.as_slice(), 0).unwrap();
    assert_eq!(n, bytes.len());
    match back {
        Command::Rm(k) => assert_eq!(k, "key".to_string()),
        other => panic!("expected Rm, got {:?}", other),
    }
}

#[test]
fn put_record_exact_bytes() {
    let cmd = Command::Put("ab".to_string(), "c".to_string());
    let bytes = cmd.ser();
    let mut want: Vec<u8> = Vec::new();
    want.push(83);
    want.extend_from_slice(&2u64.to_le_bytes());
    want.extend_from_slice(b"ab");
    want.extend_from_slice(&1u64.to_le_bytes());
    want.extend_from_slice(b"c");
    assert_eq!(bytes, want);
}

#[test]
fn concatenated_records_stream_decode() {
    let mut buf: Vec<u8> = Vec::new();
    buf.extend_from_slice(&Command::Put("a".to_string(), "1".to_string()).ser());
    buf.extend_from_slice(&Command::Rm("a".to_string()).ser());
    buf.extend_from_slice(&Command::Put("b".to_string(), "2".to_string()).ser());
    let recs = decode_all(&buf).unwrap();
    assert_eq!(recs.len(), 3);
    assert_eq!(recs[0].0, 0);
    assert_eq!(recs[1].0, recs[0].1);
    assert_eq!(recs[2].0, recs[0].1 + recs[1].1);
    match &recs[2].2 {
        Command::Put(k, v) => {
            assert_eq!(k, &"b".to_string());
            assert_eq!(v, &"2".to_string());
        },
        other => panic!("expected Put, got {:?}", other),
    }
}

#[test]
fn partial_trailing_record_is_corrupt() {
    let mut buf = Command::Put("k".to_string(), "v".to_string()).ser();
    buf.pop();
    assert!(decode_all(&buf).is_none());
}

#[test]
fn garbage_bytes_do_not_decode() {
    let buf = vec![7u8, 8, 9];
    assert!(Command::from_reader(buf.as_slice(), 0).is_none());
    assert!(decode_all(&buf).is_none());
}

#[test]
fn empty_buffer_is_zero_records() {
    let buf: Vec<u8> = Vec::new();
    assert_eq!(decode_all(&buf).unwrap().len(), 0);
}

#[test]
fn segment_file_names() {
    assert_eq!(data(1), b"1.data".to_vec());
    assert_eq!(data(42), b"42.data".to_vec());
    assert_eq!(temp(7), b"7.data.temp".to_vec());
    assert_eq!(data(18446744073709551615), b"18446744073709551615.data".to_vec());
}

#[test]
fn parse_segment_file_names() {
    assert_eq!(parse_data_name(b"1.data"), Some(1));
    assert_eq!(parse_data_name(b"42.data"), Some(42));
    assert_eq!(parse_data_name(b"0.data"), Some(0));
    assert_eq!(parse_data_name(b"18446744073709551615.data"), Some(18446744073709551615));
    assert_eq!(parse_data_name(b"18446744073709551616.data"), None);
    assert_eq!(parse_data_name(b"01.data"), None);
    assert_eq!(parse_data_name(b"meta"), None);
    assert_eq!(parse_data_name(b"7.data.temp"), None);
    assert_eq!(parse_data_name(b".data"), None);
    assert_eq!(parse_data_name(b"x7.data"), None);
}

#[test]
fn cmd_info_bundles_location() {
    let info = CmdInfo::new(3, 17, 29);
    assert_eq!(info.loc, Location { id: 3, offset: 17 });
    assert_eq!(info.len, 29);
}

#[test]
fn meta_classification() {
    let no_ids: Vec<u64> = Vec::new();
    let some_ids: Vec<u64> = vec![1];
    assert_eq!(kvs_marker(), b"kvs".to_vec());
    assert_eq!(classify_meta(&MetaFile::Contents(b"kvs".to_vec()), &some_ids, "d"), Ok(false));
    assert!(matches!(
        classify_meta(&MetaFile::Contents(b"sled".to_vec()), &no_ids, "d"),
        Err(kvs::error::Error::InvalidMeta(_))
    ));
    assert!(matches!(
        classify_meta(&MetaFile::IsDir, &no_ids, "d"),
        Err(kvs::error::Error::InvalidMeta(_))
    ));
    assert_eq!(classify_meta(&MetaFile::Absent, &no_ids, "d"), Ok(true));
    assert!(matches!(
        classify_meta(&MetaFile::Absent, &some_ids, "d"),
        Err(kvs::error::Error::BadPath(_))
    ));
}
