use rust_torrent_client::bencode::{info_dict_span, value_end_exec};
use rust_torrent_client::torrent::{compute_info_hash, info_hash_of_metadata};

#[test]
fn value_ends_of_each_kind() {
    let b = b"i42ei-7e4:spaml4:spami3eed3:cow3:mooe".to_vec();
    assert_eq!(value_end_exec(&b, 0), Some(4));
    assert_eq!(value_end_exec(&b, 4), Some(8));
    assert_eq!(value_end_exec(&b, 8), Some(14));
    assert_eq!(value_end_exec(&b, 14), Some(25));
    assert_eq!(value_end_exec(&b, 25), Some(b.len()));
}

#[test]
fn malformed_values_have_no_end() {
    assert_eq!(value_end_exec(&b"ie".to_vec(), 0), None);
    assert_eq!(value_end_exec(&b"i12".to_vec(), 0), None);
    assert_eq!(value_end_exec(&b"5:abc".to_vec(), 0), None);
    assert_eq!(value_end_exec(&b"l4:spam".to_vec(), 0), None);
    assert_eq!(value_end_exec(&b"x".to_vec(), 0), None);
    assert_eq!(value_end_exec(&b"99999999999999999999999:a".to_vec(), 0), None);
}

#[test]
fn info_dictionary_is_found_as_written() {
    let b = b"d8:announce3:url4:infod6:lengthi10e4:name1:x12:piece lengthi16384eee".to_vec();
    let (s, e) = info_dict_span(&b).unwrap();
    assert_eq!(&b[s..e], b"d6:lengthi10e4:name1:x12:piece lengthi16384ee");
    let h = info_hash_of_metadata(&b).unwrap();
    assert_eq!(h, compute_info_hash(&b[s..e].to_vec()));
}

#[test]
fn descriptor_without_info_has_no_hash() {
    assert_eq!(info_dict_span(&b"d8:announce3:urle".to_vec()), None);
    assert_eq!(info_hash_of_metadata(&b"le".to_vec()), None);
}

use rust_torrent_client::torrent::parse_metadata;

fn descriptor(info: &str, announce: &str) -> Vec<u8> {
    format!("d8:announce{}:{}4:info{}e", announce.len(), announce, info).into_bytes()
}

#[test]
fn metadata_is_read_field_by_field() {
    let mut info = b"d6:lengthi40000e4:name7:out.bin12:piece lengthi32768e6:pieces40:".to_vec();
    info.extend((0u8..40).collect::<Vec<u8>>());
    info.push(b'e');
    let mut bytes = b"d8:announce21:http://tracker/anno/x4:info".to_vec();
    bytes.extend(info.iter());
    bytes.push(b'e');
    let t = parse_metadata(&bytes).unwrap();
    assert_eq!(t.announce, "http://tracker/anno/x");
    assert_eq!(t.info.name, "out.bin");
    assert_eq!(t.info.length, Some(40000));
    assert_eq!(t.info.piece_length, 32768);
    assert_eq!(t.piece_hashes.len(), 2);
    assert_eq!(t.piece_hashes[1], (20u8..40).collect::<Vec<u8>>());
    assert_eq!(t.info_hash, compute_info_hash(&info));
}

#[test]
fn metadata_without_required_fields_is_rejected() {
    assert!(parse_metadata(&descriptor("d4:name1:xe", "u")).is_none());
    assert!(parse_metadata(&descriptor("d4:name1:x12:piece lengthi5e6:pieces3:abce", "u")).is_none());
    assert!(parse_metadata(&descriptor("d4:name1:x12:piece lengthi-5e6:pieces0:e", "u")).is_none());
    assert!(parse_metadata(&b"le".to_vec()).is_none());
}

#[test]
fn metadata_optional_fields_may_be_absent() {
    let bytes = b"d4:infod4:name1:x12:piece lengthi5e6:pieces0:ee".to_vec();
    let t = parse_metadata(&bytes).unwrap();
    assert_eq!(t.announce, "");
    assert_eq!(t.info.length, None);
    assert!(t.piece_hashes.is_empty());
}

use rust_torrent_client::torrent::{parse_tracker_response, Peer};

#[test]
fn tracker_reply_is_read() {
    let mut body = b"d8:intervali1800e5:peers12:".to_vec();
    body.extend([127, 0, 0, 1, 0x1A, 0xE1, 10, 0, 0, 2, 0, 80]);
    body.push(b'e');
    let (interval, peers) = parse_tracker_response(&body).unwrap();
    assert_eq!(interval, 1800);
    assert_eq!(peers, vec![Peer { ip: 0x7F000001, port: 6881 }, Peer { ip: 0x0A000002, port: 80 }]);
    assert!(parse_tracker_response(&b"d14:failure reason5:oopsie".to_vec()).is_none());
}
