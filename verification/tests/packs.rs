use std::io::Read;

use mingit::encoding::hex_encode;
use mingit::pack::{apply_delta, Packet};
use mingit::{GitError, Object, ObjectKind};

fn zlib(data: &[u8]) -> Vec<u8> {
    let mut enc = flate2::read::ZlibEncoder::new(data, flate2::Compression::none());
    let mut out = Vec::new();
    enc.read_to_end(&mut out).unwrap();
    out
}

fn obj_header(ty: u8, size: usize) -> Vec<u8> {
    let mut out = Vec::new();
    let low = (size & 0xF) as u8;
    let mut rest = size >> 4;
    if rest == 0 {
        out.push((ty << 4) | low);
    } else {
        out.push(0x80 | (ty << 4) | low);
        while rest >= 0x80 {
            out.push(0x80 | (rest & 0x7F) as u8);
            rest >>= 7;
        }
        out.push(rest as u8);
    }
    out
}

fn pack_of(entries: &[Vec<u8>]) -> Vec<u8> {
    let mut out = b"0008NAK\n".to_vec();
    out.extend(b"PACK");
    out.extend([0, 0, 0, 2]);
    out.extend((entries.len() as u32).to_be_bytes());
    for e in entries {
        out.extend(e);
    }
    out.extend([0u8; 20]);
    out
}

#[test]
fn empty_pack_yields_empty_map() {
    let raw = pack_of(&[]);
    let packet = Packet::try_from(&raw).unwrap();
    assert!(packet.objects.is_empty());
}

#[test]
fn single_blob_unpacks_with_matching_hash() {
    let mut entry = obj_header(3, 6);
    entry.extend(zlib(b"hello\n"));
    let raw = pack_of(&[entry]);
    let packet = Packet::try_from(&raw).unwrap();
    assert_eq!(packet.objects.len(), 1);
    let obj = &packet.objects[0].object;
    assert!(matches!(obj.kind, ObjectKind::Blob));
    assert_eq!(obj.body, b"hello\n".to_vec());
    assert_eq!(
        String::from_utf8(hex_encode(&packet.objects[0].hash)).unwrap(),
        "ce013625030ba8dba906f756967f9e9ca394464a"
    );
}

#[test]
fn ref_delta_resolves_against_earlier_base() {
    let base = Object::new(ObjectKind::Blob, b"hello\n".to_vec());
    let mut base_entry = obj_header(3, 6);
    base_entry.extend(zlib(b"hello\n"));

    // source size 6, target size 11, insert "world", copy 6 bytes at 0
    let delta = vec![6u8, 11, 5, b'w', b'o', b'r', b'l', b'd', 0x90, 6];
    let mut delta_entry = obj_header(7, delta.len());
    delta_entry.extend(base.hash());
    delta_entry.extend(zlib(&delta));

    let raw = pack_of(&[base_entry, delta_entry]);
    let packet = Packet::try_from(&raw).unwrap();
    assert_eq!(packet.objects.len(), 2);
    let rebuilt = &packet.objects[1].object;
    assert!(matches!(rebuilt.kind, ObjectKind::Blob));
    assert_eq!(rebuilt.body, b"worldhello\n".to_vec());
    // the rebuilt object is addressable by its own content hash
    let expected = Object::new(ObjectKind::Blob, b"worldhello\n".to_vec()).hash();
    assert_eq!(packet.objects[1].hash, expected);
    assert_eq!(packet.find(&expected).unwrap().body, b"worldhello\n".to_vec());
}

#[test]
fn ref_delta_with_unknown_base_is_missing_base() {
    let delta = vec![0u8, 0];
    let mut entry = obj_header(7, delta.len());
    entry.extend([0xABu8; 20]);
    entry.extend(zlib(&delta));
    let raw = pack_of(&[entry]);
    assert_eq!(Packet::try_from(&raw).unwrap_err(), GitError::MissingBase);
}

#[test]
fn ofs_delta_is_unsupported() {
    let mut entry = obj_header(6, 0);
    entry.extend(zlib(b""));
    let raw = pack_of(&[entry]);
    assert_eq!(Packet::try_from(&raw).unwrap_err(), GitError::Unsupported);
}

#[test]
fn unknown_type_code_is_unsupported() {
    let entry = obj_header(5, 0);
    let raw = pack_of(&[entry]);
    assert_eq!(Packet::try_from(&raw).unwrap_err(), GitError::Unsupported);
}

#[test]
fn size_mismatch_is_protocol_error() {
    let mut entry = obj_header(3, 7);
    entry.extend(zlib(b"hello\n"));
    let raw = pack_of(&[entry]);
    assert_eq!(Packet::try_from(&raw).unwrap_err(), GitError::ProtocolError);
}

#[test]
fn trailing_checksum_is_consumed_not_parsed() {
    // a non-zero trailer changes nothing: it is consumed unverified
    let mut entry = obj_header(3, 6);
    entry.extend(zlib(b"hello\n"));
    let mut raw = pack_of(&[entry]);
    let n = raw.len();
    for b in &mut raw[n - 20..] {
        *b = 0xEE;
    }
    let packet = Packet::try_from(&raw).unwrap();
    assert_eq!(packet.objects.len(), 1);
}

#[test]
fn delta_copy_size_zero_copies_64k() {
    let base = vec![7u8; 70000];
    // source size 70000, target size 65536, one copy with a zero size field
    let delta = vec![0xF0, 0xA2, 0x04, 0x80, 0x80, 0x04, 0x80];
    let out = apply_delta(&delta, &base).unwrap();
    assert_eq!(out.len(), 0x10000);
    assert!(out.iter().all(|b| *b == 7));
}

#[test]
fn delta_insert_of_zero_bytes_is_rejected() {
    // an instruction byte of 0 would be an insert of nothing
    let delta = vec![0u8, 1, 0x00];
    assert_eq!(apply_delta(&delta, b"base"), Err(GitError::ProtocolError));
}

#[test]
fn delta_copy_past_base_is_rejected() {
    // copy 6 bytes from a 4-byte base
    let delta = vec![4u8, 6, 0x90, 6];
    assert_eq!(apply_delta(&delta, b"base"), Err(GitError::ProtocolError));
}

#[test]
fn delta_output_must_match_target_size() {
    // target declares 3 bytes but the instructions insert 2
    let delta = vec![2u8, 3, 0x02, b'h', b'i'];
    assert_eq!(apply_delta(&delta, b""), Err(GitError::ProtocolError));
    // and the exact declared size goes through
    let delta = vec![2u8, 2, 0x02, b'h', b'i'];
    assert_eq!(apply_delta(&delta, b"").unwrap(), b"hi".to_vec());
}

#[test]
fn pack_without_sideband_newline_is_rejected() {
    let raw = b"PACK\x00\x00\x00\x02\x00\x00\x00\x00".to_vec();
    assert_eq!(Packet::try_from(&raw).unwrap_err(), GitError::ProtocolError);
}
