use std::io::Read;

use mingit::encoding::{hex_decode, hex_encode};
use mingit::object::loose_path;
use mingit::{GitError, Object, ObjectKind};

fn hex_str(bytes: &[u8]) -> String {
    String::from_utf8(hex_encode(bytes)).unwrap()
}

#[test]
fn empty_blob_hash_is_well_known() {
    let obj = Object::new(ObjectKind::Blob, Vec::new());
    let hash = obj.hash();
    assert_eq!(hex_str(&hash), "e69de29bb2d1d6434b8b29ae775ad8c2e48c5391");
}

#[test]
fn short_blob_hash() {
    let obj = Object::new(ObjectKind::Blob, b"hello\n".to_vec());
    assert_eq!(hex_str(&obj.hash()), "ce013625030ba8dba906f756967f9e9ca394464a");
}

#[test]
fn frame_layout() {
    let obj = Object::new(ObjectKind::Blob, b"hello\n".to_vec());
    assert_eq!(obj.frame(), b"blob 6\x00hello\n".to_vec());
    let tree = Object::new(ObjectKind::Tree, Vec::new());
    assert_eq!(tree.frame(), b"tree 0\x00".to_vec());
    let commit = Object::new(ObjectKind::Commit, b"x".to_vec());
    assert_eq!(commit.frame(), b"commit 1\x00x".to_vec());
}

#[test]
fn parse_frame_roundtrip() {
    let obj = Object::new(ObjectKind::Commit, b"tree abc\n\nmsg\n".to_vec());
    let parsed = Object::parse_frame(&obj.frame()).unwrap();
    assert_eq!(parsed, obj);
}

#[test]
fn parse_frame_length_is_advisory() {
    // the declared length is checked for shape only; the body is whatever
    // follows the NUL
    let parsed = Object::parse_frame(b"blob 3\x00hello").unwrap();
    assert_eq!(parsed.body, b"hello".to_vec());
}

#[test]
fn parse_frame_bad_kind() {
    assert_eq!(Object::parse_frame(b"blub 0\x00"), Err(GitError::BadKind));
}

#[test]
fn parse_frame_malformed() {
    assert_eq!(Object::parse_frame(b"blobnospace"), Err(GitError::Malformed));
    assert_eq!(Object::parse_frame(b"blob x\x00"), Err(GitError::Malformed));
    assert_eq!(Object::parse_frame(b"blob \x00"), Err(GitError::Malformed));
    assert_eq!(Object::parse_frame(b"blob 0"), Err(GitError::Malformed));
}

#[test]
fn loose_roundtrip() {
    let obj = Object::new(ObjectKind::Blob, b"hello\n".to_vec());
    let disk = obj.encode_loose();
    let back = Object::from_loose_bytes(&disk).unwrap();
    assert_eq!(back, obj);
    // cat-file prints exactly the body
    assert_eq!(back.body, b"hello\n".to_vec());
}

#[test]
fn loose_decode_rejects_garbage() {
    assert_eq!(Object::from_loose_bytes(b"not zlib at all"), Err(GitError::Malformed));
}

#[test]
fn loose_decode_tells_bad_kind_from_malformed() {
    // a valid zlib stream whose contents name no kind
    let mut enc = flate2::read::ZlibEncoder::new(&b"blub 0\x00"[..], flate2::Compression::none());
    let mut disk = Vec::new();
    enc.read_to_end(&mut disk).unwrap();
    assert_eq!(Object::from_loose_bytes(&disk), Err(GitError::BadKind));
}

#[test]
fn loose_path_layout() {
    let obj = Object::new(ObjectKind::Blob, Vec::new());
    let path = loose_path(&obj.hash());
    assert_eq!(
        String::from_utf8(path).unwrap(),
        ".git/objects/e6/9de29bb2d1d6434b8b29ae775ad8c2e48c5391"
    );
}

#[test]
fn hex_codec_roundtrip() {
    let bytes: Vec<u8> = (0u8..=255).collect();
    let hex = hex_encode(&bytes);
    assert_eq!(hex.len(), 512);
    assert_eq!(hex_decode(&hex).unwrap(), bytes);
}

#[test]
fn hex_decode_rejects_bad_input() {
    assert_eq!(hex_decode(b"abc"), Err(GitError::BadHex));
    assert_eq!(hex_decode(b"zz"), Err(GitError::BadHex));
    assert_eq!(hex_decode(b"AbCd"), Ok(vec![0xab, 0xcd]));
}
