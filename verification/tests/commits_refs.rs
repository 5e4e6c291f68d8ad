use std::io::Read;

use mingit::commit::{build_commit_body, commit_links};
use mingit::encoding::{hex_decode, hex_encode};
use mingit::pkt::{pkt_encode, pkt_flush};
use mingit::refs::{head_hash, parse_refs, RefItem};
use mingit::tree::emit_tree;
use mingit::{GitError, Node, NodeKind, Object, ObjectKind, Packet, Tree};

fn zlib_bytes(data: &[u8]) -> Vec<u8> {
    let mut enc = flate2::read::ZlibEncoder::new(data, flate2::Compression::none());
    let mut out = Vec::new();
    enc.read_to_end(&mut out).unwrap();
    out
}

#[test]
fn commit_body_layout_one_parent() {
    let body = build_commit_body(
        b"1111111111111111111111111111111111111111",
        &vec![b"2222222222222222222222222222222222222222".to_vec()],
        b"A U Thor <a@example.invalid>",
        b"A U Thor <a@example.invalid>",
        1700000000123,
        b"-0500",
        b"initial",
    );
    let expected = "tree 1111111111111111111111111111111111111111\n\
                    parent 2222222222222222222222222222222222222222\n\
                    author A U Thor <a@example.invalid> 1700000000123 -0500\n\
                    committer A U Thor <a@example.invalid> 1700000000123 -0500\n\
                    \n\
                    initial\n";
    assert_eq!(String::from_utf8(body).unwrap(), expected);
}

#[test]
fn commit_body_no_parents_omits_parent_line() {
    let body = build_commit_body(
        b"1111111111111111111111111111111111111111",
        &Vec::new(),
        b"a",
        b"b",
        7,
        b"+0000",
        b"m",
    );
    let expected = "tree 1111111111111111111111111111111111111111\n\
                    author a 7 +0000\n\
                    committer b 7 +0000\n\
                    \n\
                    m\n";
    assert_eq!(String::from_utf8(body).unwrap(), expected);
}

#[test]
fn commit_links_stop_at_blank_line() {
    let body = b"tree 1111\nparent 2222\nauthor x 1 +0000\n\ntree beef in the message\n";
    let links = commit_links(body);
    assert_eq!(links.len(), 2);
    assert!(!links[0].parent);
    assert_eq!(links[0].hex, b"1111".to_vec());
    assert!(links[1].parent);
    assert_eq!(links[1].hex, b"2222".to_vec());
}

#[test]
fn parse_refs_reads_advertisement() {
    let mut body = pkt_encode(b"# service=git-upload-pack\n");
    body.extend(pkt_flush());
    body.extend(pkt_encode(
        b"1234567890123456789012345678901234567890 HEAD\x00multi_ack side-band\n",
    ));
    body.extend(pkt_encode(b"abcdefabcdefabcdefabcdefabcdefabcdefabcd refs/heads/master\n"));
    body.extend(pkt_flush());
    let refs = parse_refs(&body).unwrap();
    assert_eq!(refs.len(), 2);
    assert_eq!(refs[0].name, b"HEAD".to_vec());
    assert_eq!(refs[0].hex, b"1234567890123456789012345678901234567890".to_vec());
    assert_eq!(refs[1].name, b"refs/heads/master".to_vec());
    assert_eq!(refs[1].hex, b"abcdefabcdefabcdefabcdefabcdefabcdefabcd".to_vec());
}

#[test]
fn parse_refs_rejects_short_ref_line() {
    let mut body = pkt_flush();
    body.extend(pkt_encode(b"tiny\n"));
    assert_eq!(parse_refs(&body), Err(GitError::ProtocolError));
}

#[test]
fn head_hash_found_and_missing() {
    let refs = vec![
        RefItem { name: b"refs/heads/master".to_vec(), hex: b"aa".to_vec() },
        RefItem { name: b"HEAD".to_vec(), hex: b"bb".to_vec() },
    ];
    assert_eq!(head_hash(&refs).unwrap(), b"bb".to_vec());
    let no_head = vec![RefItem { name: b"refs/heads/master".to_vec(), hex: b"aa".to_vec() }];
    assert_eq!(head_hash(&no_head), Err(GitError::NoHead));
}

#[test]
fn clone_pipeline_compute_path() {
    // one commit of one tree of one file README containing "hi\n", packed,
    // then walked the way a clone materializes it
    let blob = Object::new(ObjectKind::Blob, b"hi\n".to_vec());
    let tree_nodes = vec![Node {
        name: b"README".to_vec(),
        kind: NodeKind::File { mode: 0o100644 },
        hash: blob.hash(),
    }];
    let tree = Object::new(ObjectKind::Tree, emit_tree(&tree_nodes));
    let commit_body = build_commit_body(
        &hex_encode(&tree.hash()),
        &Vec::new(),
        b"a",
        b"a",
        1,
        b"+0000",
        b"hi",
    );
    let commit = Object::new(ObjectKind::Commit, commit_body);

    let mut raw = b"0008NAK\n".to_vec();
    raw.extend(b"PACK");
    raw.extend([0, 0, 0, 2]);
    raw.extend([0, 0, 0, 3]);
    for obj in [&commit, &tree, &blob] {
        let body = &obj.body;
        let ty: u8 = match obj.kind {
            ObjectKind::Commit => 1,
            ObjectKind::Tree => 2,
            ObjectKind::Blob => 3,
        };
        let low = (body.len() & 0xF) as u8;
        let mut rest = body.len() >> 4;
        if rest == 0 {
            raw.push((ty << 4) | low);
        } else {
            raw.push(0x80 | (ty << 4) | low);
            while rest >= 0x80 {
                raw.push(0x80 | (rest & 0x7F) as u8);
                rest >>= 7;
            }
            raw.push(rest as u8);
        }
        raw.extend(zlib_bytes(body));
    }
    raw.extend([0u8; 20]);

    let packet = Packet::try_from(&raw).unwrap();
    assert_eq!(packet.objects.len(), 3);

    // walk: commit -> tree -> blob
    let head = packet.find(&commit.hash()).unwrap();
    let links = commit_links(&head.body);
    assert_eq!(links.len(), 1);
    assert!(!links[0].parent);
    let tree_hash = hex_decode(&links[0].hex).unwrap();
    let tree_obj = packet.find(&tree_hash).unwrap();
    let listing = Tree::try_from(tree_obj).unwrap();
    assert_eq!(listing.nodes.len(), 1);
    assert_eq!(listing.nodes[0].name, b"README".to_vec());
    let file = packet.find(&listing.nodes[0].hash).unwrap();
    assert_eq!(file.body, b"hi\n".to_vec());
}
