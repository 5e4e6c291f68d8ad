use mingit::encoding::hex_encode;
use mingit::tree::{emit_tree, parse_tree, sort_nodes};
use mingit::{GitError, Node, NodeKind, Object, ObjectKind, Tree};

fn hex_str(bytes: &[u8]) -> String {
    String::from_utf8(hex_encode(bytes)).unwrap()
}

fn file_node(name: &str, mode: u32, hash: Vec<u8>) -> Node {
    Node { name: name.as_bytes().to_vec(), kind: NodeKind::File { mode }, hash }
}

#[test]
fn empty_tree_body_and_hash() {
    let body = emit_tree(&Vec::new());
    assert!(body.is_empty());
    let obj = Object::new(ObjectKind::Tree, body);
    assert_eq!(hex_str(&obj.hash()), "4b825dc642cb6eb9a060e54bf8d69288fbee4904");
}

#[test]
fn single_file_tree_body() {
    let blob = Object::new(ObjectKind::Blob, b"x\n".to_vec());
    let blob_hash = blob.hash();
    assert_eq!(hex_str(&blob_hash), "587be6b4c3f93f93c489c0111bba5596147a26cb");
    let nodes = vec![file_node("a", 0o100644, blob_hash.clone())];
    let body = emit_tree(&nodes);
    let mut expected = b"100644 a\x00".to_vec();
    expected.extend(blob_hash);
    assert_eq!(body, expected);
    // the root tree hash is stable across runs
    let h1 = Object::new(ObjectKind::Tree, body.clone()).hash();
    let h2 = Object::new(ObjectKind::Tree, emit_tree(&nodes)).hash();
    assert_eq!(h1, h2);
}

#[test]
fn tree_roundtrip_with_all_kinds() {
    let nodes = vec![
        Node { name: b"a".to_vec(), kind: NodeKind::File { mode: 0o100644 }, hash: vec![1; 20] },
        Node { name: b"b".to_vec(), kind: NodeKind::Dir { mode: 0o40000 }, hash: vec![2; 20] },
        Node { name: b"c.txt".to_vec(), kind: NodeKind::File { mode: 0o100755 }, hash: vec![3; 20] },
        Node { name: b"link".to_vec(), kind: NodeKind::SymLink { mode: 0o120000 }, hash: vec![4; 20] },
    ];
    let body = emit_tree(&nodes);
    let parsed = parse_tree(&body).unwrap();
    assert_eq!(parsed, nodes);
}

#[test]
fn name_only_listing_order() {
    let nodes = vec![
        Node { name: b"a".to_vec(), kind: NodeKind::File { mode: 0o100644 }, hash: vec![1; 20] },
        Node { name: b"b".to_vec(), kind: NodeKind::Dir { mode: 0o40000 }, hash: vec![2; 20] },
        Node { name: b"c.txt".to_vec(), kind: NodeKind::File { mode: 0o100644 }, hash: vec![3; 20] },
    ];
    let obj = Object::new(ObjectKind::Tree, emit_tree(&nodes));
    let tree = Tree::try_from(&obj).unwrap();
    let names: Vec<Vec<u8>> = tree.nodes.iter().map(|n| n.name.clone()).collect();
    assert_eq!(names, vec![b"a".to_vec(), b"b".to_vec(), b"c.txt".to_vec()]);
}

#[test]
fn sort_nodes_by_raw_byte_order() {
    let nodes = vec![
        file_node("c.txt", 0o100644, vec![3; 20]),
        file_node("a", 0o100644, vec![1; 20]),
        file_node("b", 0o100644, vec![2; 20]),
    ];
    let sorted = sort_nodes(nodes);
    let names: Vec<Vec<u8>> = sorted.iter().map(|n| n.name.clone()).collect();
    assert_eq!(names, vec![b"a".to_vec(), b"b".to_vec(), b"c.txt".to_vec()]);
}

#[test]
fn parse_tree_rejects_bad_mode() {
    let mut body = b"100600 a\x00".to_vec();
    body.extend(vec![0u8; 20]);
    assert_eq!(parse_tree(&body), Err(GitError::MalformedTree));
}

#[test]
fn parse_tree_rejects_truncated_hash() {
    let mut body = b"100644 a\x00".to_vec();
    body.extend(vec![0u8; 10]);
    assert_eq!(parse_tree(&body), Err(GitError::MalformedTree));
}

#[test]
fn node_kind_modes() {
    assert_eq!(NodeKind::Dir { mode: 0o40000 }.mode(), 0o40000);
    assert_eq!(NodeKind::File { mode: 0o100755 }.mode(), 0o100755);
    assert_eq!(NodeKind::SymLink { mode: 0o120000 }.mode(), 0o120000);
}
