use packmind::hash::{content_hash, node_id, sha256_hex};
use packmind::model::{id_from_hex, id_hex, EdgeKind, NodeKind};

#[test]
fn deterministic_and_kind_separated() {
    let a = content_hash(NodeKind::AstChunk, "py", "def f():\n    pass\n");
    let b = content_hash(NodeKind::AstChunk, "py", "def f():\n    pass\n");
    assert_eq!(a, b);
    let c = content_hash(NodeKind::Signature, "py", "def f():\n    pass\n");
    assert_ne!(a, c, "kind must separate hash spaces");
    let d = content_hash(NodeKind::AstChunk, "ts", "def f():\n    pass\n");
    assert_ne!(a, d, "lang must separate hash spaces");
}

#[test]
fn sha256_hex_known_vector() {
    assert_eq!(
        sha256_hex(b"abc"),
        "ba7816bf8f01cfea414140de5dae2223b00361a396177a9cb410ff61f20015ad"
    );
}

#[test]
fn content_hash_is_sha256_of_preimage() {
    // PG-NORM-1 0x00 kind 0x00 lang 0x00 text
    let mut pre = b"PG-NORM-1".to_vec();
    pre.extend_from_slice(&[0, 2, 0]);
    pre.extend_from_slice(b"python");
    pre.push(0);
    pre.extend_from_slice(b"x\n");
    let h = content_hash(NodeKind::AstChunk, "python", "x\n");
    assert_eq!(hex::encode(h), sha256_hex(&pre));
}

#[test]
fn node_id_is_hash_prefix() {
    let h = content_hash(NodeKind::File, "text", "hello\n");
    let id = node_id(&h);
    assert_eq!(&id[..], &h[..16]);
}

#[test]
fn id_hex_roundtrip() {
    let h = content_hash(NodeKind::DocChunk, "markdown", "# T\n");
    let id = node_id(&h);
    let s = id_hex(&id);
    assert_eq!(s.len(), 32);
    assert_eq!(s, hex::encode(id));
    assert_eq!(id_from_hex(&s), Some(id));
    assert_eq!(id_from_hex("zz"), None);
    assert_eq!(id_from_hex("abcd"), None);
}

#[test]
fn kind_codes_roundtrip() {
    for k in [NodeKind::File, NodeKind::AstChunk, NodeKind::Signature, NodeKind::DocChunk] {
        assert_eq!(NodeKind::from_i64(k.as_i64()), Some(k));
    }
    assert_eq!(NodeKind::AstChunk.as_i64(), 2);
    assert_eq!(NodeKind::from_i64(0), None);
    assert_eq!(NodeKind::from_i64(5), None);
    assert_eq!(NodeKind::DocChunk.label(), "doc_chunk");
    for k in [
        EdgeKind::Imports,
        EdgeKind::Calls,
        EdgeKind::Inherits,
        EdgeKind::Implements,
        EdgeKind::TestedBy,
        EdgeKind::MentionsDoc,
        EdgeKind::Supersedes,
    ] {
        assert_eq!(EdgeKind::from_i64(k.as_i64()), Some(k));
    }
    assert_eq!(EdgeKind::from_i64(8), None);
    assert_eq!(EdgeKind::MentionsDoc.label(), "doc_mention");
}
