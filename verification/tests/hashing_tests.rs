use depgraph::component::Component;
use depgraph::errors::CustomError;
use depgraph::hashing::{hash_components, ContentId};
use sha2::{Digest, Sha256};

fn comp(dir: &str, deps: &[&str]) -> Component {
    Component::new(
        String::from(dir),
        deps.iter().map(|d| String::from(*d)).collect(),
    )
}

fn cid(dir: &str, value: &str) -> ContentId {
    ContentId {
        dir: String::from(dir),
        value: String::from(value),
    }
}

fn cid_a() -> String {
    "aa".repeat(20)
}

fn cid_b() -> String {
    "bb".repeat(20)
}

fn cid_c() -> String {
    "cc".repeat(20)
}

fn cid_d() -> String {
    "dd".repeat(20)
}

/// The digest of one node, recomputed by hand per the documented layout:
/// 2-byte depth, the decoded identifier, then per sorted dependency a 4-byte
/// offset, 2-byte depth, digest and end flag, and the node-kind marker 2.
fn expected_digest(depth: u16, cid_hex: &str, deps: &[(u16, &[u8; 32])]) -> [u8; 32] {
    let mut input: Vec<u8> = Vec::new();
    input.extend(depth.to_be_bytes());
    input.extend(hex::decode(cid_hex).unwrap());
    for (i, (d, dg)) in deps.iter().enumerate() {
        input.extend((i as u32).to_be_bytes());
        input.extend(d.to_be_bytes());
        input.extend(dg.iter());
        input.push(if i == deps.len() - 1 { 1 } else { 0 });
    }
    input.push(2);
    Sha256::digest(&input).into()
}

fn tree_of(out: &[Component], dir: &str) -> String {
    out.iter()
        .find(|c| c.dir == dir)
        .unwrap()
        .tree_sha
        .clone()
        .unwrap()
}

fn registry_abc() -> (Vec<Component>, Vec<ContentId>) {
    let reg = vec![comp("a", &[]), comp("b", &["a"]), comp("c", &["b", "a"])];
    let ids = vec![
        cid("a", &cid_a()),
        cid("b", &cid_b()),
        cid("c", &cid_c()),
    ];
    (reg, ids)
}

#[test]
fn digests_match_the_documented_byte_layout() {
    let (reg, ids) = registry_abc();
    let out = hash_components(reg, &ids, false).unwrap();
    // depth(a)=0, depth(b)=1, depth(c)=2; c's children sorted [a, b]
    let da = expected_digest(0, &cid_a(), &[]);
    let db = expected_digest(1, &cid_b(), &[(0, &da)]);
    let dc = expected_digest(2, &cid_c(), &[(0, &da), (1, &db)]);
    assert_eq!(tree_of(&out, "a"), hex::encode(da));
    assert_eq!(tree_of(&out, "b"), hex::encode(db));
    assert_eq!(tree_of(&out, "c"), hex::encode(dc));
    // output comes sorted dependencies-first
    let names: Vec<&str> = out.iter().map(|c| c.dir.as_str()).collect();
    assert_eq!(names, vec!["a", "b", "c"]);
}

#[test]
fn all_four_hash_fields_are_assigned() {
    let (reg, ids) = registry_abc();
    let out = hash_components(reg, &ids, false).unwrap();
    let a = &out[0];
    assert_eq!(a.commit_sha.as_deref(), Some(cid_a().as_str()));
    assert_eq!(a.commit_sha_short.as_deref(), Some(&cid_a()[..8]));
    let tree = a.tree_sha.clone().unwrap();
    assert_eq!(tree.len(), 64);
    assert_eq!(a.tree_sha_short.as_deref(), Some(&tree[..16]));
    assert_eq!(a.dependencies, Vec::<String>::new());
}

#[test]
fn remove_dependencies_empties_the_lists() {
    let (reg, ids) = registry_abc();
    let out = hash_components(reg, &ids, true).unwrap();
    assert!(out.iter().all(|c| c.dependencies.is_empty()));
}

#[test]
fn hashing_twice_yields_identical_digests() {
    let (reg1, ids) = registry_abc();
    let (reg2, _) = registry_abc();
    let out1 = hash_components(reg1, &ids, false).unwrap();
    let out2 = hash_components(reg2, &ids, false).unwrap();
    for c in out1.iter() {
        assert_eq!(c.tree_sha, out2.iter().find(|d| d.dir == c.dir).unwrap().tree_sha);
    }
}

#[test]
fn declaration_order_of_dependencies_does_not_change_digests() {
    let (reg1, ids) = registry_abc();
    let reg2 = vec![comp("a", &[]), comp("b", &["a"]), comp("c", &["a", "b"])];
    let out1 = hash_components(reg1, &ids, false).unwrap();
    let out2 = hash_components(reg2, &ids, false).unwrap();
    assert_eq!(tree_of(&out1, "c"), tree_of(&out2, "c"));
}

#[test]
fn changed_leaf_identifier_changes_leaf_and_ancestors_only() {
    let (reg1, mut ids) = registry_abc();
    let (reg2, _) = registry_abc();
    let mut reg1 = reg1;
    reg1.push(comp("d", &[]));
    let mut reg2 = reg2;
    reg2.push(comp("d", &[]));
    ids.push(cid("d", &cid_d()));
    let out1 = hash_components(reg1, &ids, false).unwrap();
    // flip one byte of a's identifier
    let mut changed = cid_a();
    changed.replace_range(0..2, "ab");
    let ids2 = vec![
        cid("a", &changed),
        cid("b", &cid_b()),
        cid("c", &cid_c()),
        cid("d", &cid_d()),
    ];
    let out2 = hash_components(reg2, &ids2, false).unwrap();
    assert_ne!(tree_of(&out1, "a"), tree_of(&out2, "a"));
    assert_ne!(tree_of(&out1, "b"), tree_of(&out2, "b"));
    assert_ne!(tree_of(&out1, "c"), tree_of(&out2, "c"));
    assert_eq!(tree_of(&out1, "d"), tree_of(&out2, "d"));
}

#[test]
fn missing_content_identifier_is_a_lookup_error() {
    let (reg, _) = registry_abc();
    let ids = vec![cid("a", &cid_a()), cid("c", &cid_c())];
    match hash_components(reg, &ids, false) {
        Err(CustomError::ContentLookupError { dir }) => assert_eq!(dir, "b"),
        _ => panic!("expected a content-lookup error"),
    }
}

#[test]
fn malformed_identifier_is_a_decode_error() {
    let (reg, _) = registry_abc();
    let ids = vec![
        cid("a", "zz"),
        cid("b", &cid_b()),
        cid("c", &cid_c()),
    ];
    match hash_components(reg, &ids, false) {
        Err(CustomError::DecodeError { dir, value }) => {
            assert_eq!(dir, "a");
            assert_eq!(value, "zz");
        }
        _ => panic!("expected a decode error"),
    }
}

#[test]
fn wrong_width_identifier_is_a_decode_error() {
    let (reg, _) = registry_abc();
    let ids = vec![
        cid("a", "aabb"),
        cid("b", &cid_b()),
        cid("c", &cid_c()),
    ];
    match hash_components(reg, &ids, false) {
        Err(CustomError::DecodeError { dir, value }) => {
            assert_eq!(dir, "a");
            assert_eq!(value, "aabb");
        }
        _ => panic!("expected a decode error"),
    }
}

#[test]
fn cyclic_registry_fails_before_hashing() {
    let reg = vec![comp("a", &["b"]), comp("b", &["a"])];
    let ids = vec![cid("a", &cid_a()), cid("b", &cid_b())];
    match hash_components(reg, &ids, false) {
        Err(CustomError::CycleError(rep)) => assert_eq!(rep.len(), 2),
        _ => panic!("expected a cycle error"),
    }
}

#[test]
fn uppercase_identifier_decodes_like_lowercase() {
    let reg = vec![comp("a", &[])];
    let upper: String = cid_a().to_uppercase();
    let out1 = hash_components(vec![comp("a", &[])], &vec![cid("a", &cid_a())], false).unwrap();
    let out2 = hash_components(reg, &vec![cid("a", &upper)], false).unwrap();
    assert_eq!(tree_of(&out1, "a"), tree_of(&out2, "a"));
}
