use dotty::paths::{bytes_cmp, bytes_eq, join_rel, relativize, PathExt};
use dotty::store::ObjectStore;
use dotty::OpError;

fn b(s: &str) -> Vec<u8> {
    s.as_bytes().to_vec()
}

#[test]
fn put_is_idempotent() {
    let mut store = ObjectStore::new();
    let content = b("server { listen 80; }\n");
    let d1 = store.put(&content).unwrap();
    let d2 = store.put(&content).unwrap();
    assert_eq!(d1, d2);
    assert_eq!(store.get(&d1).unwrap(), content);
}

#[test]
fn equal_contents_share_one_digest_across_stores() {
    let mut s1 = ObjectStore::new();
    let mut s2 = ObjectStore::new();
    let d1 = s1.put(&b("same bytes")).unwrap();
    let d2 = s2.put(&b("same bytes")).unwrap();
    assert_eq!(d1, d2);
}

#[test]
fn different_contents_get_different_digests() {
    let mut store = ObjectStore::new();
    let d1 = store.put(&b("one")).unwrap();
    let d2 = store.put(&b("two")).unwrap();
    assert_ne!(d1, d2);
}

#[test]
fn digest_matches_git_blob_hash() {
    let mut store = ObjectStore::new();
    let d = store.put(&Vec::new()).unwrap();
    // the well-known SHA-1 of an empty git blob
    let expected = "e69de29bb2d1d6434b8b29ae775ad8c2e48c5391";
    let hex: String = d.iter().map(|x| format!("{:02x}", x)).collect();
    assert_eq!(hex, expected);
    let content = b("host configuration\n");
    let d2 = store.put(&content).unwrap();
    let oid = git2::Oid::hash_object(git2::ObjectType::Blob, &content).unwrap();
    assert_eq!(d2.as_slice(), oid.as_bytes());
}

#[test]
fn get_unknown_digest_is_not_found() {
    let store = ObjectStore::new();
    let missing = vec![0u8; 20];
    assert_eq!(store.get(&missing), Err(OpError::NotFound));
    let mut store2 = ObjectStore::new();
    let d = store2.put(&b("x")).unwrap();
    assert!(store2.contains(&d));
    assert!(!store2.contains(&missing));
}

#[test]
fn byte_comparison_orders_lexicographically() {
    assert_eq!(bytes_cmp(&b("abc"), &b("abd")), -1);
    assert_eq!(bytes_cmp(&b("abc"), &b("abc")), 0);
    assert_eq!(bytes_cmp(&b("abd"), &b("abc")), 1);
    assert_eq!(bytes_cmp(&b("ab"), &b("abc")), -1);
    assert_eq!(bytes_cmp(&b("abc"), &b("ab")), 1);
    assert!(bytes_eq(&b(""), &b("")));
    assert!(!bytes_eq(&b("a"), &b("b")));
}

#[test]
fn relativize_strips_the_root() {
    assert_eq!(relativize(&b("/etc/nginx/a.conf"), &b("/etc")), Ok(b("nginx/a.conf")));
    assert_eq!(relativize(&b("/etc/a"), &b("/")), Ok(b("etc/a")));
    assert_eq!(relativize(&b("/opt/x"), &b("/etc")), Err(OpError::PathOutsideRoot));
    assert_eq!(relativize(&b("/etc"), &b("/etc")), Err(OpError::PathOutsideRoot));
}

#[test]
fn join_rel_inserts_one_separator() {
    assert_eq!(join_rel(&b("/etc"), &b("nginx/a")), b("/etc/nginx/a"));
    assert_eq!(join_rel(&b("/etc/"), &b("a")), b("/etc/a"));
}

#[test]
fn join_inside_keeps_paths_under_the_base() {
    let base = b("/srv/cfg");
    assert_eq!(base.join_inside(&b("hosts")), Some(b("/srv/cfg/hosts")));
    assert_eq!(base.join_inside(&b("/srv/cfg/deep/x")), Some(b("/srv/cfg/deep/x")));
    assert_eq!(base.join_inside(&b("/elsewhere/x")), None);
}
