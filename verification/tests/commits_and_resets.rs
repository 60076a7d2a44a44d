use dotty::diff::DeltaStatus;
use dotty::index::RawMetadata;
use dotty::message::message_is_empty;
use dotty::repo::Repository;
use dotty::tree::Tree;
use dotty::OpError;

fn b(s: &str) -> Vec<u8> {
    s.as_bytes().to_vec()
}

fn meta(size: u64) -> RawMetadata {
    RawMetadata {
        mode: 0o100644,
        uid: 0,
        gid: 0,
        ino: 9,
        dev: 1,
        size,
        ctime: 1700000000,
        mtime: 1700000000,
    }
}

fn stage(repo: &mut Repository, path: &str, content: &str) {
    let content = b(content);
    let m = meta(content.len() as u64);
    repo.stage_file(b(path), &content, m).unwrap();
}

#[test]
fn commit_then_status_is_clean() {
    let mut repo = Repository::new();
    stage(&mut repo, "etc/app.conf", "v1");
    let id = repo.commit(&b("first"), &b("tester"), 10).unwrap();
    assert_eq!(repo.head_id(), Some(id));
    let deltas = repo.status();
    assert_eq!(deltas.len(), 1);
    assert!(deltas.iter().all(|d| d.status == DeltaStatus::Unmodified));
    assert!(!dotty::diff::has_changes(&deltas));
}

#[test]
fn empty_message_fails_and_leaves_head_unchanged() {
    let mut repo = Repository::new();
    stage(&mut repo, "a", "1");
    let r = repo.commit(&b("   \n# a comment line\n\t\n"), &b("tester"), 10);
    assert_eq!(r, Err(OpError::EmptyMessage));
    assert_eq!(repo.head_id(), None);
    assert_eq!(repo.commit_count(), 0);
    // the same index still commits under a real message
    repo.commit(&b("real message"), &b("tester"), 11).unwrap();
    assert_eq!(repo.commit_count(), 1);
}

#[test]
fn message_emptiness_ignores_comments_and_whitespace() {
    assert!(message_is_empty(&b("")));
    assert!(message_is_empty(&b("   \t  ")));
    assert!(message_is_empty(&b("# one\n# two\n")));
    assert!(message_is_empty(&b("\n\n# x\n   \n")));
    assert!(!message_is_empty(&b("# one\nreal text\n")));
    assert!(!message_is_empty(&b("word")));
    // a comment marker not at the start of its line hides nothing
    assert!(!message_is_empty(&b("  leading # not a comment")));
}

#[test]
fn unchanged_index_has_nothing_to_commit() {
    let mut repo = Repository::new();
    stage(&mut repo, "a", "1");
    repo.commit(&b("first"), &b("tester"), 10).unwrap();
    let r = repo.commit(&b("second"), &b("tester"), 11);
    assert_eq!(r, Err(OpError::NothingToCommit));
    assert_eq!(repo.commit_count(), 1);
    // unborn repository with an empty index: also nothing to commit
    let mut fresh = Repository::new();
    assert_eq!(fresh.commit(&b("m"), &b("t"), 1), Err(OpError::NothingToCommit));
}

#[test]
fn history_is_linear_and_log_is_newest_first() {
    let mut repo = Repository::new();
    stage(&mut repo, "a", "1");
    let id1 = repo.commit(&b("one"), &b("tester"), 1).unwrap();
    stage(&mut repo, "b", "2");
    let id2 = repo.commit(&b("two"), &b("tester"), 2).unwrap();
    assert_eq!(repo.commit_count(), 2);
    assert_eq!(repo.commit_at(0).parent, None);
    assert_eq!(repo.commit_at(1).parent, Some(id1.clone()));
    assert_eq!(repo.head_id(), Some(id2.clone()));
    assert_eq!(repo.log(), vec![id2, id1]);
}

#[test]
fn amend_replaces_the_tip_but_keeps_its_parent() {
    let mut repo = Repository::new();
    stage(&mut repo, "a", "1");
    let id1 = repo.commit(&b("one"), &b("tester"), 1).unwrap();
    stage(&mut repo, "b", "2");
    repo.commit(&b("two"), &b("tester"), 2).unwrap();
    stage(&mut repo, "c", "3");
    let id3 = repo.amend(&b("two, extended"), &b("tester"), 3).unwrap();
    assert_eq!(repo.commit_count(), 2);
    assert_eq!(repo.commit_at(1).parent, Some(id1));
    assert_eq!(repo.head_id(), Some(id3));
    assert_eq!(repo.commit_at(1).message, b("two, extended"));
    assert_eq!(repo.commit_at(1).tree.len(), 3);
}

#[test]
fn amend_on_unborn_repository_fails() {
    let mut repo = Repository::new();
    assert_eq!(repo.amend(&b("m"), &b("t"), 1), Err(OpError::UnbornRepository));
}

#[test]
fn reset_restores_the_committed_tree_bit_for_bit() {
    let mut repo = Repository::new();
    stage(&mut repo, "a", "1");
    stage(&mut repo, "b", "2");
    repo.commit(&b("base"), &b("tester"), 1).unwrap();
    let committed = repo.commit_at(0).tree.encode();
    // drift: change a, add c
    stage(&mut repo, "a", "1-changed");
    stage(&mut repo, "c", "3");
    repo.reset_all();
    let restored = Tree::from_index(&repo.index).encode();
    assert_eq!(restored, committed);
    // a second reset is a no-op
    repo.reset_all();
    let again = Tree::from_index(&repo.index).encode();
    assert_eq!(again, committed);
}

#[test]
fn reset_on_unborn_repository_clears_the_index() {
    let mut repo = Repository::new();
    stage(&mut repo, "a", "1");
    repo.reset_all();
    assert!(repo.index.is_empty());
}

#[test]
fn reset_named_paths_touches_only_those() {
    let mut repo = Repository::new();
    stage(&mut repo, "a", "1");
    stage(&mut repo, "b", "2");
    repo.commit(&b("base"), &b("tester"), 1).unwrap();
    stage(&mut repo, "a", "1-changed");
    stage(&mut repo, "b", "2-changed");
    stage(&mut repo, "c", "3");
    let named = vec![b("a"), b("c")];
    repo.reset_named_paths(&named).unwrap();
    // a is back at the committed content, c is gone, b keeps its change
    let paths = repo.index.paths();
    assert_eq!(paths, vec![b("a"), b("b")]);
    let committed_a = repo.commit_at(0).tree.find(&b("a")).unwrap().digest;
    assert_eq!(repo.index.entry_at(0).digest, committed_a);
    let changed_b = dotty::digest::blob_digest(&b("2-changed")).unwrap();
    assert_eq!(repo.index.entry_at(1).digest, changed_b);
}

#[test]
fn reset_named_paths_needs_a_commit() {
    let mut repo = Repository::new();
    stage(&mut repo, "a", "1");
    let named = vec![b("a")];
    assert_eq!(repo.reset_named_paths(&named), Err(OpError::UnbornRepository));
    assert_eq!(repo.index.len(), 1);
}

#[test]
fn tree_identity_follows_content() {
    let mut r1 = Repository::new();
    stage(&mut r1, "a", "same");
    let mut r2 = Repository::new();
    stage(&mut r2, "a", "same");
    let t1 = Tree::from_index(&r1.index);
    let t2 = Tree::from_index(&r2.index);
    assert_eq!(t1.id().unwrap(), t2.id().unwrap());
    let mut r3 = Repository::new();
    stage(&mut r3, "a", "different");
    let t3 = Tree::from_index(&r3.index);
    assert_ne!(t1.id().unwrap(), t3.id().unwrap());
}
