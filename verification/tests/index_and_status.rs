use dotty::diff::{diff, has_changes, status_code, DeltaStatus};
use dotty::index::{Index, RawMetadata};
use dotty::repo::Repository;
use dotty::tree::Tree;
use dotty::OpError;

fn b(s: &str) -> Vec<u8> {
    s.as_bytes().to_vec()
}

fn meta(size: u64) -> RawMetadata {
    RawMetadata {
        mode: 0o100644,
        uid: 1000,
        gid: 1000,
        ino: 42,
        dev: 7,
        size,
        ctime: 1700000000,
        mtime: 1700000001,
    }
}

fn repo_with(files: &[(&str, &str)]) -> Repository {
    let mut repo = Repository::new();
    for (path, content) in files {
        let content = b(content);
        let m = meta(content.len() as u64);
        repo.stage_file(b(path), &content, m).unwrap();
    }
    repo
}

#[test]
fn index_keeps_paths_sorted_and_unique() {
    let repo = repo_with(&[("b.conf", "2"), ("a.conf", "1"), ("b.conf", "3")]);
    let paths = repo.index.paths();
    assert_eq!(paths, vec![b("a.conf"), b("b.conf")]);
    assert_eq!(repo.index.len(), 2);
}

#[test]
fn stage_rejects_absolute_and_empty_paths() {
    let mut repo = Repository::new();
    let content = b("x");
    let m = meta(1);
    assert_eq!(repo.stage_file(b("/abs"), &content, m), Err(OpError::PathOutsideRoot));
    assert_eq!(repo.stage_file(Vec::new(), &content, m), Err(OpError::PathOutsideRoot));
    assert!(repo.index.is_empty());
}

#[test]
fn stage_rejects_oversized_metadata() {
    let mut repo = Repository::new();
    let content = b("x");
    let mut m = meta(1);
    m.ino = u64::MAX;
    assert_eq!(repo.stage_file(b("a"), &content, m), Err(OpError::MetadataOverflow));
    let mut m2 = meta(1);
    m2.ctime = i64::MAX;
    assert_eq!(repo.stage_file(b("a"), &content, m2), Err(OpError::MetadataOverflow));
    let mut m3 = meta(1);
    m3.size = u64::from(u32::MAX) + 1;
    assert_eq!(repo.stage_file(b("a"), &content, m3), Err(OpError::MetadataOverflow));
    assert!(repo.index.is_empty());
}

#[test]
fn staged_path_is_untracked_once_against_unborn() {
    let repo = repo_with(&[("web/app.conf", "listen 80")]);
    let deltas = repo.status();
    assert_eq!(deltas.len(), 1);
    assert_eq!(deltas[0].status, DeltaStatus::Untracked);
    assert_eq!(deltas[0].new_path.as_ref().unwrap(), &b("web/app.conf"));
    assert!(deltas[0].old_path.is_none());
}

#[test]
fn diff_classifies_added_deleted_modified() {
    let mut repo = repo_with(&[("a", "1"), ("b", "2"), ("c", "3")]);
    repo.commit(&b("base"), &b("tester"), 1).unwrap();
    // against the commit: a unchanged, b rewritten, c gone, d new
    let mut ix = Index::new();
    ix.stage(b("a"), dotty::digest::blob_digest(&b("1")).unwrap(), meta(1)).unwrap();
    ix.stage(b("b"), dotty::digest::blob_digest(&b("2-changed")).unwrap(), meta(9)).unwrap();
    ix.stage(b("d"), dotty::digest::blob_digest(&b("4")).unwrap(), meta(1)).unwrap();
    let tip = repo.commit_at(0);
    let deltas = diff(Some(&tip.tree), &ix);
    assert_eq!(deltas.len(), 4);
    assert_eq!(deltas[0].status, DeltaStatus::Unmodified);
    assert_eq!(deltas[1].status, DeltaStatus::Modified);
    assert_eq!(deltas[2].status, DeltaStatus::Deleted);
    assert_eq!(deltas[2].old_path.as_ref().unwrap(), &b("c"));
    assert_eq!(deltas[3].status, DeltaStatus::Added);
    assert_eq!(deltas[3].new_path.as_ref().unwrap(), &b("d"));
    assert!(has_changes(&deltas));
}

#[test]
fn diff_reports_typechange_on_file_type_bits() {
    let mut repo = repo_with(&[("a", "same")]);
    repo.commit(&b("base"), &b("tester"), 1).unwrap();
    let content = b("same");
    let mut m = meta(4);
    m.mode = 0o120000; // a symlink now
    repo.stage_file(b("a"), &content, m).unwrap();
    let deltas = repo.status();
    assert_eq!(deltas.len(), 1);
    assert_eq!(deltas[0].status, DeltaStatus::Typechange);
}

#[test]
fn diff_output_is_sorted_and_deterministic() {
    let repo = repo_with(&[("z", "1"), ("a", "2"), ("m", "3")]);
    let d1 = repo.status();
    let d2 = repo.status();
    let p1: Vec<Vec<u8>> = d1.iter().map(|d| d.new_path.clone().unwrap()).collect();
    let p2: Vec<Vec<u8>> = d2.iter().map(|d| d.new_path.clone().unwrap()).collect();
    assert_eq!(p1, vec![b("a"), b("m"), b("z")]);
    assert_eq!(p1, p2);
}

#[test]
fn status_codes_match_the_presentation() {
    assert_eq!(status_code(DeltaStatus::Added), " A");
    assert_eq!(status_code(DeltaStatus::Modified), " M");
    assert_eq!(status_code(DeltaStatus::Deleted), " D");
    assert_eq!(status_code(DeltaStatus::Untracked), "??");
    assert_eq!(status_code(DeltaStatus::Conflicted), "UU");
    assert_eq!(status_code(DeltaStatus::Ignored), "!!");
    assert_eq!(status_code(DeltaStatus::Unmodified), "");
}

#[test]
fn rename_candidate_finds_equal_content_across_paths() {
    let mut repo = repo_with(&[("old/name.conf", "identical bytes")]);
    repo.commit(&b("base"), &b("tester"), 1).unwrap();
    let mut ix = Index::new();
    let content = b("identical bytes");
    ix.stage(b("new/name.conf"), dotty::digest::blob_digest(&content).unwrap(), meta(15))
        .unwrap();
    let tip = repo.commit_at(0);
    let found = dotty::diff::rename_candidate(&tip.tree, &ix, &b("old/name.conf"));
    assert_eq!(found, Some(b("new/name.conf")));
    let none = dotty::diff::rename_candidate(&tip.tree, &ix, &b("never/there"));
    assert!(none.is_none());
}

#[test]
fn empty_tree_diff_against_empty_index_is_empty() {
    let ix = Index::new();
    let t = Tree::new();
    assert!(diff(Some(&t), &ix).is_empty());
    assert!(diff(None, &ix).is_empty());
}
