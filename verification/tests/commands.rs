use dotty::cmds::{AddCmd, CommitCmd, InitCmd, Invocation, ListCmd, LogCmd, ResetCmd, StagedFile,
    State, StatusCmd, UnpackCmd};
use dotty::deploy::{EntryKind, EntryPlan};
use dotty::diff::DeltaStatus;
use dotty::index::RawMetadata;
use dotty::OpError;

fn b(s: &str) -> Vec<u8> {
    s.as_bytes().to_vec()
}

fn meta(size: u64) -> RawMetadata {
    RawMetadata {
        mode: 0o100644,
        uid: 0,
        gid: 0,
        ino: 3,
        dev: 1,
        size,
        ctime: 1700000000,
        mtime: 1700000000,
    }
}

fn staged(abs: &str, content: &str) -> StagedFile {
    let content = b(content);
    let m = meta(content.len() as u64);
    StagedFile { abs_path: b(abs), content, meta: m }
}

#[test]
fn state_record_starts_at_version_one() {
    let s = State::new();
    assert_eq!(s.version, 1);
    assert!(s.files.is_empty());
}

#[test]
fn add_stages_files_relative_to_the_root() {
    let mut repo = InitCmd {}.apply();
    let cmd = AddCmd { paths: vec![b("/cfg/servers/a.conf"), b("/cfg/servers/b.conf")] };
    let files = vec![
        staged("/cfg/servers/a.conf", "alpha"),
        staged("/cfg/servers/b.conf", "beta"),
    ];
    cmd.apply(&mut repo, &b("/cfg"), &files).unwrap();
    let listed = ListCmd {}.apply(&repo);
    assert_eq!(listed, vec![b("servers/a.conf"), b("servers/b.conf")]);
}

#[test]
fn add_stops_at_the_first_path_outside_the_root() {
    let mut repo = InitCmd {}.apply();
    let cmd = AddCmd { paths: Vec::new() };
    let files = vec![staged("/cfg/ok.conf", "fine"), staged("/other/out.conf", "nope")];
    let r = cmd.apply(&mut repo, &b("/cfg"), &files);
    assert_eq!(r, Err(OpError::PathOutsideRoot));
    // the first file stays staged, the failing one is out
    assert_eq!(ListCmd {}.apply(&repo), vec![b("ok.conf")]);
}

#[test]
fn commit_command_uses_the_given_message_over_the_fallback() {
    let mut repo = InitCmd {}.apply();
    AddCmd { paths: Vec::new() }
        .apply(&mut repo, &b("/cfg"), &vec![staged("/cfg/a", "1")])
        .unwrap();
    let cmd = CommitCmd { message: Some(b("explicit")), amend: false };
    cmd.apply(&mut repo, &b("fallback"), &b("tester"), 5).unwrap();
    assert_eq!(repo.commit_at(0).message, b("explicit"));
    // without a message the solicited fallback is used
    AddCmd { paths: Vec::new() }
        .apply(&mut repo, &b("/cfg"), &vec![staged("/cfg/b", "2")])
        .unwrap();
    let cmd2 = CommitCmd { message: None, amend: false };
    cmd2.apply(&mut repo, &b("from editor"), &b("tester"), 6).unwrap();
    assert_eq!(repo.commit_at(1).message, b("from editor"));
}

#[test]
fn amend_flag_rewrites_the_tip() {
    let mut repo = InitCmd {}.apply();
    AddCmd { paths: Vec::new() }
        .apply(&mut repo, &b("/cfg"), &vec![staged("/cfg/a", "1")])
        .unwrap();
    CommitCmd { message: Some(b("first")), amend: false }
        .apply(&mut repo, &b(""), &b("tester"), 5)
        .unwrap();
    AddCmd { paths: Vec::new() }
        .apply(&mut repo, &b("/cfg"), &vec![staged("/cfg/more", "2")])
        .unwrap();
    CommitCmd { message: Some(b("first, fixed")), amend: true }
        .apply(&mut repo, &b(""), &b("tester"), 6)
        .unwrap();
    assert_eq!(repo.commit_count(), 1);
    assert_eq!(repo.commit_at(0).message, b("first, fixed"));
    assert_eq!(repo.commit_at(0).parent, None);
}

#[test]
fn status_command_reports_and_lists() {
    let mut repo = InitCmd {}.apply();
    AddCmd { paths: Vec::new() }
        .apply(&mut repo, &b("/cfg"), &vec![staged("/cfg/a", "1")])
        .unwrap();
    let st = StatusCmd { all: false };
    let deltas = st.deltas(&repo);
    assert_eq!(deltas.len(), 1);
    assert_eq!(deltas[0].status, DeltaStatus::Untracked);
    let all = StatusCmd { all: true }.all_paths(&repo);
    assert_eq!(all, vec![b("a")]);
}

#[test]
fn reset_command_clears_or_restores() {
    let mut repo = InitCmd {}.apply();
    AddCmd { paths: Vec::new() }
        .apply(&mut repo, &b("/cfg"), &vec![staged("/cfg/a", "1")])
        .unwrap();
    ResetCmd { paths: Vec::new() }.apply(&mut repo).unwrap();
    assert!(repo.index.is_empty());
    // with paths but no commit, the reset has nothing to restore from
    AddCmd { paths: Vec::new() }
        .apply(&mut repo, &b("/cfg"), &vec![staged("/cfg/a", "1")])
        .unwrap();
    let r = ResetCmd { paths: vec![b("a")] }.apply(&mut repo);
    assert_eq!(r, Err(OpError::UnbornRepository));
}

#[test]
fn log_command_lists_newest_first() {
    let mut repo = InitCmd {}.apply();
    AddCmd { paths: Vec::new() }
        .apply(&mut repo, &b("/cfg"), &vec![staged("/cfg/a", "1")])
        .unwrap();
    let id1 = CommitCmd { message: Some(b("one")), amend: false }
        .apply(&mut repo, &b(""), &b("tester"), 1)
        .unwrap();
    AddCmd { paths: Vec::new() }
        .apply(&mut repo, &b("/cfg"), &vec![staged("/cfg/b", "2")])
        .unwrap();
    let id2 = CommitCmd { message: Some(b("two")), amend: false }
        .apply(&mut repo, &b(""), &b("tester"), 2)
        .unwrap();
    let ids = LogCmd { flags: Vec::new() }.apply(&repo);
    assert_eq!(ids, vec![id2, id1]);
}

#[test]
fn unpack_command_plans_and_guards() {
    let cmd = UnpackCmd { force: false };
    match cmd.plan(EntryKind::File, &b("site.conf.tera")) {
        EntryPlan::Render { output_rel } => assert_eq!(output_rel, b("site.conf")),
        other => panic!("expected a render plan, got {:?}", other),
    }
    // deploying twice: the existing output prompts, unless some force
    // flag silences it, and then the write goes through
    assert!(cmd.must_confirm(false, true));
    assert!(!cmd.allow_overwrite(false, true, false));
    assert!(cmd.allow_overwrite(false, true, true));
    let forced = UnpackCmd { force: true };
    assert!(!forced.must_confirm(false, true));
    assert!(forced.allow_overwrite(false, true, false));
    // the invocation-wide force flag silences the prompt too
    assert!(!cmd.must_confirm(true, true));
    assert!(cmd.allow_overwrite(true, true, false));
}

#[test]
fn invocation_carries_the_shared_context() {
    let inv = Invocation {
        user_mode: false,
        root_path: b("/"),
        source_path: b("/cfg"),
        target_path: b("/etc"),
        hostname: "web01".to_string(),
        force: false,
    };
    assert_eq!(inv.hostname, "web01");
    assert!(!inv.force);
}

#[test]
fn state_record_survives_its_byte_encoding() {
    let mut st = State::new();
    st.record(b("etc/app.conf"));
    st.record(b("etc/other.conf"));
    let bytes = st.encode();
    let back = State::decode(&bytes).unwrap();
    assert_eq!(back.version, st.version);
    assert_eq!(back.files.len(), 2);
    assert_eq!(back.files[0].path, b("etc/app.conf"));
    assert_eq!(back.files[1].path, b("etc/other.conf"));
    // re-encoding the parsed record yields the same bytes
    assert_eq!(back.encode(), bytes);
}

#[test]
fn state_decode_refuses_torn_bytes() {
    let mut st = State::new();
    st.record(b("a"));
    let bytes = st.encode();
    assert!(State::decode(&bytes[..bytes.len() - 1].to_vec()).is_none());
    assert!(State::decode(&Vec::new()).is_none());
    let mut padded = bytes.clone();
    padded.push(0);
    assert!(State::decode(&padded).is_none());
}

#[test]
fn add_reports_metadata_overflow_at_the_command() {
    let mut repo = InitCmd {}.apply();
    let cmd = AddCmd { paths: vec![b("/cfg/huge")] };
    let mut bad = staged("/cfg/huge", "x");
    bad.meta.ino = u64::MAX;
    let r = cmd.apply(&mut repo, &b("/cfg"), &vec![bad]);
    assert_eq!(r, Err(OpError::MetadataOverflow));
    assert!(repo.index.is_empty());
}
