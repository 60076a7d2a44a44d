use dotty::deploy::{needs_confirmation, overwrite_allowed, plan_entry, remove_extension,
    server_dir, EntryKind, EntryPlan};
use dotty::render::{make_host_context, render_template};

fn b(s: &str) -> Vec<u8> {
    s.as_bytes().to_vec()
}

#[test]
fn directories_recurse_and_non_regular_entries_skip() {
    assert!(matches!(plan_entry(EntryKind::Dir, &b("sub")), EntryPlan::Recurse));
    assert!(matches!(plan_entry(EntryKind::Other, &b("dev/null")), EntryPlan::SkipNonRegular));
}

#[test]
fn template_marker_renders_with_stripped_output_path() {
    match plan_entry(EntryKind::File, &b("app.conf.tera")) {
        EntryPlan::Render { output_rel } => assert_eq!(output_rel, b("app.conf")),
        other => panic!("expected a render plan, got {:?}", other),
    }
    match plan_entry(EntryKind::File, &b("web/site.html.tera")) {
        EntryPlan::Render { output_rel } => assert_eq!(output_rel, b("web/site.html")),
        other => panic!("expected a render plan, got {:?}", other),
    }
}

#[test]
fn plain_files_copy_to_the_same_path() {
    match plan_entry(EntryKind::File, &b("app.conf")) {
        EntryPlan::CopyVerbatim { output_rel } => assert_eq!(output_rel, b("app.conf")),
        other => panic!("expected a copy plan, got {:?}", other),
    }
    // a leading-dot name has no extension, so no marker applies
    match plan_entry(EntryKind::File, &b("conf/.tera")) {
        EntryPlan::CopyVerbatim { output_rel } => assert_eq!(output_rel, b("conf/.tera")),
        other => panic!("expected a copy plan, got {:?}", other),
    }
    // another extension is no marker either
    match plan_entry(EntryKind::File, &b("notes.txt")) {
        EntryPlan::CopyVerbatim { output_rel } => assert_eq!(output_rel, b("notes.txt")),
        other => panic!("expected a copy plan, got {:?}", other),
    }
}

#[test]
fn non_utf8_extension_skips_the_entry() {
    let mut path = b("dir/file.");
    path.push(0xff);
    path.push(0xfe);
    assert!(matches!(plan_entry(EntryKind::File, &path), EntryPlan::SkipInvalidExt));
    // valid UTF-8 in the extension does not skip
    assert!(matches!(
        plan_entry(EntryKind::File, &b("file.txt")),
        EntryPlan::CopyVerbatim { .. }
    ));
}

#[test]
fn remove_extension_strips_only_the_final_component() {
    assert_eq!(remove_extension(&b("foo.tera")), b("foo"));
    assert_eq!(remove_extension(&b("a/b.x.tera")), b("a/b.x"));
    assert_eq!(remove_extension(&b(".tera")), b(".tera"));
    assert_eq!(remove_extension(&b("foo")), b("foo"));
    assert_eq!(remove_extension(&b("dir.d/file")), b("dir.d/file"));
    assert_eq!(remove_extension(&b("dir/trailing.")), b("dir/trailing"));
}

#[test]
fn overwrite_guard_asks_only_without_force() {
    // second run over an existing path: a prompt is owed without force
    assert!(needs_confirmation(false, true));
    assert!(!needs_confirmation(true, true));
    assert!(!needs_confirmation(false, false));
    // declining skips the write; consenting or forcing allows it
    assert!(!overwrite_allowed(false, true, false));
    assert!(overwrite_allowed(false, true, true));
    assert!(overwrite_allowed(true, true, false));
    assert!(overwrite_allowed(false, false, false));
}

#[test]
fn host_binding_substitutes_into_the_rendered_output() {
    let tera = tera::Tera::new();
    let ctx = make_host_context("web01", &Vec::new());
    let out = render_template(&tera, "server_name {{ hostname }};", &ctx).unwrap();
    assert_eq!(out, "server_name web01;");
}

#[test]
fn extra_bindings_reach_the_renderer() {
    let tera = tera::Tera::new();
    let extras = vec![("port".to_string(), "8080".to_string())];
    let ctx = make_host_context("db02", &extras);
    let out = render_template(&tera, "{{ hostname }}:{{ port }}", &ctx).unwrap();
    assert_eq!(out, "db02:8080");
}

#[test]
fn second_render_with_new_binding_changes_the_output() {
    let tera = tera::Tera::new();
    let c1 = make_host_context("web01", &Vec::new());
    let c2 = make_host_context("web02", &Vec::new());
    let t = "host={{ hostname }}";
    let o1 = render_template(&tera, t, &c1).unwrap();
    let o2 = render_template(&tera, t, &c2).unwrap();
    assert_eq!(o1, "host=web01");
    assert_eq!(o2, "host=web02");
}

#[test]
fn a_template_syntax_error_is_reported() {
    let tera = tera::Tera::new();
    let ctx = make_host_context("web01", &Vec::new());
    assert!(render_template(&tera, "{{ unclosed", &ctx).is_err());
}

#[test]
fn server_dir_follows_the_layout() {
    assert_eq!(server_dir(&b("/cfg"), &b("web01")), b("/cfg/servers/web01"));
    assert_eq!(server_dir(&b("/cfg/"), &b("db02")), b("/cfg/servers/db02"));
}
