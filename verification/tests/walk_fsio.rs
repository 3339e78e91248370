use xerj_autoindex::fsio::{first_step, next_step, DurableNext, DurableStep, DurableWriteStage};
use xerj_autoindex::walk::{is_hidden_name, rel_form, stable_path_id};
use xerj_autoindex::walk::{generated_dir_marker, sort_by_rel, FileEntry, UNITY_GENERATED, UNITY_PROJECT_MARKER};

#[test]
fn hidden_names_start_with_a_dot_even_when_not_utf8() {
    assert!(is_hidden_name(b".env"));
    assert!(is_hidden_name(b".\xff\xfe"));
    assert!(!is_hidden_name(b"env"));
    assert!(!is_hidden_name(b""));
}

#[test]
fn the_path_identity_is_reversible_hex() {
    assert_eq!(stable_path_id(b"a/\xff"), "unix:612fff");
    assert_eq!(stable_path_id(b""), "unix:");
}

#[test]
fn relative_paths_use_forward_slashes() {
    assert_eq!(rel_form("docs\\guide\\a.md"), "docs/guide/a.md");
    assert_eq!(rel_form("plain/path.txt"), "plain/path.txt");
}

fn run(fail_at: Option<DurableStep>) -> (Vec<DurableStep>, DurableNext) {
    let mut steps = Vec::new();
    let mut step = first_step();
    loop {
        steps.push(step);
        let ok = Some(step) != fail_at;
        match next_step(step, ok) {
            DurableNext::Step(s) => step = s,
            other => return (steps, other),
        }
    }
}

#[test]
fn durable_write_orders_its_steps_and_cleans_up_before_the_rename() {
    let (steps, end) = run(None);
    assert_eq!(steps.len(), 7);
    assert_eq!(end, DurableNext::Done);
    assert_eq!(
        run(Some(DurableStep::Hook(DurableWriteStage::BeforeTempWrite))).1,
        DurableNext::Fail(false)
    );
    assert_eq!(
        run(Some(DurableStep::Hook(DurableWriteStage::BeforeRename))).1,
        DurableNext::Fail(true),
        "a failure before the rename removes the temporary file"
    );
    let (steps, end) = run(Some(DurableStep::Hook(DurableWriteStage::BeforeParentFsync)));
    assert_eq!(end, DurableNext::Fail(false));
    assert!(steps.contains(&DurableStep::Replace), "the target had already switched");
    assert_eq!(run(Some(DurableStep::Replace)).1, DurableNext::Fail(true));
}

#[test]
fn only_unity_cache_names_are_marker_gated() {
    for name in ["Library", "Temp", "obj", "Logs", "UserSettings"] {
        assert_eq!(generated_dir_marker(name), Some((UNITY_PROJECT_MARKER, UNITY_GENERATED)));
    }
    assert_eq!(UNITY_PROJECT_MARKER, "ProjectSettings/ProjectVersion.txt");
    for name in ["library", "src", "Assets", ""] {
        assert_eq!(generated_dir_marker(name), None);
    }
}

#[test]
fn the_walk_reports_files_in_path_order() {
    let entry = |rel: &str, size: u64| FileEntry {
        path: std::path::PathBuf::from(format!("/corpus/{rel}")),
        rel: rel.to_string(),
        rel_id: stable_path_id(rel.as_bytes()),
        is_symlink: false,
        size,
    };
    let sorted = sort_by_rel(vec![entry("src/main.rs", 1), entry("README.md", 2), entry("docs/a.md", 3), entry("Zeta", 4)]);
    let rels: Vec<&str> = sorted.iter().map(|e| e.rel.as_str()).collect();
    assert_eq!(rels, ["README.md", "Zeta", "docs/a.md", "src/main.rs"]);
    assert_eq!(sorted[0].size, 2);
    assert!(sort_by_rel(vec![]).is_empty());
}
