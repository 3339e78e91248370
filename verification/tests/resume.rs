use xerj_autoindex::resume::{reconcile_assignment, Choice, FileRef, PlanFile, Resume, ResumeError};

fn planned(key: &str, rel: &str, path_id: &str) -> PlanFile {
    PlanFile { key: key.to_string(), rel: rel.to_string(), path_id: path_id.to_string() }
}

fn file(rel: &str, rel_id: &str) -> FileRef {
    FileRef { rel: rel.to_string(), rel_id: rel_id.to_string() }
}

fn key(k: &str) -> Result<Choice, ResumeError> {
    Ok(Choice::Key(Some(k.to_string())))
}

#[test]
fn plan_with_one_path_under_two_keys_is_refused() {
    let plan = vec![planned("k1", "a.txt", ""), planned("k2", "a.txt", "")];
    let err = Resume::new(plan, vec![]).err().unwrap();
    assert_eq!(err, ResumeError::DuplicatePath("a.txt".into(), "k1".into(), "k2".into()));
    let message = err.message();
    assert_eq!(
        message,
        "resume plan assigns path a.txt to both k1 and k2; use --fresh after verifying the existing index"
    );
}

#[test]
fn plan_with_one_path_identity_under_two_keys_is_refused() {
    let plan = vec![planned("k1", "a.txt", "id:7"), planned("k2", "b.txt", "id:7")];
    let err = Resume::new(plan, vec![]).err().unwrap();
    assert_eq!(err, ResumeError::DuplicatePathId("k1".into(), "k2".into()));
    assert!(err.message().contains("one native path identity to both k1 and k2"));
}

#[test]
fn empty_path_identities_never_collide() {
    let plan = vec![planned("k1", "a.txt", ""), planned("k2", "b.txt", "")];
    assert!(Resume::new(plan, vec![]).is_ok());
}

#[test]
fn path_identity_wins_over_path() {
    let plan = vec![planned("k1", "old-name.txt", "id:9"), planned("k2", "a.txt", "")];
    let current = vec![file("a.txt", "id:9")];
    let mut r = Resume::new(plan, current).ok().unwrap();
    assert_eq!(r.decide(&file("a.txt", "id:9"), "c0", None), key("k1"));
}

#[test]
fn path_is_used_when_identity_is_unplanned() {
    let plan = vec![planned("k2", "a.txt", "")];
    let mut r = Resume::new(plan, vec![file("a.txt", "id:1")]).ok().unwrap();
    assert_eq!(r.decide(&file("a.txt", "id:1"), "c0", None), key("k2"));
}

#[test]
fn content_key_is_used_when_path_is_unplanned() {
    let plan = vec![planned("c1", "elsewhere.txt", "")];
    let mut r = Resume::new(plan, vec![file("moved.txt", "id:2")]).ok().unwrap();
    assert_eq!(r.decide(&file("moved.txt", "id:2"), "c1", None), key("c1"));
}

#[test]
fn a_claimed_key_is_not_given_twice() {
    // Two copies with the same content: the first keeps the planned content
    // key, the second must fall back to its legacy key.
    let plan = vec![planned("c1", "report-original.txt", "")];
    let current = vec![file("report-copy.txt", "id:3"), file("report-other.txt", "id:4")];
    let mut r = Resume::new(plan, current).ok().unwrap();
    assert_eq!(r.decide(&file("report-copy.txt", "id:3"), "c1", None), key("c1"));
    assert_eq!(r.decide(&file("report-other.txt", "id:4"), "c1", None), Ok(Choice::NeedLegacy));
    assert_eq!(
        r.decide(&file("report-other.txt", "id:4"), "c1", Some("legacy-x".to_string())),
        Ok(Choice::Key(None))
    );
}

#[test]
fn unplanned_legacy_key_gives_no_key() {
    let mut r = Resume::new(vec![planned("k1", "x.txt", "")], vec![file("new.txt", "id:5")]).ok().unwrap();
    assert_eq!(r.decide(&file("new.txt", "id:5"), "c9", None), Ok(Choice::NeedLegacy));
    assert_eq!(r.decide(&file("new.txt", "id:5"), "c9", Some("legacy".to_string())), Ok(Choice::Key(None)));
}

#[test]
fn legacy_key_whose_owner_is_gone_is_taken() {
    let plan = vec![planned("legacy", "gone.txt", "")];
    let mut r = Resume::new(plan, vec![file("renamed.txt", "id:6")]).ok().unwrap();
    assert_eq!(r.decide(&file("renamed.txt", "id:6"), "c9", Some("legacy".to_string())), key("legacy"));
    // Claimed now: a second file with the same legacy key is refused.
    let again = r.decide(&file("renamed2.txt", "id:8"), "c8", Some("legacy".to_string()));
    assert!(matches!(again, Err(ResumeError::LegacyCollision(..))));
}

#[test]
fn legacy_prefix_collision_has_one_deterministic_owner() {
    // The exact historical owner sorts second; the earlier sibling sharing
    // its legacy prefix key must not take it.
    let plan = vec![planned("legacy", "b.txt", "")];
    let current = vec![file("a.txt", "id:a"), file("b.txt", "id:b")];
    let mut r = Resume::new(plan, current).ok().unwrap();
    assert_eq!(r.decide(&file("a.txt", "id:a"), "full-a", None), Ok(Choice::NeedLegacy));
    let error = r.decide(&file("a.txt", "id:a"), "full-a", Some("legacy".to_string())).err().unwrap();
    assert_eq!(error, ResumeError::LegacyCollision("a.txt".into(), "legacy".into(), "b.txt".into()));
    let message = error.message();
    assert!(message.contains("collides with legacy resume key"));
    assert!(message.contains("rerun with --fresh"));
}

#[test]
fn a_moved_or_rewritten_file_changes_its_content_and_the_plan() {
    // Same path, same digest, same identity: nothing changed.
    assert_eq!(reconcile_assignment("a.txt", "id:1", Some("d1"), "a.txt", "id:1", "d1"), (false, false));
    // Moved: the content counts as changed.
    assert_eq!(reconcile_assignment("a.txt", "id:1", Some("d1"), "b.txt", "id:1", "d1"), (true, true));
    // Rewritten in place.
    assert_eq!(reconcile_assignment("a.txt", "id:1", Some("d1"), "a.txt", "id:1", "d2"), (true, true));
    // A plan without a digest gains one: the plan changes, the content does not.
    assert_eq!(reconcile_assignment("a.txt", "id:1", None, "a.txt", "id:1", "d1"), (false, true));
    // A new path identity only updates the plan.
    assert_eq!(reconcile_assignment("a.txt", "", Some("d1"), "a.txt", "id:1", "d1"), (false, true));
}

#[test]
fn a_refused_legacy_key_claims_nothing() {
    let plan = vec![planned("legacy", "b.txt", "")];
    let current = vec![file("a.txt", "id:a"), file("b.txt", "id:b")];
    let mut r = Resume::new(plan, current).ok().unwrap();
    assert!(r.decide(&file("a.txt", "id:a"), "full-a", Some("legacy".to_string())).is_err());
    // The refusal left the key unclaimed: its owner still gets it.
    assert_eq!(r.decide(&file("b.txt", "id:b"), "full-b", None), key("legacy"));
}
