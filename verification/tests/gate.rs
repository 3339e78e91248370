use xerj_autoindex::gate::{
    answer_from_terminal, prompt_blocked_by, read_answer, Approval, NoPrompt, EXIT_NEEDS_DECISION,
};

/// What a line-reading terminal yields for this input: each line, then end of input.
fn replies(input: &str) -> Vec<Option<String>> {
    let mut v: Vec<Option<String>> = input.split_inclusive('\n').map(|l| Some(l.to_string())).collect();
    v.push(None);
    v
}

fn never_read() -> Vec<Option<String>> {
    panic!("stdin was read for a question the user was never shown");
}

#[test]
fn the_decision_exit_code_is_not_any_existing_one() {
    for taken in [0, 1, 2, 3] {
        assert_ne!(EXIT_NEEDS_DECISION, taken);
    }
}

#[test]
fn approve_accepts_the_three_it_can_carry_out_and_refuses_the_one_it_cannot() {
    assert_eq!(Approval::parse("proceed"), Ok(Approval::Proceed));
    assert_eq!(Approval::parse("fast"), Ok(Approval::Fast));
    assert_eq!(Approval::parse("cancel"), Ok(Approval::Cancel));
    let refused = Approval::parse("narrower").unwrap_err();
    assert!(refused.contains("cannot be honoured"), "{refused}");
    assert!(refused.contains("subdirectory"), "{refused}");
    let unknown = Approval::parse("later").unwrap_err();
    assert!(unknown.contains("proceed, fast, cancel"), "{unknown}");
    assert!(Approval::parse("Proceed").is_err());
    assert!(Approval::parse("").is_err());
}

#[test]
fn an_unanswerable_prompt_never_returns_consent() {
    let mut echoed = Vec::new();
    let answer = read_answer(&replies(""), &mut echoed);
    assert_eq!(answer, None);
    assert_eq!(echoed.len(), 1, "EOF must not re-prompt forever: {echoed:?}");

    let mut echoes = Vec::new();
    let answer = read_answer(&replies("x\ny\n\nz\nq\n"), &mut echoes);
    assert_eq!(answer, Some(Approval::Proceed));
    assert!(echoes.len() >= 2);

    let mut noise = Vec::new();
    assert_eq!(read_answer(&replies("a\nb\nc0\nd\n"), &mut noise), None);
}

#[test]
fn the_prompt_is_offered_only_when_all_three_conditions_hold() {
    assert_eq!(prompt_blocked_by(true, true, true), None);
    assert_eq!(prompt_blocked_by(false, true, true), Some(NoPrompt::StdinNotTerminal));
    assert_eq!(prompt_blocked_by(false, false, false), Some(NoPrompt::StdinNotTerminal));
    assert_eq!(prompt_blocked_by(true, false, true), Some(NoPrompt::StderrNotTerminal));
    for reason in [NoPrompt::StdinNotTerminal, NoPrompt::StderrNotTerminal, NoPrompt::QuestionSilenced] {
        let text = reason.explain();
        assert!(text.contains("--approve"), "{text}");
        let mut echo = Vec::new();
        assert_eq!(answer_from_terminal(Some(reason), never_read, &mut echo), None);
        assert!(echo.is_empty());
    }
    let mut echo = Vec::new();
    assert_eq!(answer_from_terminal(None, || replies("f\n"), &mut echo), Some(Approval::Fast));
}

#[test]
fn every_spelling_of_an_answer_maps_to_one_decision() {
    for (input, expected) in [
        ("p\n", Approval::Proceed),
        ("PROCEED\n", Approval::Proceed),
        ("  yes  \n", Approval::Proceed),
        ("f\n", Approval::Fast),
        ("Fast\n", Approval::Fast),
        ("c\n", Approval::Cancel),
        ("no\n", Approval::Cancel),
        ("q\n", Approval::Cancel),
    ] {
        let mut echo = Vec::new();
        assert_eq!(read_answer(&replies(input), &mut echo), Some(expected), "{input:?}");
    }
}

#[test]
fn a_question_that_cannot_be_seen_is_never_asked() {
    let blocked = prompt_blocked_by(true, true, false);
    assert_eq!(blocked, Some(NoPrompt::QuestionSilenced));
    let mut echoed = Vec::new();
    let answer = answer_from_terminal(blocked, never_read, &mut echoed);
    assert_eq!(answer, None, "an unaskable question is never consent");
    assert!(echoed.is_empty());
}

#[test]
fn the_dialog_echoes_the_prompt_and_each_notice() {
    let mut echo = Vec::new();
    let answer = read_answer(&replies("\nmaybe\nf\n"), &mut echo);
    assert_eq!(answer, Some(Approval::Fast));
    assert_eq!(echo.len(), 5);
    assert_eq!(echo[1], "  no answer read; type p, f or c");
    assert_eq!(echo[3], "  'maybe' is not one of p, f, c");
    assert_eq!(Approval::Fast.as_str(), "fast");
}

#[test]
fn heaviest_directories_group_by_first_segment() {
    let dirs = xerj_autoindex::gate::heaviest_directories(
        &[
            ("node_modules/a/b.js".to_string(), 700),
            ("node_modules/c.js".to_string(), 100),
            ("src/main.rs".to_string(), 150),
            ("README.md".to_string(), 50),
        ],
        5,
    );
    assert_eq!(dirs.len(), 3);
    assert_eq!(dirs[0].path, "node_modules");
    assert_eq!((dirs[0].files, dirs[0].bytes), (2, 800));
    assert_eq!(dirs[1].path, "src");
    // Root-level files are their own bucket, not silently merged.
    assert_eq!(dirs[2].path, ".");
    assert_eq!(dirs[2].bytes, 50);
    assert!(xerj_autoindex::gate::heaviest_directories(&[], 5).is_empty());
}

#[test]
fn heaviest_directories_break_ties_by_path_and_keep_the_top() {
    let files = vec![
        ("b/1".to_string(), 10u64),
        ("a/1".to_string(), 10),
        ("c/1".to_string(), 30),
        ("d".to_string(), 5),
    ];
    let dirs = xerj_autoindex::gate::heaviest_directories(&files, 2);
    let names: Vec<&str> = dirs.iter().map(|d| d.path.as_str()).collect();
    assert_eq!(names, ["c", "a"]);
    assert!(xerj_autoindex::gate::heaviest_directories(&files, 0).is_empty());
}

#[test]
fn a_reply_that_is_not_an_answer_is_told_why() {
    use_reply_notice();
}

fn use_reply_notice() {
    assert_eq!(xerj_autoindex::gate::reply_notice("  YES \n"), None);
    assert_eq!(xerj_autoindex::gate::reply_notice("\n").as_deref(), Some("  no answer read; type p, f or c"));
    assert_eq!(xerj_autoindex::gate::reply_notice("Maybe\n").as_deref(), Some("  'maybe' is not one of p, f, c"));
}
