use xerj_autoindex::resources::{plan_for, MAX_PDF_WORKERS, MIB};

const GIB: u64 = 1024 * MIB;

#[test]
fn the_default_plan_uses_the_whole_machine_for_the_cpu_bound_phase() {
    let plan = plan_for(12, 8 * GIB, None, None, 8);
    assert_eq!(plan.scan_threads, 12, "phase A is the CPU-bound phase");
    assert_eq!(plan.index_workers, 12);
    assert_eq!(plan.pdf_workers, 4);
    assert!(plan.notes.is_empty());
    assert_eq!(plan_for(32, 32 * GIB, None, None, 8).scan_threads, 32);
}

#[test]
fn an_explicit_request_is_honoured_on_both_phases() {
    let plan = plan_for(32, 32 * GIB, Some(2), Some(1), 8);
    assert_eq!(plan.scan_threads, 2, "--workers must bound phase A too");
    assert_eq!(plan.index_workers, 2);
    assert_eq!(plan.pdf_workers, 1);
}

#[test]
fn a_small_machine_gets_fewer_workers_and_is_told_why() {
    let plan = plan_for(32, 512 * MIB, None, None, 24);
    assert_eq!(plan.index_workers, 7);
    assert_eq!(plan.scan_threads, 32, "scanning is not what costs the memory");
    assert!(plan.notes[0].contains("index workers"));
    assert_eq!(plan.pdf_workers, 1);
    assert!(plan.notes.iter().any(|n| n.contains("PDF worker")));
}

#[test]
fn the_plan_is_never_zero_or_absurd() {
    for cores in [0usize, 1, 2, 256] {
        for safe in [0u64, 64 * MIB, GIB, 512 * GIB] {
            for bulk in [1usize, 8, 24] {
                let plan = plan_for(cores, safe, None, None, bulk);
                assert!(plan.scan_threads >= 1);
                assert!(plan.index_workers >= 1);
                assert!((1..=MAX_PDF_WORKERS).contains(&plan.pdf_workers));
            }
        }
    }
}

#[test]
fn the_notes_state_the_exact_figures() {
    let plan = plan_for(32, 512 * MIB, None, None, 24);
    assert_eq!(
        plan.notes,
        vec![
            "memory safe zone 512 MiB allows 7 index workers at --bulk-mb 24, not 32".to_string(),
            "memory safe zone 512 MiB allows 1 PDF worker(s) at 1536 MiB each, not 4".to_string(),
        ]
    );
}

#[test]
fn describe_is_one_line_with_the_figures() {
    let plan = plan_for(12, 8 * GIB, None, None, 8);
    assert_eq!(
        plan.describe("12 cores"),
        "resources: 12 scan threads, 12 index workers, 4 pdf workers, memory safe zone 8192 MiB (12 cores)"
    );
}
