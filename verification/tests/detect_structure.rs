use xerj_autoindex::detect::corpus::{doc_id, CorpusFile, CorpusIndex, EdgeDraft};
use xerj_autoindex::detect::samedir::SameDir;
use xerj_autoindex::detect::section::SectionCtx;
use xerj_autoindex::detect::sequence::Sequence;

fn corpus_file(rel: &str, key: &str, dataset: &str, family: &str, mtime: i64) -> CorpusFile {
    CorpusFile::new(rel, key, dataset, family, mtime)
}

fn text(v: &[u8]) -> String {
    String::from_utf8(v.to_vec()).unwrap()
}

fn chain(rels: &[&str]) -> Vec<EdgeDraft> {
    let corpus = CorpusIndex::build(
        rels.iter()
            .enumerate()
            .map(|(i, rel)| corpus_file(rel, &format!("k{i}"), "notes", "txt-prose", 100 + i as i64))
            .collect(),
    );
    let mut out = Vec::new();
    SameDir.detect_structure(&corpus, &mut out);
    out
}

#[test]
fn fixture_folder_chains_not_cliques() {
    let out = chain(&["alpha.md", "beta.md", "delta.md", "epsilon.md", "gamma.md"]);
    assert_eq!(out.len(), 4);
    let pairs: Vec<(String, String)> = out.iter().map(|e| (text(&e.src_file), text(&e.quote))).collect();
    let expected: Vec<(String, String)> = vec![
        ("alpha.md", "alpha.md and beta.md share directory ."),
        ("beta.md", "beta.md and delta.md share directory ."),
        ("delta.md", "delta.md and epsilon.md share directory ."),
        ("epsilon.md", "epsilon.md and gamma.md share directory ."),
    ]
    .into_iter()
    .map(|(a, b)| (a.to_string(), b.to_string()))
    .collect();
    assert_eq!(pairs, expected);
}

#[test]
fn fan_out_is_linear_in_directory_size() {
    let rels: Vec<String> = (0..500).map(|i| format!("dir/f{i:03}.md")).collect();
    let refs: Vec<&str> = rels.iter().map(String::as_str).collect();
    assert_eq!(chain(&refs).len(), 499);
}

#[test]
fn directories_never_cross_and_singletons_emit_nothing() {
    let out = chain(&["a/x.md", "a/y.md", "b/z.md", "lone.md"]);
    assert_eq!(out.len(), 1);
    assert_eq!(text(&out[0].quote), "a/x.md and a/y.md share directory a");
}

#[test]
fn numeric_prefixes_chain_in_reading_order() {
    let out = chain(&["c/02-setup.md", "c/01-intro.md", "c/03-usage.md"]);
    assert_eq!(out.len(), 2);
    assert!(text(&out[0].quote).starts_with("c/01-intro.md and c/02-setup.md"));
    assert!(text(&out[1].quote).starts_with("c/02-setup.md and c/03-usage.md"));
}

#[test]
fn chain_order_follows_directory_names_not_paths() {
    // "a-b" sorts after "a" as a directory although its files sort first.
    let out = chain(&["a-b/x.md", "a-b/y.md", "a/x.md", "a/y.md"]);
    assert_eq!(out.len(), 2);
    assert_eq!(text(&out[0].quote), "a/x.md and a/y.md share directory a");
    assert_eq!(text(&out[1].quote), "a-b/x.md and a-b/y.md share directory a-b");
}

fn id(dataset: &str, key: &str, locator: &str) -> String {
    text(&doc_id(dataset.as_bytes(), key.as_bytes(), locator.as_bytes()))
}

#[test]
fn three_sections_chain_from_the_file_card() {
    let corpus = CorpusIndex::build(vec![corpus_file("big.md", "kb", "docs", "txt-prose", 7)]);
    let file = corpus.get("big.md").unwrap();
    let det = Sequence;
    let mut out = Vec::new();
    let ids: Vec<String> = (0..3u32).map(|i| id("docs", "kb", &format!("s{i}"))).collect();
    let labels: Vec<String> = (0..3u32).map(|i| format!("section {i}")).collect();
    let mut prev: Option<(usize, usize)> = None;
    for ordinal in 0..3usize {
        let ctx = SectionCtx {
            corpus: &corpus,
            file,
            section_label: &labels[ordinal],
            prev_section: prev.map(|(i, l)| (ids[i].as_str(), labels[l].as_str())),
            section_doc_id: &ids[ordinal],
            text: "…",
        };
        det.detect_text(&ctx, &mut out);
        prev = Some((ordinal, ordinal));
    }
    assert_eq!(out.len(), 3);
    assert_eq!(out[0].src, file.anchor_doc_id, "chain opens at the card");
    assert_eq!(text(&out[0].dst), ids[0]);
    assert_eq!(text(&out[0].quote), "section 0 opens big.md");
    assert_eq!(text(&out[1].src), ids[0]);
    assert_eq!(text(&out[1].dst), ids[1]);
    assert_eq!(text(&out[1].quote), "section 0 precedes section 1 of big.md");
    assert_eq!(text(&out[2].quote), "section 1 precedes section 2 of big.md");
    assert_eq!(out[0].offset, 0);
    assert_eq!(out[0].valid_at_ms, 7);
    assert_eq!(text(&out[0].src_format), "md");
    assert_eq!(text(&out[0].dst_format), "md");
}

#[test]
fn pdf_sections_chain_across_page_boundaries() {
    let corpus = CorpusIndex::build(vec![corpus_file("brief.pdf", "kp", "docs", "pdf", 9)]);
    let file = corpus.get("brief.pdf").unwrap();
    let det = Sequence;
    let mut out = Vec::new();
    let p1s1 = id("docs", "kp", "p1-s1");
    let p2s0 = id("docs", "kp", "p2-s0");
    let ctx = SectionCtx {
        corpus: &corpus,
        file,
        section_label: "page 2 section 0",
        prev_section: Some((p1s1.as_str(), "page 1 section 1")),
        section_doc_id: &p2s0,
        text: "…",
    };
    det.detect_text(&ctx, &mut out);
    assert_eq!(out.len(), 1);
    assert_eq!(text(&out[0].src), p1s1);
    assert_eq!(text(&out[0].dst), p2s0);
    assert_eq!(text(&out[0].quote), "page 1 section 1 precedes page 2 section 0 of brief.pdf");
    assert_eq!(text(&out[0].src_format), "pdf");
}
