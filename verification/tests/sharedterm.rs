use std::collections::BTreeMap;
use xerj_autoindex::detect::corpus::{CorpusFile, CorpusIndex, DetectorCounters, EdgeDraft};
use xerj_autoindex::detect::section::SectionCtx;
use xerj_autoindex::detect::sharedterm::{
    count_terms, is_stopword, SharedTerm, CONFIDENCE, EDGE_TYPE, MAX_EDGES_PER_DOC, STOPWORDS,
    WEIGHT,
};
use xerj_autoindex::detect::termgraph::evidence;
use xerj_autoindex::detect::termlinks::families_exec;

fn quote(e: &EdgeDraft) -> String {
    String::from_utf8(e.quote.clone()).unwrap()
}

fn src_file(e: &EdgeDraft) -> String {
    String::from_utf8(e.src_file.clone()).unwrap()
}

/// Feed a whole corpus through the detector: `docs` is (rel, body).
fn run(docs: &[(&str, &str)]) -> (Vec<EdgeDraft>, DetectorCounters) {
    let files: Vec<CorpusFile> = docs
        .iter()
        .enumerate()
        .map(|(i, (rel, _))| CorpusFile::new(rel, &format!("k{i}"), "notes", "txt-prose", 100))
        .collect();
    let corpus = CorpusIndex::build(files);
    let mut det = SharedTerm::new();
    let mut out = Vec::new();
    for (rel, body) in docs {
        let section = format!("sec-{rel}");
        let ctx = SectionCtx {
            corpus: &corpus,
            file: corpus.get(rel).unwrap(),
            section_label: "section 0",
            prev_section: None,
            section_doc_id: &section,
            text: body,
        };
        det.detect_text(&ctx, &mut out);
    }
    assert!(out.is_empty(), "detect_text emits nothing on its own");
    det.detect_corpus(&corpus, &mut out);
    (out, det.counters())
}

/// Filler documents so document frequency has something to measure: each
/// carries the same everyday words and one word of its own.
fn filler(n: usize) -> Vec<(String, String)> {
    (0..n)
        .map(|i| {
            (
                format!("filler{i:02}.md"),
                format!("The data and the notes were filed. Item unique{i:02} was recorded."),
            )
        })
        .collect()
}

fn with_filler(docs: &[(&str, &str)], n: usize) -> (Vec<EdgeDraft>, DetectorCounters) {
    let fill = filler(n);
    let mut all: Vec<(&str, &str)> = docs.to_vec();
    all.extend(fill.iter().map(|(r, b)| (r.as_str(), b.as_str())));
    run(&all)
}

fn families(terms: &[&str]) -> usize {
    let v: Vec<Vec<u8>> = terms.iter().map(|t| t.as_bytes().to_vec()).collect();
    families_exec(&v)
}

fn count(counts: &[(Vec<u8>, u64)], term: &str) -> Option<u64> {
    counts.iter().find(|(t, _)| t.as_slice() == term.as_bytes()).map(|(_, n)| *n)
}

#[test]
fn documents_sharing_distinctive_terms_are_linked_with_the_terms_as_evidence() {
    let (out, _) = with_filler(
        &[
            (
                "sourdough.md",
                "The starter ferments overnight. Lactobacillus and wild yeast \
                 do the work; the data on hydration is in the notes.",
            ),
            (
                "kimchi.md",
                "Cabbage ferments in brine. Lactobacillus again, and the data \
                 says three days.",
            ),
        ],
        10,
    );
    let edge: Vec<&EdgeDraft> = out
        .iter()
        .filter(|e| src_file(e) == "kimchi.md" || src_file(e) == "sourdough.md")
        .collect();
    assert_eq!(edge.len(), 1, "exactly one link between the two recipes");
    let e = edge[0];
    assert_eq!(e.edge_type, EDGE_TYPE);
    assert_eq!(e.weight, WEIGHT);
    assert_eq!(e.confidence, CONFIDENCE);
    assert_eq!(src_file(e), "kimchi.md", "src is the rel-smaller endpoint");
    assert!(
        quote(e).contains("lactobacillus") && quote(e).contains("ferments"),
        "the shared terms must travel with the edge: {}",
        quote(e)
    );
    assert_eq!(
        quote(e),
        "2 distinctive terms in common: ferments, lactobacillus — kimchi.md and sourdough.md",
        "terms lead the rationale so clipping can never eat the evidence"
    );
    assert!(!quote(e).contains("data"), "{}", quote(e));
}

#[test]
fn documents_sharing_only_common_words_get_no_edge() {
    let (out, _) = with_filler(
        &[
            ("left.md", "The data and the notes were filed."),
            ("right.md", "The notes and the data were filed."),
        ],
        10,
    );
    assert!(
        out.iter()
            .all(|e| src_file(e) != "left.md" && src_file(e) != "right.md"),
        "common words linked two unrelated notes: {:?}",
        out.iter().map(quote).collect::<Vec<_>>()
    );
}

#[test]
fn per_document_cap_is_enforced_and_the_drop_is_counted() {
    let mut docs: Vec<(String, String)> = (0..10)
        .map(|i| {
            (
                format!("clique{i:02}.md"),
                "Fermentation, lactobacillus, brine, cabbage, hydration, sourdough.".to_string(),
            )
        })
        .collect();
    docs.extend(filler(90));
    let refs: Vec<(&str, &str)> = docs.iter().map(|(r, b)| (r.as_str(), b.as_str())).collect();
    let (out, counters) = run(&refs);
    let mut degree: BTreeMap<String, usize> = BTreeMap::new();
    for e in &out {
        let q = quote(e);
        let ends = q.rsplit_once(" — ").expect("quote names both ends").1;
        let (a, b) = ends.split_once(" and ").expect("two documents");
        *degree.entry(a.to_string()).or_default() += 1;
        *degree.entry(b.to_string()).or_default() += 1;
    }
    assert!(
        degree.values().all(|d| *d <= MAX_EDGES_PER_DOC),
        "a document exceeded the cap: {degree:?}"
    );
    assert!(out.len() < 45, "the clique must not be drawn: {}", out.len());
    assert!(
        degree.len() == 10,
        "the cap must not leave a document isolated: {degree:?}"
    );
    assert!(
        counters.capped > 0,
        "pairs the cap refused must be counted, not silently dropped"
    );
    assert_eq!(
        out.len() as u64 + counters.capped,
        45,
        "every candidate pair is either drawn or counted as capped"
    );
}

#[test]
fn output_is_deterministic_across_runs() {
    let docs = &[
        (
            "a.md",
            "Fermentation and lactobacillus in brine; hydration matters.",
        ),
        ("b.md", "Brine, lactobacillus, cabbage, and fermentation."),
        ("c.md", "Hydration and fermentation of the starter."),
        (
            "d.md",
            "Entirely unrelated: astronomy, telescopes, parallax.",
        ),
        ("e.md", "Astronomy, parallax, and telescopes again."),
    ];
    let (first, _) = with_filler(docs, 10);
    let (second, _) = with_filler(docs, 10);
    let shape = |v: &[EdgeDraft]| -> Vec<(Vec<u8>, Vec<u8>, Vec<u8>)> {
        v.iter()
            .map(|e| (e.src.clone(), e.dst.clone(), e.quote.clone()))
            .collect()
    };
    assert!(!first.is_empty(), "the fixture must produce edges");
    assert_eq!(shape(&first), shape(&second));
}

#[test]
fn corpus_wide_jargon_is_not_distinctive() {
    let mut docs: Vec<(String, String)> = (0..20)
        .map(|i| {
            (
                format!("paper{i:02}.md"),
                format!("This model was trained. Benchmark result {i:02} follows."),
            )
        })
        .collect();
    docs.push((
        "extra-a.md".into(),
        "This model was trained on a benchmark.".into(),
    ));
    docs.push((
        "extra-b.md".into(),
        "A benchmark for a trained model.".into(),
    ));
    let refs: Vec<(&str, &str)> = docs.iter().map(|(r, b)| (r.as_str(), b.as_str())).collect();
    let (out, _) = run(&refs);
    assert!(
        out.is_empty(),
        "'model'/'benchmark'/'trained' are in every document: {:?}",
        out.iter().map(quote).collect::<Vec<_>>()
    );
}

#[test]
fn a_single_document_emits_nothing() {
    let (out, _) = run(&[("only.md", "Fermentation, lactobacillus, brine.")]);
    assert!(out.is_empty());
}

#[test]
fn a_corpus_too_small_for_distinctiveness_emits_nothing() {
    let (out, counters) = run(&[
        ("a.md", "Fermentation, lactobacillus, brine."),
        ("b.md", "Lactobacillus and brine again, fermentation."),
        ("c.md", "Unrelated: astronomy and parallax."),
        ("d.md", "Astronomy, parallax, telescopes."),
        ("e.md", "Nothing in common with anything."),
    ]);
    assert!(out.is_empty(), "{:?}", out.len());
    assert_eq!(
        counters.capped, 0,
        "nothing was refused by a budget — there were no candidates"
    );
}

#[test]
fn singular_and_plural_are_one_word_not_two() {
    assert_eq!(families(&["trajectory", "trajectories"]), 1);
    assert_eq!(families(&["bid", "bids"]), 1);
    assert_eq!(families(&["recommender", "recommendations"]), 1);
    assert_eq!(families(&["player", "games"]), 2);
    assert_eq!(families(&["uav", "uavs", "trajectory"]), 2);
    let (out, _) = with_filler(
        &[
            ("one.md", "Trajectory planning. The trajectories matter."),
            ("two.md", "Trajectories and trajectory alike."),
        ],
        10,
    );
    assert!(
        out.iter()
            .all(|e| !quote(e).contains("one.md") && !quote(e).contains("two.md")),
        "one word in two spellings is not two shared terms: {:?}",
        out.iter().map(quote).collect::<Vec<_>>()
    );
}

#[test]
fn stopword_list_is_sorted_for_binary_search() {
    let mut sorted = STOPWORDS.to_vec();
    sorted.sort_unstable();
    assert_eq!(sorted, STOPWORDS.to_vec());
    assert!(is_stopword(b"the") && is_stopword(b"and") && !is_stopword(b"ferment"));
}

#[test]
fn tokenizer_keeps_words_and_drops_numbers_and_noise() {
    let counts = count_terms("The starter, 2026, ferments; ferments again — Lactobacillus.");
    assert_eq!(count(&counts, "ferments"), Some(2));
    assert_eq!(count(&counts, "lactobacillus"), Some(1), "lowercased");
    assert_eq!(count(&counts, "the"), None, "stopword");
    assert_eq!(count(&counts, "2026"), None, "pure number");
}

// ---- further cases ----

#[test]
fn evidence_names_at_most_twelve_terms_and_counts_them_all() {
    let shared: Vec<Vec<u8>> = (0..14).map(|i| format!("term{i:02}").into_bytes()).collect();
    let q = String::from_utf8(evidence(b"a.md", b"b.md", &shared)).unwrap();
    assert!(q.starts_with("14 distinctive terms in common: term00, term01, "), "{q}");
    assert!(q.contains("term11 — a.md and b.md"), "{q}");
    assert!(!q.contains("term12"), "{q}");
}

#[test]
fn evidence_of_one_term_is_singular_and_repeats_fold() {
    let shared: Vec<Vec<u8>> = vec![b"brine".to_vec(), b"brine".to_vec()];
    let q = String::from_utf8(evidence(b"x.md", b"y.md", &shared)).unwrap();
    assert_eq!(q, "1 distinctive term in common: brine — x.md and y.md");
}

#[test]
fn evidence_is_clipped_to_the_quote_length() {
    let long = "p".repeat(300);
    let shared: Vec<Vec<u8>> = vec![b"brine".to_vec(), b"cabbage".to_vec()];
    let q = String::from_utf8(evidence(long.as_bytes(), b"y.md", &shared)).unwrap();
    assert_eq!(q.chars().count(), 240);
    assert!(q.starts_with("2 distinctive terms in common: brine, cabbage — ppp"));
}

#[test]
fn a_second_corpus_pass_starts_from_nothing() {
    let files = vec![CorpusFile::new("a.md", "k", "notes", "txt-prose", 1)];
    let corpus = CorpusIndex::build(files);
    let mut det = SharedTerm::new();
    let mut out = Vec::new();
    det.detect_corpus(&corpus, &mut out);
    det.detect_corpus(&corpus, &mut out);
    assert!(out.is_empty());
    assert_eq!(det.counters().capped, 0);
}

#[test]
fn terms_beyond_ascii_are_kept_as_their_utf8_bytes() {
    let counts = count_terms("Café crème, café; ÉTÉ 🍞bread");
    assert_eq!(count(&counts, "café"), Some(2));
    assert_eq!(count(&counts, "crème"), Some(1));
    assert_eq!(count(&counts, "été"), Some(1));
    assert!(counts.iter().any(|(t, _)| t.as_slice() == "crème".as_bytes()));
}

/// Feed sections (rel, text) in the order given, then judge the corpus.
fn run_sections(rels: &[&str], sections: &[(&str, &str)]) -> (Vec<String>, DetectorCounters) {
    let files: Vec<CorpusFile> = rels
        .iter()
        .enumerate()
        .map(|(i, rel)| CorpusFile::new(rel, &format!("k{i}"), "notes", "txt-prose", 100))
        .collect();
    let corpus = CorpusIndex::build(files);
    let mut det = SharedTerm::new();
    let mut out = Vec::new();
    for (k, (rel, text)) in sections.iter().enumerate() {
        let section = format!("sec-{rel}-{k}");
        let ctx = SectionCtx {
            corpus: &corpus,
            file: corpus.get(rel).unwrap(),
            section_label: "section",
            prev_section: None,
            section_doc_id: &section,
            text,
        };
        det.detect_text(&ctx, &mut out);
    }
    det.detect_corpus(&corpus, &mut out);
    let edges = out
        .iter()
        .map(|e| {
            format!(
                "{}|{}|{}|{}|{}|{}|{}",
                String::from_utf8_lossy(&e.src),
                String::from_utf8_lossy(&e.dst),
                src_file(e),
                quote(e),
                e.weight,
                e.confidence,
                e.offset
            )
        })
        .collect();
    (edges, det.counters())
}

#[test]
fn interleaving_the_files_sections_changes_nothing() {
    let fill = filler(10);
    let mut rels: Vec<&str> = vec!["a.md", "b.md"];
    rels.extend(fill.iter().map(|(r, _)| r.as_str()));
    let a = [
        ("a.md", "The starter ferments overnight."),
        ("a.md", "Lactobacillus and wild yeast do the work; the data on hydration is in the notes."),
    ];
    let b = [
        ("b.md", "Cabbage ferments in brine."),
        ("b.md", "Lactobacillus again, and the data says three days."),
    ];
    let fillers: Vec<(&str, &str)> = fill.iter().map(|(r, t)| (r.as_str(), t.as_str())).collect();
    let mut one: Vec<(&str, &str)> = vec![a[0], a[1], b[0], b[1]];
    one.extend(fillers.iter().cloned());
    let mut two: Vec<(&str, &str)> = fillers.iter().rev().cloned().collect();
    two.extend([b[0], a[0], b[1], a[1]]);
    let (e1, c1) = run_sections(&rels, &one);
    let (e2, c2) = run_sections(&rels, &two);
    assert!(!e1.is_empty(), "the two documents share distinctive terms");
    assert_eq!(e1, e2);
    assert_eq!(c1.capped, c2.capped);
}
