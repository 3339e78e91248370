use xerj_autoindex::detect::corpus::{CorpusFile, CorpusIndex, DetectorCounters, EdgeDraft};
use xerj_autoindex::detect::cratecite::Cratecite;
use xerj_autoindex::detect::href::Href;
use xerj_autoindex::detect::mdlink::Mdlink;
use xerj_autoindex::detect::pathcite::Pathcite;
use xerj_autoindex::detect::section::SectionCtx;
use xerj_autoindex::detect::wikilink::Wikilink;

fn corpus_file(rel: &str, key: &str, dataset: &str, family: &str, mtime: i64) -> CorpusFile {
    CorpusFile::new(rel, key, dataset, family, mtime)
}

fn card(corpus: &CorpusIndex, rel: &str) -> Vec<u8> {
    corpus.get(rel).unwrap().anchor_doc_id.clone()
}

fn ctx<'a>(corpus: &'a CorpusIndex, from: &str, text: &'a str) -> SectionCtx<'a> {
    SectionCtx {
        corpus,
        file: corpus.get(from).unwrap(),
        section_label: "section 0",
        prev_section: None,
        section_doc_id: "sec0",
        text,
    }
}

// ---- mdlink ----

fn md_corpus() -> CorpusIndex {
    CorpusIndex::build(vec![
        corpus_file("docs/guide.md", "k1", "d", "txt-prose", 10),
        corpus_file("readme.md", "k2", "d", "txt-prose", 10),
    ])
}

fn md_run(corpus: &CorpusIndex, from: &str, text: &str) -> (Vec<EdgeDraft>, DetectorCounters) {
    let mut det = Mdlink::new();
    let mut out = Vec::new();
    det.detect_text(&ctx(corpus, from, text), &mut out);
    (out, det.counters())
}

#[test]
fn resolves_dir_relative_then_root_relative() {
    let corpus = md_corpus();
    let (out, c) = md_run(
        &corpus,
        "docs/guide.md",
        "see [readme](../readme.md) and [self](guide.md) and [root](docs/guide.md)",
    );
    assert_eq!(out.len(), 3);
    assert_eq!(out[0].dst, card(&corpus, "readme.md"));
    assert_eq!(out[1].dst, card(&corpus, "docs/guide.md"));
    assert_eq!(out[2].dst, card(&corpus, "docs/guide.md"));
    assert_eq!(c.unresolved, 0);
    assert_eq!(out[0].offset, 4);
}

#[test]
fn external_links_skip_and_local_misses_count() {
    let corpus = md_corpus();
    let (out, c) = md_run(
        &corpus,
        "readme.md",
        "[web](https://example.com/a.md) [mail](mailto:x@y.z) [gone](missing.md) [frag](#top)",
    );
    assert!(out.is_empty());
    assert_eq!(c.unresolved, 1, "only the local miss is dangling");
}

#[test]
fn title_and_fragment_are_stripped() {
    let corpus = md_corpus();
    let (out, _) = md_run(&corpus, "readme.md", "x [g](docs/guide.md#section \"The Guide\") y");
    assert_eq!(out.len(), 1);
    assert_eq!(out[0].dst, card(&corpus, "docs/guide.md"));
    assert_eq!(out[0].quote, b"x [g](docs/guide.md#section \"The Guide\") y".to_vec());
}

#[test]
fn wikilinks_do_not_false_positive() {
    let corpus = md_corpus();
    let (out, c) = md_run(&corpus, "readme.md", "a [[guide]] wikilink, no mdlink here");
    assert!(out.is_empty());
    assert_eq!(c.unresolved, 0);
}

// ---- wikilink ----

fn wiki_corpus() -> CorpusIndex {
    CorpusIndex::build(vec![
        corpus_file("alpha.md", "ka", "notes", "txt-prose", 1753600000000),
        corpus_file("beta.md", "kb", "notes", "txt-prose", 1753600000000),
        corpus_file("sub/beta.txt", "kc", "notes", "txt-prose", 1753600000000),
    ])
}

fn wiki_run(corpus: &CorpusIndex, text: &str) -> (Vec<EdgeDraft>, DetectorCounters) {
    let mut det = Wikilink::new();
    let mut out = Vec::new();
    det.detect_text(&ctx(corpus, "alpha.md", text), &mut out);
    (out, det.counters())
}

#[test]
fn fixture_offsets_and_targets() {
    let corpus = wiki_corpus();
    let (out, c) = wiki_run(&corpus, "Alpha is the hub note. It links to [[beta]] and [[gamma]].");
    assert_eq!(out.len(), 1);
    assert_eq!(out[0].dst, card(&corpus, "beta.md"));
    assert_eq!(out[0].offset, 35);
    assert_eq!(
        out[0].quote,
        b"Alpha is the hub note. It links to [[beta]] and [[gamma]].".to_vec()
    );
    assert_eq!(c.unresolved, 1);
    assert_eq!(
        c.ambiguous, 0,
        "exact rel-without-extension wins outright (ambiguity is a stem-table concept)"
    );
}

#[test]
fn alias_exact_rel_and_case_insensitive_stem() {
    let corpus = wiki_corpus();
    let (out, c) = wiki_run(&corpus, "see [[beta.md|the beta note]] and [[BETA]]");
    assert_eq!(out.len(), 2);
    assert_eq!(out[0].dst, card(&corpus, "beta.md"));
    assert_eq!(c.ambiguous, 1, "only the stem lookup was ambiguous");
    assert_eq!(c.unresolved, 0);
}

#[test]
fn ambiguity_is_deterministic_smallest_rel() {
    let corpus = wiki_corpus();
    let (a, _) = wiki_run(&corpus, "[[beta]]");
    let (b, _) = wiki_run(&corpus, "[[beta]]");
    assert_eq!(a[0].dst, b[0].dst);
    assert_eq!(a[0].dst, card(&corpus, "beta.md"));
}

#[test]
fn unterminated_and_empty_links_emit_nothing() {
    let corpus = wiki_corpus();
    let (out, c) = wiki_run(&corpus, "broken [[beta and empty [[]] end");
    assert!(out.is_empty());
    assert_eq!(c.unresolved, 0);
}

// ---- pathcite ----

fn path_corpus() -> CorpusIndex {
    CorpusIndex::build(vec![
        corpus_file("docs/notes.md", "k0", "d", "txt-prose", 10),
        corpus_file("engine/crates/xerj-engine/src/index.rs", "k1", "d", "txt-lines", 10),
        corpus_file("engine/crates/xerj-fts/src/index.rs", "k2", "d", "txt-lines", 10),
        corpus_file("engine/crates/xerj-fts/src/lib.rs", "k3", "d", "txt-lines", 10),
    ])
}

fn path_run(corpus: &CorpusIndex, text: &str) -> (Vec<EdgeDraft>, DetectorCounters) {
    let mut det = Pathcite::new();
    let mut out = Vec::new();
    det.detect_text(&ctx(corpus, "docs/notes.md", text), &mut out);
    (out, det.counters())
}

#[test]
fn exact_and_suffix_paths_resolve_with_line_stripped() {
    let corpus = path_corpus();
    let (out, c) = path_run(
        &corpus,
        "See engine/crates/xerj-fts/src/lib.rs:42 and xerj-engine/src/index.rs for details.",
    );
    assert_eq!(out.len(), 2);
    assert_eq!(out[0].dst, card(&corpus, "engine/crates/xerj-fts/src/lib.rs"));
    assert_eq!(out[0].offset, 4);
    assert_eq!(
        out[1].dst,
        card(&corpus, "engine/crates/xerj-engine/src/index.rs"),
        "multi-segment suffix match"
    );
    assert_eq!(out[0].src_format, b"md".to_vec());
    assert_eq!(out[0].dst_format, b"rs".to_vec());
    assert_eq!(c.unresolved, 0);
    assert_eq!(c.ambiguous, 0);
}

#[test]
fn bare_filenames_are_refused_and_counted_never_guessed() {
    let corpus = path_corpus();
    let (out, c) = path_run(&corpus, "open index.rs then lib.rs");
    assert!(out.is_empty());
    assert_eq!(c.ambiguous, 2);
    assert_eq!(c.unresolved, 0);
}

#[test]
fn ambiguous_suffix_takes_smallest_rel_and_counts() {
    let corpus = path_corpus();
    let (out, c) = path_run(&corpus, "grep src/index.rs for the loop");
    assert_eq!(out.len(), 1);
    assert_eq!(
        out[0].dst,
        card(&corpus, "engine/crates/xerj-engine/src/index.rs"),
        "lexicographically smallest rel wins deterministically"
    );
    assert_eq!(c.ambiguous, 1);
}

#[test]
fn dangling_multi_segment_counts_and_prose_noise_is_ignored() {
    let corpus = path_corpus();
    let (out, c) = path_run(
        &corpus,
        "e.g. version 1.2.3 at https://example.com/missing/file.md — gone/nowhere.rs too",
    );
    assert!(out.is_empty());
    assert_eq!(c.unresolved, 2);
    assert_eq!(c.ambiguous, 0);
}

#[test]
fn self_citations_emit_nothing() {
    let corpus = path_corpus();
    let (out, c) = path_run(&corpus, "this file is docs/notes.md in the tree");
    assert!(out.is_empty());
    assert_eq!(c.unresolved, 0);
    assert_eq!(c.ambiguous, 0);
}

#[test]
fn leading_dot_and_slash_prefixes_resolve() {
    let corpus = path_corpus();
    let (out, _) = path_run(&corpus, "run ./engine/crates/xerj-fts/src/lib.rs first");
    assert_eq!(out.len(), 1);
    assert_eq!(out[0].offset, 6, "offset points at the path, not the ./");
}

// ---- cratecite ----

fn crate_corpus() -> CorpusIndex {
    CorpusIndex::build(vec![
        corpus_file("gtm/brief.pdf", "k0", "d", "pdf", 10),
        corpus_file("engine/crates/xerj-fts/Cargo.toml", "k1", "d", "txt-lines", 10),
        corpus_file("engine/crates/xerj-engine/Cargo.toml", "k2", "d", "txt-lines", 10),
        corpus_file("engine/Cargo.toml", "k3", "d", "txt-lines", 10),
    ])
}

fn crate_run(corpus: &CorpusIndex, text: &str) -> (Vec<EdgeDraft>, DetectorCounters) {
    let mut det = Cratecite::new();
    let mut out = Vec::new();
    let c = SectionCtx {
        corpus,
        file: corpus.get("gtm/brief.pdf").unwrap(),
        section_label: "page 1 section 0",
        prev_section: None,
        section_doc_id: "sec0",
        text,
    };
    det.detect_text(&c, &mut out);
    (out, det.counters())
}

#[test]
fn prose_mention_links_the_crates_cargo_toml_card() {
    let corpus = crate_corpus();
    let (out, c) = crate_run(&corpus, "Ranking is classic BM25 (xerj-fts) under the hood.");
    assert_eq!(out.len(), 1);
    assert_eq!(out[0].dst, card(&corpus, "engine/crates/xerj-fts/Cargo.toml"));
    assert_eq!(out[0].quote, b"Ranking is classic BM25 (xerj-fts) under the hood.".to_vec());
    assert_eq!(out[0].offset, 25);
    assert_eq!(out[0].src_format, b"pdf".to_vec());
    assert_eq!(out[0].dst_format, b"toml".to_vec());
    assert_eq!(c.ambiguous, 0);
}

#[test]
fn word_boundaries_exclude_longer_names_and_path_contexts() {
    let corpus = crate_corpus();
    let (out, _) = crate_run(
        &corpus,
        "xerj-fts-extra is not it; engine/crates/xerj-fts/src/lib.rs is a path; xerj-fts wins",
    );
    assert_eq!(out.len(), 1, "only the standalone whole-word mention");
    assert_eq!(out[0].offset, 71);
}

#[test]
fn single_word_crate_dirs_are_not_citable() {
    let corpus = crate_corpus();
    let (out, _) = crate_run(&corpus, "the engine restarts nightly");
    assert!(out.is_empty());
    let names = xerj_autoindex::detect::cratecite::crate_table(&corpus);
    assert!(names.iter().any(|n| n.as_slice() == b"engine"));
}

#[test]
fn multiple_mentions_each_emit() {
    let corpus = crate_corpus();
    let (out, _) = crate_run(&corpus, "xerj-fts feeds xerj-engine.\nxerj-fts again.");
    assert_eq!(out.len(), 3);
}

// ---- href ----

fn href_corpus() -> CorpusIndex {
    CorpusIndex::build(vec![
        corpus_file("site/index.html", "k1", "d", "html", 10),
        corpus_file("site/about.html", "k2", "d", "html", 10),
        corpus_file("notes.md", "k3", "d", "txt-prose", 10),
    ])
}

#[test]
fn raw_pass_resolves_relative_and_counts_misses() {
    let corpus = href_corpus();
    let mut det = Href::new();
    let mut out = Vec::new();
    det.detect_raw_html(
        &corpus,
        corpus.get("site/index.html").unwrap(),
        "<p><A HREF='about.html'>about</A> <a class=\"x\" href=\"https://e.co\">ext</a>\n\
         <a href=gone.html>miss</a></p>",
        &mut out,
    );
    assert_eq!(out.len(), 1);
    assert_eq!(out[0].dst, card(&corpus, "site/about.html"));
    assert_eq!(out[0].src, card(&corpus, "site/index.html"));
    assert_eq!(out[0].offset, 0, "raw pass lost byte positions by contract");
    assert!(String::from_utf8(out[0].quote.clone()).unwrap().contains("about"));
    assert_eq!(det.counters().unresolved, 1);
}

#[test]
fn non_html_families_are_out_of_scope() {
    let corpus = href_corpus();
    let mut det = Href::new();
    let mut out = Vec::new();
    det.detect_raw_html(
        &corpus,
        corpus.get("notes.md").unwrap(),
        "<a href=\"site/about.html\">x</a>",
        &mut out,
    );
    let c = ctx(&corpus, "notes.md", "<a href=\"site/about.html\">x</a>");
    det.detect_text(&c, &mut out);
    assert!(out.is_empty());
    assert_eq!(det.counters().unresolved, 0);
}

#[test]
fn section_text_pass_keeps_real_offsets() {
    let corpus = href_corpus();
    let mut det = Href::new();
    let text = "escaped <a href=\"about.html\">about</a> anchor";
    let c = ctx(&corpus, "site/index.html", text);
    let mut out = Vec::new();
    det.detect_text(&c, &mut out);
    assert_eq!(out.len(), 1);
    assert_eq!(out[0].src, b"sec0".to_vec());
    assert_eq!(out[0].offset, 17, "offset of the href VALUE start");
    assert_eq!(&text[17..27], "about.html");
}
