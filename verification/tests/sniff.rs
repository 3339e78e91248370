use xerj_autoindex::sniff::{decode_text, txt_kind, Family, WINDOWS_1252_LOSSY};

fn kind(text: &str) -> Family {
    let nonblank: Vec<&str> = text.lines().filter(|l| !l.trim().is_empty()).collect();
    txt_kind(&nonblank)
}

#[test]
fn markdown_with_headings_is_prose() {
    let md = "# Postmortem: checkout outage, 14 June 2026\n\n\
              ## Impact\n\
              Checkout was unavailable for 51 minutes.\n\n\
              ## Root cause\n\
              The payment gateway TLS certificate expired.\n\n\
              ## Resolution\n\
              We reloaded the service and added an alert.\n";
    assert_eq!(kind(md), Family::TxtProse);
}

#[test]
fn short_runbook_is_still_prose() {
    let md = "# Database runbook\n\n\
              ## Failover\n\
              Promote the standby with pg_ctl promote.\n\n\
              ## Pool exhaustion\n\
              Symptoms are rising p99 and pool errors in the logs.\n";
    assert_eq!(kind(md), Family::TxtProse);
}

#[test]
fn source_code_stays_line_records() {
    let code = "pub struct Pool { max: usize, in_use: usize }\n\
                impl Pool {\n\
                pub fn acquire(&mut self) -> Result<Conn, PoolError> {\n\
                if self.in_use >= self.max { return Err(PoolError::Exhausted); }\n\
                self.in_use += 1;\n\
                Ok(Conn::new())\n\
                }\n\
                }\n\
                fn helper() -> u32 { 42 }\n\
                const LIMIT: usize = 10;\n";
    assert_eq!(kind(code), Family::TxtLines);
}

#[test]
fn long_lines_are_prose_regardless_of_punctuation() {
    let t = (0..10).map(|_| "x".repeat(120)).collect::<Vec<_>>().join("\n");
    assert_eq!(kind(&t), Family::TxtProse);
}

#[test]
fn a_heading_with_wiki_links_rescues_hard_wrapped_prose() {
    let md = "# Hydration\n\
              water as a percentage of flour weight, the core of\n\
              [[baker-percentages]] and a tight sandwich loaf\n\
              where open crumb lives and the dough demands skill\n\
              looser dough, longer bulk, bigger holes and the single\n\
              most consequential number in the formula\n\
              more words here without an ending mark\n";
    assert_eq!(kind(md), Family::TxtProse);
    let sh = "#!/usr/bin/env bash\nset -euo pipefail\nfor f in a b c; do\necho one\necho two\necho three\ndone\n";
    assert_eq!(kind(sh), Family::TxtLines);
    assert_eq!(kind(""), Family::TxtLines);
}

#[test]
fn family_names_and_document_families() {
    assert_eq!(Family::TxtProse.as_str(), "txt-prose");
    assert_eq!(Family::UnityMeta.as_str(), "unity-meta");
    assert_eq!(Family::SqlDump.as_str(), "sqldump");
    assert!(Family::Pdf.is_document() && Family::Docx.is_document() && Family::TxtProse.is_document());
    assert!(!Family::TxtLines.is_document() && !Family::Html.is_document());
}

#[test]
fn decoding_tolerates_a_cut_character_and_falls_back_otherwise() {
    assert_eq!(decode_text("héllo".as_bytes()), ("héllo".to_string(), "utf-8"));
    let cut = &"héllo wörld €".as_bytes()[.."héllo wörld €".len() - 1];
    assert_eq!(decode_text(cut), ("héllo wörld ".to_string(), "utf-8"));
    let latin1 = b"caf\xe9 cr\xe8me br\xfbl\xe9e for everyone";
    let (text, label) = decode_text(latin1);
    assert_eq!(label, WINDOWS_1252_LOSSY);
    assert_eq!(text, "café crème brûlée for everyone");
}

#[test]
fn valid_utf8_decodes_unchanged_and_a_cut_last_character_is_dropped() {
    let text = "héllo wörld — 20 € 🍞";
    let (t, label) = decode_text(text.as_bytes());
    assert_eq!((t.as_str(), label), (text, "utf-8"));
    let bytes = text.as_bytes();
    let cut = &bytes[..bytes.len() - 2];
    let (t, label) = decode_text(cut);
    assert_eq!((t.as_str(), label), ("héllo wörld — 20 € ", "utf-8"));
}
