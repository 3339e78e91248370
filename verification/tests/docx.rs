use xerj_autoindex::docx::{docx_document, resolve_entity, DocxText, XmlEvent};

fn open(name: &str) -> XmlEvent {
    XmlEvent::Open(name.to_string(), Vec::new())
}

fn style(val: &str) -> XmlEvent {
    XmlEvent::Open("w:pStyle".to_string(), vec![("w:val".to_string(), val.to_string())])
}

fn text(t: &str) -> XmlEvent {
    XmlEvent::Text(t.to_string())
}

fn close(name: &str) -> XmlEvent {
    XmlEvent::Close(name.to_string())
}

fn run(events: &[XmlEvent]) -> DocxText {
    let mut d = DocxText::new();
    for e in events {
        if !d.step(e) {
            break;
        }
    }
    d
}

#[test]
fn paragraphs_join_the_body_and_styled_ones_are_headings() {
    let d = run(&[
        open("w:p"),
        style("Heading1"),
        text("Overview"),
        close("w:p"),
        open("w:p"),
        text("First"),
        open("w:tab"),
        text("line"),
        open("w:br"),
        text("  "),
        close("w:p"),
        open("w:p"),
        text("   "),
        close("w:p"),
        XmlEvent::Eof,
    ]);
    assert_eq!(d.body(), "Overview\n\nFirst line");
    assert_eq!(d.headings(), vec!["Overview".to_string()]);
    assert_eq!(d.junk(), 0);
    assert_eq!(d.title(&d.body(), Some("report")), "Overview");
}

#[test]
fn a_title_style_counts_and_the_style_ends_with_its_paragraph() {
    let d = run(&[
        style("TitleBig"),
        text("Annual"),
        close("w:p"),
        text("plain"),
        close("w:p"),
        XmlEvent::Eof,
    ]);
    assert_eq!(d.headings(), vec!["Annual".to_string()]);
    assert_eq!(d.body(), "Annual\n\nplain");
}

#[test]
fn malformed_xml_is_junk_and_stops_reading() {
    let mut d = DocxText::new();
    assert!(d.step(&text("kept")));
    assert!(!d.step(&XmlEvent::Error));
    assert_eq!(d.junk(), 1);
    assert_eq!(d.body(), "", "the open paragraph never closed");
}

#[test]
fn without_headings_the_first_line_titles_the_document() {
    let d = run(&[text("  First words here  "), close("w:p"), text("more"), close("w:p")]);
    let body = d.body();
    assert_eq!(d.title(&body, Some("stem")), "First words here");
    let empty = DocxText::new();
    assert_eq!(empty.title("", Some("stem")), "stem");
    assert_eq!(empty.title("", None), "untitled");
    let long = "x".repeat(300);
    assert_eq!(empty.title(&long, None).chars().count(), 200);
}

fn chars(s: &str) -> Vec<char> {
    s.chars().collect()
}

#[test]
fn entity_references_resolve_to_their_characters() {
    assert_eq!(resolve_entity("amp"), chars("&"));
    assert_eq!(resolve_entity("lt"), chars("<"));
    assert_eq!(resolve_entity("quot"), chars("\""));
    assert_eq!(resolve_entity("#65"), chars("A"));
    assert_eq!(resolve_entity("#x263A"), chars("☺"));
    assert_eq!(resolve_entity("#xD800"), chars(""), "a surrogate is no character");
    assert_eq!(resolve_entity("#0"), chars(""));
    assert_eq!(resolve_entity("#x"), chars(""));
    assert_eq!(resolve_entity("#+65"), chars(""));
    assert_eq!(resolve_entity("#99999999999"), chars(""), "over u32");
    assert_eq!(resolve_entity("nbsp"), chars(""), "not predefined in XML");
}

#[test]
fn a_document_part_is_read_into_title_headings_and_body() {
    let xml = br#"<?xml version="1.0"?><w:document><w:body>
<w:p><w:pPr><w:pStyle w:val="Heading1"/></w:pPr><w:r><w:t>Q&amp;A</w:t></w:r></w:p>
<w:p><w:r><w:t>one</w:t><w:tab/><w:t>two &#65;</w:t></w:r></w:p>
</w:body></w:document>"#;
    let (junk, doc) = docx_document(xml, Some("report"));
    assert_eq!(junk, 0);
    let (title, headings, body) = doc.unwrap();
    assert_eq!(title, "Q&A");
    assert_eq!(headings, vec!["Q&A".to_string()]);
    assert_eq!(body, "Q&A\n\none two A");
}

#[test]
fn a_malformed_or_empty_part_is_junk() {
    let (junk, doc) = docx_document(b"<w:document><w:p><w:t>kept</w:t></w:p></w:oops>", None);
    assert_eq!(junk, 1, "the mismatched end tag");
    assert_eq!(doc.map(|d| d.2), Some("kept".to_string()));
    let (junk, doc) = docx_document(b"<w:document><w:p><w:t>  </w:t></w:p></w:document>", None);
    assert_eq!((junk, doc.is_none()), (1, true));
    let (junk, doc) = docx_document(b"<w:document><w:p", None);
    assert_eq!((junk, doc.is_none()), (2, true));
}
