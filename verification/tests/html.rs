use xerj_autoindex::html::{
    column_field, decode_entities_exec, document_title, dominant_table, header_field_names,
    looks_like_header, parse, squeeze_exec, table_rows, HtmlDoc,
};

fn s(v: &[u8]) -> String {
    String::from_utf8(v.to_vec()).unwrap()
}

fn body(doc: &HtmlDoc) -> String {
    s(&doc.body)
}

fn table_html(header: Option<[&str; 2]>, data_rows: usize) -> String {
    let mut h = String::from("<html><body><table>");
    if let Some([a, b]) = header {
        h.push_str(&format!("<tr><th>{a}</th><th>{b}</th></tr>"));
    }
    for i in 1..=data_rows {
        h.push_str(&format!("<tr><td>item{i}</td><td>{i}</td></tr>"));
    }
    h.push_str("</table></body></html>");
    h
}

/// The records of the dominant table as (locator row, [(column, cell)]).
fn records(doc: &HtmlDoc) -> Vec<(usize, Vec<(usize, String)>)> {
    let (i, th) = dominant_table(doc).expect("a dominant table");
    let rows = &doc.tables[i];
    let header = th || looks_like_header(&rows[0]);
    table_rows(rows, header)
        .into_iter()
        .map(|(r, f)| (r, f.into_iter().map(|(c, v)| (c, s(&v))).collect()))
        .collect()
}

#[test]
fn a_prose_page_becomes_one_document_of_title_headings_and_tag_free_body() {
    let doc = parse(
        "<html><head><title>Quarterly Report</title></head><body>\
         <h1>Revenue</h1><p>Growth was steady.</p>\
         <h2>Costs</h2><div>Cloud costs declined.</div></body></html>",
    );
    assert!(dominant_table(&doc).is_none());
    assert_eq!(s(&document_title(&doc, b"page")), "Quarterly Report");
    let headings: Vec<String> = doc.headings.iter().map(|h| s(h)).collect();
    assert_eq!(headings, ["Revenue", "Costs"]);
    let b = body(&doc);
    assert!(b.contains("Growth was steady."));
    assert!(b.contains("Cloud costs declined."));
    assert!(!b.contains('<') && !b.contains("div"), "markup leaked into the body: {b:?}");
}

#[test]
fn attributes_and_comments_never_reach_the_body() {
    let doc = parse(
        "<html><body><p class=\"lede\">visible</p><!-- hidden note -->\
         <a href=\"https://example.com/hidden-path\" title=\"hidden title\">link text</a>\
         </body></html>",
    );
    let b = body(&doc);
    assert!(b.contains("visible") && b.contains("link text"));
    assert!(
        !b.contains("hidden") && !b.contains("class") && !b.contains("href"),
        "attribute or comment text was indexed: {b:?}"
    );
}

#[test]
fn character_entities_are_unescaped_in_the_title_and_the_body() {
    let doc = parse(
        "<html><head><title>Q4 &amp; FY</title></head><body>\
         <p>5 &lt; 10 &gt; 2, &quot;quoted&quot; &amp; &#39;single&#39;&nbsp;spaced</p>\
         </body></html>",
    );
    assert_eq!(s(&document_title(&doc, b"ents")), "Q4 & FY");
    let b = body(&doc);
    assert!(b.contains("5 < 10 > 2"), "{b:?}");
    assert!(b.contains("\"quoted\" & 'single' spaced"), "{b:?}");
    assert!(!b.contains("&amp;") && !b.contains("&lt;"));
}

#[test]
fn script_and_style_text_still_reaches_the_body() {
    let doc = parse(
        "<html><head><style>.lede{color:#fff}</style>\
         <script>var token=1;</script></head><body><p>visible</p></body></html>",
    );
    let b = body(&doc);
    assert!(b.contains("visible"));
    assert!(
        b.contains(".lede{color:#fff}") && b.contains("var token=1;"),
        "script/style suppression now works — flip this assertion: {b:?}"
    );
}

#[test]
fn a_dominant_table_becomes_one_record_per_row_named_from_its_header_cells() {
    let doc = parse(&table_html(Some(["Product Name", "Qty"]), 5));
    assert_eq!(dominant_table(&doc), Some((0, true)));
    let recs = records(&doc);
    assert_eq!(recs.len(), 5);
    assert_eq!(recs[0].1, vec![(0, "item1".to_string()), (1, "1".to_string())]);
    assert_eq!(recs[4].1[0].1, "item5");
    assert!(recs.iter().all(|r| r.1.len() == 2), "the header row must not become a record");
    let locs: Vec<usize> = recs.iter().map(|r| r.0).collect();
    assert_eq!(locs, [1, 2, 3, 4, 5]);
    let header: Vec<String> = doc.tables[0][0].iter().map(|c| s(c)).collect();
    assert_eq!(header, ["Product Name", "Qty"]);
}

#[test]
fn a_headerless_table_gets_positional_column_names_and_keeps_its_first_row() {
    let doc = parse(&table_html(None, 6));
    assert_eq!(dominant_table(&doc), Some((0, false)));
    assert!(!looks_like_header(&doc.tables[0][0]), "a numeric cell is not a header");
    let recs = records(&doc);
    assert_eq!(recs.len(), 6, "no header row means no row is consumed");
    assert_eq!(recs[0].0, 0);
    assert_eq!(recs[0].1, vec![(0, "item1".to_string()), (1, "1".to_string())]);
}

#[test]
fn empty_cells_are_omitted_rather_than_indexed_as_blank_values() {
    let mut h = String::from("<html><body><table><tr><th>A &amp; B</th><th>Note</th></tr>");
    for i in 1..=5 {
        h.push_str(&format!("<tr><td>x&lt;{i}</td><td>  </td></tr>"));
    }
    h.push_str("</table></body></html>");
    let doc = parse(&h);
    assert_eq!(s(&doc.tables[0][0][0]), "A & B");
    let recs = records(&doc);
    assert_eq!(recs.len(), 5);
    assert_eq!(recs[0].1, vec![(0, "x<1".to_string())], "the blank Note cell must not be stored");
}

#[test]
fn a_table_below_the_dominance_threshold_leaves_its_cells_unindexed() {
    let doc = parse(
        "<html><body><h1>Head</h1><p>prose</p>\
         <table><tr><td>cellA</td><td>cellB</td></tr></table>\
         <p>after</p></body></html>",
    );
    assert!(dominant_table(&doc).is_none(), "falls back to the document record");
    let b = body(&doc);
    assert!(b.contains("prose") && b.contains("after"));
    assert!(
        !b.contains("cellA") && !b.contains("cellB"),
        "small-table cells are now indexed — flip this assertion: {b:?}"
    );
}

#[test]
fn a_page_without_a_title_falls_back_to_a_heading_then_to_the_file_stem() {
    let doc = parse("<html><body><h2>Only Heading</h2><p>x</p></body></html>");
    assert_eq!(s(&document_title(&doc, b"fallback")), "Only Heading");
    let doc = parse("<html><body><p>x</p></body></html>");
    assert_eq!(s(&document_title(&doc, b"stem-name")), "stem-name");
    assert!(doc.headings.is_empty());
}

#[test]
fn unclosed_and_nonsense_markup_is_never_fatal() {
    let doc = parse("<<<>>> <div class=\"unclosed <p>dangling &amp; text <script>x=1;");
    assert_eq!(s(&document_title(&doc, b"junk")), "junk");
    let doc = parse("");
    assert_eq!(body(&doc), "");
}

// ---- further cases ----

#[test]
fn white_space_collapses_to_single_spaces_including_unicode_space() {
    assert_eq!(s(&squeeze_exec("  a \t b\u{00a0}\u{3000}c  ".as_bytes())), "a b c");
    assert_eq!(s(&squeeze_exec(b"   ")), "");
}

#[test]
fn entities_unescape_once_in_order() {
    assert_eq!(s(&decode_entities_exec(b"&amp;lt; &apos;&nbsp;&#39;")), "< ' '");
    assert_eq!(s(&decode_entities_exec(b"no entities")), "no entities");
}

#[test]
fn a_heading_ends_with_a_blank_line_and_block_tags_break_lines() {
    let doc = parse("<h1>Top</h1>one<br>two<p>three</p>");
    assert_eq!(body(&doc), "Top\n\none \ntwo \nthree \n");
}

#[test]
fn a_th_header_row_is_flagged_and_cells_keep_their_text() {
    let doc = parse("<table><tr><th>a</th><th>b</th></tr><tr><td>1</td><td>2</td></tr></table>");
    assert_eq!(doc.header_cells, vec![vec![true]]);
    assert_eq!(doc.tables.len(), 1);
    assert_eq!(doc.tables[0].len(), 2);
    assert_eq!(s(&doc.tables[0][1][1]), "2");
}

#[test]
fn the_wider_qualifying_table_wins_and_ties_keep_the_first() {
    let t5 = table_html(None, 5);
    let t7 = table_html(None, 7);
    let doc = parse(&format!("{t5}{t7}{t7}"));
    assert_eq!(dominant_table(&doc), Some((1, false)));
}

#[test]
fn the_page_rule_names_the_header_and_drops_its_row() {
    use_page_table();
}

fn use_page_table() {
    let doc = parse(&table_html(Some(["name", "qty"]), 5));
    let (i, header, recs) = xerj_autoindex::html::page_table(&doc).expect("a table page");
    assert_eq!((i, header), (0, true));
    assert_eq!(recs.len(), 5);
    assert_eq!(recs[0].0, 1);
    assert_eq!(s(&recs[0].1[0].1), "item1");
    // A headerless table keeps its first row.
    let doc = parse(&table_html(None, 5));
    let (_, header, recs) = xerj_autoindex::html::page_table(&doc).expect("a table page");
    assert!(!header);
    assert_eq!(recs[0].0, 0);
    // Prose is one document.
    let doc = parse("<html><head><title>T</title></head><body><p>text</p></body></html>");
    assert!(xerj_autoindex::html::page_table(&doc).is_none());
}

fn owned(v: &[&str]) -> Vec<String> {
    v.iter().map(|x| x.to_string()).collect()
}

#[test]
fn columns_are_named_after_the_header_or_numbered_and_repeats_get_a_suffix() {
    let names = header_field_names(true, &owned(&["name", "qty", "name", "name", "name2"]));
    assert_eq!(names, owned(&["name", "qty", "name2", "name22", "name222"]));
    let numbered = header_field_names(false, &owned(&["x", "y", "z"]));
    assert_eq!(numbered, owned(&["col_1", "col_2", "col_3"]));
    assert_eq!(column_field(&numbered, 1), "col_2");
    assert_eq!(column_field(&numbered, 11), "col_12");
    assert_eq!(header_field_names(true, &Vec::new()), Vec::<String>::new());
}
