use refextract::collect::{collect_references, normalize_for_dedup, refs_overlap, split_into_references, ZonedBlock};
use refextract::driver::split_semicolon_subrefs;
use refextract::enrich::{arxiv_lookup, journal_lookup, lookup_plan, settle_outcome, LookupOutcome};
use refextract::types::{ParsedReference, RawReference, ReferenceSource, ZoneKind};
use refextract::zones::is_reference_heading_line;

fn block(lines: &[&str], zone: ZoneKind, page: usize) -> ZonedBlock {
    ZonedBlock { lines: lines.iter().map(|l| l.to_string()).collect(), zone, page_num: page }
}

#[test]
fn heading_forms() {
    assert!(is_reference_heading_line("References"));
    assert!(is_reference_heading_line("  REFERENCES AND NOTES "));
    assert!(is_reference_heading_line("Bibliography:"));
    assert!(is_reference_heading_line("4.2 References"));
    assert!(is_reference_heading_line("IX. REFERENCES"));
    assert!(!is_reference_heading_line("References .  .  .  . 12"));
    assert!(is_reference_heading_line("5. References"));
    assert!(is_reference_heading_line("1204 REFERENCES"));
    assert!(!is_reference_heading_line("1204REFERENCES"));
    assert!(is_reference_heading_line("REFERENCES 5"));
    assert!(!is_reference_heading_line("REFERENCES 835"));
    assert!(is_reference_heading_line("References (36)-(84)"));
    assert!(!is_reference_heading_line("References . . . . . 12"));
    assert!(!is_reference_heading_line("References......"));
    assert!(!is_reference_heading_line("Introduction"));
}

#[test]
fn two_column_page_gives_references_in_column_order() {
    // Blocks arrive in reading order: the left column, then the right one.
    let page = vec![
        block(&["Some body text about physics."], ZoneKind::Body, 3),
        block(&["References"], ZoneKind::Body, 3),
        block(&["[1] A. Author, Phys. Rev. D 1, 2 (2001)."], ZoneKind::Body, 3),
        block(&["[2] B. Author, Phys. Rev. D 3, 4 (2002)."], ZoneKind::Body, 3),
        block(&["[3] C. Author, Nucl. Phys. B 5, 6 (2003)."], ZoneKind::Body, 3),
        block(&["[4] D. Author, JHEP 2004, 7 (2004)."], ZoneKind::Body, 3),
        block(&["12"], ZoneKind::PageNumber, 3),
    ];
    let refs = collect_references(&vec![page]);
    let markers: Vec<&str> = refs.iter().map(|r| r.linemarker.as_deref().unwrap()).collect();
    assert_eq!(markers, vec!["1", "2", "3", "4"]);
    assert_eq!(refs[0].text, "A. Author, Phys. Rev. D 1, 2 (2001).");
    assert!(refs.iter().all(|r| r.source == ReferenceSource::ReferenceSection));
}

#[test]
fn continuation_lines_join_their_reference() {
    let blocks = vec![
        ("[1] A. Author, first line\ncontinued here (2001)".to_string(), 2),
        ("[2] B. Author, other".to_string(), 2),
    ];
    let refs = split_into_references(&blocks, ReferenceSource::ReferenceSection);
    assert_eq!(refs.len(), 2);
    assert_eq!(refs[0].text, "A. Author, first line continued here (2001)");
    assert_eq!(refs[1].linemarker.as_deref(), Some("2"));
}

#[test]
fn year_in_parentheses_continues_a_reference() {
    let blocks = vec![("[1] A. Author, Phys. Rev. D 1, 2\n(2011).".to_string(), 1)];
    let refs = split_into_references(&blocks, ReferenceSource::ReferenceSection);
    assert_eq!(refs.len(), 1);
    assert_eq!(refs[0].text, "A. Author, Phys. Rev. D 1, 2 (2011).");
}

#[test]
fn author_year_and_bare_markers() {
    let blocks = vec![("[Smi+12] J. Smith, text\n3. K. Jones, more\n0.01 is a number".to_string(), 1)];
    let refs = split_into_references(&blocks, ReferenceSource::ReferenceSection);
    assert_eq!(refs.len(), 2);
    assert_eq!(refs[0].linemarker.as_deref(), Some("Smi+12"));
    assert_eq!(refs[1].linemarker.as_deref(), Some("3"));
    assert_eq!(refs[1].text, "K. Jones, more 0.01 is a number");
}

#[test]
fn long_author_date_blob_is_split() {
    let blob = "Aaij, R., et al. 2015, Physical Review Letters, volume one hundred and fifteen, page seventy two thousand and one. \
Abreu, L., et al. 2016, Some Journal of Physics, volume twenty two, page three hundred and four, with a long title. \
Baker, M. 2017, Another Journal, volume nine, page ten.";
    let blocks = vec![(blob.to_string(), 4)];
    let refs = split_into_references(&blocks, ReferenceSource::ReferenceSection);
    assert_eq!(refs.len(), 3);
    assert!(refs[0].text.starts_with("Aaij, R."));
    assert!(refs[1].text.starts_with("Abreu, L."));
    assert!(refs[2].text.starts_with("Baker, M."));
}

#[test]
fn footnote_duplicates_are_merged() {
    let page = vec![
        block(&["References"], ZoneKind::Body, 1),
        block(&["[1] A. Author, Phys. Rev. D 1, 2 (2001)."], ZoneKind::Body, 1),
        block(&["[2] B. Author, Phys. Rev. D 3, 4 (2002)."], ZoneKind::Body, 1),
        block(&["1 A. Author, Phys. Rev. D 1, 2 (2001)"], ZoneKind::Footnote, 1),
        block(&["2 C. Author, arXiv:1234.56789"], ZoneKind::Footnote, 1),
    ];
    let refs = collect_references(&vec![page]);
    let notes: Vec<&RawReference> = refs.iter().filter(|r| r.source == ReferenceSource::Footnote).collect();
    assert_eq!(notes.len(), 1);
    assert!(notes[0].text.contains("arXiv:1234.56789"));
}

#[test]
fn dedup_key_ignores_case_and_punctuation() {
    assert_eq!(normalize_for_dedup("A. Author, Phys. Rev."), "aauthorphysrev".chars().collect::<Vec<char>>());
    assert!(refs_overlap("A. B, (2001)", "a b 2001"));
    assert!(!refs_overlap("A. B, (2001)", "a b 2002"));
}

#[test]
fn no_heading_and_no_markers_gives_nothing() {
    let page = vec![block(&["Just text."], ZoneKind::Body, 1)];
    assert!(collect_references(&vec![page]).is_empty());
}

#[test]
fn dense_marker_block_fallback() {
    let page = vec![block(
        &[
            "[1] A, Phys. Rev. D 1, 2 (2001)",
            "[2] B, Phys. Rev. D 3, 4 (2002)",
            "[3] C, Phys. Rev. D 5, 6 (2003)",
        ],
        ZoneKind::Body,
        9,
    )];
    // A block's lines are joined by spaces, so the block is one reference.
    let refs = collect_references(&vec![page]);
    assert_eq!(refs.len(), 1);
    assert_eq!(refs[0].linemarker.as_deref(), Some("1"));
    assert!(refs[0].text.ends_with("[3] C, Phys. Rev. D 5, 6 (2003)"));
    assert_eq!(refs[0].page_num, 9);
}

#[test]
fn semicolon_split_needs_two_citations() {
    let r = RawReference {
        text: "A, Phys. Rev. 1 (1999); B, ibid. 2 (2000)".to_string(),
        linemarker: Some("4".to_string()),
        source: ReferenceSource::ReferenceSection,
        page_num: 2,
    };
    let out = split_semicolon_subrefs(vec![r.clone()]);
    assert_eq!(out.len(), 2);
    assert_eq!(out[1].text, "B, ibid. 2 (2000)");
    assert_eq!(out[1].linemarker.as_deref(), Some("4"));
    let single = RawReference { text: "A; B (2000)".to_string(), ..r };
    assert_eq!(split_semicolon_subrefs(vec![single]).len(), 1);
}

fn record() -> ParsedReference {
    ParsedReference {
        raw_ref: "x".to_string(),
        linemarker: None,
        authors: None,
        title: None,
        journal_title: Some("Phys.Rev.D".to_string()),
        journal_volume: Some("72".to_string()),
        journal_year: None,
        journal_page: Some("052002".to_string()),
        doi: None,
        arxiv_id: Some("hep-ph/0202058".to_string()),
        isbn: None,
        report_number: None,
        url: None,
        collaboration: None,
        source: ReferenceSource::ReferenceSection,
    }
}

#[test]
fn lookup_keys_and_terms() {
    let r = record();
    let j = journal_lookup(&r).unwrap();
    assert_eq!(j.key, "j:Phys.Rev.D|v:72|p:052002");
    assert_eq!(j.terms, "Phys.Rev.D 72 052002");
    let a = arxiv_lookup(&r).unwrap();
    assert_eq!(a.key, "arxiv:hep-ph/0202058");
    assert_eq!(a.terms, "arXiv hep-ph/0202058");
    let no_page = ParsedReference { journal_page: None, ..record() };
    assert!(journal_lookup(&no_page).is_none());
}

#[test]
fn outcomes_and_the_cache() {
    let (store, doi) = settle_outcome(LookupOutcome::Found("10.1/x".to_string()));
    assert_eq!(store, Some(Some("10.1/x".to_string())));
    assert_eq!(doi.as_deref(), Some("10.1/x"));
    assert_eq!(settle_outcome(LookupOutcome::NotFound), (Some(None), None));
    assert_eq!(settle_outcome(LookupOutcome::Skipped), (None, None));
}

#[test]
fn superscript_markers_pair_with_citations() {
    let mut page = vec![block(&["Body text without markers."], ZoneKind::Body, 5)];
    for i in 1..=5 {
        page.push(block(&[&i.to_string()], ZoneKind::Body, 5));
        page.push(block(&[&format!("Author {i}, Phys. Rev. D {i}, 1 (200{i})")], ZoneKind::Body, 5));
    }
    let refs = collect_references(&vec![page]);
    let markers: Vec<&str> = refs.iter().map(|r| r.linemarker.as_deref().unwrap()).collect();
    assert_eq!(markers, vec!["1", "2", "3", "4", "5"]);
    assert_eq!(refs[2].text, "Author 3, Phys. Rev. D 3, 1 (2003)");
}

#[test]
fn trailing_marker_cluster_fallback() {
    // Marker blocks without a heading, spread over the last two pages.
    let p1 = vec![
        block(&["(1) A, Phys. Rev. D 1, 2 (2001)"], ZoneKind::Body, 1),
        block(&["(2) B, Phys. Rev. D 3, 4 (2002)"], ZoneKind::Body, 1),
        block(&["(3) C, Phys. Rev. D 5, 6 (2003)"], ZoneKind::Body, 1),
    ];
    let p2 = vec![
        block(&["(4) D, Phys. Rev. D 7, 8 (2004)"], ZoneKind::Body, 2),
        block(&["(5) E, Phys. Rev. D 9, 10 (2005)"], ZoneKind::Body, 2),
    ];
    let refs = collect_references(&vec![p1, p2]);
    // The cluster is gathered from the last page backwards and then reversed
    // as a whole, so all five come out, though not in page order.
    let mut markers: Vec<&str> = refs.iter().map(|r| r.linemarker.as_deref().unwrap()).collect();
    markers.sort();
    assert_eq!(markers, vec!["1", "2", "3", "4", "5"]);
    let four = refs.iter().find(|r| r.linemarker.as_deref() == Some("4")).unwrap();
    assert_eq!(four.page_num, 2);
}

#[test]
fn lookup_plan_order() {
    let r = record();
    let plan = lookup_plan(&r);
    assert_eq!(plan.len(), 2);
    assert_eq!(plan[0].key, "j:Phys.Rev.D|v:72|p:052002");
    assert_eq!(plan[1].key, "arxiv:hep-ph/0202058");
    let with_doi = ParsedReference { doi: Some("10.1/x".to_string()), ..record() };
    assert!(lookup_plan(&with_doi).is_empty());
}

#[test]
fn segmentation_example() {
    let blocks = vec![("[1] A, Phys. Rev. 1 (2000)\ncontinued\n[2] B, 2001".to_string(), 3)];
    let refs = split_into_references(&blocks, ReferenceSource::ReferenceSection);
    assert_eq!(refs.len(), 2);
    assert_eq!(refs[0].text, "A, Phys. Rev. 1 (2000) continued");
    assert_eq!(refs[0].linemarker.as_deref(), Some("1"));
    assert_eq!(refs[0].page_num, 3);
    assert_eq!(refs[1].text, "B, 2001");
    assert_eq!(refs[1].linemarker.as_deref(), Some("2"));
}

#[test]
fn unicode_whitespace_trims() {
    let blocks = vec![("\u{2029}[1] A, 2001\u{205f}".to_string(), 1)];
    let refs = split_into_references(&blocks, ReferenceSource::ReferenceSection);
    assert_eq!(refs[0].text, "A, 2001");
}
