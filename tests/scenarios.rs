use refextract::driver::extract_records;
use refextract::kb::{match_collaboration, match_journal_name, KnowledgeBase};
use refextract::parse::parse_references;
use refextract::tokenizer::tokenize;
use refextract::types::{ParsedReference, RawReference, ReferenceSource, TokenKind};

const JOURNALS: &str = "\
# journal titles
PHYSICAL REVIEW D --- Phys.Rev.D
PHYSICAL REVIEW C --- Phys. Rev. C
PHYSICS LETTERS --- Phys.Lett.
JOURNAL OF HIGH ENERGY PHYSICS --- JHEP
NUCLEAR PHYSICS B --- Nucl.Phys.B
SCIENCE --- Science
";

const REPORTS: &str = "\
<yy 999>
FERMILAB PUB --- FERMILAB-Pub
";

const COLLABORATIONS: &str = "\
ATLAS --- ATLAS
CMS --- CMS
";

fn kb() -> KnowledgeBase {
    KnowledgeBase::new(JOURNALS, REPORTS, COLLABORATIONS)
}

fn raw(text: &str, marker: Option<&str>) -> RawReference {
    RawReference {
        text: text.to_string(),
        linemarker: marker.map(|m| m.to_string()),
        source: ReferenceSource::ReferenceSection,
        page_num: 1,
    }
}

/// Strip the marker the way collection does, then tokenize and parse.
fn parse(kb: &KnowledgeBase, text: &str) -> Vec<ParsedReference> {
    let tokens = tokenize(kb, text);
    let marker = tokens
        .iter()
        .find(|t| t.kind == TokenKind::LineMarker)
        .map(|t| t.text.clone());
    let r = RawReference {
        text: text.to_string(),
        linemarker: marker,
        source: ReferenceSource::ReferenceSection,
        page_num: 1,
    };
    parse_references(&r, &tokens)
}

fn s(v: &Option<String>) -> Option<&str> {
    v.as_deref()
}

#[test]
fn einstein_phys_rev_d() {
    let kb = kb();
    let refs = parse(&kb, "[1] A. Einstein, Phys. Rev. D 1, 2 (2020).");
    assert_eq!(refs.len(), 1);
    let r = &refs[0];
    assert_eq!(s(&r.linemarker), Some("1"));
    assert_eq!(s(&r.authors), Some("A. Einstein"));
    assert_eq!(s(&r.journal_title), Some("Phys.Rev.D"));
    assert_eq!(s(&r.journal_volume), Some("1"));
    assert_eq!(s(&r.journal_page), Some("2"));
    assert_eq!(s(&r.journal_year), Some("2020"));
}

#[test]
fn jhep_year_as_volume() {
    let kb = kb();
    let refs = parse(&kb, "[2] Author, JHEP 2006, 022 (2006)");
    let r = &refs[0];
    assert_eq!(s(&r.journal_title), Some("JHEP"));
    assert_eq!(s(&r.journal_volume), Some("2006"));
    assert_eq!(s(&r.journal_year), Some("2006"));
    assert_eq!(s(&r.journal_page), Some("022"));
}

#[test]
fn old_style_volume_with_section_letter() {
    let kb = kb();
    let refs = parse(&kb, "[3] X, Phys. Lett. 249B (1990) 543");
    let r = &refs[0];
    assert!(r.journal_title.as_deref().unwrap().ends_with(" B"));
    assert_eq!(s(&r.journal_title), Some("Phys.Lett. B"));
    assert_eq!(s(&r.journal_volume), Some("249"));
    assert_eq!(s(&r.journal_year), Some("1990"));
    assert_eq!(s(&r.journal_page), Some("543"));
}

#[test]
fn erratum_gives_two_records() {
    let kb = kb();
    let refs = parse(
        &kb,
        "[4] X, Phys. Rev. C 84, 024617 (2011) [Erratum-ibid. 85, 029901 (2012)]",
    );
    assert_eq!(refs.len(), 2);
    assert_eq!(s(&refs[0].journal_title), Some("Phys. Rev. C"));
    assert_eq!(s(&refs[1].journal_title), Some("Phys. Rev. C"));
    assert_eq!(
        (s(&refs[1].journal_volume), s(&refs[1].journal_page), s(&refs[1].journal_year)),
        (Some("85"), Some("029901"), Some("2012"))
    );
}

#[test]
fn erratum_primary_record() {
    let kb = kb();
    let refs = parse(
        &kb,
        "[4] X, Phys. Rev. C 84, 024617 (2011) [Erratum-ibid. 85, 029901 (2012)]",
    );
    let r = &refs[0];
    assert_eq!(s(&r.journal_title), Some("Phys. Rev. C"));
    assert_eq!(s(&r.journal_volume), Some("84"));
    assert_eq!(s(&r.journal_page), Some("024617"));
    assert_eq!(s(&r.journal_year), Some("2011"));
}

#[test]
fn ibid_sub_reference_shares_the_journal() {
    let kb = kb();
    let refs = parse(
        &kb,
        "[4] X, Phys. Rev. C 84, 024617 (2011); Erratum ibid. 85, 029901 (2012).",
    );
    assert_eq!(refs.len(), 2);
    assert_eq!(s(&refs[1].journal_title), Some("Phys. Rev. C"));
    assert_eq!(s(&refs[1].journal_volume), Some("85"));
    assert_eq!(s(&refs[1].journal_page), Some("029901"));
    assert_eq!(s(&refs[1].journal_year), Some("2012"));
}

#[test]
fn two_arxiv_ids_give_two_records() {
    let kb = kb();
    let refs = parse(&kb, "(5) See hep-ph/0202058 and arXiv:1812.01234");
    assert_eq!(refs.len(), 2);
    assert_eq!(s(&refs[0].arxiv_id), Some("hep-ph/0202058"));
    assert_eq!(s(&refs[1].arxiv_id), Some("1812.01234"));
    assert_eq!(s(&refs[0].linemarker), Some("5"));
    assert!(refs[1].journal_title.is_none());
    assert!(refs[1].authors.is_none());
}

#[test]
fn journal_without_volume_is_dropped() {
    let kb = kb();
    let refs = parse(&kb, "A. Author, Science and its discontents (1999)");
    assert!(refs[0].journal_title.is_none());
    assert_eq!(s(&refs[0].journal_year), Some("1999"));
}

#[test]
fn journal_match_reports_length_and_abbreviation() {
    let kb = kb();
    let m = match_journal_name(&kb, "in Phys. Rev. D 72", 3).unwrap();
    assert_eq!(m.0, "Phys. Rev. D".chars().count());
    assert_eq!(m.1, "Phys.Rev.D");
    // Not at a word start.
    assert!(match_journal_name(&kb, "xPhys. Rev. D 72", 1).is_none());
}

#[test]
fn collaboration_match_is_case_insensitive() {
    let kb = kb();
    assert_eq!(match_collaboration(&kb, "the atlas collaboration").as_deref(), Some("ATLAS"));
    assert!(match_collaboration(&kb, "nobody").is_none());
}

#[test]
fn tokens_of_a_compact_numeration() {
    let kb = kb();
    let toks = tokenize(&kb, "Nucl. Phys. B 417(1994)181");
    let kinds: Vec<TokenKind> = toks.iter().map(|t| t.kind).collect();
    assert_eq!(
        kinds,
        vec![TokenKind::JournalName, TokenKind::Number, TokenKind::Year, TokenKind::Number]
    );
    assert_eq!(toks[1].text, "417");
    assert_eq!(toks[2].text, "(1994)");
    assert_eq!(toks[2].normalized.as_deref(), Some("1994"));
    assert_eq!(toks[3].text, "181");
}

#[test]
fn tokens_of_identifiers() {
    let kb = kb();
    let toks = tokenize(&kb, "doi 10.1103/PhysRevD.72.052002). and https://example.org/x, ISBN 978-3-16-148410-0");
    let doi = toks.iter().find(|t| t.kind == TokenKind::Doi).unwrap();
    assert_eq!(doi.text, "10.1103/PhysRevD.72.052002");
    let url = toks.iter().find(|t| t.kind == TokenKind::Url).unwrap();
    assert_eq!(url.text, "https://example.org/x");
    let isbn = toks.iter().find(|t| t.kind == TokenKind::Isbn).unwrap();
    assert_eq!(isbn.text, "978-3-16-148410");
}

#[test]
fn broken_page_range_is_rejoined() {
    let kb = kb();
    let toks = tokenize(&kb, "pages 1547\u{2013} 1553");
    assert_eq!(toks.last().unwrap().kind, TokenKind::PageRange);
    assert_eq!(toks.last().unwrap().text, "1547\u{2013}1553");
}

#[test]
fn report_number_and_collaboration_tokens() {
    let kb = kb();
    let refs = parse(&kb, "CMS Collaboration, FERMILAB-PUB-93-123");
    assert_eq!(s(&refs[0].collaboration), Some("CMS"));
    assert_eq!(s(&refs[0].report_number), Some("FERMILAB-Pub"));
}

#[test]
fn semicolon_parts_and_ibid_resolution() {
    let kb = kb();
    let refs = extract_records(
        &kb,
        vec![raw("A. B, Phys. Rev. D 72, 1 (2005); ibid. 73, 2 (2006)", Some("7"))],
    );
    assert_eq!(refs.len(), 2);
    assert_eq!(s(&refs[1].journal_title), Some("Phys.Rev.D"));
    assert_eq!(s(&refs[1].journal_volume), Some("73"));
}

#[test]
fn unresolvable_placeholder_stays() {
    let kb = kb();
    let refs = extract_records(&kb, vec![raw("ibid. 73, 2 (2006); arXiv 2006", Some("8"))]);
    assert_eq!(s(&refs[0].journal_title), Some("ibid"));
}

#[test]
fn every_volume_has_a_journal() {
    let kb = kb();
    let refs = extract_records(
        &kb,
        vec![
            raw("[1] A. Einstein, Phys. Rev. D 1, 2 (2020).", Some("1")),
            raw("X, Science 12, 3 (1999)", Some("2")),
            raw("See hep-ph/0202058 and arXiv:1812.01234", Some("3")),
        ],
    );
    for r in &refs {
        if r.journal_volume.is_some() {
            assert!(r.journal_title.is_some());
        }
    }
}

#[test]
fn parsing_twice_gives_identical_records() {
    let kb = kb();
    let text = "[2] Author, JHEP 2006, 022 (2006)";
    let a = parse(&kb, text);
    let b = parse(&kb, text);
    assert_eq!(format!("{:?}", a), format!("{:?}", b));
}

fn same_fields(a: &ParsedReference, b: &ParsedReference) -> bool {
    a.journal_title == b.journal_title
        && a.journal_volume == b.journal_volume
        && a.journal_year == b.journal_year
        && a.journal_page == b.journal_page
        && a.doi == b.doi
        && a.arxiv_id == b.arxiv_id
}

#[test]
fn sub_records_reparse_to_themselves() {
    let kb = kb();
    let inputs = [
        "[4] X, Phys. Rev. C 84, 024617 (2011) [Erratum-ibid. 85, 029901 (2012)]",
        "(5) See hep-ph/0202058 and arXiv:1812.01234",
        "[6] A. B, Phys. Rev. D 72, 052002 (2005); Nucl. Phys. B 253, 1 (1985)",
    ];
    for text in inputs {
        let refs = parse(&kb, text);
        assert!(refs.len() >= 2, "{text}");
        for sub in &refs[1..] {
            let again = parse(&kb, &sub.raw_ref);
            assert_eq!(again.len(), 1, "{}", sub.raw_ref);
            assert!(same_fields(&again[0], sub), "{}", sub.raw_ref);
        }
    }
}

#[test]
fn sub_record_text_is_its_segment() {
    let kb = kb();
    let refs = parse(&kb, "(5) See hep-ph/0202058 and arXiv:1812.01234");
    assert_eq!(refs[1].raw_ref, "1812.01234");
}

#[test]
fn journal_without_volume_does_not_make_a_placeholder() {
    let kb = kb();
    // A journal name is present, so the standalone ibid step does not run.
    let refs = parse(&kb, "Science essay, ibid. 94 (1954) 7");
    assert!(refs.iter().all(|r| r.journal_title.as_deref() != Some("ibid")));
}

#[test]
fn journal_match_counts_bytes() {
    let kb = kb();
    // "é" takes two bytes: the journal starts at byte 4.
    let m = match_journal_name(&kb, "é, Phys. Rev. D 72", 4).unwrap();
    assert_eq!(m.0, "Phys. Rev. D".len());
    assert!(match_journal_name(&kb, "é, Phys. Rev. D 72", 1).is_none());
}
