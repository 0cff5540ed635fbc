use refextract::collect::splits_from_prefixes;
use refextract::columns::{is_page_number_text, weighted_mode, widest_gap};
use refextract::kb::{collaboration_in, match_normalized, matched_text, KbEntry, KnowledgeBase};

#[test]
fn widest_gap_in_the_middle() {
    // 200 bins, 30 lines: bins covered by at most 3 lines are sparse.
    let mut bins = vec![20u32; 200];
    for b in 95..100 {
        bins[b] = 1;
    }
    for b in 120..122 {
        bins[b] = 0;
    }
    assert_eq!(widest_gap(&bins, 30), Some((95, 5)));
}

#[test]
fn widest_gap_ignores_the_margins() {
    let mut bins = vec![20u32; 200];
    for b in 0..60 {
        bins[b] = 0;
    }
    assert_eq!(widest_gap(&bins, 30), None);
}

#[test]
fn widest_gap_prefers_the_earliest_of_equal_runs() {
    let mut bins = vec![20u32; 200];
    bins[80] = 0;
    bins[81] = 0;
    bins[130] = 0;
    bins[131] = 0;
    assert_eq!(widest_gap(&bins, 30), Some((80, 2)));
}

#[test]
fn weighted_mode_takes_the_last_of_equal_totals() {
    assert_eq!(weighted_mode(&vec![100, 90, 100, 90], &vec![3, 2, 1, 2]), Some(90));
    assert_eq!(weighted_mode(&vec![100, 90, 100], &vec![3, 2, 1]), Some(100));
    assert_eq!(weighted_mode(&vec![], &vec![]), None);
}

#[test]
fn page_number_text() {
    assert!(is_page_number_text(" 12 "));
    assert!(is_page_number_text("3-4"));
    assert!(!is_page_number_text("12a"));
    assert!(!is_page_number_text("  "));
}

#[test]
fn collaboration_in_upper_text() {
    let kb = KnowledgeBase::new("", "", "ATLAS --- ATLAS\nCMS --- CMS Collab");
    let up: Vec<char> = "THE CMS DETECTOR".chars().collect();
    assert_eq!(collaboration_in(&kb, &up).as_deref(), Some("CMS Collab"));
    let low: Vec<char> = "the cms detector".chars().collect();
    assert!(collaboration_in(&kb, &low).is_none());
}

#[test]
fn match_on_a_normalized_suffix() {
    let es = vec![KbEntry { key: "PHYS REV D".to_string(), value: "Phys.Rev.D".to_string() }];
    let norm: Vec<char> = "PHYS REV D 72".chars().collect();
    let suffix: Vec<char> = "Phys. Rev. D 72".chars().collect();
    let m = match_normalized(&es, &norm, &suffix).unwrap();
    assert_eq!(m.0, 12);
    assert_eq!(m.1, "Phys.Rev.D");
}

#[test]
fn splits_from_author_prefixes() {
    let text: Vec<char> = "Smith, J. 2001, A paper. Jones, K. 2002, Another.".chars().collect();
    let mut found: Vec<usize> = Vec::new();
    // Text before "Smith, J." and before "Jones, K.": the first is at 0 and is no split.
    let prefixes = vec![String::new(), "Smith, J. 2001, A paper. ".to_string()];
    splits_from_prefixes(&text, &prefixes, &mut found);
    assert_eq!(found, vec![25]);
}

#[test]
fn report_match_text_joins_prefix_and_numeration() {
    let text: Vec<char> = "see CERN 96-01 here".chars().collect();
    assert_eq!(matched_text(&text, 4, 8, &" 96-01".to_string()), "CERN 96-01");
}
