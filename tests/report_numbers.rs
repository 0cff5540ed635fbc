use refextract::kb::{build_report_trie, ReportNumberTrie};

const REPORT_KB: &str = "\
# report numbers
***** Fermilab
<yy 999>
<yy 9999>
FERMILAB PUB --- FERMILAB-Pub
<9999>
SLAC PUB --- SLAC-PUB
<yy 99>
CERN --- CERN
";

fn trie() -> ReportNumberTrie {
    build_report_trie(REPORT_KB)
}

#[test]
fn fermilab_pub_hyphen_separator() {
    let t = trie();
    let m = t.find_match("see FERMILAB-PUB-93-123 for details");
    let m = m.expect("should match FERMILAB-PUB");
    assert_eq!(m.standardized, "FERMILAB-Pub");
    assert!(m.matched.to_uppercase().starts_with("FERMILAB"));
}

#[test]
fn fermilab_pub_space_separator() {
    let t = trie();
    let m = t.find_match("see FERMILAB PUB 93-123 for details");
    let m = m.expect("should match FERMILAB PUB");
    assert_eq!(m.standardized, "FERMILAB-Pub");
}

#[test]
fn slac_pub_match() {
    let t = trie();
    let m = t.find_match("B. Richter, SLAC-PUB-8587 (hep-ph/0008222)");
    let m = m.expect("should match SLAC-PUB");
    assert!(m.standardized.to_uppercase().contains("SLAC"));
}

#[test]
fn cern_match() {
    let t = trie();
    let m = t.find_match("CERN 96-01 Vol. 2");
    let m = m.expect("should match CERN");
    assert!(m.standardized.contains("CERN"));
}

#[test]
fn no_match_plain_text() {
    let t = trie();
    let m = t.find_match("No report number here just text");
    assert!(m.is_none());
}

#[test]
fn double_space_separator() {
    let t = trie();
    let m = t.find_match("FERMILAB  PUB 93-123");
    let m = m.expect("should match FERMILAB  PUB with double space");
    assert_eq!(m.standardized, "FERMILAB-Pub");
}

#[test]
fn matched_text_covers_the_numeration() {
    let t = trie();
    let m = t.find_match("see FERMILAB-PUB-93-123 for details").unwrap();
    assert_eq!(m.matched, "FERMILAB-PUB-93-123");
}

#[test]
fn prefix_inside_a_word_is_not_matched() {
    let t = trie();
    assert!(t.find_match("XCERN 96-01").is_none());
}

#[test]
fn numeration_block_applies_to_following_prefixes_only() {
    // CERN takes two-digit numbers after the year; four digits alone do not match it.
    let t = trie();
    assert!(t.find_match("CERN 8587").is_none());
    let m = t.find_match("SLAC PUB 8587").unwrap();
    assert_eq!(m.standardized, "SLAC-PUB");
}

#[test]
fn separator_run_matches_a_prefix_space() {
    let t = build_report_trie("# c\n<9999>\nFOO BAR --- FB");
    let m = t.find_match("see FOO/-BAR 1234").unwrap();
    assert_eq!(m.matched, "FOO/-BAR 1234");
    assert_eq!(m.standardized, "FB");
}
