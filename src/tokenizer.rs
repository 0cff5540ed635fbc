//! Tokenization of a reference string into typed tokens.
use vstd::prelude::*;

use crate::kb::{
    collaboration_match, journal_match, match_collaboration, match_journal_chars,
    match_report_number, KnowledgeBase,
};
use crate::text::{
    all_digits, all_digits_in, chars_of, digit, find_sub, is_digit, is_lower, is_space,
    is_upper, lit, push_char, slice_vec, space, starts_at, string_all, string_of, strip, stripped,
    upper, lower, Strip, has_at,
};
use crate::types::{sv, Token, TokenKind};

verus! {

// ── Word classification ────────────────────────────────────────────────────

/// A hyphen, an en dash or an em dash.
pub open spec fn is_dash(c: char) -> bool {
    c == '-' || c == '\u{2013}' || c == '\u{2014}'
}

fn dash(c: char) -> (r: bool)
    ensures
        r == is_dash(c),
{
    c == '-' || c == '\u{2013}' || c == '\u{2014}'
}

/// The end of the run of ASCII digits that starts at `i`.
pub open spec fn digit_run(s: Seq<char>, i: int) -> int
    decreases s.len() - i,
{
    if 0 <= i < s.len() && is_digit(s[i]) {
        digit_run(s, i + 1)
    } else {
        i
    }
}

/// The end of the run of whitespace that starts at `i`.
pub open spec fn space_run(s: Seq<char>, i: int) -> int
    decreases s.len() - i,
{
    if 0 <= i < s.len() && is_space(s[i]) {
        space_run(s, i + 1)
    } else {
        i
    }
}

proof fn lemma_digit_run(s: Seq<char>, i: int)
    requires
        0 <= i <= s.len(),
    ensures
        i <= digit_run(s, i) <= s.len(),
        forall|k: int| i <= k < digit_run(s, i) ==> is_digit(#[trigger] s[k]),
        digit_run(s, i) < s.len() ==> !is_digit(s[digit_run(s, i)]),
    decreases s.len() - i,
{
    if i < s.len() && is_digit(s[i]) {
        lemma_digit_run(s, i + 1);
    }
}

proof fn lemma_space_run(s: Seq<char>, i: int)
    requires
        0 <= i <= s.len(),
    ensures
        i <= space_run(s, i) <= s.len(),
    decreases s.len() - i,
{
    if i < s.len() && is_space(s[i]) {
        lemma_space_run(s, i + 1);
    }
}

fn digit_run_end(v: &[char], i: usize) -> (r: usize)
    requires
        i <= v@.len(),
    ensures
        r == digit_run(v@, i as int),
        i <= r <= v@.len(),
{
    proof {
        lemma_digit_run(v@, i as int);
    }
    let mut k = i;
    while k < v.len() && digit(v[k])
        invariant
            i <= k <= v@.len(),
            digit_run(v@, k as int) == digit_run(v@, i as int),
        decreases v.len() - k,
    {
        k += 1;
    }
    k
}

fn space_run_end(v: &[char], i: usize) -> (r: usize)
    requires
        i <= v@.len(),
    ensures
        r == space_run(v@, i as int),
        i <= r <= v@.len(),
{
    proof {
        lemma_space_run(v@, i as int);
    }
    let mut k = i;
    while k < v.len() && space(v[k])
        invariant
            i <= k <= v@.len(),
            space_run(v@, k as int) == space_run(v@, i as int),
        decreases v.len() - k,
    {
        k += 1;
    }
    k
}

/// `s[i..]` is a page: digits, or digits, a dash and digits (spaces allowed
/// around the dash).
pub open spec fn page_from(s: Seq<char>, i: int) -> bool {
    let a = digit_run(s, i);
    a > i && (a == s.len() || {
        let b = space_run(s, a);
        b < s.len() && is_dash(s[b]) && {
            let c = space_run(s, b + 1);
            digit_run(s, c) > c && digit_run(s, c) == s.len()
        }
    })
}

fn is_page_from(v: &[char], i: usize) -> (r: bool)
    requires
        i <= v@.len(),
    ensures
        r == page_from(v@, i as int),
{
    let a = digit_run_end(v, i);
    if a == i {
        return false;
    }
    if a == v.len() {
        return true;
    }
    let b = space_run_end(v, a);
    if b >= v.len() || !dash(v[b]) {
        return false;
    }
    let c = space_run_end(v, b + 1);
    let d = digit_run_end(v, c);
    d > c && d == v.len()
}

/// A year from 1900 to 2099 in `s[i..i+4]`.
pub open spec fn year4_at(s: Seq<char>, i: int) -> bool {
    0 <= i && i + 4 <= s.len() && ((s[i] == '1' && s[i + 1] == '9') || (s[i] == '2' && s[i + 1]
        == '0')) && is_digit(s[i + 2]) && is_digit(s[i + 3])
}

fn is_year4_at(v: &[char], i: usize) -> (r: bool)
    ensures
        r == year4_at(v@, i as int),
{
    if i > v.len() || v.len() - i < 4 {
        return false;
    }
    ((v[i] == '1' && v[i + 1] == '9') || (v[i] == '2' && v[i + 1] == '0')) && digit(v[i + 2])
        && digit(v[i + 3])
}

/// `417(1994)181`: the volume's end `a` (before `(`), then a year in
/// `s[a+1..a+5]` and a page after `)`.
pub open spec fn vol_year_page(s: Seq<char>) -> bool {
    let a = digit_run(s, 0);
    a > 0 && a + 6 <= s.len() && s[a] == '(' && year4_at(s, a + 1) && s[a + 5] == ')'
        && page_from(s, a + 6)
}

/// `70:094505`: digits, a colon, a page.
pub open spec fn vol_colon_page(s: Seq<char>) -> bool {
    let a = digit_run(s, 0);
    a > 0 && a < s.len() && s[a] == ':' && page_from(s, a + 1)
}

/// `301(1993)`: digits and a parenthesized year, nothing else.
pub open spec fn vol_year(s: Seq<char>) -> bool {
    let a = digit_run(s, 0);
    a > 0 && a + 6 == s.len() && s[a] == '(' && year4_at(s, a + 1) && s[a + 5] == ')'
}

/// `82(25)` or `82(2-3)`: digits and a parenthesized issue.
pub open spec fn vol_issue(s: Seq<char>) -> bool {
    let a = digit_run(s, 0);
    let b = digit_run(s, a + 1);
    a > 0 && a < s.len() && s[a] == '(' && b > a + 1 && b < s.len() && (
    (s[b] == ')' && b + 1 == s.len()) || (is_dash(s[b]) && digit_run(s, b + 1) > b + 1
        && digit_run(s, b + 1) + 1 == s.len() && s[digit_run(s, b + 1)] == ')'))
}

/// The end of the run of ASCII letters from `i`.
pub open spec fn letter_run(s: Seq<char>, i: int) -> int
    decreases s.len() - i,
{
    if 0 <= i < s.len() && (is_upper(s[i]) || is_lower(s[i])) {
        letter_run(s, i + 1)
    } else {
        i
    }
}

/// `111301(R)` or `040404/1`: digits and a letter or number suffix.
pub open spec fn article_number(s: Seq<char>) -> bool {
    let a = digit_run(s, 0);
    a > 0 && a < s.len() && ((s[a] == '(' && letter_run(s, a + 1) > a + 1 && letter_run(s, a + 1)
        + 1 == s.len() && s[letter_run(s, a + 1)] == ')') || (s[a] == '/' && digit_run(s, a + 1)
        > a + 1 && digit_run(s, a + 1) == s.len()))
}

/// A year word: an optional `(`, a year from 1900 to 2099, an optional
/// lower-case letter, an optional `)`; the year itself is at most 2030.
pub open spec fn year_word(s: Seq<char>) -> Option<Seq<char>> {
    let o = if s.len() > 0 && s[0] == '(' {
        1int
    } else {
        0
    };
    let e = o + 4;
    let l = if e < s.len() && is_lower(s[e]) {
        e + 1
    } else {
        e
    };
    let c = if l < s.len() && s[l] == ')' {
        l + 1
    } else {
        l
    };
    if year4_at(s, o) && c == s.len() && (s[o] == '1' || (s[o + 2] == '0' || (s[o + 2] == '1'
        || (s[o + 2] == '2' || (s[o + 2] == '3' && s[o + 3] == '0'))))) {
        Some(s.subrange(o, o + 4))
    } else {
        None
    }
}

/// A page range anywhere: a digit, optional spaces, a dash, optional spaces, a digit.
pub open spec fn range_at(s: Seq<char>, k: int) -> bool {
    0 <= k < s.len() && is_dash(s[k]) && crate::text::back_space(s, 0, k) > 0 && is_digit(
        s[crate::text::back_space(s, 0, k) - 1],
    ) && space_run(s, k + 1) < s.len() && is_digit(s[space_run(s, k + 1)])
}

pub open spec fn has_range(s: Seq<char>) -> bool {
    exists|k: int| #[trigger] range_at(s, k)
}

/// `,` `.` `;` `:` `and` `et` `al` `al.` `&` and the dashes, alone.
pub open spec fn punctuation_words() -> Seq<Seq<char>> {
    seq![
        seq![','], seq!['.'], seq![';'], seq![':'], seq!['a', 'n', 'd'], seq!['e', 't'],
        seq!['a', 'l', '.'], seq!['a', 'l'], seq!['&'], seq!['-'], seq!['\u{2013}'],
        seq!['\u{2014}']
    ]
}

pub open spec fn is_punctuation_word(s: Seq<char>) -> bool {
    exists|k: int| 0 <= k < punctuation_words().len() && punctuation_words()[k] == crate::text::trim(s)
}

/// `ibid` in any ASCII case, alone or ending a hyphenated word
/// (`Erratum-ibid`).
pub open spec fn is_ibid_word(s: Seq<char>) -> bool {
    let n = s.len() as int;
    n >= 4 && crate::text::ascii_lower(s[n - 4]) == 'i' && crate::text::ascii_lower(s[n - 3]) == 'b'
        && crate::text::ascii_lower(s[n - 2]) == 'i' && crate::text::ascii_lower(s[n - 1]) == 'd'
        && (n == 4 || s[n - 5] == '-')
}

/// A token as a triple of kind, text and normalized text.
pub open spec fn tv(t: Token) -> (TokenKind, Seq<char>, Option<Seq<char>>) {
    (t.kind, t.text@, sv(t.normalized))
}

pub open spec fn tvs(v: Seq<Token>) -> Seq<(TokenKind, Seq<char>, Option<Seq<char>>)> {
    v.map_values(|t: Token| tv(t))
}

pub open spec fn number_tok(s: Seq<char>) -> (TokenKind, Seq<char>, Option<Seq<char>>) {
    (TokenKind::Number, s, None)
}

pub open spec fn year_tok(y: Seq<char>) -> (TokenKind, Seq<char>, Option<Seq<char>>) {
    (TokenKind::Year, seq!['('] + y + seq![')'], Some(y))
}

pub open spec fn page_tok(s: Seq<char>) -> (TokenKind, Seq<char>, Option<Seq<char>>) {
    if crate::text::has_char(s, '-') || crate::text::has_char(s, '\u{2013}') || crate::text::has_char(
        s,
        '\u{2014}',
    ) {
        (TokenKind::PageRange, s, None)
    } else {
        (TokenKind::Number, s, None)
    }
}

/// The tokens of one word.
pub open spec fn word_tokens(kb: KnowledgeBase, word: Seq<char>) -> Seq<(TokenKind, Seq<char>, Option<Seq<char>>)> {
    let c = strip(word, Strip::WordEdge);
    let a = digit_run(c, 0);
    if vol_year_page(c) {
        seq![number_tok(c.subrange(0, a)), year_tok(c.subrange(a + 1, a + 5)), page_tok(c.subrange(a + 6, c.len() as int))]
    } else if vol_colon_page(c) {
        seq![number_tok(c.subrange(0, a)), page_tok(c.subrange(a + 1, c.len() as int))]
    } else if vol_year(c) {
        seq![number_tok(c.subrange(0, a)), year_tok(c.subrange(a + 1, a + 5))]
    } else if vol_issue(c) || article_number(c) {
        seq![number_tok(c.subrange(0, a))]
    } else if is_ibid_word(c) {
        seq![(TokenKind::Ibid, word, None)]
    } else if is_punctuation_word(word) {
        seq![(TokenKind::Punctuation, word, None)]
    } else if year_word(c) is Some {
        seq![(TokenKind::Year, word, year_word(c))]
    } else if has_range(c) {
        seq![(TokenKind::PageRange, word, None)]
    } else if c.len() > 0 && all_digits(c) {
        seq![(TokenKind::Number, word, None)]
    } else if collaboration_match(kb, c) is Some {
        seq![(TokenKind::Collaboration, word, collaboration_match(kb, c))]
    } else {
        seq![(TokenKind::Word, word, None)]
    }
}

fn mk(kind: TokenKind, text: &[char], lo: usize, hi: usize, normalized: Option<String>) -> (r: Token)
    requires
        lo <= hi <= text@.len(),
    ensures
        tv(r) == (kind, text@.subrange(lo as int, hi as int), sv(normalized)),
{
    Token { kind, text: string_of(text, lo, hi), normalized }
}

fn push_tok(tokens: &mut Vec<Token>, t: Token)
    ensures
        tvs(final(tokens)@) == tvs(old(tokens)@).push(tv(t)),
{
    let ghost before = tvs(tokens@);
    tokens.push(t);
    assert(tvs(tokens@) =~= before.push(tv(t)));
}

fn push_year(tokens: &mut Vec<Token>, c: &[char], lo: usize, hi: usize)
    requires
        hi == lo + 4,
        hi <= c@.len(),
    ensures
        tvs(final(tokens)@) == tvs(old(tokens)@).push(year_tok(c@.subrange(lo as int, lo + 4))),
{
    let mut text = String::new();
    push_char(&mut text, '(');
    let y = string_of(c, lo, hi);
    let yc = slice_vec(c, lo, hi);
    let mut k: usize = 0;
    while k < 4
        invariant
            k <= 4,
            lo + 4 <= c@.len(),
            yc@ == c@.subrange(lo as int, lo + 4),
            text@ == seq!['('] + yc@.subrange(0, k as int),
        decreases 4 - k,
    {
        push_char(&mut text, yc[k]);
        assert(yc@.subrange(0, k + 1) =~= yc@.subrange(0, k as int).push(yc@[k as int]));
        k += 1;
    }
    push_char(&mut text, ')');
    assert(yc@.subrange(0, 4) =~= yc@);
    assert(text@ =~= seq!['('] + yc@ + seq![')']);
    push_tok(tokens, Token { kind: TokenKind::Year, text, normalized: Some(y) });
}

fn push_page_or_number(tokens: &mut Vec<Token>, c: &[char], lo: usize, hi: usize)
    requires
        lo <= hi <= c@.len(),
    ensures
        tvs(final(tokens)@) == tvs(old(tokens)@).push(page_tok(c@.subrange(lo as int, hi as int))),
{
    let p = slice_vec(c, lo, hi);
    let kind = if crate::text::contains_char(p.as_slice(), '-') || crate::text::contains_char(
        p.as_slice(),
        '\u{2013}',
    ) || crate::text::contains_char(p.as_slice(), '\u{2014}') {
        TokenKind::PageRange
    } else {
        TokenKind::Number
    };
    push_tok(tokens, mk(kind, c, lo, hi, None));
}

fn is_vol_year_page(c: &[char]) -> (r: bool)
    ensures
        r == vol_year_page(c@),
{
    let a = digit_run_end(c, 0);
    a > 0 && c.len() >= 6 && a <= c.len() - 6 && c[a] == '(' && is_year4_at(c, a + 1) && c[a + 5]
        == ')' && is_page_from(c, a + 6)
}

fn is_vol_colon_page(c: &[char]) -> (r: bool)
    ensures
        r == vol_colon_page(c@),
{
    let a = digit_run_end(c, 0);
    a > 0 && a < c.len() && c[a] == ':' && is_page_from(c, a + 1)
}

fn is_vol_year(c: &[char]) -> (r: bool)
    ensures
        r == vol_year(c@),
{
    let a = digit_run_end(c, 0);
    a > 0 && c.len() >= 6 && a == c.len() - 6 && c[a] == '(' && is_year4_at(c, a + 1) && c[a + 5]
        == ')'
}

fn is_vol_issue(c: &[char]) -> (r: bool)
    ensures
        r == vol_issue(c@),
{
    let a = digit_run_end(c, 0);
    if !(a > 0 && a < c.len() && c[a] == '(') {
        return false;
    }
    let b = digit_run_end(c, a + 1);
    if !(b > a + 1 && b < c.len()) {
        return false;
    }
    if c[b] == ')' && b + 1 == c.len() {
        return true;
    }
    if dash(c[b]) {
        let d = digit_run_end(c, b + 1);
        return d > b + 1 && d < c.len() && d + 1 == c.len() && c[d] == ')';
    }
    false
}

fn letter_run_end(v: &[char], i: usize) -> (r: usize)
    requires
        i <= v@.len(),
    ensures
        r == letter_run(v@, i as int),
        i <= r <= v@.len(),
{
    let mut k = i;
    while k < v.len() && (upper(v[k]) || lower(v[k]))
        invariant
            i <= k <= v@.len(),
            letter_run(v@, k as int) == letter_run(v@, i as int),
        decreases v.len() - k,
    {
        k += 1;
    }
    k
}

fn is_article_number(c: &[char]) -> (r: bool)
    ensures
        r == article_number(c@),
{
    let a = digit_run_end(c, 0);
    if !(a > 0 && a < c.len()) {
        return false;
    }
    if c[a] == '(' {
        let l = letter_run_end(c, a + 1);
        if l > a + 1 && l < c.len() && l + 1 == c.len() && c[l] == ')' {
            return true;
        }
    }
    if c[a] == '/' {
        let d = digit_run_end(c, a + 1);
        return d > a + 1 && d == c.len();
    }
    false
}

fn year_of_word(c: &[char]) -> (r: Option<Vec<char>>)
    ensures
        r is None <==> year_word(c@) is None,
        r matches Some(y) ==> year_word(c@) == Some(y@),
{
    let o: usize = if c.len() > 0 && c[0] == '(' { 1 } else { 0 };
    if !is_year4_at(c, o) {
        return None;
    }
    let e = o + 4;
    let l = if e < c.len() && lower(c[e]) { e + 1 } else { e };
    let cl = if l < c.len() && c[l] == ')' { l + 1 } else { l };
    if cl == c.len() && (c[o] == '1' || (c[o + 2] == '0' || (c[o + 2] == '1' || (c[o + 2] == '2' || (
    c[o + 2] == '3' && c[o + 3] == '0'))))) {
        Some(slice_vec(c, o, o + 4))
    } else {
        None
    }
}

fn range_at_exec(c: &[char], k: usize) -> (r: bool)
    requires
        k < c@.len(),
    ensures
        r == range_at(c@, k as int),
{
    if !dash(c[k]) {
        return false;
    }
    let mut j = k;
    while j > 0 && space(c[j - 1])
        invariant
            j <= k < c@.len(),
            crate::text::back_space(c@, 0, j as int) == crate::text::back_space(c@, 0, k as int),
        decreases j,
    {
        j -= 1;
    }
    if !(j > 0 && digit(c[j - 1])) {
        return false;
    }
    let f = space_run_end(c, k + 1);
    f < c.len() && digit(c[f])
}

fn contains_range(c: &[char]) -> (r: bool)
    ensures
        r == has_range(c@),
{
    let mut k: usize = 0;
    while k < c.len()
        invariant
            k <= c@.len(),
            forall|m: int| 0 <= m < k ==> !#[trigger] range_at(c@, m),
        decreases c.len() - k,
    {
        if range_at_exec(c, k) {
            return true;
        }
        k += 1;
    }
    assert forall|m: int| !#[trigger] range_at(c@, m) by {
        if 0 <= m < k {
        }
    }
    false
}


/// One `,` `.` `;` `:` `and` `et` `al` `al.` `&` or dash, alone.
fn is_punctuation(word: &Vec<char>) -> (r: bool)
    ensures
        r == is_punctuation_word(word@),
{
    let t = crate::text::trimmed(word);
    let list: Vec<&str> = vec![",", ".", ";", ":", "and", "et", "al.", "al", "&", "-", "\u{2013}", "\u{2014}"];
    proof {
        reveal_strlit(",");
        reveal_strlit(".");
        reveal_strlit(";");
        reveal_strlit(":");
        reveal_strlit("and");
        reveal_strlit("et");
        reveal_strlit("al.");
        reveal_strlit("al");
        reveal_strlit("&");
        reveal_strlit("-");
        reveal_strlit("\u{2013}");
        reveal_strlit("\u{2014}");
        assert(list@.len() == punctuation_words().len());
        assert forall|m: int| 0 <= m < list@.len() implies (#[trigger] list@[m])@ == punctuation_words()[m] by {
            assert(list@[0]@ =~= punctuation_words()[0]);
            assert(list@[1]@ =~= punctuation_words()[1]);
            assert(list@[2]@ =~= punctuation_words()[2]);
            assert(list@[3]@ =~= punctuation_words()[3]);
            assert(list@[4]@ =~= punctuation_words()[4]);
            assert(list@[5]@ =~= punctuation_words()[5]);
            assert(list@[6]@ =~= punctuation_words()[6]);
            assert(list@[7]@ =~= punctuation_words()[7]);
            assert(list@[8]@ =~= punctuation_words()[8]);
            assert(list@[9]@ =~= punctuation_words()[9]);
            assert(list@[10]@ =~= punctuation_words()[10]);
            assert(list@[11]@ =~= punctuation_words()[11]);
        }
    }
    let mut k: usize = 0;
    while k < list.len()
        invariant
            k <= list@.len(),
            list@.len() == punctuation_words().len(),
            t@ == crate::text::trim(word@),
            forall|m: int| 0 <= m < list@.len() ==> (#[trigger] list@[m])@ == punctuation_words()[m],
            forall|m: int| 0 <= m < k ==> punctuation_words()[m] != t@,
        decreases list.len() - k,
    {
        let p = lit(list[k]);
        if p.len() == t.len() && has_at(t.as_slice(), 0, p.as_slice()) {
            assert(t@.subrange(0, p@.len() as int) =~= t@);
            return true;
        }
        proof {
            if p@ == t@ {
                assert(t@.subrange(0, p@.len() as int) =~= t@);
            }
        }
        k += 1;
    }
    false
}

fn is_ibid(c: &Vec<char>) -> (r: bool)
    ensures
        r == is_ibid_word(c@),
{
    let n = c.len();
    n >= 4 && crate::text::to_ascii_lower(c[n - 4]) == 'i' && crate::text::to_ascii_lower(c[n - 3]) == 'b'
        && crate::text::to_ascii_lower(c[n - 2]) == 'i' && crate::text::to_ascii_lower(c[n - 1]) == 'd'
        && (n == 4 || c[n - 5] == '-')
}

/// Classify one word into tokens.
fn classify_word(kb: &KnowledgeBase, word: &Vec<char>, tokens: &mut Vec<Token>)
    ensures
        tvs(final(tokens)@) == tvs(old(tokens)@) + word_tokens(*kb, word@),
{
    let ghost before = tvs(tokens@);
    let c = stripped(word.as_slice(), Strip::WordEdge);
    let cs = c.as_slice();
    let n = c.len();
    assert(cs@.len() == n);
    let a = digit_run_end(cs, 0);
    if is_vol_year_page(cs) {
        push_tok(tokens, mk(TokenKind::Number, cs, 0, a, None));
        push_year(tokens, cs, a + 1, a + 5);
        push_page_or_number(tokens, cs, a + 6, c.len());
        assert(tvs(tokens@) =~= before + word_tokens(*kb, word@));
        return;
    }
    if is_vol_colon_page(cs) {
        push_tok(tokens, mk(TokenKind::Number, cs, 0, a, None));
        push_page_or_number(tokens, cs, a + 1, c.len());
        assert(tvs(tokens@) =~= before + word_tokens(*kb, word@));
        return;
    }
    if is_vol_year(cs) {
        push_tok(tokens, mk(TokenKind::Number, cs, 0, a, None));
        push_year(tokens, cs, a + 1, a + 5);
        assert(tvs(tokens@) =~= before + word_tokens(*kb, word@));
        return;
    }
    if is_vol_issue(cs) || is_article_number(cs) {
        push_tok(tokens, mk(TokenKind::Number, cs, 0, a, None));
        assert(tvs(tokens@) =~= before + word_tokens(*kb, word@));
        return;
    }
    let w = string_all(word.as_slice());
    if is_ibid(&c) {
        push_tok(tokens, Token { kind: TokenKind::Ibid, text: w, normalized: None });
        assert(tvs(tokens@) =~= before + word_tokens(*kb, word@));
        return;
    }
    if is_punctuation(word) {
        push_tok(tokens, Token { kind: TokenKind::Punctuation, text: w, normalized: None });
        assert(tvs(tokens@) =~= before + word_tokens(*kb, word@));
        return;
    }
    if let Some(y) = year_of_word(cs) {
        push_tok(tokens, Token { kind: TokenKind::Year, text: w, normalized: Some(string_all(y.as_slice())) });
        assert(tvs(tokens@) =~= before + word_tokens(*kb, word@));
        return;
    }
    if contains_range(cs) {
        push_tok(tokens, Token { kind: TokenKind::PageRange, text: w, normalized: None });
        assert(tvs(tokens@) =~= before + word_tokens(*kb, word@));
        return;
    }
    if c.len() > 0 && all_digits_in(cs, 0, c.len()) {
        assert(c@.subrange(0, c@.len() as int) =~= c@);
        push_tok(tokens, Token { kind: TokenKind::Number, text: w, normalized: None });
        assert(tvs(tokens@) =~= before + word_tokens(*kb, word@));
        return;
    }
    assert(c@.subrange(0, c@.len() as int) =~= c@);
    let cstr = string_all(cs);
    if let Some(collab) = match_collaboration(kb, cstr.as_str()) {
        push_tok(tokens, Token { kind: TokenKind::Collaboration, text: w, normalized: Some(collab) });
        assert(tvs(tokens@) =~= before + word_tokens(*kb, word@));
        return;
    }
    push_tok(tokens, Token { kind: TokenKind::Word, text: w, normalized: None });
    assert(tvs(tokens@) =~= before + word_tokens(*kb, word@));
}

/// The words of `s[0..hi]` split at whitespace, and the word in progress.
pub open spec fn words_acc(s: Seq<char>, hi: int) -> (Seq<Seq<char>>, Seq<char>)
    decreases hi,
{
    if hi <= 0 {
        (Seq::empty(), Seq::empty())
    } else {
        let (ws, cur) = words_acc(s, hi - 1);
        if is_space(s[hi - 1]) {
            if cur.len() > 0 {
                (ws.push(cur), Seq::empty())
            } else {
                (ws, cur)
            }
        } else {
            (ws, cur.push(s[hi - 1]))
        }
    }
}

/// The whitespace-separated words of `s`.
pub open spec fn words(s: Seq<char>) -> Seq<Seq<char>> {
    let (ws, cur) = words_acc(s, s.len() as int);
    if cur.len() > 0 {
        ws.push(cur)
    } else {
        ws
    }
}

/// Whether a word ends with a dash once trailing `,.;:` are removed.
pub open spec fn ends_with_dash(w: Seq<char>) -> bool {
    let t = crate::text::strip_end(w, Strip::Punct);
    t.len() > 0 && is_dash(t.last())
}

/// The tokens of the words `ws[i..]`, where a word ending in a dash is
/// rejoined with a following word that starts with a digit.
pub open spec fn words_tokens(kb: KnowledgeBase, ws: Seq<Seq<char>>, i: int) -> Seq<(TokenKind, Seq<char>, Option<Seq<char>>)>
    decreases ws.len() - i,
{
    if i < 0 || i >= ws.len() {
        Seq::empty()
    } else if i + 1 < ws.len() && ends_with_dash(ws[i]) && ws[i + 1].len() > 0 && is_digit(ws[i + 1][0]) {
        word_tokens(kb, ws[i] + ws[i + 1]) + words_tokens(kb, ws, i + 2)
    } else {
        word_tokens(kb, ws[i]) + words_tokens(kb, ws, i + 1)
    }
}

/// The tokens of a stretch of text between identifiers.
pub open spec fn gap_tokens(kb: KnowledgeBase, s: Seq<char>) -> Seq<(TokenKind, Seq<char>, Option<Seq<char>>)> {
    words_tokens(kb, words(s), 0)
}

fn split_words(v: &[char]) -> (r: Vec<Vec<char>>)
    ensures
        crate::text::char_views(r@) == words(v@),
{
    let mut ws: Vec<Vec<char>> = Vec::new();
    let mut cur: Vec<char> = Vec::new();
    let mut i: usize = 0;
    while i < v.len()
        invariant
            i <= v@.len(),
            words_acc(v@, i as int) == (crate::text::char_views(ws@), cur@),
        decreases v.len() - i,
    {
        if space(v[i]) {
            if cur.len() > 0 {
                let ghost before = crate::text::char_views(ws@);
                let done = cur;
                ws.push(done);
                assert(crate::text::char_views(ws@) =~= before.push(done@));
                cur = Vec::new();
            }
        } else {
            cur.push(v[i]);
        }
        i += 1;
    }
    if cur.len() > 0 {
        let ghost before = crate::text::char_views(ws@);
        let done = cur;
        ws.push(done);
        assert(crate::text::char_views(ws@) =~= before.push(done@));
    }
    ws
}

fn word_ends_with_dash(w: &Vec<char>) -> (r: bool)
    ensures
        r == ends_with_dash(w@),
{
    let t = crate::text::stripped_end(w.as_slice(), Strip::Punct);
    t.len() > 0 && dash(t[t.len() - 1])
}

/// Classify the words of a stretch of text between identifiers.
fn classify_gap(kb: &KnowledgeBase, text: &[char], tokens: &mut Vec<Token>)
    ensures
        tvs(final(tokens)@) == tvs(old(tokens)@) + gap_tokens(*kb, text@),
{
    let ws = split_words(text);
    let ghost wv = crate::text::char_views(ws@);
    let ghost start = tvs(tokens@);
    let mut i: usize = 0;
    while i < ws.len()
        invariant
            i <= ws@.len(),
            wv == crate::text::char_views(ws@),
            wv == words(text@),
            start + gap_tokens(*kb, text@) == tvs(tokens@) + words_tokens(*kb, wv, i as int),
        decreases ws.len() - i,
    {
        assert(wv[i as int] == ws@[i as int]@);
        let ghost before = tvs(tokens@);
        if ws.len() - i > 1 && word_ends_with_dash(&ws[i]) && ws[i + 1].len() > 0 && digit(ws[i + 1][0]) {
            assert(wv[i + 1] == ws@[i + 1]@);
            let mut joined = ws[i].clone();
            let next = &ws[i + 1];
            crate::text::extend_from(&mut joined, next.as_slice(), 0, next.len());
            assert(next@.subrange(0, next@.len() as int) =~= next@);
            classify_word(kb, &joined, tokens);
            assert(tvs(tokens@) + words_tokens(*kb, wv, i + 2) =~= before + words_tokens(*kb, wv, i as int));
            i += 2;
        } else {
            classify_word(kb, &ws[i], tokens);
            assert(tvs(tokens@) + words_tokens(*kb, wv, i + 1) =~= before + words_tokens(*kb, wv, i as int));
            i += 1;
        }
    }
    assert(words_tokens(*kb, wv, i as int) =~= Seq::<(TokenKind, Seq<char>, Option<Seq<char>>)>::empty());
    assert(tvs(tokens@) =~= tvs(tokens@) + words_tokens(*kb, wv, i as int));
}


// ── Identifier spans ───────────────────────────────────────────────────────

/// A character that ends a DOI or URL: whitespace, `,` or `;`.
pub open spec fn ends_ident(c: char) -> bool {
    is_space(c) || c == ',' || c == ';'
}

pub open spec fn ident_run(s: Seq<char>, i: int) -> int
    decreases s.len() - i,
{
    if 0 <= i < s.len() && !ends_ident(s[i]) {
        ident_run(s, i + 1)
    } else {
        i
    }
}

fn ident_run_end(v: &[char], i: usize) -> (r: usize)
    requires
        i <= v@.len(),
    ensures
        r == ident_run(v@, i as int),
        i <= r <= v@.len(),
{
    let mut k = i;
    while k < v.len() && !(space(v[k]) || v[k] == ',' || v[k] == ';')
        invariant
            i <= k <= v@.len(),
            ident_run(v@, k as int) == ident_run(v@, i as int),
        decreases v.len() - k,
    {
        k += 1;
    }
    k
}

/// The kinds of identifier found by shape.
#[derive(Clone, Copy, Debug, PartialEq, Eq, Structural)]
pub enum Shape {
    /// `10.` four or more digits, `/`, and non-separators.
    Doi,
    /// `http://` or `https://` and non-separators.
    Url,
    /// Four digits, `.`, four or five digits, an optional version.
    ArxivNew,
    /// `978` or `979` and the digit groups of an ISBN.
    Isbn,
}

/// The end of a DOI that starts at `i`.
pub open spec fn doi_at(s: Seq<char>, i: int) -> Option<int> {
    let d = digit_run(s, i + 3);
    if starts_at(s, i, seq!['1', '0', '.']) && d >= i + 7 && d < s.len() && s[d] == '/' && ident_run(s, d + 1) > d + 1 {
        Some(ident_run(s, d + 1))
    } else {
        None
    }
}

/// The end of a URL that starts at `i`.
pub open spec fn url_at(s: Seq<char>, i: int) -> Option<int> {
    let j = if i + 4 < s.len() && s[i + 4] == 's' {
        i + 5
    } else {
        i + 4
    };
    if starts_at(s, i, seq!['h', 't', 't', 'p']) && starts_at(s, j, seq![':', '/', '/']) && ident_run(s, j + 3) > j + 3 {
        Some(ident_run(s, j + 3))
    } else {
        None
    }
}

/// The end of an optional version suffix `v` and digits at `e`.
pub open spec fn version_end(s: Seq<char>, e: int) -> int {
    if 0 <= e && e + 1 < s.len() && s[e] == 'v' && is_digit(s[e + 1]) {
        digit_run(s, e + 1)
    } else {
        e
    }
}

/// The end of a new-style arXiv id that starts at `i`.
pub open spec fn arxiv_new_at(s: Seq<char>, i: int) -> Option<int> {
    let d = digit_run(s, i + 5);
    let e = if d - (i + 5) >= 5 {
        i + 10
    } else {
        d
    };
    if 0 <= i && i + 5 <= s.len() && all_digits(s.subrange(i, i + 4)) && s[i + 4] == '.' && d - (i + 5) >= 4 {
        Some(version_end(s, e))
    } else {
        None
    }
}

pub open spec fn is_isbn_sep(c: char) -> bool {
    c == '-' || is_space(c)
}

/// The end of the rest of an ISBN from element `k` at `p`, by the
/// leftmost-first rule: optional separators are taken when they lead to a
/// match, and digit groups are taken as long as they can be.
pub open spec fn isbn_rest(s: Seq<char>, p: int, k: int) -> Option<int>
    decreases 8 - k, 6int,
{
    if k >= 8 || k < 0 {
        Some(p)
    } else if k == 0 || k == 2 || k == 4 || k == 6 {
        if 0 <= p < s.len() && is_isbn_sep(s[p]) && isbn_rest(s, p + 1, k + 1) is Some {
            isbn_rest(s, p + 1, k + 1)
        } else {
            isbn_rest(s, p, k + 1)
        }
    } else if k == 1 || k == 7 {
        if 0 <= p < s.len() && is_digit(s[p]) {
            isbn_rest(s, p + 1, k + 1)
        } else {
            None
        }
    } else {
        isbn_group(s, p, k, 5)
    }
}

/// A group of `n` digits down to two at `p`, then the rest from element `k + 1`.
pub open spec fn isbn_group(s: Seq<char>, p: int, k: int, n: int) -> Option<int>
    decreases 8 - k, n,
{
    if n < 2 || k < 0 || k >= 8 {
        None
    } else if 0 <= p && p + n <= s.len() && all_digits(s.subrange(p, p + n)) && isbn_rest(s, p + n, k + 1) is Some {
        isbn_rest(s, p + n, k + 1)
    } else {
        isbn_group(s, p, k, n - 1)
    }
}

/// The end of an ISBN that starts at `i`.
pub open spec fn isbn_at(s: Seq<char>, i: int) -> Option<int> {
    if starts_at(s, i, seq!['9', '7', '8']) || starts_at(s, i, seq!['9', '7', '9']) {
        isbn_rest(s, i + 3, 0)
    } else {
        None
    }
}

pub open spec fn shape_at(m: Shape, s: Seq<char>, i: int) -> Option<int> {
    match m {
        Shape::Doi => doi_at(s, i),
        Shape::Url => url_at(s, i),
        Shape::ArxivNew => arxiv_new_at(s, i),
        Shape::Isbn => isbn_at(s, i),
    }
}

/// The successive non-overlapping leftmost matches of a shape from `pos` on.
pub open spec fn shape_matches(m: Shape, s: Seq<char>, pos: int) -> Seq<(int, int)>
    decreases s.len() - pos,
{
    if pos < 0 || pos >= s.len() {
        Seq::empty()
    } else {
        match shape_at(m, s, pos) {
            Some(e) => if pos < e <= s.len() {
                seq![(pos, e)] + shape_matches(m, s, e)
            } else {
                shape_matches(m, s, pos + 1)
            },
            None => shape_matches(m, s, pos + 1),
        }
    }
}

fn doi_end(v: &[char], i: usize) -> (r: Option<usize>)
    requires
        i <= v@.len(),
    ensures
        r is None <==> doi_at(v@, i as int) is None,
        r matches Some(e) ==> doi_at(v@, i as int) == Some(e as int) && e <= v@.len(),
{
    let p = lit("10.");
    proof {
        reveal_strlit("10.");
    }
    assert(p@ =~= seq!['1', '0', '.']);
    if !has_at(v, i, p.as_slice()) {
        return None;
    }
    let n = v.len();
    assert(i + 3 <= n);
    let d = digit_run_end(v, i + 3);
    if d - (i + 3) >= 4 && d < v.len() && v[d] == '/' {
        let e = ident_run_end(v, d + 1);
        if e > d + 1 {
            return Some(e);
        }
    }
    None
}

fn url_end(v: &[char], i: usize) -> (r: Option<usize>)
    requires
        i <= v@.len(),
    ensures
        r is None <==> url_at(v@, i as int) is None,
        r matches Some(e) ==> url_at(v@, i as int) == Some(e as int) && e <= v@.len(),
{
    let h = lit("http");
    let sep = lit("://");
    proof {
        reveal_strlit("http");
        reveal_strlit("://");
    }
    assert(h@ =~= seq!['h', 't', 't', 'p']);
    assert(sep@ =~= seq![':', '/', '/']);
    if !has_at(v, i, h.as_slice()) {
        return None;
    }
    let j = if v.len() - i > 4 && v[i + 4] == 's' { i + 5 } else { i + 4 };
    if !has_at(v, j, sep.as_slice()) {
        return None;
    }
    let e = ident_run_end(v, j + 3);
    if e > j + 3 {
        Some(e)
    } else {
        None
    }
}

fn version_end_exec(v: &[char], e: usize) -> (r: usize)
    requires
        e <= v@.len(),
    ensures
        r == version_end(v@, e as int),
        e <= r <= v@.len(),
{
    if v.len() - e > 1 && v[e] == 'v' && digit(v[e + 1]) {
        digit_run_end(v, e + 1)
    } else {
        e
    }
}

fn arxiv_new_end(v: &[char], i: usize) -> (r: Option<usize>)
    requires
        i <= v@.len(),
    ensures
        r is None <==> arxiv_new_at(v@, i as int) is None,
        r matches Some(e) ==> arxiv_new_at(v@, i as int) == Some(e as int) && e <= v@.len(),
{
    if v.len() - i < 5 || !all_digits_in(v, i, i + 4) || v[i + 4] != '.' {
        return None;
    }
    let d = digit_run_end(v, i + 5);
    if d - (i + 5) < 4 {
        return None;
    }
    let e = if d - (i + 5) >= 5 { i + 10 } else { d };
    Some(version_end_exec(v, e))
}

fn isbn_sep(c: char) -> (r: bool)
    ensures
        r == is_isbn_sep(c),
{
    c == '-' || space(c)
}

fn isbn_rest_exec(v: &[char], p: usize, k: usize) -> (r: Option<usize>)
    requires
        p <= v@.len(),
        k <= 8,
    ensures
        r is None <==> isbn_rest(v@, p as int, k as int) is None,
        r matches Some(e) ==> isbn_rest(v@, p as int, k as int) == Some(e as int) && e <= v@.len(),
    decreases 8 - k, 6usize,
{
    if k >= 8 {
        return Some(p);
    }
    if k == 0 || k == 2 || k == 4 || k == 6 {
        if p < v.len() && isbn_sep(v[p]) {
            if let Some(e) = isbn_rest_exec(v, p + 1, k + 1) {
                return Some(e);
            }
        }
        return isbn_rest_exec(v, p, k + 1);
    }
    if k == 1 || k == 7 {
        if p < v.len() && digit(v[p]) {
            return isbn_rest_exec(v, p + 1, k + 1);
        }
        return None;
    }
    isbn_group_exec(v, p, k, 5)
}

fn isbn_group_exec(v: &[char], p: usize, k: usize, n: usize) -> (r: Option<usize>)
    requires
        p <= v@.len(),
        k < 8,
        n <= 5,
    ensures
        r is None <==> isbn_group(v@, p as int, k as int, n as int) is None,
        r matches Some(e) ==> isbn_group(v@, p as int, k as int, n as int) == Some(e as int) && e <= v@.len(),
    decreases 8 - k, n,
{
    if n < 2 {
        return None;
    }
    if v.len() - p >= n && all_digits_in(v, p, p + n) {
        if let Some(e) = isbn_rest_exec(v, p + n, k + 1) {
            return Some(e);
        }
    }
    isbn_group_exec(v, p, k, n - 1)
}

fn isbn_end(v: &[char], i: usize) -> (r: Option<usize>)
    requires
        i <= v@.len(),
    ensures
        r is None <==> isbn_at(v@, i as int) is None,
        r matches Some(e) ==> isbn_at(v@, i as int) == Some(e as int) && e <= v@.len(),
{
    let a = lit("978");
    let b = lit("979");
    proof {
        reveal_strlit("978");
        reveal_strlit("979");
    }
    assert(a@ =~= seq!['9', '7', '8']);
    assert(b@ =~= seq!['9', '7', '9']);
    if has_at(v, i, a.as_slice()) || has_at(v, i, b.as_slice()) {
        let n = v.len();
        assert(i + 3 <= n);
        isbn_rest_exec(v, i + 3, 0)
    } else {
        None
    }
}

fn shape_end(m: Shape, v: &[char], i: usize) -> (r: Option<usize>)
    requires
        i <= v@.len(),
    ensures
        r is None <==> shape_at(m, v@, i as int) is None,
        r matches Some(e) ==> shape_at(m, v@, i as int) == Some(e as int) && e <= v@.len(),
{
    match m {
        Shape::Doi => doi_end(v, i),
        Shape::Url => url_end(v, i),
        Shape::ArxivNew => arxiv_new_end(v, i),
        Shape::Isbn => isbn_end(v, i),
    }
}

/// The successive non-overlapping leftmost matches of a shape.
fn find_shape(m: Shape, v: &[char]) -> (r: Vec<(usize, usize)>)
    ensures
        r@.map_values(|x: (usize, usize)| (x.0 as int, x.1 as int)) == shape_matches(m, v@, 0),
{
    let mut out: Vec<(usize, usize)> = Vec::new();
    let mut pos: usize = 0;
    while pos < v.len()
        invariant
            pos <= v@.len(),
            out@.map_values(|x: (usize, usize)| (x.0 as int, x.1 as int)) + shape_matches(m, v@, pos as int)
                == shape_matches(m, v@, 0),
        decreases v.len() - pos,
    {
        let ghost before = out@.map_values(|x: (usize, usize)| (x.0 as int, x.1 as int));
        match shape_end(m, v, pos) {
            Some(e) => {
                if e > pos {
                    out.push((pos, e));
                    assert(out@.map_values(|x: (usize, usize)| (x.0 as int, x.1 as int)) =~= before.push((pos as int, e as int)));
                    assert(before + shape_matches(m, v@, pos as int) =~= before.push((pos as int, e as int)) + shape_matches(m, v@, e as int));
                    pos = e;
                } else {
                    pos += 1;
                }
            },
            None => {
                pos += 1;
            },
        }
    }
    assert(shape_matches(m, v@, pos as int) =~= Seq::<(int, int)>::empty());
    assert(out@.map_values(|x: (usize, usize)| (x.0 as int, x.1 as int)) =~= out@.map_values(|x: (usize, usize)| (x.0 as int, x.1 as int)) + shape_matches(m, v@, pos as int));
    out
}


/// An identifier found in the text: its character range, kind, text and
/// normalized form.
pub struct Span {
    pub start: usize,
    pub end: usize,
    pub kind: TokenKind,
    pub text: String,
    pub normalized: Option<String>,
}

/// A span as plain values: start, end, kind, text, normalized text.
pub type SpanV = (int, int, TokenKind, Seq<char>, Option<Seq<char>>);

pub open spec fn spv(s: Span) -> SpanV {
    (s.start as int, s.end as int, s.kind, s.text@, sv(s.normalized))
}

pub open spec fn spvs(v: Seq<Span>) -> Seq<SpanV> {
    v.map_values(|s: Span| spv(s))
}

/// Whether span `x` overlaps `start..end`.
pub open spec fn overlaps(x: SpanV, start: int, end: int) -> bool {
    start < x.1 && end > x.0
}

/// Whether any span overlaps `start..end`.
pub open spec fn overlaps_any(sp: Seq<SpanV>, start: int, end: int) -> bool {
    exists|k: int| 0 <= k < sp.len() && overlaps(#[trigger] sp[k], start, end)
}

/// Spans that are within `0..n`, non-empty, sorted by start and pairwise
/// non-overlapping.
pub open spec fn spans_ok(sp: Seq<SpanV>, n: int) -> bool {
    &&& forall|k: int| 0 <= k < sp.len() ==> 0 <= (#[trigger] sp[k]).0 < sp[k].1 <= n
    &&& forall|a: int, b: int| 0 <= a < b < sp.len() ==> (#[trigger] sp[a]).1 <= (#[trigger] sp[b]).0
}

/// Spans within `0..n` that are non-empty.
pub open spec fn spans_in(sp: Seq<SpanV>, n: int) -> bool {
    forall|k: int| 0 <= k < sp.len() ==> 0 <= (#[trigger] sp[k]).0 < sp[k].1 <= n
}

/// A candidate joins the spans when it is non-empty, within `0..n`, and
/// overlaps none of them.
pub open spec fn add_one(sp: Seq<SpanV>, n: int, x: SpanV) -> Seq<SpanV> {
    if 0 <= x.0 < x.1 <= n && !overlaps_any(sp, x.0, x.1) {
        sp.push(x)
    } else {
        sp
    }
}

/// The candidates `c[0..k]` added in turn.
pub open spec fn add_upto(sp: Seq<SpanV>, n: int, c: Seq<SpanV>, k: int) -> Seq<SpanV>
    decreases k,
{
    if k <= 0 {
        sp
    } else {
        add_one(add_upto(sp, n, c, k - 1), n, c[k - 1])
    }
}

pub open spec fn add_all(sp: Seq<SpanV>, n: int, c: Seq<SpanV>) -> Seq<SpanV> {
    add_upto(sp, n, c, c.len() as int)
}

fn overlaps_existing(spans: &Vec<Span>, start: usize, end: usize) -> (r: bool)
    ensures
        r == overlaps_any(spvs(spans@), start as int, end as int),
{
    let ghost v = spvs(spans@);
    let mut k: usize = 0;
    while k < spans.len()
        invariant
            k <= spans@.len(),
            v == spvs(spans@),
            forall|m: int| 0 <= m < k ==> !overlaps(#[trigger] v[m], start as int, end as int),
        decreases spans.len() - k,
    {
        assert(v[k as int] == spv(spans@[k as int]));
        if start < spans[k].end && end > spans[k].start {
            return true;
        }
        k += 1;
    }
    false
}

/// Add a span unless it is empty, out of bounds or overlaps one already found.
fn add_span(spans: &mut Vec<Span>, n: usize, sp: Span)
    ensures
        spvs(final(spans)@) == add_one(spvs(old(spans)@), n as int, spv(sp)),
{
    if sp.start < sp.end && sp.end <= n && !overlaps_existing(spans, sp.start, sp.end) {
        let ghost before = spvs(spans@);
        let ghost x = spv(sp);
        spans.push(sp);
        assert(spvs(spans@) =~= before.push(x));
    }
}

proof fn lemma_add_in(sp: Seq<SpanV>, n: int, c: Seq<SpanV>, k: int)
    requires
        spans_in(sp, n),
    ensures
        spans_in(add_upto(sp, n, c, k), n),
    decreases k,
{
    if k > 0 {
        lemma_add_in(sp, n, c, k - 1);
        let prev = add_upto(sp, n, c, k - 1);
        let x = c[k - 1];
        if 0 <= x.0 < x.1 <= n && !overlaps_any(prev, x.0, x.1) {
            assert forall|m: int| 0 <= m < prev.push(x).len() implies 0 <= (#[trigger] prev.push(x)[m]).0
                < prev.push(x)[m].1 <= n by {
                if m < prev.len() {
                    assert(prev.push(x)[m] == prev[m]);
                }
            }
        }
    }
}

/// "hep ph/0202058" → "hep-ph/0202058": whitespace before a letter becomes a
/// hyphen, other whitespace goes.
pub open spec fn arxiv_old_norm(s: Seq<char>, hi: int) -> Seq<char>
    decreases hi,
{
    if hi <= 0 {
        Seq::empty()
    } else {
        let prev = arxiv_old_norm(s, hi - 1);
        let c = s[hi - 1];
        if c == ' ' || c == '\t' {
            if hi < s.len() && crate::text::is_alpha(s[hi]) {
                prev.push('-')
            } else {
                prev
            }
        } else {
            prev.push(c)
        }
    }
}

fn normalize_arxiv_old(raw: &[char]) -> (r: Vec<char>)
    ensures
        r@ == arxiv_old_norm(raw@, raw@.len() as int),
{
    let mut out: Vec<char> = Vec::new();
    let mut i: usize = 0;
    while i < raw.len()
        invariant
            i <= raw@.len(),
            out@ == arxiv_old_norm(raw@, i as int),
        decreases raw.len() - i,
    {
        let c = raw[i];
        if c == ' ' || c == '\t' {
            if raw.len() - i > 1 && (upper(raw[i + 1]) || lower(raw[i + 1])) {
                out.push('-');
            }
        } else {
            out.push(c);
        }
        i += 1;
    }
    out
}

/// The archive names of old-style arXiv ids.
pub open spec fn archives() -> Seq<Seq<char>> {
    seq![
        "hep"@, "astro"@, "cond"@, "gr"@, "math"@, "nucl"@, "physics"@, "quant"@, "cs"@,
        "nlin"@, "q-bio"@, "q-fin"@, "stat"@
    ]
}

/// The end of the run of ASCII lower-case letters from `i`.
pub open spec fn lower_run(s: Seq<char>, i: int) -> int
    decreases s.len() - i,
{
    if 0 <= i < s.len() && is_lower(s[i]) {
        lower_run(s, i + 1)
    } else {
        i
    }
}

/// Whitespace or `/`.
pub open spec fn is_slash_sep(c: char) -> bool {
    is_space(c) || c == '/'
}

pub open spec fn slash_run(s: Seq<char>, i: int) -> int
    decreases s.len() - i,
{
    if 0 <= i < s.len() && is_slash_sep(s[i]) {
        slash_run(s, i + 1)
    } else {
        i
    }
}

/// The end of the number part of an old-style id at `p`: separators, seven
/// digits, an optional version.
pub open spec fn arxiv_old_tail(s: Seq<char>, p: int) -> Option<int> {
    let q = slash_run(s, p);
    if q > p && q + 7 <= s.len() && all_digits(s.subrange(q, q + 7)) {
        Some(version_end(s, q + 7))
    } else {
        None
    }
}

/// The end of an old-style id whose archive name ends at `a`: with a
/// subject class of three, then two letters, then without one.
pub open spec fn arxiv_old_after(s: Seq<char>, a: int) -> Option<int> {
    let sub = 0 <= a < s.len() && (is_space(s[a]) || s[a] == '-');
    let l = lower_run(s, a + 1) - (a + 1);
    if sub && l >= 3 && arxiv_old_tail(s, a + 4) is Some {
        arxiv_old_tail(s, a + 4)
    } else if sub && l >= 2 && arxiv_old_tail(s, a + 3) is Some {
        arxiv_old_tail(s, a + 3)
    } else {
        arxiv_old_tail(s, a)
    }
}

/// The first archive among `archives()[k..]` that starts at `i`, and the
/// end of the id that follows it.
pub open spec fn arxiv_old_from(s: Seq<char>, i: int, k: int) -> Option<int>
    decreases archives().len() - k,
{
    if k < 0 || k >= archives().len() {
        None
    } else if starts_at(s, i, archives()[k]) {
        arxiv_old_after(s, i + archives()[k].len())
    } else {
        arxiv_old_from(s, i, k + 1)
    }
}

fn lower_run_end(v: &[char], i: usize) -> (r: usize)
    requires
        i <= v@.len(),
    ensures
        r == lower_run(v@, i as int),
        i <= r <= v@.len(),
{
    let mut k = i;
    while k < v.len() && lower(v[k])
        invariant
            i <= k <= v@.len(),
            lower_run(v@, k as int) == lower_run(v@, i as int),
        decreases v.len() - k,
    {
        k += 1;
    }
    k
}

fn arxiv_old_tail_exec(v: &[char], p: usize) -> (r: Option<usize>)
    requires
        p <= v@.len(),
    ensures
        r is None <==> arxiv_old_tail(v@, p as int) is None,
        r matches Some(e) ==> arxiv_old_tail(v@, p as int) == Some(e as int) && e <= v@.len(),
{
    let mut q = p;
    while q < v.len() && (space(v[q]) || v[q] == '/')
        invariant
            p <= q <= v@.len(),
            slash_run(v@, q as int) == slash_run(v@, p as int),
        decreases v.len() - q,
    {
        q += 1;
    }
    if q > p && v.len() - q >= 7 && all_digits_in(v, q, q + 7) {
        Some(version_end_exec(v, q + 7))
    } else {
        None
    }
}

fn arxiv_old_after_exec(v: &[char], a: usize) -> (r: Option<usize>)
    requires
        a <= v@.len(),
    ensures
        r is None <==> arxiv_old_after(v@, a as int) is None,
        r matches Some(e) ==> arxiv_old_after(v@, a as int) == Some(e as int) && e <= v@.len(),
{
    let sub = a < v.len() && (space(v[a]) || v[a] == '-');
    if sub {
        let l = lower_run_end(v, a + 1) - (a + 1);
        if l >= 3 {
            if let Some(e) = arxiv_old_tail_exec(v, a + 4) {
                return Some(e);
            }
        }
        if l >= 2 {
            if let Some(e) = arxiv_old_tail_exec(v, a + 3) {
                return Some(e);
            }
        }
    }
    arxiv_old_tail_exec(v, a)
}

fn arxiv_old_end(v: &[char], i: usize) -> (r: Option<usize>)
    requires
        i <= v@.len(),
    ensures
        r is None <==> arxiv_old_from(v@, i as int, 0) is None,
        r matches Some(e) ==> arxiv_old_from(v@, i as int, 0) == Some(e as int) && e <= v@.len(),
{
    let names: Vec<&str> = vec![
        "hep", "astro", "cond", "gr", "math", "nucl", "physics", "quant", "cs", "nlin", "q-bio",
        "q-fin", "stat",
    ];
    assert(names@.len() == archives().len());
    let mut k: usize = 0;
    while k < names.len()
        invariant
            k <= names@.len(),
            i <= v@.len(),
            names@.len() == archives().len(),
            forall|m: int| 0 <= m < names@.len() ==> (#[trigger] names@[m])@ == archives()[m],
            arxiv_old_from(v@, i as int, k as int) == arxiv_old_from(v@, i as int, 0),
        decreases names.len() - k,
    {
        let a = lit(names[k]);
        if has_at(v, i, a.as_slice()) {
            let n = v.len();
            assert(i + a@.len() <= n);
            return arxiv_old_after_exec(v, i + a.len());
        }
        k += 1;
    }
    None
}

/// The successive non-overlapping leftmost old-style arXiv ids from `pos` on.
pub open spec fn arxiv_old_matches(s: Seq<char>, pos: int) -> Seq<(int, int)>
    decreases s.len() - pos,
{
    if pos < 0 || pos >= s.len() {
        Seq::empty()
    } else {
        match arxiv_old_from(s, pos, 0) {
            Some(e) => if pos < e <= s.len() {
                seq![(pos, e)] + arxiv_old_matches(s, e)
            } else {
                arxiv_old_matches(s, pos + 1)
            },
            None => arxiv_old_matches(s, pos + 1),
        }
    }
}

fn find_arxiv_old(v: &[char]) -> (r: Vec<(usize, usize)>)
    ensures
        r@.map_values(|x: (usize, usize)| (x.0 as int, x.1 as int)) == arxiv_old_matches(v@, 0),
{
    let mut out: Vec<(usize, usize)> = Vec::new();
    let mut pos: usize = 0;
    while pos < v.len()
        invariant
            pos <= v@.len(),
            out@.map_values(|x: (usize, usize)| (x.0 as int, x.1 as int)) + arxiv_old_matches(v@, pos as int)
                == arxiv_old_matches(v@, 0),
        decreases v.len() - pos,
    {
        let ghost before = out@.map_values(|x: (usize, usize)| (x.0 as int, x.1 as int));
        match arxiv_old_end(v, pos) {
            Some(e) => {
                if e > pos {
                    out.push((pos, e));
                    assert(out@.map_values(|x: (usize, usize)| (x.0 as int, x.1 as int)) =~= before.push((pos as int, e as int)));
                    assert(before + arxiv_old_matches(v@, pos as int) =~= before.push((pos as int, e as int)) + arxiv_old_matches(v@, e as int));
                    pos = e;
                } else {
                    pos += 1;
                }
            },
            None => {
                pos += 1;
            },
        }
    }
    assert(arxiv_old_matches(v@, pos as int) =~= Seq::<(int, int)>::empty());
    assert(out@.map_values(|x: (usize, usize)| (x.0 as int, x.1 as int)) =~= out@.map_values(|x: (usize, usize)| (x.0 as int, x.1 as int)) + arxiv_old_matches(v@, pos as int));
    out
}


/// The quoted regions from `from` on: from an `open` to the next `close`,
/// then on after it.
pub open spec fn quote_pairs(s: Seq<char>, open: char, close: char, from: int) -> Seq<(int, int)>
    decreases s.len() - from,
{
    if from < 0 || from >= s.len() {
        Seq::empty()
    } else {
        match crate::text::find_char_from(s, open, from) {
            Some(a) => match crate::text::find_char_from(s, close, a + 1) {
                Some(e) => if e + 1 > from && e + 1 <= s.len() {
                    seq![(a, e + 1)] + quote_pairs(s, open, close, e + 1)
                } else {
                    Seq::empty()
                },
                None => Seq::empty(),
            },
            None => Seq::empty(),
        }
    }
}

/// The quoted regions of curly quotes, right quotes used on both sides, and
/// ASCII quotes.
pub open spec fn quoted_regions(s: Seq<char>) -> Seq<(int, int)> {
    quote_pairs(s, '\u{201c}', '\u{201d}', 0) + quote_pairs(s, '\u{201d}', '\u{201d}', 0) + quote_pairs(s, '"', '"', 0)
}

pub open spec fn region_views(v: Seq<(usize, usize)>) -> Seq<(int, int)> {
    v.map_values(|x: (usize, usize)| (x.0 as int, x.1 as int))
}

proof fn lemma_find_char_at_least(s: Seq<char>, c: char, i: int)
    requires
        0 <= i,
    ensures
        crate::text::find_char_from(s, c, i) matches Some(k) ==> i <= k < s.len(),
    decreases s.len() - i,
{
    if i < s.len() && s[i] != c {
        lemma_find_char_at_least(s, c, i + 1);
    }
}

fn find_quote_pairs(text: &[char], open: char, close: char, regions: &mut Vec<(usize, usize)>)
    ensures
        region_views(final(regions)@) == region_views(old(regions)@) + quote_pairs(text@, open, close, 0),
{
    let ghost start = region_views(regions@);
    let mut from: usize = 0;
    while from < text.len()
        invariant_except_break
            region_views(regions@) + quote_pairs(text@, open, close, from as int) == start + quote_pairs(text@, open, close, 0),
        invariant
            from <= text@.len(),
            start == region_views(old(regions)@),
        ensures
            region_views(regions@) == start + quote_pairs(text@, open, close, 0),
        decreases text.len() - from,
    {
        let ghost before = region_views(regions@);
        match crate::text::find_char(text, open, from) {
            Some(a) => {
                match crate::text::find_char(text, close, a + 1) {
                    Some(e) => {
                        regions.push((a, e + 1));
                        assert(region_views(regions@) =~= before.push((a as int, e + 1)));
                        assert(before + quote_pairs(text@, open, close, from as int) =~= region_views(regions@) + quote_pairs(text@, open, close, e + 1));
                        from = e + 1;
                    },
                    None => {
                        assert(before =~= before + quote_pairs(text@, open, close, from as int));
                        break;
                    },
                }
            },
            None => {
                assert(before =~= before + quote_pairs(text@, open, close, from as int));
                break;
            },
        }
    }
}

pub open spec fn in_region(r: Seq<(int, int)>, pos: int) -> bool {
    exists|k: int| 0 <= k < r.len() && (#[trigger] r[k]).0 <= pos < r[k].1
}

fn in_quoted_region(pos: usize, regions: &Vec<(usize, usize)>) -> (r: bool)
    ensures
        r == in_region(region_views(regions@), pos as int),
{
    let ghost v = region_views(regions@);
    let mut k: usize = 0;
    while k < regions.len()
        invariant
            k <= regions@.len(),
            v == region_views(regions@),
            forall|m: int| 0 <= m < k ==> !((#[trigger] v[m]).0 <= pos < v[m].1),
        decreases regions.len() - k,
    {
        assert(v[k as int] == (regions@[k as int].0 as int, regions@[k as int].1 as int));
        if regions[k].0 <= pos && pos < regions[k].1 {
            return true;
        }
        k += 1;
    }
    false
}

/// The end of the run of ASCII spaces from `i`.
pub open spec fn space_only_run(s: Seq<char>, i: int) -> int
    decreases s.len() - i,
{
    if 0 <= i < s.len() && s[i] == ' ' {
        space_only_run(s, i + 1)
    } else {
        i
    }
}

/// A journal match ending at `end`, extended by a following section letter
/// (after an optional comma and spaces) that a digit follows: "Phys. Rev." +
/// " D31" → "Phys. Rev. D", the volume left outside.
pub open spec fn section_extension(s: Seq<char>, end: int, ab: Seq<char>) -> (int, Seq<char>) {
    let i0 = if 0 <= end < s.len() && s[end] == ',' {
        end + 1
    } else {
        end
    };
    let i = space_only_run(s, i0);
    if 0 <= i && i + 1 < s.len() && is_upper(s[i]) && is_digit(s[i + 1]) {
        (i + 1, ab + seq![' ', s[i]])
    } else {
        (end, ab)
    }
}

fn extend_section_letter(text: &[char], end: usize, abbrev: String) -> (r: (usize, String))
    requires
        end <= text@.len(),
    ensures
        (r.0 as int, r.1@) == section_extension(text@, end as int, abbrev@),
        end <= r.0 <= text@.len(),
{
    let mut i = end;
    if i < text.len() && text[i] == ',' {
        i += 1;
    }
    let i0 = i;
    while i < text.len() && text[i] == ' '
        invariant
            end <= i0 <= i <= text@.len(),
            space_only_run(text@, i as int) == space_only_run(text@, i0 as int),
        decreases text.len() - i,
    {
        i += 1;
    }
    if text.len() - i > 1 && upper(text[i]) && digit(text[i + 1]) {
        let mut a = abbrev;
        let ghost a0 = a@;
        push_char(&mut a, ' ');
        push_char(&mut a, text[i]);
        assert(a@ =~= a0 + seq![' ', text@[i as int]]);
        return (i + 1, a);
    }
    (end, abbrev)
}

/// The journal-name scan from `pos`, outside quoted regions and spans already
/// found; each match joins the spans and the scan goes on after it.
pub open spec fn journal_scan(kb: KnowledgeBase, s: Seq<char>, regions: Seq<(int, int)>, sp: Seq<SpanV>, pos: int) -> Seq<SpanV>
    decreases s.len() - pos,
{
    if pos < 0 || pos >= s.len() {
        sp
    } else if in_region(regions, pos) || overlaps_any(sp, pos, pos + 1) {
        journal_scan(kb, s, regions, sp, pos + 1)
    } else {
        match journal_match(kb, s, pos) {
            Some((len, ab)) => {
                let (end, ab2) = section_extension(s, pos + len, ab);
                let sp2 = add_one(sp, s.len() as int, (pos, end, TokenKind::JournalName, s.subrange(pos, end), Some(ab2)));
                journal_scan(kb, s, regions, sp2, if end > pos && end <= s.len() { end } else { pos + 1 })
            },
            None => journal_scan(kb, s, regions, sp, pos + 1),
        }
    }
}

fn add_journal_name_spans(kb: &KnowledgeBase, spans: &mut Vec<Span>, text: &[char])
    ensures
        spvs(final(spans)@) == journal_scan(*kb, text@, quoted_regions(text@), spvs(old(spans)@), 0),
{
    let mut regions: Vec<(usize, usize)> = Vec::new();
    assert(region_views(regions@) =~= Seq::<(int, int)>::empty());
    find_quote_pairs(text, '\u{201c}', '\u{201d}', &mut regions);
    find_quote_pairs(text, '\u{201d}', '\u{201d}', &mut regions);
    find_quote_pairs(text, '"', '"', &mut regions);
    assert(region_views(regions@) =~= quoted_regions(text@));
    let ghost rv = region_views(regions@);
    let ghost target = journal_scan(*kb, text@, rv, spvs(spans@), 0);
    let n = text.len();
    let mut pos: usize = 0;
    while pos < n
        invariant
            n == text@.len(),
            pos <= n,
            rv == region_views(regions@),
            journal_scan(*kb, text@, rv, spvs(spans@), pos as int) == target,
        decreases n - pos,
    {
        if in_quoted_region(pos, &regions) || overlaps_existing(spans, pos, pos + 1) {
            pos += 1;
        } else {
            match match_journal_chars(kb, text, pos) {
                Some((len, abbrev)) => {
                    proof {
                        crate::kb::lemma_journal_match_len(*kb, text@, pos as int);
                    }
                    let ghost ab = abbrev@;
                    let (end, abbrev2) = extend_section_letter(text, pos + len, abbrev);
                    let sp = Span {
                        start: pos,
                        end,
                        kind: TokenKind::JournalName,
                        text: string_of(text, pos, end),
                        normalized: Some(abbrev2),
                    };
                    add_span(spans, n, sp);
                    pos = if end > pos { end } else { pos + 1 };
                },
                None => {
                    pos += 1;
                },
            }
        }
    }
}

/// The span of a shape match `a..b`: a DOI loses trailing `.)]}>`; a match
/// out of bounds gives an empty span, which is never added.
pub open spec fn shape_span(m: Shape, kind: TokenKind, s: Seq<char>, a: int, b: int) -> SpanV {
    if !(0 <= a <= b <= s.len()) {
        (0, 0, kind, Seq::empty(), None)
    } else if m == Shape::Doi {
        let t = crate::text::strip_end(s.subrange(a, b), Strip::Closers);
        (a, a + t.len(), kind, t, None)
    } else {
        (a, b, kind, s.subrange(a, b), None)
    }
}

pub open spec fn shape_spans(m: Shape, kind: TokenKind, s: Seq<char>) -> Seq<SpanV> {
    shape_matches(m, s, 0).map_values(|x: (int, int)| shape_span(m, kind, s, x.0, x.1))
}

fn add_shape_spans(spans: &mut Vec<Span>, text: &[char], m: Shape, kind: TokenKind)
    ensures
        spvs(final(spans)@) == add_all(spvs(old(spans)@), text@.len() as int, shape_spans(m, kind, text@)),
{
    let found = find_shape(m, text);
    let ghost c = shape_spans(m, kind, text@);
    let ghost start = spvs(spans@);
    let n = text.len();
    let mut k: usize = 0;
    while k < found.len()
        invariant
            n == text@.len(),
            k <= found@.len(),
            found@.map_values(|x: (usize, usize)| (x.0 as int, x.1 as int)) == shape_matches(m, text@, 0),
            c == shape_spans(m, kind, text@),
            c.len() == found@.len(),
            spvs(spans@) == add_upto(start, n as int, c, k as int),
        decreases found.len() - k,
    {
        let (a, b) = found[k];
        assert(shape_matches(m, text@, 0)[k as int] == (a as int, b as int));
        assert(c[k as int] == shape_span(m, kind, text@, a as int, b as int));
        if a <= b && b <= n {
            if m == Shape::Doi {
                let raw = slice_vec(text, a, b);
                let t = crate::text::stripped_end(raw.as_slice(), Strip::Closers);
                proof {
                    crate::text::lemma_back_set_bounds(raw@, Strip::Closers, 0, raw@.len() as int);
                }
                assert(t@.len() <= b - a);
                let e = a + t.len();
                add_span(spans, n, Span { start: a, end: e, kind, text: string_all(t.as_slice()), normalized: None });
            } else {
                add_span(spans, n, Span { start: a, end: b, kind, text: string_of(text, a, b), normalized: None });
            }
        }
        k += 1;
    }
}

pub open spec fn arxiv_old_span(s: Seq<char>, a: int, b: int) -> SpanV {
    if !(0 <= a <= b <= s.len()) {
        (0, 0, TokenKind::ArxivId, Seq::empty(), None)
    } else {
        (a, b, TokenKind::ArxivId, arxiv_old_norm(s.subrange(a, b), b - a), None)
    }
}

pub open spec fn arxiv_old_spans(s: Seq<char>) -> Seq<SpanV> {
    arxiv_old_matches(s, 0).map_values(|x: (int, int)| arxiv_old_span(s, x.0, x.1))
}

fn add_arxiv_old_spans(spans: &mut Vec<Span>, text: &[char])
    ensures
        spvs(final(spans)@) == add_all(spvs(old(spans)@), text@.len() as int, arxiv_old_spans(text@)),
{
    let found = find_arxiv_old(text);
    let ghost c = arxiv_old_spans(text@);
    let ghost start = spvs(spans@);
    let n = text.len();
    let mut k: usize = 0;
    while k < found.len()
        invariant
            n == text@.len(),
            k <= found@.len(),
            found@.map_values(|x: (usize, usize)| (x.0 as int, x.1 as int)) == arxiv_old_matches(text@, 0),
            c == arxiv_old_spans(text@),
            c.len() == found@.len(),
            spvs(spans@) == add_upto(start, n as int, c, k as int),
        decreases found.len() - k,
    {
        let (a, b) = found[k];
        assert(arxiv_old_matches(text@, 0)[k as int] == (a as int, b as int));
        assert(c[k as int] == arxiv_old_span(text@, a as int, b as int));
        if a <= b && b <= n {
            let raw = slice_vec(text, a, b);
            let norm = normalize_arxiv_old(raw.as_slice());
            add_span(spans, n, Span { start: a, end: b, kind: TokenKind::ArxivId, text: string_all(norm.as_slice()), normalized: None });
        }
        k += 1;
    }
}

/// The report-number span: the first report number in the text, placed at the
/// first occurrence of its matched text.
pub open spec fn report_spans(kb: KnowledgeBase, s: Seq<char>, sp: Seq<SpanV>) -> Seq<SpanV> {
    match crate::kb::report_match_from(kb.reports, s, 0) {
        Some((m, std)) => match crate::text::find_sub_from(s, m, 0) {
            Some(pos) => add_one(sp, s.len() as int, (pos, pos + m.len(), TokenKind::ReportNumber, m, Some(std))),
            None => sp,
        },
        None => sp,
    }
}

fn add_report_number_spans(kb: &KnowledgeBase, spans: &mut Vec<Span>, text: &[char])
    requires
        kb.reports.wf(),
    ensures
        spvs(final(spans)@) == report_spans(*kb, text@, spvs(old(spans)@)),
{
    let n = text.len();
    let t = string_all(text);
    if let Some((matched, standardized)) = match_report_number(kb, t.as_str()) {
        let m = chars_of(matched.as_str());
        if let Some(pos) = find_sub(text, m.as_slice()) {
            assert(pos + m@.len() <= n);
            let end = pos + m.len();
            add_span(spans, n, Span { start: pos, end, kind: TokenKind::ReportNumber, text: matched, normalized: Some(standardized) });
        }
    }
}

/// Where a span starting at `x` goes: after every span starting at or before it.
pub open spec fn sort_pos(sp: Seq<SpanV>, x: int, i: int) -> int
    decreases sp.len() - i,
{
    if i < 0 || i >= sp.len() || sp[i].0 > x {
        i
    } else {
        sort_pos(sp, x, i + 1)
    }
}

/// The spans `v[0..hi]` sorted by start, equal starts in their order.
pub open spec fn sorted_spans(v: Seq<SpanV>, hi: int) -> Seq<SpanV>
    decreases hi,
{
    if hi <= 0 {
        Seq::empty()
    } else {
        let s = sorted_spans(v, hi - 1);
        s.insert(sort_pos(s, v[hi - 1].0, 0), v[hi - 1])
    }
}

proof fn lemma_sort_pos(sp: Seq<SpanV>, x: int, i: int)
    requires
        0 <= i <= sp.len(),
    ensures
        i <= sort_pos(sp, x, i) <= sp.len(),
    decreases sp.len() - i,
{
    if i < sp.len() && sp[i].0 <= x {
        lemma_sort_pos(sp, x, i + 1);
    }
}

/// Sort spans by start, keeping the order of equal starts.
fn sort_spans(spans: Vec<Span>) -> (r: Vec<Span>)
    ensures
        spvs(r@) == sorted_spans(spvs(spans@), spans@.len() as int),
{
    let ghost v = spvs(spans@);
    let len = spans.len();
    let mut out: Vec<Span> = Vec::new();
    assert(spvs(out@) =~= Seq::<SpanV>::empty());
    let mut rest = spans;
    let mut i: usize = 0;
    while rest.len() > 0
        invariant
            i + rest@.len() == len,
            len == v.len(),
            spvs(rest@) == v.subrange(i as int, len as int),
            spvs(out@) == sorted_spans(v, i as int),
        decreases rest.len(),
    {
        let ghost old_rest = rest@;
        assert(spvs(old_rest)[0] == spv(old_rest[0]));
        let sp = rest.remove(0);
        assert(rest@ =~= old_rest.subrange(1, old_rest.len() as int));
        assert(spv(sp) == v[i as int]);
        assert forall|m: int| 0 <= m < rest@.len() implies #[trigger] spvs(rest@)[m] == v[i + 1 + m] by {
            assert(rest@[m] == old_rest[m + 1]);
            assert(spvs(old_rest)[m + 1] == spv(old_rest[m + 1]));
        }
        assert(spvs(rest@) =~= v.subrange(i + 1, len as int));
        let ghost o = spvs(out@);
        let mut p: usize = 0;
        while p < out.len() && out[p].start <= sp.start
            invariant
                p <= out@.len(),
                o == spvs(out@),
                sort_pos(o, sp.start as int, p as int) == sort_pos(o, sp.start as int, 0),
            decreases out.len() - p,
        {
            assert(o[p as int] == spv(out@[p as int]));
            p += 1;
        }
        proof {
            if p < out@.len() {
                assert(o[p as int] == spv(out@[p as int]));
            }
        }
        let ghost x = spv(sp);
        out.insert(p, sp);
        assert(spvs(out@) =~= o.insert(p as int, x));
        i += 1;
    }
    out
}

pub open spec fn span_overlap(x: SpanV, y: SpanV) -> bool {
    x.1 > y.0 && x.0 < y.1
}

/// The keep flags after comparing span `i` with spans `i+1..j`: of two
/// overlapping spans the shorter goes, the later one when equally long.
pub open spec fn keep_row(sp: Seq<SpanV>, keep: Seq<bool>, i: int, j: int) -> Seq<bool>
    decreases j - i,
{
    if j <= i + 1 {
        keep
    } else {
        let k = keep_row(sp, keep, i, j - 1);
        if span_overlap(sp[i], sp[j - 1]) {
            if sp[i].1 - sp[i].0 >= sp[j - 1].1 - sp[j - 1].0 {
                k.update(j - 1, false)
            } else {
                k.update(i, false)
            }
        } else {
            k
        }
    }
}

/// The keep flags after comparing every span `i < hi` with every later one.
pub open spec fn keep_rows(sp: Seq<SpanV>, hi: int) -> Seq<bool>
    decreases hi,
{
    if hi <= 0 {
        Seq::new(sp.len(), |k: int| true)
    } else {
        keep_row(sp, keep_rows(sp, hi - 1), hi - 1, sp.len() as int)
    }
}

/// The spans of `sp[0..hi]` whose flag is kept.
pub open spec fn kept_spans(sp: Seq<SpanV>, keep: Seq<bool>, hi: int) -> Seq<SpanV>
    decreases hi,
{
    if hi <= 0 {
        Seq::empty()
    } else if keep[hi - 1] {
        kept_spans(sp, keep, hi - 1).push(sp[hi - 1])
    } else {
        kept_spans(sp, keep, hi - 1)
    }
}

/// The spans that remain once overlaps are resolved.
pub open spec fn without_overlaps(sp: Seq<SpanV>) -> Seq<SpanV> {
    kept_spans(sp, keep_rows(sp, sp.len() as int), sp.len() as int)
}

proof fn lemma_keep_row_len(sp: Seq<SpanV>, keep: Seq<bool>, i: int, j: int)
    requires
        0 <= i,
        j <= keep.len(),
        keep.len() == sp.len(),
    ensures
        keep_row(sp, keep, i, j).len() == keep.len(),
    decreases j - i,
{
    if j > i + 1 {
        lemma_keep_row_len(sp, keep, i, j - 1);
    }
}

proof fn lemma_keep_rows_len(sp: Seq<SpanV>, hi: int)
    requires
        hi <= sp.len(),
    ensures
        keep_rows(sp, hi).len() == sp.len(),
    decreases hi,
{
    if hi > 0 {
        lemma_keep_rows_len(sp, hi - 1);
        lemma_keep_row_len(sp, keep_rows(sp, hi - 1), hi - 1, sp.len() as int);
    }
}

/// Of two overlapping spans keep the longer, or the earlier when equally long.
fn remove_overlapping_spans(spans: Vec<Span>, n: usize) -> (r: Vec<Span>)
    requires
        spans_in(spvs(spans@), n as int),
    ensures
        spvs(r@) == without_overlaps(spvs(spans@)),
{
    let ghost v = spvs(spans@);
    let len = spans.len();
    let mut keep: Vec<bool> = Vec::new();
    let mut k: usize = 0;
    while k < len
        invariant
            k <= len,
            keep@ == Seq::new(k as nat, |m: int| true),
        decreases len - k,
    {
        keep.push(true);
        assert(keep@ =~= Seq::new((k + 1) as nat, |m: int| true));
        k += 1;
    }
    assert(keep@ == keep_rows(v, 0));
    let mut i: usize = 0;
    while i < len
        invariant
            len == spans@.len(),
            v == spvs(spans@),
            spans_in(v, n as int),
            i <= len,
            keep@ == keep_rows(v, i as int),
            keep@.len() == len,
        decreases len - i,
    {
        let ghost row0 = keep@;
        let mut j = i + 1;
        while j < len
            invariant
                len == spans@.len(),
                v == spvs(spans@),
                spans_in(v, n as int),
                i < len,
                i + 1 <= j <= len,
                keep@ == keep_row(v, row0, i as int, j as int),
                keep@.len() == len,
            decreases len - j,
        {
            assert(v[i as int] == spv(spans@[i as int]) && v[j as int] == spv(spans@[j as int]));
            if spans[i].end > spans[j].start && spans[i].start < spans[j].end {
                if spans[i].end - spans[i].start >= spans[j].end - spans[j].start {
                    keep.set(j, false);
                } else {
                    keep.set(i, false);
                }
            }
            j += 1;
        }
        proof {
            lemma_keep_row_len(v, row0, i as int, len as int);
        }
        i += 1;
    }
    let mut rest = spans;
    let mut out: Vec<Span> = Vec::new();
    assert(spvs(out@) =~= Seq::<SpanV>::empty());
    let mut k: usize = 0;
    while k < len
        invariant
            len == v.len(),
            keep@.len() == len,
            keep@ == keep_rows(v, len as int),
            k <= len,
            spvs(rest@) == v.subrange(k as int, len as int),
            rest@.len() == len - k,
            spvs(out@) == kept_spans(v, keep@, k as int),
        decreases len - k,
    {
        let ghost old_rest = rest@;
        assert(spvs(old_rest)[0] == spv(old_rest[0]));
        let sp = rest.remove(0);
        assert(rest@ =~= old_rest.subrange(1, old_rest.len() as int));
        assert(spv(sp) == v[k as int]);
        assert forall|m: int| 0 <= m < rest@.len() implies #[trigger] spvs(rest@)[m] == v[k + 1 + m] by {
            assert(rest@[m] == old_rest[m + 1]);
            assert(spvs(old_rest)[m + 1] == spv(old_rest[m + 1]));
        }
        assert(spvs(rest@) =~= v.subrange(k + 1, len as int));
        if keep[k] {
            let ghost before = spvs(out@);
            let ghost x = spv(sp);
            out.push(sp);
            assert(spvs(out@) =~= before.push(x));
        }
        k += 1;
    }
    out
}

/// The identifier spans of a text, in the order they are looked for: DOIs,
/// URLs, old-style and new-style arXiv ids, ISBNs, the report number and
/// journal names; each joins unless it overlaps one found before. Then they
/// are sorted by start and overlaps are resolved.
pub open spec fn identifier_spans(kb: KnowledgeBase, s: Seq<char>) -> Seq<SpanV> {
    let g = gathered_spans(kb, s);
    without_overlaps(sorted_spans(g, g.len() as int))
}

/// The identifier spans before sorting and overlap resolution.
pub open spec fn gathered_spans(kb: KnowledgeBase, s: Seq<char>) -> Seq<SpanV> {
    let n = s.len() as int;
    let a = add_all(Seq::empty(), n, shape_spans(Shape::Doi, TokenKind::Doi, s));
    let b = add_all(a, n, shape_spans(Shape::Url, TokenKind::Url, s));
    let c = add_all(b, n, arxiv_old_spans(s));
    let d = add_all(c, n, shape_spans(Shape::ArxivNew, TokenKind::ArxivId, s));
    let e = add_all(d, n, shape_spans(Shape::Isbn, TokenKind::Isbn, s));
    let f = report_spans(kb, s, e);
    journal_scan(kb, s, quoted_regions(s), f, 0)
}

/// The identifier spans of a text.
fn find_identifier_spans(kb: &KnowledgeBase, text: &[char]) -> (r: Vec<Span>)
    requires
        kb.reports.wf(),
    ensures
        spvs(r@) == identifier_spans(*kb, text@),
{
    let mut spans: Vec<Span> = Vec::new();
    assert(spvs(spans@) =~= Seq::<SpanV>::empty());
    add_shape_spans(&mut spans, text, Shape::Doi, TokenKind::Doi);
    add_shape_spans(&mut spans, text, Shape::Url, TokenKind::Url);
    add_arxiv_old_spans(&mut spans, text);
    add_shape_spans(&mut spans, text, Shape::ArxivNew, TokenKind::ArxivId);
    add_shape_spans(&mut spans, text, Shape::Isbn, TokenKind::Isbn);
    add_report_number_spans(kb, &mut spans, text);
    add_journal_name_spans(kb, &mut spans, text);
    let sorted = sort_spans(spans);
    proof {
        lemma_gathered_in(*kb, text@);
        lemma_sorted_spans(gathered_spans(*kb, text@), text@.len() as int, gathered_spans(*kb, text@).len() as int);
    }
    remove_overlapping_spans(sorted, text.len())
}

/// The token of a span.
pub open spec fn span_tok(sp: SpanV) -> (TokenKind, Seq<char>, Option<Seq<char>>) {
    (sp.2, sp.3, sp.4)
}

/// The tokens of the text from `pos`, with spans `sp[k..]` as identifiers and
/// the stretches between them classified word by word.
pub open spec fn fill_from(kb: KnowledgeBase, s: Seq<char>, sp: Seq<SpanV>, k: int, pos: int) -> Seq<(TokenKind, Seq<char>, Option<Seq<char>>)>
    decreases sp.len() - k,
{
    if k < 0 || k >= sp.len() {
        if pos < s.len() {
            gap_tokens(kb, s.subrange(pos, s.len() as int))
        } else {
            Seq::empty()
        }
    } else {
        let g = if pos < sp[k].0 {
            gap_tokens(kb, s.subrange(pos, sp[k].0))
        } else {
            Seq::empty()
        };
        g.push(span_tok(sp[k])) + fill_from(kb, s, sp, k + 1, sp[k].1)
    }
}

/// Fill tokens between identifier spans with classified words.
fn fill_tokens(kb: &KnowledgeBase, text: &[char], spans: &Vec<Span>, tokens: &mut Vec<Token>)
    requires
        spans_ok(spvs(spans@), text@.len() as int),
    ensures
        tvs(final(tokens)@) == tvs(old(tokens)@) + fill_from(*kb, text@, spvs(spans@), 0, 0),
{
    let ghost start = tvs(tokens@);
    let ghost v = spvs(spans@);
    let mut pos: usize = 0;
    let mut k: usize = 0;
    while k < spans.len()
        invariant
            k <= spans@.len(),
            v == spvs(spans@),
            spans_ok(v, text@.len() as int),
            pos <= text@.len(),
            k > 0 ==> pos == v[k - 1].1,
            k == 0 ==> pos == 0,
            tvs(tokens@) + fill_from(*kb, text@, v, k as int, pos as int) == start + fill_from(*kb, text@, v, 0, 0),
        decreases spans.len() - k,
    {
        let sp = &spans[k];
        assert(v[k as int] == spv(*sp));
        let ghost before = tvs(tokens@);
        let ghost g = if pos < sp.start {
            gap_tokens(*kb, text@.subrange(pos as int, sp.start as int))
        } else {
            Seq::empty()
        };
        if pos < sp.start {
            let gap = slice_vec(text, pos, sp.start);
            classify_gap(kb, gap.as_slice(), tokens);
        }
        push_tok(tokens, Token { kind: sp.kind, text: sp.text.clone(), normalized: crate::types::copy_opt(&sp.normalized) });
        proof {
            assert(tvs(tokens@) == before + g.push(span_tok(v[k as int]))) by {
                assert(before + g.push(span_tok(v[k as int])) =~= (before + g).push(span_tok(v[k as int])));
            }
            assert(tvs(tokens@) + fill_from(*kb, text@, v, k + 1, sp.end as int) =~= before + fill_from(*kb, text@, v, k as int, pos as int));
        }
        pos = sp.end;
        k += 1;
    }
    let ghost before = tvs(tokens@);
    if pos < text.len() {
        let gap = slice_vec(text, pos, text.len());
        classify_gap(kb, gap.as_slice(), tokens);
    }
    assert(tvs(tokens@) =~= before + fill_from(*kb, text@, v, k as int, pos as int));
}


proof fn lemma_add_one_in(sp: Seq<SpanV>, n: int, x: SpanV)
    requires
        spans_in(sp, n),
    ensures
        spans_in(add_one(sp, n, x), n),
{
    if 0 <= x.0 < x.1 <= n && !overlaps_any(sp, x.0, x.1) {
        assert forall|m: int| 0 <= m < sp.push(x).len() implies 0 <= (#[trigger] sp.push(x)[m]).0 < sp.push(x)[m].1 <= n by {
            if m < sp.len() {
                assert(sp.push(x)[m] == sp[m]);
            }
        }
    }
}

proof fn lemma_journal_scan_in(kb: KnowledgeBase, s: Seq<char>, regions: Seq<(int, int)>, sp: Seq<SpanV>, pos: int)
    requires
        spans_in(sp, s.len() as int),
    ensures
        spans_in(journal_scan(kb, s, regions, sp, pos), s.len() as int),
    decreases s.len() - pos,
{
    if !(pos < 0 || pos >= s.len()) {
        if in_region(regions, pos) || overlaps_any(sp, pos, pos + 1) {
            lemma_journal_scan_in(kb, s, regions, sp, pos + 1);
        } else {
            match journal_match(kb, s, pos) {
                Some((len, ab)) => {
                    let (end, ab2) = section_extension(s, pos + len, ab);
                    let x = (pos, end, TokenKind::JournalName, s.subrange(pos, end), Some(ab2));
                    lemma_add_one_in(sp, s.len() as int, x);
                    lemma_journal_scan_in(kb, s, regions, add_one(sp, s.len() as int, x), if end > pos && end <= s.len() { end } else { pos + 1 });
                },
                None => {
                    lemma_journal_scan_in(kb, s, regions, sp, pos + 1);
                },
            }
        }
    }
}

pub open spec fn starts_sorted(sp: Seq<SpanV>) -> bool {
    forall|a: int, b: int| 0 <= a < b < sp.len() ==> (#[trigger] sp[a]).0 <= (#[trigger] sp[b]).0
}

proof fn lemma_sort_pos_props(sp: Seq<SpanV>, x: int, i: int)
    requires
        0 <= i <= sp.len(),
        starts_sorted(sp),
        forall|k: int| 0 <= k < i ==> (#[trigger] sp[k]).0 <= x,
    ensures
        i <= sort_pos(sp, x, i) <= sp.len(),
        forall|k: int| 0 <= k < sort_pos(sp, x, i) ==> (#[trigger] sp[k]).0 <= x,
        forall|k: int| sort_pos(sp, x, i) <= k < sp.len() ==> (#[trigger] sp[k]).0 > x,
    decreases sp.len() - i,
{
    if i < sp.len() && sp[i].0 <= x {
        lemma_sort_pos_props(sp, x, i + 1);
    } else if i < sp.len() {
        assert forall|k: int| i <= k < sp.len() implies (#[trigger] sp[k]).0 > x by {
            if k > i {
                assert(sp[i].0 <= sp[k].0);
            }
        }
    }
}

proof fn lemma_sorted_spans(v: Seq<SpanV>, n: int, hi: int)
    requires
        0 <= hi <= v.len(),
        spans_in(v, n),
    ensures
        spans_in(sorted_spans(v, hi), n),
        starts_sorted(sorted_spans(v, hi)),
        sorted_spans(v, hi).len() == hi,
    decreases hi,
{
    if hi > 0 {
        lemma_sorted_spans(v, n, hi - 1);
        let s = sorted_spans(v, hi - 1);
        let x = v[hi - 1];
        lemma_sort_pos_props(s, x.0, 0);
        let p = sort_pos(s, x.0, 0);
        let t = s.insert(p, x);
        assert forall|m: int| 0 <= m < t.len() implies 0 <= (#[trigger] t[m]).0 < t[m].1 <= n by {
            if m < p {
                assert(t[m] == s[m]);
            } else if m > p {
                assert(t[m] == s[m - 1]);
            }
        }
        assert forall|a: int, b: int| 0 <= a < b < t.len() implies (#[trigger] t[a]).0 <= (#[trigger] t[b]).0 by {
            if b < p {
                assert(t[a] == s[a] && t[b] == s[b]);
            } else if b == p {
                assert(t[a] == s[a]);
            } else if a < p {
                assert(t[a] == s[a] && t[b] == s[b - 1]);
            } else if a == p {
                assert(t[b] == s[b - 1]);
            } else {
                assert(t[a] == s[a - 1] && t[b] == s[b - 1]);
            }
        }
    }
}

/// Flags only go from kept to dropped.
proof fn lemma_keep_row_mono(sp: Seq<SpanV>, keep: Seq<bool>, i: int, j: int, m: int)
    requires
        0 <= m < keep.len(),
        !keep[m],
        0 <= i,
        j <= keep.len(),
        keep.len() == sp.len(),
    ensures
        !keep_row(sp, keep, i, j)[m],
    decreases j - i,
{
    if j > i + 1 {
        lemma_keep_row_mono(sp, keep, i, j - 1, m);
        lemma_keep_row_len(sp, keep, i, j - 1);
        lemma_keep_row_mono_step(sp, keep_row(sp, keep, i, j - 1), i, j, m);
    }
}

proof fn lemma_keep_row_pairs(sp: Seq<SpanV>, keep: Seq<bool>, i: int, j: int)
    requires
        0 <= i < sp.len(),
        keep.len() == sp.len(),
        j <= sp.len(),
    ensures
        forall|b: int| i < b < j && span_overlap(sp[i], sp[b]) ==> !keep_row(sp, keep, i, j)[i]
            || !#[trigger] keep_row(sp, keep, i, j)[b],
    decreases j - i,
{
    if j > i + 1 {
        lemma_keep_row_pairs(sp, keep, i, j - 1);
        lemma_keep_row_len(sp, keep, i, j - 1);
        let k = keep_row(sp, keep, i, j - 1);
        let r = keep_row(sp, keep, i, j);
        assert forall|b: int| i < b < j && span_overlap(sp[i], sp[b]) implies !r[i] || !#[trigger] r[b] by {
            if b < j - 1 {
                if !k[i] {
                    lemma_keep_row_mono_step(sp, k, i, j, i);
                } else {
                    assert(!k[b]);
                    lemma_keep_row_mono_step(sp, k, i, j, b);
                }
            }
        }
    }
}

/// One more comparison keeps a dropped flag dropped.
proof fn lemma_keep_row_mono_step(sp: Seq<SpanV>, k: Seq<bool>, i: int, j: int, m: int)
    requires
        0 <= m < k.len(),
        !k[m],
        j > i + 1,
        0 <= i,
        j <= k.len(),
    ensures
        !(if span_overlap(sp[i], sp[j - 1]) {
            if sp[i].1 - sp[i].0 >= sp[j - 1].1 - sp[j - 1].0 {
                k.update(j - 1, false)
            } else {
                k.update(i, false)
            }
        } else {
            k
        })[m],
{
}

proof fn lemma_keep_rows_pairs(sp: Seq<SpanV>, hi: int)
    requires
        0 <= hi <= sp.len(),
    ensures
        keep_rows(sp, hi).len() == sp.len(),
        forall|a: int, b: int| 0 <= a < hi && a < b < sp.len() && span_overlap(sp[a], sp[b]) ==> !keep_rows(sp, hi)[a]
            || !#[trigger] keep_rows(sp, hi)[b] || !#[trigger] keep_rows(sp, hi)[a],
    decreases hi,
{
    lemma_keep_rows_len(sp, hi);
    if hi > 0 {
        lemma_keep_rows_pairs(sp, hi - 1);
        let prev = keep_rows(sp, hi - 1);
        lemma_keep_rows_len(sp, hi - 1);
        lemma_keep_row_pairs(sp, prev, hi - 1, sp.len() as int);
        let cur = keep_rows(sp, hi);
        assert forall|a: int, b: int| 0 <= a < hi && a < b < sp.len() && span_overlap(sp[a], sp[b]) implies !cur[a]
            || !#[trigger] cur[b] || !#[trigger] cur[a] by {
            if a < hi - 1 {
                if !prev[a] {
                    lemma_keep_row_mono(sp, prev, hi - 1, sp.len() as int, a);
                } else {
                    lemma_keep_row_mono(sp, prev, hi - 1, sp.len() as int, b);
                }
            }
        }
    }
}

/// The index in `sp` of the `m`-th kept span among `sp[0..hi]`.
pub open spec fn kept_index(sp: Seq<SpanV>, keep: Seq<bool>, hi: int, m: int) -> int
    decreases hi,
{
    if hi <= 0 {
        0
    } else if keep[hi - 1] && m == kept_spans(sp, keep, hi - 1).len() {
        hi - 1
    } else {
        kept_index(sp, keep, hi - 1, m)
    }
}

proof fn lemma_kept_members(sp: Seq<SpanV>, keep: Seq<bool>, hi: int)
    requires
        0 <= hi <= sp.len(),
        keep.len() == sp.len(),
    ensures
        forall|m: int| 0 <= m < kept_spans(sp, keep, hi).len() ==> 0 <= #[trigger] kept_index(sp, keep, hi, m) < hi
            && keep[kept_index(sp, keep, hi, m)] && kept_spans(sp, keep, hi)[m] == sp[kept_index(sp, keep, hi, m)],
    decreases hi,
{
    if hi > 0 {
        lemma_kept_members(sp, keep, hi - 1);
        let prev = kept_spans(sp, keep, hi - 1);
        let cur = kept_spans(sp, keep, hi);
        assert forall|m: int| 0 <= m < cur.len() implies 0 <= #[trigger] kept_index(sp, keep, hi, m) < hi
            && keep[kept_index(sp, keep, hi, m)] && cur[m] == sp[kept_index(sp, keep, hi, m)] by {
            if m < prev.len() {
                assert(cur[m] == prev[m]);
                assert(kept_index(sp, keep, hi, m) == kept_index(sp, keep, hi - 1, m));
            }
        }
    }
}

proof fn lemma_kept_ok(sp: Seq<SpanV>, keep: Seq<bool>, n: int, hi: int)
    requires
        0 <= hi <= sp.len(),
        keep.len() == sp.len(),
        spans_in(sp, n),
        starts_sorted(sp),
        forall|a: int, b: int| 0 <= a < b < sp.len() && span_overlap(sp[a], sp[b]) ==> !#[trigger] keep[a] || !#[trigger] keep[b],
    ensures
        spans_ok(kept_spans(sp, keep, hi), n),
    decreases hi,
{
    if hi > 0 {
        lemma_kept_ok(sp, keep, n, hi - 1);
        lemma_kept_members(sp, keep, hi - 1);
        let prev = kept_spans(sp, keep, hi - 1);
        if keep[hi - 1] {
            let x = sp[hi - 1];
            let cur = prev.push(x);
            assert forall|m: int| 0 <= m < cur.len() implies 0 <= (#[trigger] cur[m]).0 < cur[m].1 <= n by {
                if m < prev.len() {
                    assert(cur[m] == prev[m]);
                }
            }
            assert forall|a: int, b: int| 0 <= a < b < cur.len() implies (#[trigger] cur[a]).1 <= (#[trigger] cur[b]).0 by {
                if b < prev.len() {
                    assert(cur[a] == prev[a] && cur[b] == prev[b]);
                } else {
                    assert(cur[a] == prev[a]);
                    let j = kept_index(sp, keep, hi - 1, a);
                    assert(0 <= j < hi - 1 && keep[j] && prev[a] == sp[j]);
                    assert(sp[j].0 <= sp[hi - 1].0);
                    assert(!span_overlap(sp[j], sp[hi - 1]));
                }
            }
        }
    }
}

/// The identifier spans of a text are within it, non-empty, sorted by start
/// and pairwise non-overlapping.
pub proof fn lemma_identifier_spans_ok(kb: KnowledgeBase, s: Seq<char>)
    ensures
        spans_ok(identifier_spans(kb, s), s.len() as int),
{
    let n = s.len() as int;
    lemma_gathered_in(kb, s);
    let g = gathered_spans(kb, s);
    let srt = sorted_spans(g, g.len() as int);
    lemma_sorted_spans(g, n, g.len() as int);
    lemma_keep_rows_pairs(srt, srt.len() as int);
    let keep = keep_rows(srt, srt.len() as int);
    assert forall|x: int, y: int| 0 <= x < y < srt.len() && span_overlap(srt[x], srt[y]) implies !#[trigger] keep[x] || !#[trigger] keep[y] by {}
    lemma_kept_ok(srt, keep, n, srt.len() as int);
}

/// The gathered spans are within the text and non-empty.
proof fn lemma_gathered_in(kb: KnowledgeBase, s: Seq<char>)
    ensures
        spans_in(gathered_spans(kb, s), s.len() as int),
{
    let n = s.len() as int;
    let e0 = Seq::<SpanV>::empty();
    let a = add_all(e0, n, shape_spans(Shape::Doi, TokenKind::Doi, s));
    lemma_add_in(e0, n, shape_spans(Shape::Doi, TokenKind::Doi, s), shape_spans(Shape::Doi, TokenKind::Doi, s).len() as int);
    let b = add_all(a, n, shape_spans(Shape::Url, TokenKind::Url, s));
    lemma_add_in(a, n, shape_spans(Shape::Url, TokenKind::Url, s), shape_spans(Shape::Url, TokenKind::Url, s).len() as int);
    let c = add_all(b, n, arxiv_old_spans(s));
    lemma_add_in(b, n, arxiv_old_spans(s), arxiv_old_spans(s).len() as int);
    let d = add_all(c, n, shape_spans(Shape::ArxivNew, TokenKind::ArxivId, s));
    lemma_add_in(c, n, shape_spans(Shape::ArxivNew, TokenKind::ArxivId, s), shape_spans(Shape::ArxivNew, TokenKind::ArxivId, s).len() as int);
    let e = add_all(d, n, shape_spans(Shape::Isbn, TokenKind::Isbn, s));
    lemma_add_in(d, n, shape_spans(Shape::Isbn, TokenKind::Isbn, s), shape_spans(Shape::Isbn, TokenKind::Isbn, s).len() as int);
    let f = report_spans(kb, s, e);
    match crate::kb::report_match_from(kb.reports, s, 0) {
        Some((m, std)) => match crate::text::find_sub_from(s, m, 0) {
            Some(pos) => {
                lemma_add_one_in(e, n, (pos, pos + m.len(), TokenKind::ReportNumber, m, Some(std)));
            },
            None => {},
        },
        None => {},
    }
    lemma_journal_scan_in(kb, s, quoted_regions(s), f, 0);
}

/// The text after a leading line marker, or all of it.
pub open spec fn after_marker(s: Seq<char>) -> Seq<char> {
    match crate::collect::marker_at(s) {
        Some((_, _, _, e)) => s.subrange(e, s.len() as int),
        None => s,
    }
}

/// The line-marker token of a text, if it has one.
pub open spec fn marker_tokens(s: Seq<char>) -> Seq<(TokenKind, Seq<char>, Option<Seq<char>>)> {
    match crate::collect::marker_at(s) {
        Some((_, a, b, _)) => seq![(TokenKind::LineMarker, s.subrange(a, b), None)],
        None => Seq::empty(),
    }
}

/// Tokenize a reference string into a sequence of typed tokens: the line
/// marker if there is one, then identifiers at non-overlapping spans sorted
/// by position, with the text between them classified word by word.
/// The tokens of a reference string, as plain values.
pub open spec fn token_views(kb: KnowledgeBase, s: Seq<char>) -> Seq<(TokenKind, Seq<char>, Option<Seq<char>>)> {
    marker_tokens(s) + fill_from(kb, after_marker(s), identifier_spans(kb, after_marker(s)), 0, 0)
}

#[verifier::rlimit(60)]
pub fn tokenize(kb: &KnowledgeBase, text: &str) -> (r: Vec<Token>)
    requires
        kb.reports.wf(),
    ensures
        tvs(r@) == token_views(*kb, text@),
        tvs(r@) == marker_tokens(text@) + fill_from(*kb, after_marker(text@), identifier_spans(*kb, after_marker(text@)), 0, 0),
        spans_ok(identifier_spans(*kb, after_marker(text@)), after_marker(text@).len() as int),
{
    let t = chars_of(text);
    let mut tokens: Vec<Token> = Vec::new();
    let work = match crate::collect::line_marker(t.as_slice()) {
        Some((_, a, b, e)) => {
            push_tok(&mut tokens, mk(TokenKind::LineMarker, t.as_slice(), a, b, None));
            slice_vec(t.as_slice(), e, t.len())
        },
        None => slice_vec(t.as_slice(), 0, t.len()),
    };
    assert(t@.subrange(0, t@.len() as int) =~= t@);
    assert(tvs(tokens@) =~= marker_tokens(text@));
    assert(work@ == after_marker(text@));
    let spans = find_identifier_spans(kb, work.as_slice());
    proof {
        lemma_identifier_spans_ok(*kb, work@);
    }
    fill_tokens(kb, work.as_slice(), &spans, &mut tokens);
    tokens
}

} // verus!
