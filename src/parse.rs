//! Structured parsing of a tokenized reference into one or more records.
use vstd::prelude::*;

use crate::text::{
    all_digits, all_digits_in, chars_of, contains_char, extend_from, find_char, find_char_from,
    has_at, has_char, is_upper, lit, push_char, slice_vec, string_all, strip, strip_end,
    stripped, stripped_end, trim, trimmed, upper, Strip,
};
use crate::types::{copy_opt, sv, ParsedReference, RawReference, RefFields, Token, TokenKind};

verus! {

// ── Specification ──────────────────────────────────────────────────────────

/// A token's canonical form: its normalized text if it has one, else its text.
pub open spec fn tok_value(t: Token) -> Seq<char> {
    match t.normalized {
        Some(n) => n@,
        None => t.text@,
    }
}

/// The literal placeholder title of a standalone `ibid.` record.
pub open spec fn ibid_lit() -> Seq<char> {
    seq!['i', 'b', 'i', 'd']
}

/// A record with the raw reference's text, marker and source, and nothing else.
pub open spec fn blank_ref(raw: RawReference) -> RefFields {
    RefFields {
        raw_ref: raw.text@,
        linemarker: sv(raw.linemarker),
        authors: None,
        title: None,
        journal_title: None,
        journal_volume: None,
        journal_year: None,
        journal_page: None,
        doi: None,
        arxiv_id: None,
        isbn: None,
        report_number: None,
        url: None,
        collaboration: None,
        source: raw.source,
    }
}

/// "D60" → "60": an uppercase letter followed by digits only.
pub open spec fn letter_prefixed(text: Seq<char>) -> Option<Seq<char>> {
    let c = strip(text, Strip::Punct);
    if c.len() >= 2 && is_upper(c[0]) && all_digits(c.subrange(1, c.len() as int)) {
        Some(c.subrange(1, c.len() as int))
    } else {
        None
    }
}

/// "249B" → ("249", 'B'): digits followed by a section letter A to D.
pub open spec fn old_style_volume(text: Seq<char>) -> Option<(Seq<char>, char)> {
    let c = strip(text, Strip::Punct);
    if c.len() >= 2 && 'A' <= c.last() && c.last() <= 'D' && all_digits(c.drop_last()) {
        Some((c.drop_last(), c.last()))
    } else {
        None
    }
}

/// The end of the run of ASCII uppercase letters that starts at `i`.
pub open spec fn upper_run(s: Seq<char>, i: int) -> int
    decreases s.len() - i,
{
    if 0 <= i < s.len() && is_upper(s[i]) {
        upper_run(s, i + 1)
    } else {
        i
    }
}

/// Two or more uppercase letters followed by exactly four digits ("LAT2005").
pub open spec fn conference_code(s: Seq<char>) -> bool {
    let n = upper_run(s, 0);
    n >= 2 && s.len() == n + 4 && all_digits(s.subrange(n, s.len() as int))
}

/// "LAT2005" → ("LAT2005", none); "LAT2006:022" → ("LAT2006", "022").
pub open spec fn conference_volume(text: Seq<char>) -> Option<(Seq<char>, Option<Seq<char>>)> {
    let c = strip(text, Strip::PunctNoColon);
    let compound = match find_char_from(c, ':', 0) {
        Some(k) => conference_code(c.subrange(0, k)) && c.len() > k + 1 && all_digits(
            c.subrange(k + 1, c.len() as int),
        ),
        None => false,
    };
    if compound {
        let k = find_char_from(c, ':', 0)->0;
        Some((c.subrange(0, k), Some(c.subrange(k + 1, c.len() as int))))
    } else if conference_code(c) {
        Some((c, None))
    } else {
        None
    }
}

/// The journal title with a section letter appended, unless it already ends in
/// an uppercase letter.
pub open spec fn with_section_letter(title: Option<Seq<char>>, letter: char) -> Option<Seq<char>> {
    match title {
        Some(t) => if t.len() > 0 && is_upper(t.last()) {
            Some(t)
        } else {
            Some(t + seq![' ', letter])
        },
        None => None,
    }
}

/// Whether a token ends the numeration window.
pub open spec fn stops_numeration(k: TokenKind) -> bool {
    k == TokenKind::JournalName || k == TokenKind::Doi || k == TokenKind::ArxivId
}

/// One step of the numeration assignment: the record and whether a volume was
/// found, after looking at token `t`.
pub open spec fn num_step(r: RefFields, found: bool, t: Token) -> (RefFields, bool) {
    let free = !found && r.journal_volume is None;
    let text = t.text@;
    match t.kind {
        TokenKind::Number => if free {
            (RefFields { journal_volume: Some(strip(text, Strip::NonDigit)), ..r }, true)
        } else if found && r.journal_page is None {
            (RefFields { journal_page: Some(strip(text, Strip::NonDigit)), ..r }, found)
        } else {
            (r, found)
        },
        TokenKind::Year => if free && !(text.len() > 0 && text[0] == '(') {
            (RefFields { journal_volume: Some(tok_value(t)), ..r }, true)
        } else if r.journal_year is None {
            (RefFields { journal_year: Some(tok_value(t)), ..r }, found)
        } else {
            (r, found)
        },
        TokenKind::PageRange => if free {
            (RefFields { journal_volume: Some(strip(text, Strip::NonAlnumDash)), ..r }, true)
        } else if r.journal_page is None {
            (RefFields { journal_page: Some(strip(text, Strip::NonAlnumDash)), ..r }, found)
        } else {
            (r, found)
        },
        TokenKind::Word => if free {
            match letter_prefixed(text) {
                Some(v) => (RefFields { journal_volume: Some(v), ..r }, true),
                None => match old_style_volume(text) {
                    Some((v, l)) => (
                        RefFields {
                            journal_volume: Some(v),
                            journal_title: with_section_letter(r.journal_title, l),
                            ..r
                        },
                        true,
                    ),
                    None => match conference_volume(text) {
                        Some((v, p)) => (
                            RefFields {
                                journal_volume: Some(v),
                                journal_page: if p is Some && r.journal_page is None {
                                    p
                                } else {
                                    r.journal_page
                                },
                                ..r
                            },
                            true,
                        ),
                        None => (r, found),
                    },
                },
            }
        } else if found && r.journal_page is None {
            match letter_prefixed(text) {
                Some(p) => (RefFields { journal_page: Some(p), ..r }, found),
                None => (r, found),
            }
        } else {
            (r, found)
        },
        _ => (r, found),
    }
}

/// The numeration assignment over the first eight tokens of window `w`,
/// from position `i` on, stopping at a journal name, DOI or arXiv id.
pub open spec fn num_from(w: Seq<Token>, i: int, r: RefFields, found: bool) -> RefFields
    decreases w.len() - i,
{
    if i < 0 || i >= w.len() || i >= 8 || stops_numeration(w[i].kind) {
        r
    } else {
        let (r2, f2) = num_step(r, found, w[i]);
        num_from(w, i + 1, r2, f2)
    }
}

/// The numeration assignment on a window of tokens.
pub open spec fn numeration(w: Seq<Token>, r: RefFields) -> RefFields {
    num_from(w, 0, r, false)
}

/// The index of the first token of kind `k` in `ts[i..hi]`.
pub open spec fn first_kind_in(ts: Seq<Token>, k: TokenKind, i: int, hi: int) -> Option<int>
    decreases hi - i,
{
    if i < 0 || i >= hi || i >= ts.len() {
        None
    } else if ts[i].kind == k {
        Some(i)
    } else {
        first_kind_in(ts, k, i + 1, hi)
    }
}

/// The index of the first token of kind `k`.
pub open spec fn first_kind(ts: Seq<Token>, k: TokenKind) -> Option<int> {
    first_kind_in(ts, k, 0, ts.len() as int)
}

/// The text of the first token of kind `k` in `ts[lo..hi]`.
pub open spec fn first_text_in(ts: Seq<Token>, k: TokenKind, lo: int, hi: int) -> Option<Seq<char>> {
    match first_kind_in(ts, k, lo, hi) {
        Some(i) => Some(ts[i].text@),
        None => None,
    }
}

/// The canonical form of the first token of kind `k`.
pub open spec fn first_value(ts: Seq<Token>, k: TokenKind) -> Option<Seq<char>> {
    match first_kind(ts, k) {
        Some(i) => Some(tok_value(ts[i])),
        None => None,
    }
}

/// The first occurrence of each identifier kind, copied into the record.
pub open spec fn with_identifiers(r: RefFields, ts: Seq<Token>) -> RefFields {
    RefFields {
        doi: first_text_in(ts, TokenKind::Doi, 0, ts.len() as int),
        arxiv_id: first_text_in(ts, TokenKind::ArxivId, 0, ts.len() as int),
        isbn: first_text_in(ts, TokenKind::Isbn, 0, ts.len() as int),
        report_number: first_value(ts, TokenKind::ReportNumber),
        url: first_text_in(ts, TokenKind::Url, 0, ts.len() as int),
        collaboration: first_value(ts, TokenKind::Collaboration),
        ..r
    }
}

/// The year of the first `Year` token, where no year is set yet.
pub open spec fn with_standalone_year(r: RefFields, ts: Seq<Token>) -> RefFields {
    if r.journal_year is Some {
        r
    } else {
        match first_value(ts, TokenKind::Year) {
            Some(y) => RefFields { journal_year: Some(y), ..r },
            None => r,
        }
    }
}

/// The journal of the first `JournalName` token and the numeration after it.
pub open spec fn with_journal_info(r: RefFields, ts: Seq<Token>) -> RefFields {
    match first_kind(ts, TokenKind::JournalName) {
        None => with_standalone_year(r, ts),
        Some(j) => {
            let r1 = RefFields { journal_title: Some(tok_value(ts[j])), ..r };
            let r2 = numeration(ts.subrange(j + 1, ts.len() as int), r1);
            with_standalone_year(r2, ts)
        },
    }
}

/// A journal title without a volume is cleared.
pub open spec fn without_spurious_journal(r: RefFields) -> RefFields {
    if r.journal_title is Some && r.journal_volume is None {
        RefFields { journal_title: None, ..r }
    } else {
        r
    }
}

/// The numeration after the first `Ibid` token; where a volume emerges, the
/// placeholder title `ibid`.
pub open spec fn with_standalone_ibid(r: RefFields, ts: Seq<Token>) -> RefFields {
    match first_kind(ts, TokenKind::Ibid) {
        None => r,
        Some(i) => {
            let r2 = numeration(ts.subrange(i + 1, ts.len() as int), r);
            if r2.journal_volume is Some {
                RefFields { journal_title: Some(ibid_lit()), ..r2 }
            } else {
                r2
            }
        },
    }
}

/// The text strictly between the first `open` and the next `close` after it.
pub open spec fn between_quotes(s: Seq<char>, open: char, close: char) -> Option<Seq<char>> {
    match find_char_from(s, open, 0) {
        Some(a) => match find_char_from(s, close, a + 1) {
            Some(b) => Some(s.subrange(a + 1, b)),
            None => None,
        },
        None => None,
    }
}

/// Whitespace, then trailing commas, then whitespace again removed.
pub open spec fn tidy(s: Seq<char>) -> Seq<char> {
    trim(strip_end(trim(s), Strip::Comma))
}

/// The quoted title of a raw reference: curly quotes, then a right curly quote
/// used on both sides, then ASCII quotes.
pub open spec fn quoted_title(raw: Seq<char>) -> Option<Seq<char>> {
    let t = match between_quotes(raw, '\u{201c}', '\u{201d}') {
        Some(t) => Some(t),
        None => match between_quotes(raw, '\u{201d}', '\u{201d}') {
            Some(t) => Some(t),
            None => between_quotes(raw, '"', '"'),
        },
    };
    match t {
        Some(t) => if tidy(t).len() > 0 {
            Some(tidy(t))
        } else {
            None
        },
        None => None,
    }
}

/// Token kinds that end the author list.
pub open spec fn ends_authors(k: TokenKind) -> bool {
    k == TokenKind::JournalName || k == TokenKind::Doi || k == TokenKind::ArxivId || k
        == TokenKind::ReportNumber || k == TokenKind::Year || k == TokenKind::Number || k
        == TokenKind::PageRange || k == TokenKind::Ibid
}

pub open spec fn has_quote(s: Seq<char>) -> bool {
    has_char(s, '\u{201c}') || has_char(s, '\u{201d}') || has_char(s, '"')
}

/// Whether token `t` ends the author list.
pub open spec fn stops_authors(t: Token) -> bool {
    ends_authors(t.kind) || (t.kind != TokenKind::LineMarker && has_quote(t.text@))
}

/// The index of the first token at or after `i` that ends the author list.
pub open spec fn author_end(ts: Seq<Token>, i: int) -> int
    decreases ts.len() - i,
{
    if 0 <= i < ts.len() && !stops_authors(ts[i]) {
        author_end(ts, i + 1)
    } else {
        i
    }
}

/// The texts of the tokens in `ts[0..hi]` that are not line markers.
pub open spec fn word_texts(ts: Seq<Token>, hi: int) -> Seq<Seq<char>>
    decreases hi,
{
    if hi <= 0 {
        Seq::empty()
    } else if ts[hi - 1].kind == TokenKind::LineMarker {
        word_texts(ts, hi - 1)
    } else {
        word_texts(ts, hi - 1).push(ts[hi - 1].text@)
    }
}

/// The words joined by single spaces.
pub open spec fn join_words(ws: Seq<Seq<char>>) -> Seq<char>
    decreases ws.len(),
{
    if ws.len() == 0 {
        Seq::empty()
    } else if ws.len() == 1 {
        ws[0]
    } else {
        join_words(ws.drop_last()) + seq![' '] + ws.last()
    }
}

/// The author text: the words before the first terminator, tidied.
pub open spec fn author_text(ts: Seq<Token>) -> Seq<char> {
    tidy(join_words(word_texts(ts, author_end(ts, 0))))
}

/// The title from the quotes of the raw text, and the authors from the tokens
/// when their text is longer than two characters.
pub open spec fn with_authors(r: RefFields, ts: Seq<Token>) -> RefFields {
    let r1 = match quoted_title(r.raw_ref) {
        Some(t) => RefFields { title: Some(t), ..r },
        None => r,
    };
    if author_text(ts).len() > 2 {
        RefFields { authors: Some(author_text(ts)), ..r1 }
    } else {
        r1
    }
}

/// The primary record of a reference.
pub open spec fn primary_ref(raw: RawReference, ts: Seq<Token>) -> RefFields {
    let r1 = with_journal_info(with_identifiers(blank_ref(raw), ts), ts);
    let r2 = without_spurious_journal(r1);
    let r3 = if first_kind(ts, TokenKind::JournalName) is None {
        with_standalone_ibid(r2, ts)
    } else {
        r2
    };
    with_authors(r3, ts)
}

/// A sub-record with the text of its own segment, sharing the primary's
/// marker, source, authors and collaboration.
pub open spec fn sub_base(raw: RawReference, text: Seq<char>, p: RefFields, title: Option<Seq<char>>) -> RefFields {
    RefFields {
        raw_ref: text,
        authors: p.authors,
        collaboration: p.collaboration,
        journal_title: title,
        ..blank_ref(raw)
    }
}

/// The texts of the tokens `ts[lo..hi]`.
pub open spec fn texts_of(ts: Seq<Token>, lo: int, hi: int) -> Seq<Seq<char>>
    decreases hi - lo,
{
    if hi <= lo {
        Seq::empty()
    } else {
        texts_of(ts, lo, hi - 1).push(ts[hi - 1].text@)
    }
}

/// The text of the tokens `ts[lo..hi]`, joined by single spaces.
pub open spec fn segment_text(ts: Seq<Token>, lo: int, hi: int) -> Seq<char> {
    join_words(texts_of(ts, lo, hi))
}

/// The text of an `ibid` sub-record: the primary's journal name followed by
/// the numeration window after the `Ibid` token.
pub open spec fn ibid_text(ts: Seq<Token>, i: int) -> Seq<char> {
    let jt = match first_kind(ts, TokenKind::JournalName) {
        Some(f) => ts[f].text@,
        None => Seq::empty(),
    };
    let w = segment_text(ts, i + 1, min(i + 9, ts.len() as int));
    if w.len() == 0 {
        jt
    } else if jt.len() == 0 {
        w
    } else {
        jt + seq![' '] + w
    }
}

/// The end of the segment of the journal name at `j`: the next journal name,
/// or the end of the tokens.
pub open spec fn segment_end(ts: Seq<Token>, j: int) -> int {
    match first_kind_in(ts, TokenKind::JournalName, j + 1, ts.len() as int) {
        Some(n) => n,
        None => ts.len() as int,
    }
}

pub open spec fn min(a: int, b: int) -> int {
    if a < b {
        a
    } else {
        b
    }
}

/// The sub-record of the journal name at `j`.
pub open spec fn journal_sub(raw: RawReference, ts: Seq<Token>, p: RefFields, j: int) -> RefFields {
    let e = segment_end(ts, j);
    let base = RefFields {
        arxiv_id: first_text_in(ts, TokenKind::ArxivId, j, e),
        doi: first_text_in(ts, TokenKind::Doi, j, e),
        ..sub_base(raw, segment_text(ts, j, e), p, Some(tok_value(ts[j])))
    };
    numeration(ts.subrange(j + 1, min(e, j + 9)), base)
}

/// Whether the token at `j` is a journal name after the first one.
pub open spec fn later_journal(ts: Seq<Token>, j: int) -> bool {
    ts[j].kind == TokenKind::JournalName && first_kind(ts, TokenKind::JournalName) != Some(j)
}

/// The sub-records of the journal names after the first among `ts[0..hi]`
/// that found a volume.
pub open spec fn journal_subs(raw: RawReference, ts: Seq<Token>, p: RefFields, hi: int) -> Seq<
    RefFields,
>
    decreases hi,
{
    if hi <= 0 {
        Seq::empty()
    } else {
        let prev = journal_subs(raw, ts, p, hi - 1);
        if later_journal(ts, hi - 1) && journal_sub(raw, ts, p, hi - 1).journal_volume is Some {
            prev.push(journal_sub(raw, ts, p, hi - 1))
        } else {
            prev
        }
    }
}

/// The sub-record of the `Ibid` token at `i`.
pub open spec fn ibid_sub(raw: RawReference, ts: Seq<Token>, p: RefFields, i: int) -> RefFields {
    numeration(
        ts.subrange(i + 1, min(i + 9, ts.len() as int)),
        sub_base(raw, ibid_text(ts, i), p, p.journal_title),
    )
}

/// The sub-records of the `Ibid` tokens among `ts[0..hi]` that found a volume,
/// where the primary has a concrete journal.
pub open spec fn ibid_subs(raw: RawReference, ts: Seq<Token>, p: RefFields, hi: int) -> Seq<
    RefFields,
>
    decreases hi,
{
    if hi <= 0 || p.journal_title is None || p.journal_title == Some(ibid_lit()) {
        Seq::empty()
    } else {
        let prev = ibid_subs(raw, ts, p, hi - 1);
        if ts[hi - 1].kind == TokenKind::Ibid && ibid_sub(raw, ts, p, hi - 1).journal_volume is Some {
            prev.push(ibid_sub(raw, ts, p, hi - 1))
        } else {
            prev
        }
    }
}

/// Whether an arXiv id was already seen in the current segment after scanning
/// `ts[0..hi]`. Segments start at every journal name after the first.
pub open spec fn arxiv_seen(ts: Seq<Token>, hi: int) -> bool
    decreases hi,
{
    if hi <= 0 {
        false
    } else if later_journal(ts, hi - 1) {
        false
    } else if ts[hi - 1].kind == TokenKind::ArxivId {
        true
    } else {
        arxiv_seen(ts, hi - 1)
    }
}

/// The arXiv-only sub-record of the token at `i`.
pub open spec fn arxiv_sub(raw: RawReference, ts: Seq<Token>, p: RefFields, i: int) -> RefFields {
    RefFields { arxiv_id: Some(ts[i].text@), ..sub_base(raw, ts[i].text@, p, None) }
}

/// The sub-records of the arXiv ids among `ts[0..hi]` that are not the first
/// of their segment (the first is bound to the segment's journal record).
pub open spec fn arxiv_subs(raw: RawReference, ts: Seq<Token>, p: RefFields, hi: int) -> Seq<
    RefFields,
>
    decreases hi,
{
    if hi <= 0 {
        Seq::empty()
    } else {
        let prev = arxiv_subs(raw, ts, p, hi - 1);
        if ts[hi - 1].kind == TokenKind::ArxivId && arxiv_seen(ts, hi - 1) {
            prev.push(RefFields { authors: None, ..arxiv_sub(raw, ts, p, hi - 1) })
        } else {
            prev
        }
    }
}

/// All records of a reference: the primary, then the journal, `ibid` and
/// arXiv-only sub-records.
pub open spec fn parse_spec(raw: RawReference, ts: Seq<Token>) -> Seq<RefFields> {
    let p = primary_ref(raw, ts);
    let n = ts.len() as int;
    seq![p] + journal_subs(raw, ts, p, n) + ibid_subs(raw, ts, p, n) + arxiv_subs(raw, ts, p, n)
}

/// The views of a sequence of records.
pub open spec fn views(v: Seq<ParsedReference>) -> Seq<RefFields> {
    v.map_values(|r: ParsedReference| r@)
}

// ── Implementation ─────────────────────────────────────────────────────────

/// Parse a raw reference into one or more structured records.
pub fn parse_references(raw: &RawReference, tokens: &[Token]) -> (r: Vec<ParsedReference>)
    ensures
        views(r@) == parse_spec(*raw, tokens@),
{
    let mut result = blank(raw);
    extract_identifiers(tokens, &mut result);
    extract_journal_info(tokens, &mut result);
    if result.journal_title.is_some() && result.journal_volume.is_none() {
        result.journal_title = None;
    }
    if find_kind(tokens, TokenKind::JournalName, 0, tokens.len()).is_none() {
        extract_standalone_ibid(tokens, &mut result);
    }
    extract_authors(tokens, &mut result);
    let mut refs: Vec<ParsedReference> = Vec::new();
    refs.push(result.copy());
    let ghost p = result@;
    let mut journal = extract_journal_sub_refs(raw, tokens, &result);
    let mut ibid = extract_ibid_sub_refs(raw, tokens, &result);
    let mut arxiv = extract_arxiv_only_sub_refs(raw, tokens, &result);
    let ghost (jv, iv, av) = (views(journal@), views(ibid@), views(arxiv@));
    refs.append(&mut journal);
    refs.append(&mut ibid);
    refs.append(&mut arxiv);
    assert(views(refs@) =~= seq![p] + jv + iv + av);
    refs
}

/// A record holding only the raw reference's text, marker and source.
fn blank(raw: &RawReference) -> (r: ParsedReference)
    ensures
        r@ == blank_ref(*raw),
{
    ParsedReference {
        raw_ref: raw.text.clone(),
        linemarker: copy_opt(&raw.linemarker),
        authors: None,
        title: None,
        journal_title: None,
        journal_volume: None,
        journal_year: None,
        journal_page: None,
        doi: None,
        arxiv_id: None,
        isbn: None,
        report_number: None,
        url: None,
        collaboration: None,
        source: raw.source,
    }
}

/// The canonical form of a token.
fn value_of(t: &Token) -> (r: String)
    ensures
        r@ == tok_value(*t),
{
    match &t.normalized {
        Some(n) => n.clone(),
        None => t.text.clone(),
    }
}

/// The index of the first token of kind `k` in `tokens[lo..hi]`.
fn find_kind(tokens: &[Token], k: TokenKind, lo: usize, hi: usize) -> (r: Option<usize>)
    requires
        lo <= hi <= tokens@.len(),
    ensures
        r is None <==> first_kind_in(tokens@, k, lo as int, hi as int) is None,
        r matches Some(i) ==> first_kind_in(tokens@, k, lo as int, hi as int) == Some(i as int)
            && lo <= i < hi && tokens@[i as int].kind == k,
{
    let mut i = lo;
    while i < hi
        invariant
            lo <= i <= hi <= tokens@.len(),
            first_kind_in(tokens@, k, i as int, hi as int) == first_kind_in(
                tokens@,
                k,
                lo as int,
                hi as int,
            ),
        decreases hi - i,
    {
        if tokens[i].kind == k {
            return Some(i);
        }
        i += 1;
    }
    None
}

/// The text of the first token of kind `k` in `tokens[lo..hi]`.
fn find_token_in_range(tokens: &[Token], lo: usize, hi: usize, k: TokenKind) -> (r: Option<String>)
    requires
        lo <= hi <= tokens@.len(),
    ensures
        sv(r) == first_text_in(tokens@, k, lo as int, hi as int),
{
    match find_kind(tokens, k, lo, hi) {
        Some(i) => Some(tokens[i].text.clone()),
        None => None,
    }
}

/// The canonical form of the first token of kind `k`.
fn find_value(tokens: &[Token], k: TokenKind) -> (r: Option<String>)
    ensures
        sv(r) == first_value(tokens@, k),
{
    match find_kind(tokens, k, 0, tokens.len()) {
        Some(i) => Some(value_of(&tokens[i])),
        None => None,
    }
}

fn extract_identifiers(tokens: &[Token], result: &mut ParsedReference)
    ensures
        final(result)@ == with_identifiers(old(result)@, tokens@),
{
    let n = tokens.len();
    result.doi = find_token_in_range(tokens, 0, n, TokenKind::Doi);
    result.arxiv_id = find_token_in_range(tokens, 0, n, TokenKind::ArxivId);
    result.isbn = find_token_in_range(tokens, 0, n, TokenKind::Isbn);
    result.report_number = find_value(tokens, TokenKind::ReportNumber);
    result.url = find_token_in_range(tokens, 0, n, TokenKind::Url);
    result.collaboration = find_value(tokens, TokenKind::Collaboration);
}

fn extract_standalone_year(tokens: &[Token], result: &mut ParsedReference)
    ensures
        final(result)@ == with_standalone_year(old(result)@, tokens@),
{
    if result.journal_year.is_some() {
        return;
    }
    if let Some(y) = find_value(tokens, TokenKind::Year) {
        result.journal_year = Some(y);
    }
}

/// Walk tokens to find the journal name and the numeration after it.
fn extract_journal_info(tokens: &[Token], result: &mut ParsedReference)
    ensures
        final(result)@ == with_journal_info(old(result)@, tokens@),
{
    match find_kind(tokens, TokenKind::JournalName, 0, tokens.len()) {
        None => {
            extract_standalone_year(tokens, result);
        },
        Some(j) => {
            result.journal_title = Some(value_of(&tokens[j]));
            assign_numeration(tokens, j + 1, tokens.len(), result);
            extract_standalone_year(tokens, result);
        },
    }
}

/// Numeration after the first `Ibid` token, with the placeholder title where a
/// volume emerged.
fn extract_standalone_ibid(tokens: &[Token], result: &mut ParsedReference)
    ensures
        final(result)@ == with_standalone_ibid(old(result)@, tokens@),
{
    if let Some(i) = find_kind(tokens, TokenKind::Ibid, 0, tokens.len()) {
        assign_numeration(tokens, i + 1, tokens.len(), result);
        if result.journal_volume.is_some() {
            result.journal_title = Some(String::from_str("ibid"));
            proof {
                reveal_strlit("ibid");
                assert(sv(result.journal_title) == Some(ibid_lit()));
            }
        }
    }
}

/// Assign volume, year and page from the first eight tokens of
/// `tokens[lo..hi]`, stopping at a journal name, DOI or arXiv id.
fn assign_numeration(tokens: &[Token], lo: usize, hi: usize, result: &mut ParsedReference)
    requires
        lo <= hi <= tokens@.len(),
    ensures
        final(result)@ == numeration(tokens@.subrange(lo as int, hi as int), old(result)@),
{
    let ghost w = tokens@.subrange(lo as int, hi as int);
    let mut found = false;
    let mut i = lo;
    while i < hi && i - lo < 8
        invariant
            lo <= i <= hi <= tokens@.len(),
            w == tokens@.subrange(lo as int, hi as int),
            num_from(w, i - lo, result@, found) == numeration(w, old(result)@),
        decreases hi - i,
    {
        let t = &tokens[i];
        assert(w[i - lo] == tokens@[i as int]);
        if t.kind == TokenKind::JournalName || t.kind == TokenKind::Doi || t.kind
            == TokenKind::ArxivId {
            return;
        }
        found = numeration_step(t, found, result);
        i += 1;
    }
}

/// One step of the numeration assignment on token `t`.
fn numeration_step(t: &Token, found: bool, result: &mut ParsedReference) -> (f: bool)
    ensures
        (final(result)@, f) == num_step(old(result)@, found, *t),
{
    let free = !found && result.journal_volume.is_none();
    let text = chars_of(t.text.as_str());
    match t.kind {
        TokenKind::Number => {
            if free {
                result.journal_volume = Some(string_all(stripped(text.as_slice(), Strip::NonDigit).as_slice()));
                true
            } else if found && result.journal_page.is_none() {
                result.journal_page = Some(string_all(stripped(text.as_slice(), Strip::NonDigit).as_slice()));
                found
            } else {
                found
            }
        },
        TokenKind::Year => {
            if free && !(text.len() > 0 && text[0] == '(') {
                result.journal_volume = Some(value_of(t));
                true
            } else if result.journal_year.is_none() {
                result.journal_year = Some(value_of(t));
                found
            } else {
                found
            }
        },
        TokenKind::PageRange => {
            if free {
                result.journal_volume = Some(string_all(stripped(text.as_slice(), Strip::NonAlnumDash).as_slice()));
                true
            } else if result.journal_page.is_none() {
                result.journal_page = Some(string_all(stripped(text.as_slice(), Strip::NonAlnumDash).as_slice()));
                found
            } else {
                found
            }
        },
        TokenKind::Word => {
            if free {
                if let Some(v) = extract_letter_prefixed_number(&text) {
                    result.journal_volume = Some(string_all(v.as_slice()));
                    true
                } else if let Some((v, l)) = extract_old_style_volume(&text) {
                    result.journal_volume = Some(string_all(v.as_slice()));
                    append_section_letter(result, l);
                    true
                } else if let Some((v, p)) = extract_conference_volume(&text) {
                    result.journal_volume = Some(string_all(v.as_slice()));
                    if let Some(p) = p {
                        if result.journal_page.is_none() {
                            result.journal_page = Some(string_all(p.as_slice()));
                        }
                    }
                    true
                } else {
                    found
                }
            } else if found && result.journal_page.is_none() {
                if let Some(p) = extract_letter_prefixed_number(&text) {
                    result.journal_page = Some(string_all(p.as_slice()));
                }
                found
            } else {
                found
            }
        },
        _ => found,
    }
}

/// Digits of a letter-prefixed number: "D60" → "60", "B962" → "962".
fn extract_letter_prefixed_number(text: &Vec<char>) -> (r: Option<Vec<char>>)
    ensures
        r matches Some(v) ==> letter_prefixed(text@) == Some(v@),
        r is None ==> letter_prefixed(text@) is None,
{
    let c = stripped(text.as_slice(), Strip::Punct);
    if c.len() >= 2 && upper(c[0]) && all_digits_in(c.as_slice(), 1, c.len()) {
        Some(slice_vec(c.as_slice(), 1, c.len()))
    } else {
        None
    }
}

/// Old-style volume with a trailing section letter: "249B" → ("249", 'B').
fn extract_old_style_volume(text: &Vec<char>) -> (r: Option<(Vec<char>, char)>)
    ensures
        r matches Some((v, l)) ==> old_style_volume(text@) == Some((v@, l)),
        r is None ==> old_style_volume(text@) is None,
{
    let c = stripped(text.as_slice(), Strip::Punct);
    if c.len() >= 2 {
        let last = c[c.len() - 1];
        if 'A' <= last && last <= 'D' && all_digits_in(c.as_slice(), 0, c.len() - 1) {
            assert(c@.drop_last() =~= c@.subrange(0, c@.len() - 1));
            return Some((slice_vec(c.as_slice(), 0, c.len() - 1), last));
        }
        assert(c@.drop_last() =~= c@.subrange(0, c@.len() - 1));
    }
    None
}

/// The end of the run of uppercase letters starting at `i`.
fn upper_run_end(v: &[char], i: usize) -> (r: usize)
    requires
        i <= v@.len(),
    ensures
        r == upper_run(v@, i as int),
        i <= r <= v@.len(),
{
    let mut k = i;
    while k < v.len() && upper(v[k])
        invariant
            i <= k <= v@.len(),
            upper_run(v@, k as int) == upper_run(v@, i as int),
        decreases v.len() - k,
    {
        k += 1;
    }
    k
}

/// Whether `v[0..hi]` is a conference code such as "LAT2005".
fn is_conference_code(v: &[char], hi: usize) -> (r: bool)
    requires
        hi <= v@.len(),
    ensures
        r == conference_code(v@.subrange(0, hi as int)),
{
    let s = slice_vec(v, 0, hi);
    let n = upper_run_end(s.as_slice(), 0);
    n >= 2 && s.len() >= 4 && n == s.len() - 4 && all_digits_in(s.as_slice(), n, s.len())
}

/// Conference identifier as volume: "LAT2005", or "LAT2006:022" with a page.
fn extract_conference_volume(text: &Vec<char>) -> (r: Option<(Vec<char>, Option<Vec<char>>)>)
    ensures
        r matches Some((v, p)) ==> conference_volume(text@) == Some(
            (
                v@,
                match p {
                    Some(q) => Some(q@),
                    None => None::<Seq<char>>,
                },
            ),
        ),
        r is None ==> conference_volume(text@) is None,
{
    let c = stripped(text.as_slice(), Strip::PunctNoColon);
    if let Some(k) = find_char(c.as_slice(), ':', 0) {
        if is_conference_code(c.as_slice(), k) && c.len() > k + 1 && all_digits_in(
            c.as_slice(),
            k + 1,
            c.len(),
        ) {
            return Some((slice_vec(c.as_slice(), 0, k), Some(slice_vec(c.as_slice(), k + 1, c.len()))));
        }
    }
    assert(c@.subrange(0, c@.len() as int) =~= c@);
    if is_conference_code(c.as_slice(), c.len()) {
        Some((slice_vec(c.as_slice(), 0, c.len()), None))
    } else {
        None
    }
}

/// Append a section letter to the journal title unless it already ends in one.
fn append_section_letter(result: &mut ParsedReference, letter: char)
    ensures
        final(result)@ == (RefFields {
            journal_title: with_section_letter(old(result)@.journal_title, letter),
            ..old(result)@
        }),
{
    if let Some(title) = &result.journal_title {
        let t = chars_of(title.as_str());
        if !(t.len() > 0 && upper(t[t.len() - 1])) {
            let mut s = title.clone();
            push_char(&mut s, ' ');
            push_char(&mut s, letter);
            assert(s@ =~= title@ + seq![' ', letter]);
            result.journal_title = Some(s);
        }
    }
}

/// The text strictly between the first `open` and the next `close`.
fn extract_between_quotes(text: &Vec<char>, open: char, close: char) -> (r: Option<Vec<char>>)
    ensures
        r matches Some(v) ==> between_quotes(text@, open, close) == Some(v@),
        r is None ==> between_quotes(text@, open, close) is None,
{
    match find_char(text.as_slice(), open, 0) {
        Some(a) => match find_char(text.as_slice(), close, {
            assert(a < text.len());
            a + 1
        }) {
            Some(b) => Some(slice_vec(text.as_slice(), a + 1, b)),
            None => None,
        },
        None => None,
    }
}

/// Whitespace, trailing commas and whitespace again removed.
fn tidy_text(v: &Vec<char>) -> (r: Vec<char>)
    ensures
        r@ == tidy(v@),
{
    let a = trimmed(v);
    let b = stripped_end(a.as_slice(), Strip::Comma);
    trimmed(&b)
}

/// The title from the first balanced pair of quotes in the raw text.
fn extract_title_from_raw(raw: &Vec<char>, result: &mut ParsedReference)
    ensures
        final(result)@ == (match quoted_title(raw@) {
            Some(t) => RefFields { title: Some(t), ..old(result)@ },
            None => old(result)@,
        }),
{
    let t = match extract_between_quotes(raw, '\u{201c}', '\u{201d}') {
        Some(t) => Some(t),
        None => match extract_between_quotes(raw, '\u{201d}', '\u{201d}') {
            Some(t) => Some(t),
            None => extract_between_quotes(raw, '"', '"'),
        },
    };
    if let Some(t) = t {
        let c = tidy_text(&t);
        if c.len() > 0 {
            result.title = Some(string_all(c.as_slice()));
        }
    }
}

/// Whether a token ends the author list.
fn stops_author_list(token: &Token) -> (r: bool)
    ensures
        r == stops_authors(*token),
{
    if is_author_terminator(token) {
        return true;
    }
    if token.kind == TokenKind::LineMarker {
        return false;
    }
    let text = chars_of(token.text.as_str());
    contains_char(text.as_slice(), '\u{201c}') || contains_char(text.as_slice(), '\u{201d}')
        || contains_char(text.as_slice(), '"')
}

fn is_author_terminator(token: &Token) -> (r: bool)
    ensures
        r == ends_authors(token.kind),
{
    match token.kind {
        TokenKind::JournalName | TokenKind::Doi | TokenKind::ArxivId | TokenKind::ReportNumber
        | TokenKind::Year | TokenKind::Number | TokenKind::PageRange | TokenKind::Ibid => true,
        _ => false,
    }
}

/// Title from the raw text's quotes; authors from the leading word tokens.
fn extract_authors(tokens: &[Token], result: &mut ParsedReference)
    ensures
        final(result)@ == with_authors(old(result)@, tokens@),
{
    let raw = chars_of(result.raw_ref.as_str());
    extract_title_from_raw(&raw, result);
    let ghost ts = tokens@;
    let mut end: usize = 0;
    while end < tokens.len() && !stops_author_list(&tokens[end])
        invariant
            end <= ts.len(),
            ts == tokens@,
            author_end(ts, end as int) == author_end(ts, 0),
        decreases tokens.len() - end,
    {
        end += 1;
    }
    let mut joined: Vec<char> = Vec::new();
    let mut count: usize = 0;
    let mut i: usize = 0;
    while i < end
        invariant
            i <= end <= ts.len(),
            ts == tokens@,
            end == author_end(ts, 0),
            joined@ == join_words(word_texts(ts, i as int)),
            count == word_texts(ts, i as int).len(),
            count <= i,
        decreases end - i,
    {
        let t = &tokens[i];
        if t.kind != TokenKind::LineMarker {
            let text = chars_of(t.text.as_str());
            let ghost prev = word_texts(ts, i as int);
            if count > 0 {
                joined.push(' ');
            }
            extend_from(&mut joined, text.as_slice(), 0, text.len());
            assert(text@.subrange(0, text@.len() as int) =~= text@);
            proof {
                let ws = word_texts(ts, i + 1);
                assert(ws == prev.push(ts[i as int].text@));
                assert(ws.drop_last() =~= prev);
            }
            count += 1;
        }
        i += 1;
    }
    let a = tidy_text(&joined);
    if a.len() > 2 {
        result.authors = Some(string_all(a.as_slice()));
    }
}

/// Sub-records for each journal citation after the first.
fn extract_journal_sub_refs(raw: &RawReference, tokens: &[Token], primary: &ParsedReference) -> (r:
    Vec<ParsedReference>)
    ensures
        views(r@) == journal_subs(*raw, tokens@, primary@, tokens@.len() as int),
{
    let n = tokens.len();
    let first = find_kind(tokens, TokenKind::JournalName, 0, n);
    let mut subs: Vec<ParsedReference> = Vec::new();
    let mut j: usize = 0;
    while j < n
        invariant
            j <= n == tokens@.len(),
            first is None <==> first_kind(tokens@, TokenKind::JournalName) is None,
            first matches Some(f) ==> first_kind(tokens@, TokenKind::JournalName) == Some(f as int),
            views(subs@) == journal_subs(*raw, tokens@, primary@, j as int),
        decreases n - j,
    {
        if tokens[j].kind == TokenKind::JournalName && first != Some(j) {
            let e = match find_kind(tokens, TokenKind::JournalName, j + 1, n) {
                Some(x) => x,
                None => n,
            };
            let mut sub = make_sub_ref(raw, join_token_texts(tokens, j, e), primary, Some(value_of(&tokens[j])));
            sub.arxiv_id = find_token_in_range(tokens, j, e, TokenKind::ArxivId);
            sub.doi = find_token_in_range(tokens, j, e, TokenKind::Doi);
            let we = if e - j < 9 { e } else { j + 9 };
            assign_numeration(tokens, j + 1, we, &mut sub);
            if sub.journal_volume.is_some() {
                let ghost prev = views(subs@);
                subs.push(sub);
                assert(views(subs@) =~= prev.push(journal_sub(*raw, tokens@, primary@, j as int)));
            }
        }
        j += 1;
    }
    subs
}

/// The texts of `tokens[lo..hi]` joined by single spaces.
fn join_token_texts(tokens: &[Token], lo: usize, hi: usize) -> (r: Vec<char>)
    requires
        lo <= hi <= tokens@.len(),
    ensures
        r@ == segment_text(tokens@, lo as int, hi as int),
{
    let ghost ts = tokens@;
    let mut joined: Vec<char> = Vec::new();
    let mut i = lo;
    while i < hi
        invariant
            lo <= i <= hi <= ts.len(),
            ts == tokens@,
            joined@ == join_words(texts_of(ts, lo as int, i as int)),
            texts_of(ts, lo as int, i as int).len() == i - lo,
        decreases hi - i,
    {
        let text = chars_of(tokens[i].text.as_str());
        let ghost prev = texts_of(ts, lo as int, i as int);
        if i > lo {
            joined.push(' ');
        }
        extend_from(&mut joined, text.as_slice(), 0, text.len());
        assert(text@.subrange(0, text@.len() as int) =~= text@);
        proof {
            let ws = texts_of(ts, lo as int, i + 1);
            assert(ws == prev.push(ts[i as int].text@));
            assert(ws.drop_last() =~= prev);
        }
        i += 1;
    }
    joined
}

/// A sub-record with the primary's authors, collaboration, marker and source.
fn make_sub_ref(raw: &RawReference, text: Vec<char>, primary: &ParsedReference, title: Option<String>) -> (r:
    ParsedReference)
    ensures
        r@ == sub_base(*raw, text@, primary@, sv(title)),
{
    let mut r = blank(raw);
    r.raw_ref = string_all(text.as_slice());
    r.authors = copy_opt(&primary.authors);
    r.collaboration = copy_opt(&primary.collaboration);
    r.journal_title = title;
    r
}

/// Sub-records for `ibid` citations (errata, addenda) with the primary's journal.
fn extract_ibid_sub_refs(raw: &RawReference, tokens: &[Token], primary: &ParsedReference) -> (r:
    Vec<ParsedReference>)
    ensures
        views(r@) == ibid_subs(*raw, tokens@, primary@, tokens@.len() as int),
{
    let n = tokens.len();
    let mut subs: Vec<ParsedReference> = Vec::new();
    let concrete = match &primary.journal_title {
        Some(j) => !is_ibid(j),
        None => false,
    };
    if !concrete {
        proof {
            lemma_ibid_subs_empty(*raw, tokens@, primary@, n as int);
        }
        return subs;
    }
    let mut i: usize = 0;
    while i < n
        invariant
            i <= n == tokens@.len(),
            primary@.journal_title is Some,
            primary@.journal_title != Some(ibid_lit()),
            views(subs@) == ibid_subs(*raw, tokens@, primary@, i as int),
        decreases n - i,
    {
        if tokens[i].kind == TokenKind::Ibid {
            let we = if n - i > 9 { i + 9 } else { n };
            let mut text: Vec<char> = match find_kind(tokens, TokenKind::JournalName, 0, n) {
                Some(f) => chars_of(tokens[f].text.as_str()),
                None => Vec::new(),
            };
            let w = join_token_texts(tokens, i + 1, we);
            if w.len() > 0 {
                if text.len() > 0 {
                    text.push(' ');
                }
                extend_from(&mut text, w.as_slice(), 0, w.len());
                assert(w@.subrange(0, w@.len() as int) =~= w@);
            }
            assert(text@ =~= ibid_text(tokens@, i as int));
            let mut sub = make_sub_ref(raw, text, primary, copy_opt(&primary.journal_title));
            assign_numeration(tokens, i + 1, we, &mut sub);
            if sub.journal_volume.is_some() {
                let ghost prev = views(subs@);
                subs.push(sub);
                assert(views(subs@) =~= prev.push(ibid_sub(*raw, tokens@, primary@, i as int)));
            }
        }
        i += 1;
    }
    subs
}

/// Whether a title is the `ibid` placeholder.
fn is_ibid(s: &String) -> (r: bool)
    ensures
        r == (s@ == ibid_lit()),
{
    let c = chars_of(s.as_str());
    let ib = lit("ibid");
    proof {
        reveal_strlit("ibid");
    }
    let r = c.len() == 4 && has_at(c.as_slice(), 0, ib.as_slice());
    proof {
        if c@.len() == 4 {
            assert(c@.subrange(0, 4) =~= c@);
        }
        assert(ib@ =~= ibid_lit());
    }
    r
}

proof fn lemma_ibid_subs_empty(raw: RawReference, ts: Seq<Token>, p: RefFields, hi: int)
    requires
        p.journal_title is None || p.journal_title == Some(ibid_lit()),
    ensures
        ibid_subs(raw, ts, p, hi) == Seq::<RefFields>::empty(),
{
}

/// Sub-records for arXiv ids that no journal segment took.
fn extract_arxiv_only_sub_refs(raw: &RawReference, tokens: &[Token], primary: &ParsedReference) -> (r:
    Vec<ParsedReference>)
    ensures
        views(r@) == arxiv_subs(*raw, tokens@, primary@, tokens@.len() as int),
{
    let n = tokens.len();
    let first = find_kind(tokens, TokenKind::JournalName, 0, n);
    let mut subs: Vec<ParsedReference> = Vec::new();
    let mut seen = false;
    let mut i: usize = 0;
    while i < n
        invariant
            i <= n == tokens@.len(),
            first is None <==> first_kind(tokens@, TokenKind::JournalName) is None,
            first matches Some(f) ==> first_kind(tokens@, TokenKind::JournalName) == Some(f as int),
            seen == arxiv_seen(tokens@, i as int),
            views(subs@) == arxiv_subs(*raw, tokens@, primary@, i as int),
        decreases n - i,
    {
        let t = &tokens[i];
        if t.kind == TokenKind::JournalName && first != Some(i) {
            seen = false;
        } else if t.kind == TokenKind::ArxivId {
            if seen {
                let mut sub = make_sub_ref(raw, chars_of(t.text.as_str()), primary, None);
                sub.arxiv_id = Some(t.text.clone());
                sub.authors = None;
                let ghost prev = views(subs@);
                subs.push(sub);
                assert(views(subs@) =~= prev.push(
                    RefFields { authors: None, ..arxiv_sub(*raw, tokens@, primary@, i as int) },
                ));
            }
            seen = true;
        }
        i += 1;
    }
    subs
}


/// The first token of a kind found in a range has that kind and lies in it.
pub proof fn lemma_first_kind_found(ts: Seq<Token>, k: TokenKind, i: int, hi: int)
    ensures
        first_kind_in(ts, k, i, hi) matches Some(x) ==> i <= x < hi && 0 <= x < ts.len() && ts[x].kind == k,
    decreases hi - i,
{
    if !(i < 0 || i >= hi || i >= ts.len()) && ts[i].kind != k {
        lemma_first_kind_found(ts, k, i + 1, hi);
    }
}

// ── Parsing reads tokens only through their kind and texts ─────────────────

/// Two token sequences with the same kinds, texts and normalized texts.
pub open spec fn same_tokens(a: Seq<Token>, b: Seq<Token>) -> bool {
    a.len() == b.len() && forall|i: int| 0 <= i < a.len() ==> (#[trigger] a[i]).kind == b[i].kind
        && a[i].text@ == b[i].text@ && sv(a[i].normalized) == sv(b[i].normalized)
}

proof fn lemma_same_sub(a: Seq<Token>, b: Seq<Token>, lo: int, hi: int)
    requires
        same_tokens(a, b),
        0 <= lo <= hi <= a.len(),
    ensures
        same_tokens(a.subrange(lo, hi), b.subrange(lo, hi)),
{
    assert forall|i: int| 0 <= i < hi - lo implies (#[trigger] a.subrange(lo, hi)[i]).kind == b.subrange(lo, hi)[i].kind
        && a.subrange(lo, hi)[i].text@ == b.subrange(lo, hi)[i].text@ && sv(a.subrange(lo, hi)[i].normalized)
        == sv(b.subrange(lo, hi)[i].normalized) by {
        assert(a.subrange(lo, hi)[i] == a[lo + i]);
        assert(b.subrange(lo, hi)[i] == b[lo + i]);
    }
}

proof fn lemma_same_num(a: Seq<Token>, b: Seq<Token>, i: int, r: RefFields, f: bool)
    requires
        same_tokens(a, b),
    ensures
        num_from(a, i, r, f) == num_from(b, i, r, f),
    decreases a.len() - i,
{
    if !(i < 0 || i >= a.len() || i >= 8 || stops_numeration(a[i].kind)) {
        assert(tok_value(a[i]) == tok_value(b[i]));
        assert(num_step(r, f, a[i]) == num_step(r, f, b[i]));
        let (r2, f2) = num_step(r, f, a[i]);
        lemma_same_num(a, b, i + 1, r2, f2);
    }
}

proof fn lemma_same_numeration(a: Seq<Token>, b: Seq<Token>, lo: int, hi: int, r: RefFields)
    requires
        same_tokens(a, b),
        0 <= lo <= hi <= a.len(),
    ensures
        numeration(a.subrange(lo, hi), r) == numeration(b.subrange(lo, hi), r),
{
    lemma_same_sub(a, b, lo, hi);
    lemma_same_num(a.subrange(lo, hi), b.subrange(lo, hi), 0, r, false);
}

proof fn lemma_same_first(a: Seq<Token>, b: Seq<Token>, k: TokenKind, i: int, hi: int)
    requires
        same_tokens(a, b),
    ensures
        first_kind_in(a, k, i, hi) == first_kind_in(b, k, i, hi),
        first_kind_in(a, k, i, hi) matches Some(x) ==> 0 <= x < a.len() && i <= x,
    decreases hi - i,
{
    if !(i < 0 || i >= hi || i >= a.len()) && a[i].kind != k {
        lemma_same_first(a, b, k, i + 1, hi);
    }
}

proof fn lemma_same_author_end(a: Seq<Token>, b: Seq<Token>, i: int)
    requires
        same_tokens(a, b),
    ensures
        author_end(a, i) == author_end(b, i),
    decreases a.len() - i,
{
    if 0 <= i < a.len() {
        assert(stops_authors(a[i]) == stops_authors(b[i]));
        if !stops_authors(a[i]) {
            lemma_same_author_end(a, b, i + 1);
        }
    }
}

proof fn lemma_same_word_texts(a: Seq<Token>, b: Seq<Token>, hi: int)
    requires
        same_tokens(a, b),
        hi <= a.len(),
    ensures
        word_texts(a, hi) == word_texts(b, hi),
    decreases hi,
{
    if hi > 0 {
        lemma_same_word_texts(a, b, hi - 1);
    }
}

proof fn lemma_same_texts(a: Seq<Token>, b: Seq<Token>, lo: int, hi: int)
    requires
        same_tokens(a, b),
        0 <= lo,
        hi <= a.len(),
    ensures
        texts_of(a, lo, hi) == texts_of(b, lo, hi),
    decreases hi - lo,
{
    if hi > lo {
        lemma_same_texts(a, b, lo, hi - 1);
    }
}

proof fn lemma_same_primary(raw: RawReference, a: Seq<Token>, b: Seq<Token>)
    requires
        same_tokens(a, b),
    ensures
        primary_ref(raw, a) == primary_ref(raw, b),
{
    let n = a.len() as int;
    lemma_same_first(a, b, TokenKind::Doi, 0, n);
    lemma_same_first(a, b, TokenKind::ArxivId, 0, n);
    lemma_same_first(a, b, TokenKind::Isbn, 0, n);
    lemma_same_first(a, b, TokenKind::Url, 0, n);
    lemma_same_first(a, b, TokenKind::ReportNumber, 0, n);
    lemma_same_first(a, b, TokenKind::Collaboration, 0, n);
    lemma_same_first(a, b, TokenKind::Year, 0, n);
    lemma_same_first(a, b, TokenKind::JournalName, 0, n);
    lemma_same_first(a, b, TokenKind::Ibid, 0, n);
    let r0 = with_identifiers(blank_ref(raw), a);
    assert(r0 == with_identifiers(blank_ref(raw), b));
    match first_kind(a, TokenKind::JournalName) {
        Some(j) => {
            assert(tok_value(a[j]) == tok_value(b[j]));
            let r1 = RefFields { journal_title: Some(tok_value(a[j])), ..r0 };
            lemma_same_numeration(a, b, j + 1, n, r1);
        },
        None => {},
    }
    let r2 = without_spurious_journal(with_journal_info(r0, a));
    assert(r2 == without_spurious_journal(with_journal_info(r0, b)));
    match first_kind(a, TokenKind::Ibid) {
        Some(i) => {
            lemma_same_numeration(a, b, i + 1, n, r2);
        },
        None => {},
    }
    lemma_same_author_end(a, b, 0);
    lemma_same_sub(a, b, 0, 0);
    if author_end(a, 0) <= n {
        lemma_same_word_texts(a, b, author_end(a, 0));
    }
    lemma_author_end_bound(a, 0);
}

proof fn lemma_author_end_bound(ts: Seq<Token>, i: int)
    requires
        0 <= i,
    ensures
        i <= author_end(ts, i),
        i <= ts.len() ==> author_end(ts, i) <= ts.len(),
    decreases ts.len() - i,
{
    if 0 <= i < ts.len() && !stops_authors(ts[i]) {
        lemma_author_end_bound(ts, i + 1);
    }
}

proof fn lemma_same_journal_subs(raw: RawReference, a: Seq<Token>, b: Seq<Token>, p: RefFields, hi: int)
    requires
        same_tokens(a, b),
        hi <= a.len(),
    ensures
        journal_subs(raw, a, p, hi) == journal_subs(raw, b, p, hi),
    decreases hi,
{
    if hi > 0 {
        lemma_same_journal_subs(raw, a, b, p, hi - 1);
        let j = hi - 1;
        let n = a.len() as int;
        lemma_same_first(a, b, TokenKind::JournalName, 0, n);
        lemma_same_first(a, b, TokenKind::JournalName, j + 1, n);
        let e = segment_end(a, j);
        assert(e == segment_end(b, j));
        assert(j < e <= n);
        lemma_same_first(a, b, TokenKind::ArxivId, j, e);
        lemma_same_first(a, b, TokenKind::Doi, j, e);
        lemma_same_texts(a, b, j, e);
        assert(tok_value(a[j]) == tok_value(b[j]));
        let base = RefFields {
            arxiv_id: first_text_in(a, TokenKind::ArxivId, j, e),
            doi: first_text_in(a, TokenKind::Doi, j, e),
            ..sub_base(raw, segment_text(a, j, e), p, Some(tok_value(a[j])))
        };
        lemma_same_numeration(a, b, j + 1, min(e, j + 9), base);
        assert(journal_sub(raw, a, p, j) == journal_sub(raw, b, p, j));
    }
}

proof fn lemma_same_ibid_subs(raw: RawReference, a: Seq<Token>, b: Seq<Token>, p: RefFields, hi: int)
    requires
        same_tokens(a, b),
        hi <= a.len(),
    ensures
        ibid_subs(raw, a, p, hi) == ibid_subs(raw, b, p, hi),
    decreases hi,
{
    if hi > 0 && !(p.journal_title is None || p.journal_title == Some(ibid_lit())) {
        lemma_same_ibid_subs(raw, a, b, p, hi - 1);
        let i = hi - 1;
        let n = a.len() as int;
        lemma_same_first(a, b, TokenKind::JournalName, 0, n);
        lemma_same_texts(a, b, i + 1, min(i + 9, n));
        assert(ibid_text(a, i) == ibid_text(b, i));
        lemma_same_numeration(a, b, i + 1, min(i + 9, n), sub_base(raw, ibid_text(a, i), p, p.journal_title));
        assert(ibid_sub(raw, a, p, i) == ibid_sub(raw, b, p, i));
    }
}

proof fn lemma_same_arxiv_seen(a: Seq<Token>, b: Seq<Token>, hi: int)
    requires
        same_tokens(a, b),
        hi <= a.len(),
    ensures
        arxiv_seen(a, hi) == arxiv_seen(b, hi),
    decreases hi,
{
    if hi > 0 {
        lemma_same_first(a, b, TokenKind::JournalName, 0, a.len() as int);
        lemma_same_arxiv_seen(a, b, hi - 1);
    }
}

proof fn lemma_same_arxiv_subs(raw: RawReference, a: Seq<Token>, b: Seq<Token>, p: RefFields, hi: int)
    requires
        same_tokens(a, b),
        hi <= a.len(),
    ensures
        arxiv_subs(raw, a, p, hi) == arxiv_subs(raw, b, p, hi),
    decreases hi,
{
    if hi > 0 {
        lemma_same_arxiv_subs(raw, a, b, p, hi - 1);
        lemma_same_arxiv_seen(a, b, hi - 1);
    }
}

/// Parsing reads its tokens only through their kinds, texts and normalized
/// texts: two token sequences that agree on these give the same records.
pub proof fn lemma_parse_same_tokens(raw: RawReference, a: Seq<Token>, b: Seq<Token>)
    requires
        same_tokens(a, b),
    ensures
        parse_spec(raw, a) == parse_spec(raw, b),
{
    lemma_same_primary(raw, a, b);
    let p = primary_ref(raw, a);
    let n = a.len() as int;
    lemma_same_journal_subs(raw, a, b, p, n);
    lemma_same_ibid_subs(raw, a, b, p, n);
    lemma_same_arxiv_subs(raw, a, b, p, n);
}

} // verus!
