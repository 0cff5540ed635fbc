//! Reference-section discovery and segmentation into raw references.
use vstd::prelude::*;

use crate::driver::has_year;
use crate::kb::{regex_compiles};
use crate::text::{
    chars_of, digit, has_at, has_sub, is_alpha, is_digit, is_lower, is_space, is_upper, lit,
    slice_vec, space, string_all, string_of, trim, trimmed, upper, lower, find_sub, push_char,
    extend_from,
};
use crate::types::{sv, RawFields, RawReference, ReferenceSource, ZoneKind};
use crate::zones::is_heading;
use vstd::string::StrSliceExecFns;

verus! {

/// A classified block, by the text of its lines.
pub struct ZonedBlock {
    pub lines: Vec<String>,
    pub zone: ZoneKind,
    pub page_num: usize,
}

/// A block's lines joined by single spaces.
pub open spec fn join_lines(ls: Seq<String>, hi: int) -> Seq<char>
    decreases hi,
{
    if hi <= 0 {
        Seq::empty()
    } else if hi == 1 {
        ls[0]@
    } else {
        join_lines(ls, hi - 1) + seq![' '] + ls[hi - 1]@
    }
}

pub open spec fn block_text_spec(zb: ZonedBlock) -> Seq<char> {
    join_lines(zb.lines@, zb.lines@.len() as int)
}

/// The text of a block: its lines joined by single spaces.
pub fn block_text(zb: &ZonedBlock) -> (r: String)
    ensures
        r@ == block_text_spec(*zb),
{
    let mut out = String::new();
    let mut i: usize = 0;
    while i < zb.lines.len()
        invariant
            i <= zb.lines@.len(),
            out@ == join_lines(zb.lines@, i as int),
        decreases zb.lines.len() - i,
    {
        if i > 0 {
            push_char(&mut out, ' ');
        }
        let l = chars_of(zb.lines[i].as_str());
        let mut k: usize = 0;
        let ghost pre = out@;
        while k < l.len()
            invariant
                k <= l@.len(),
                out@ == pre + l@.subrange(0, k as int),
            decreases l.len() - k,
        {
            push_char(&mut out, l[k]);
            assert(l@.subrange(0, k + 1) =~= l@.subrange(0, k as int).push(l@[k as int]));
            k += 1;
        }
        assert(l@.subrange(0, l@.len() as int) =~= l@);
        i += 1;
    }
    out
}

/// Header and page-number blocks are never part of the references.
pub open spec fn skipped_zone(z: ZoneKind) -> bool {
    z == ZoneKind::Header || z == ZoneKind::PageNumber
}

// ── Line markers and citation content ──────────────────────────────────────

/// The form of a line marker.
#[derive(Clone, Copy, Debug, PartialEq, Eq, Structural)]
pub enum MarkerForm {
    /// `[N]`
    Bracket,
    /// `(N)`
    Paren,
    /// `N.` or `N)`
    Bare,
    /// `[Smi+12]`
    AuthorYear,
}

/// A letter of an author-year key, or `+`.
pub open spec fn is_key_char(c: char) -> bool {
    is_alpha(c) || c == '+' || ('\u{c0}' <= c && c != '\u{d7}' && c != '\u{f7}' && !is_space(c))
}

pub open spec fn run_of(s: Seq<char>, i: int, k: int) -> int
    decreases s.len() - i,
{
    if 0 <= i < s.len() && ((k == 0 && is_digit(s[i])) || (k == 1 && is_space(s[i])) || (k == 2
        && is_key_char(s[i]))) {
        run_of(s, i + 1, k)
    } else {
        i
    }
}

/// A leading line marker: its form, the range of its key, and the end of the
/// whitespace after it. Brackets and parentheses hold one to four digits, a
/// bare number one to three digits followed by whitespace or the end.
pub open spec fn marker_at(s: Seq<char>) -> Option<(MarkerForm, int, int, int)> {
    let a = run_of(s, 0, 1);
    if a >= s.len() {
        None
    } else if s[a] == '[' || s[a] == '(' {
        let d = run_of(s, a + 1, 0);
        let close = if s[a] == '[' {
            ']'
        } else {
            ')'
        };
        if 1 <= d - (a + 1) <= 4 && d < s.len() && s[d] == close {
            Some((if s[a] == '[' { MarkerForm::Bracket } else { MarkerForm::Paren }, a + 1, d, run_of(s, d + 1, 1)))
        } else if s[a] == '[' && a + 1 < s.len() && is_upper(s[a + 1]) {
            let l = run_of(s, a + 2, 2);
            let e0 = l + 2;
            let e = if e0 < s.len() && is_lower(s[e0]) {
                e0 + 1
            } else {
                e0
            };
            if l - (a + 2) <= 7 && e0 <= s.len() && is_digit(s[l]) && is_digit(s[l + 1]) && e < s.len()
                && s[e] == ']' {
                Some((MarkerForm::AuthorYear, a + 1, e, run_of(s, e + 1, 1)))
            } else {
                None
            }
        } else {
            None
        }
    } else {
        let d = run_of(s, a, 0);
        if 1 <= d - a <= 3 && d < s.len() && (s[d] == '.' || s[d] == ')') && (d + 1 == s.len()
            || is_space(s[d + 1])) {
            Some((MarkerForm::Bare, a, d, run_of(s, d + 1, 1)))
        } else {
            None
        }
    }
}

fn key_char(c: char) -> (r: bool)
    ensures
        r == is_key_char(c),
{
    upper(c) || lower(c) || c == '+' || ('\u{c0}' <= c && c != '\u{d7}' && c != '\u{f7}' && !space(c))
}

fn run_end(s: &[char], i: usize, k: usize) -> (r: usize)
    requires
        i <= s@.len(),
    ensures
        r == run_of(s@, i as int, k as int),
        i <= r <= s@.len(),
{
    let mut j = i;
    while j < s.len() && ((k == 0 && digit(s[j])) || (k == 1 && space(s[j])) || (k == 2 && key_char(s[j])))
        invariant
            i <= j <= s@.len(),
            run_of(s@, j as int, k as int) == run_of(s@, i as int, k as int),
        decreases s.len() - j,
    {
        j += 1;
    }
    j
}

/// The leading line marker of a line.
pub fn line_marker(s: &[char]) -> (r: Option<(MarkerForm, usize, usize, usize)>)
    ensures
        r is None <==> marker_at(s@) is None,
        r matches Some((f, a, b, e)) ==> marker_at(s@) == Some((f, a as int, b as int, e as int)) && a <= b <= e <= s@.len(),
{
    let n = s.len();
    let a = run_end(s, 0, 1);
    if a >= n {
        return None;
    }
    if s[a] == '[' || s[a] == '(' {
        let d = run_end(s, a + 1, 0);
        let close = if s[a] == '[' { ']' } else { ')' };
        if d - (a + 1) >= 1 && d - (a + 1) <= 4 && d < n && s[d] == close {
            let f = if s[a] == '[' { MarkerForm::Bracket } else { MarkerForm::Paren };
            return Some((f, a + 1, d, run_end(s, d + 1, 1)));
        }
        if s[a] == '[' && n - a > 1 && upper(s[a + 1]) {
            let l = run_end(s, a + 2, 2);
            if l - (a + 2) <= 7 && n - l >= 2 && digit(s[l]) && digit(s[l + 1]) {
                let e0 = l + 2;
                let e = if e0 < n && lower(s[e0]) { e0 + 1 } else { e0 };
                if e < n && s[e] == ']' {
                    return Some((MarkerForm::AuthorYear, a + 1, e, run_end(s, e + 1, 1)));
                }
            }
        }
        return None;
    }
    let d = run_end(s, a, 0);
    if d - a >= 1 && d - a <= 3 && d < n && (s[d] == '.' || s[d] == ')') && (d + 1 == n || space(s[d + 1])) {
        return Some((MarkerForm::Bare, a, d, run_end(s, d + 1, 1)));
    }
    None
}

/// The fragments whose presence marks citation content besides a year.
pub open spec fn citation_marks() -> Seq<Seq<char>> {
    seq![
        "arXiv"@, "hep-"@, "astro-"@, "gr-qc"@, "cond-mat"@, "nucl-"@, "Phys."@, "Nucl."@,
        "Lett."@, "Rev."@, "JHEP"@, "JCAP"@, "doi:"@, "DOI:"@
    ]
}

/// Citation content: a year from 1900 to 2099, an arXiv prefix, a DOI, or a
/// journal abbreviation fragment.
pub open spec fn citation_content(s: Seq<char>) -> bool {
    has_year(s) || exists|k: int| 0 <= k < citation_marks().len() && has_sub(s, #[trigger] citation_marks()[k])
}

/// Check if text contains citation-like content (years, journals, arXiv ids).
pub fn has_citation_content(text: &[char]) -> (r: bool)
    ensures
        r == citation_content(text@),
{
    if crate::driver::contains_year(text) {
        return true;
    }
    let words: Vec<&str> = vec![
        "arXiv", "hep-", "astro-", "gr-qc", "cond-mat", "nucl-", "Phys.", "Nucl.", "Lett.", "Rev.",
        "JHEP", "JCAP", "doi:", "DOI:",
    ];
    assert(words@.len() == citation_marks().len());
    let mut k: usize = 0;
    while k < words.len()
        invariant
            k <= words@.len(),
            words@.len() == citation_marks().len(),
            forall|m: int| 0 <= m < words@.len() ==> (#[trigger] words@[m])@ == citation_marks()[m],
            forall|m: int| 0 <= m < k ==> !has_sub(text@, #[trigger] citation_marks()[m]),
            !has_year(text@),
        decreases words.len() - k,
    {
        let w = lit(words[k]);
        if find_sub(text, w.as_slice()).is_some() {
            return true;
        }
        k += 1;
    }
    false
}

/// The score of one line: 2 for a marker followed by citation content, 0 for a
/// marker without it, 1 for citation content without a marker.
pub open spec fn line_score(s: Seq<char>) -> int {
    match marker_at(s) {
        Some((_, _, _, e)) => if citation_content(s.subrange(e, s.len() as int)) {
            2
        } else {
            0
        },
        None => if citation_content(s) {
            1
        } else {
            0
        },
    }
}

fn score_line(s: &[char]) -> (r: usize)
    ensures
        r == line_score(s@),
        r <= 2,
{
    match line_marker(s) {
        Some((_, _, _, e)) => {
            let rest = slice_vec(s, e, s.len());
            if has_citation_content(rest.as_slice()) { 2 } else { 0 }
        },
        None => if has_citation_content(s) { 1 } else { 0 },
    }
}

pub open spec fn block_score(ls: Seq<String>, hi: int) -> int
    decreases hi,
{
    if hi <= 0 {
        0
    } else {
        block_score(ls, hi - 1) + line_score(ls[hi - 1]@)
    }
}

pub proof fn lemma_block_score_grows(ls: Seq<String>, i: int, j: int)
    requires
        0 <= i <= j,
    ensures
        block_score(ls, i) <= block_score(ls, j),
        block_score(ls, i) >= 0,
    decreases j,
{
    if j > i {
        lemma_block_score_grows(ls, i, j - 1);
    } else {
        lemma_block_score_nonneg(ls, i);
    }
}

proof fn lemma_block_score_nonneg(ls: Seq<String>, i: int)
    ensures
        block_score(ls, i) >= 0,
    decreases i,
{
    if i > 0 {
        lemma_block_score_nonneg(ls, i - 1);
    }
}

/// Score a block for citation content, line by line, counted up to the
/// threshold of 4 that the callers test.
pub fn score_citation_block(zb: &ZonedBlock) -> (r: usize)
    ensures
        r == (if block_score(zb.lines@, zb.lines@.len() as int) >= 4 {
            4
        } else {
            block_score(zb.lines@, zb.lines@.len() as int)
        }),
{
    let mut total: usize = 0;
    let mut i: usize = 0;
    while i < zb.lines.len()
        invariant
            i <= zb.lines@.len(),
            total == block_score(zb.lines@, i as int),
            total < 4,
        decreases zb.lines.len() - i,
    {
        let l = chars_of(zb.lines[i].as_str());
        total += score_line(l.as_slice());
        i += 1;
        if total >= 4 {
            proof {
                lemma_block_score_grows(zb.lines@, i as int, zb.lines@.len() as int);
            }
            return 4;
        }
    }
    proof {
        lemma_block_score_grows(zb.lines@, 0, zb.lines@.len() as int);
    }
    total
}

pub open spec fn marker_count(ls: Seq<String>, hi: int) -> int
    decreases hi,
{
    if hi <= 0 {
        0
    } else {
        marker_count(ls, hi - 1) + if marker_at(ls[hi - 1]@) is Some {
            1int
        } else {
            0
        }
    }
}

/// How many lines of a block begin with a line marker.
pub fn count_markers_in_block(zb: &ZonedBlock) -> (r: usize)
    ensures
        r == marker_count(zb.lines@, zb.lines@.len() as int),
{
    let mut total: usize = 0;
    let mut i: usize = 0;
    while i < zb.lines.len()
        invariant
            i <= zb.lines@.len(),
            total == marker_count(zb.lines@, i as int),
            total <= i,
            zb.lines@.len() == zb.lines.len(),
        decreases zb.lines.len() - i,
    {
        let l = chars_of(zb.lines[i].as_str());
        if line_marker(l.as_slice()).is_some() {
            total += 1;
        }
        i += 1;
    }
    total
}

/// Whether some line of a block begins with a line marker.
pub fn has_any_marker(zb: &ZonedBlock) -> (r: bool)
    ensures
        r == (marker_count(zb.lines@, zb.lines@.len() as int) > 0),
{
    count_markers_in_block(zb) > 0
}

/// Whether a block is a reference heading.
pub fn is_reference_heading(zb: &ZonedBlock) -> (r: bool)
    ensures
        r == is_heading(block_text_spec(*zb)),
{
    let t = block_text(zb);
    crate::zones::is_reference_heading_line(t.as_str())
}


// ── Segmentation ───────────────────────────────────────────────────────────

/// A raw reference's text is non-empty and trimmed.
pub open spec fn raw_ok(r: RawReference) -> bool {
    r.text@.len() > 0 && trim(r.text@) == r.text@
}

pub open spec fn all_raw_ok(v: Seq<RawReference>, source: ReferenceSource) -> bool {
    forall|k: int| 0 <= k < v.len() ==> raw_ok(#[trigger] v[k]) && v[k].source == source
}

proof fn lemma_trim_idem(s: Seq<char>)
    ensures
        trim(trim(s)) == trim(s),
{
    let a = crate::text::skip_space(s, 0, s.len() as int);
    crate::text::lemma_skip_space_bounds(s, 0, s.len() as int);
    let b = crate::text::back_space(s, a, s.len() as int);
    crate::text::lemma_back_space_bounds(s, a, s.len() as int);
    let t = s.subrange(a, b);
    crate::text::lemma_skip_space_bounds(t, 0, t.len() as int);
    crate::text::lemma_back_space_bounds(t, 0, t.len() as int);
    if t.len() > 0 {
        assert(!is_space(t[0]));
        assert(crate::text::skip_space(t, 0, t.len() as int) == 0);
        assert(!is_space(t[t.len() - 1]));
        assert(crate::text::back_space(t, 0, t.len() as int) == t.len());
    }
    assert(trim(t) =~= t);
}

/// A `(YYYY)` marker with a year from 1900 to 2099 that continues the
/// previous reference: the rest of the line is short, or does not start
/// with an uppercase letter.
pub open spec fn year_continuation(line: Seq<char>, f: MarkerForm, a: int, b: int, e: int) -> bool {
    let rest = trim(line.subrange(e, line.len() as int));
    f == MarkerForm::Paren && b - a == 4 && ((line[a] == '1' && line[a + 1] == '9') || (line[a] == '2'
        && line[a + 1] == '0')) && (rest.len() < 40 || !is_upper(rest[0]))
}

fn is_year_continuation(line: &[char], form: MarkerForm, a: usize, b: usize, e: usize) -> (r: bool)
    requires
        a <= b <= e <= line@.len(),
    ensures
        r == year_continuation(line@, form, a as int, b as int, e as int),
{
    if form != MarkerForm::Paren || b - a != 4 {
        return false;
    }
    let y = (line[a] == '1' && line[a + 1] == '9') || (line[a] == '2' && line[a + 1] == '0');
    if !y {
        return false;
    }
    let rest = slice_vec(line, e, line.len());
    let t = trimmed(&rest);
    if t.len() < 40 {
        return true;
    }
    !upper(t[0])
}

/// The state of segmentation: the references so far, the current text, its
/// marker and its page.
pub struct SegState {
    pub refs: Seq<RawFields>,
    pub cur: Seq<char>,
    pub marker: Option<Seq<char>>,
    pub page: usize,
}

/// The references with the current text added when it is not blank.
pub open spec fn flushed(st: SegState, source: ReferenceSource) -> Seq<RawFields> {
    if trim(st.cur).len() > 0 {
        st.refs.push(RawFields { text: trim(st.cur), linemarker: st.marker, source, page_num: st.page })
    } else {
        st.refs
    }
}

/// One trimmed, non-empty line of page `pg`: a marker starts a reference
/// (unless it is a year that continues one), other lines continue it.
pub open spec fn seg_line(st: SegState, line: Seq<char>, pg: usize, source: ReferenceSource) -> SegState {
    match marker_at(line) {
        Some((f, a, b, e)) => if year_continuation(line, f, a, b, e) && st.cur.len() > 0 {
            SegState { cur: st.cur + seq![' '] + line, ..st }
        } else {
            SegState {
                refs: flushed(st, source),
                cur: trim(line.subrange(e, line.len() as int)),
                marker: Some(line.subrange(a, b)),
                page: pg,
            }
        },
        None => if st.cur.len() > 0 {
            SegState { cur: st.cur + seq![' '] + line, ..st }
        } else {
            SegState { cur: line, page: pg, ..st }
        },
    }
}

/// Segmentation over the lines `ls[0..hi]` of a block of page `pg`.
pub open spec fn seg_lines(st: SegState, ls: Seq<Seq<char>>, hi: int, pg: usize, source: ReferenceSource) -> SegState
    decreases hi,
{
    if hi <= 0 {
        st
    } else {
        let prev = seg_lines(st, ls, hi - 1, pg, source);
        if trim(ls[hi - 1]).len() > 0 {
            seg_line(prev, trim(ls[hi - 1]), pg, source)
        } else {
            prev
        }
    }
}

/// Segmentation over the blocks `bs[0..hi]`, each split at newlines.
pub open spec fn seg_blocks(bs: Seq<(Seq<char>, usize)>, hi: int, source: ReferenceSource) -> SegState
    decreases hi,
{
    if hi <= 0 {
        SegState { refs: Seq::empty(), cur: Seq::empty(), marker: None, page: 0 }
    } else {
        let ls = crate::text::split_on(bs[hi - 1].0, '\n');
        seg_lines(seg_blocks(bs, hi - 1, source), ls, ls.len() as int, bs[hi - 1].1, source)
    }
}

/// The references of the blocks, split at line markers.
pub open spec fn segmented(bs: Seq<(Seq<char>, usize)>, source: ReferenceSource) -> Seq<RawFields> {
    flushed(seg_blocks(bs, bs.len() as int, source), source)
}

fn flush_reference(
    refs: &mut Vec<RawReference>,
    text: &Vec<char>,
    marker: &Option<String>,
    page_num: usize,
    source: ReferenceSource,
)
    requires
        all_raw_ok(old(refs)@, source),
    ensures
        all_raw_ok(final(refs)@, source),
        crate::driver::raw_views(final(refs)@) == flushed(
            SegState { refs: crate::driver::raw_views(old(refs)@), cur: text@, marker: sv(*marker), page: page_num },
            source,
        ),
{
    let t = trimmed(text);
    let ghost before = crate::driver::raw_views(refs@);
    if t.len() > 0 {
        proof {
            lemma_trim_idem(text@);
        }
        let ghost old_refs = refs@;
        let r = RawReference { text: string_all(t.as_slice()), linemarker: crate::types::copy_opt(marker), source, page_num };
        refs.push(r);
        assert(crate::driver::raw_views(refs@) =~= before.push(r@));
        assert forall|k: int| 0 <= k < refs@.len() implies raw_ok(#[trigger] refs@[k]) && refs@[k].source == source by {
            if k < old_refs.len() {
                assert(refs@[k] == old_refs[k]);
            }
        }
    }
}

/// Split blocks of text into references at leading line markers; a line
/// without a marker continues the current reference.
pub fn segment_references(blocks: &Vec<(String, usize)>, source: ReferenceSource) -> (r: Vec<RawReference>)
    ensures
        all_raw_ok(r@, source),
        crate::driver::raw_views(r@) == segmented(text_views(blocks@), source),
{
    let ghost bv = text_views(blocks@);
    let mut refs: Vec<RawReference> = Vec::new();
    let mut current: Vec<char> = Vec::new();
    let mut marker: Option<String> = None;
    let mut page: usize = 0;
    assert(crate::driver::raw_views(refs@) =~= Seq::<RawFields>::empty());
    let mut bi: usize = 0;
    while bi < blocks.len()
        invariant
            bi <= blocks@.len(),
            bv == text_views(blocks@),
            all_raw_ok(refs@, source),
            seg_blocks(bv, bi as int, source) == (SegState {
                refs: crate::driver::raw_views(refs@),
                cur: current@,
                marker: sv(marker),
                page,
            }),
        decreases blocks.len() - bi,
    {
        let text = chars_of(blocks[bi].0.as_str());
        assert(bv[bi as int] == (text@, blocks@[bi as int].1));
        let pg = blocks[bi].1;
        let lines = crate::text::split_chars(text.as_slice(), '\n');
        let ghost lv = crate::text::char_views(lines@);
        let ghost st0 = seg_blocks(bv, bi as int, source);
        let mut li: usize = 0;
        while li < lines.len()
            invariant
                li <= lines@.len(),
                lv == crate::text::char_views(lines@),
                all_raw_ok(refs@, source),
                seg_lines(st0, lv, li as int, pg, source) == (SegState {
                    refs: crate::driver::raw_views(refs@),
                    cur: current@,
                    marker: sv(marker),
                    page,
                }),
            decreases lines.len() - li,
        {
            assert(lv[li as int] == lines@[li as int]@);
            let line = trimmed(&lines[li]);
            let ghost st = SegState { refs: crate::driver::raw_views(refs@), cur: current@, marker: sv(marker), page };
            if line.len() > 0 {
                match line_marker(line.as_slice()) {
                    Some((form, a, b, e)) => {
                        if is_year_continuation(line.as_slice(), form, a, b, e) && current.len() > 0 {
                            current.push(' ');
                            extend_from(&mut current, line.as_slice(), 0, line.len());
                            assert(line@.subrange(0, line@.len() as int) =~= line@);
                            assert(current@ =~= st.cur + seq![' '] + line@);
                        } else {
                            flush_reference(&mut refs, &current, &marker, page, source);
                            marker = Some(string_of(line.as_slice(), a, b));
                            let rest = slice_vec(line.as_slice(), e, line.len());
                            current = trimmed(&rest);
                            page = pg;
                        }
                    },
                    None => {
                        if current.len() > 0 {
                            current.push(' ');
                            extend_from(&mut current, line.as_slice(), 0, line.len());
                            assert(line@.subrange(0, line@.len() as int) =~= line@);
                            assert(current@ =~= st.cur + seq![' '] + line@);
                        } else {
                            current = line;
                            page = pg;
                        }
                    },
                }
                assert(seg_line(st, line@, pg, source) == (SegState {
                    refs: crate::driver::raw_views(refs@),
                    cur: current@,
                    marker: sv(marker),
                    page,
                }));
            }
            li += 1;
        }
        bi += 1;
    }
    flush_reference(&mut refs, &current, &marker, page, source);
    refs
}

/// The references of blocks of text: split at line markers, then long
/// author-date blobs split again.
pub open spec fn split_refs(bs: Seq<(Seq<char>, usize)>, source: ReferenceSource) -> Seq<RawFields> {
    let v = segmented(bs, source);
    blobs_all(v, v.len() as int)
}

/// Split blocks of text into references at leading line markers, then split
/// long author-date blobs.
pub fn split_into_references(blocks: &Vec<(String, usize)>, source: ReferenceSource) -> (r: Vec<RawReference>)
    ensures
        all_raw_ok(r@, source),
        crate::driver::raw_views(r@) == split_refs(text_views(blocks@), source),
{
    let refs = segment_references(blocks, source);
    split_author_date_blobs(refs, source)
}

/// Relies on `regex::Regex::new` and `regex::Regex::find_iter`: the text before
/// each successive non-overlapping match.
#[verifier::external_body]
fn match_prefixes(pattern: &str, text: &str) -> (r: Vec<String>)
    requires
        regex_compiles(pattern@),
    ensures
        r@.map_values(|p: String| p@) == regex_match_prefixes(pattern@, text@),
{
    regex::Regex::new(pattern).unwrap().find_iter(text).map(|m| text[..m.start()].to_string()).collect()
}

/// The text before each successive non-overlapping match of a pattern, by the
/// `regex` crate.
pub uninterp spec fn regex_match_prefixes(pattern: Seq<char>, text: Seq<char>) -> Seq<Seq<char>>;

/// An author initial: single uppercase letters joined by hyphens, each with an
/// optional trailing dot ("J", "F.-K").
pub open spec fn initial_token(t: Seq<char>) -> bool {
    let parts = crate::text::split_on(t, '-');
    t.len() > 0 && forall|k: int| 0 <= k < parts.len() ==> {
        let p = crate::text::strip_end(#[trigger] parts[k], crate::text::Strip::Dot);
        p.len() == 1 && is_upper(p[0])
    }
}

fn is_initial_token(token: &[char]) -> (r: bool)
    ensures
        r == initial_token(token@),
{
    if token.len() == 0 {
        return false;
    }
    let parts = crate::text::split_chars(token, '-');
    let ghost pv = crate::text::char_views(parts@);
    let mut k: usize = 0;
    while k < parts.len()
        invariant
            k <= parts@.len(),
            token@.len() > 0,
            pv == crate::text::char_views(parts@),
            pv == crate::text::split_on(token@, '-'),
            forall|m: int| 0 <= m < k ==> {
                let p = crate::text::strip_end(#[trigger] pv[m], crate::text::Strip::Dot);
                p.len() == 1 && is_upper(p[0])
            },
        decreases parts.len() - k,
    {
        assert(pv[k as int] == parts@[k as int]@);
        let p = crate::text::stripped_end(parts[k].as_slice(), crate::text::Strip::Dot);
        if !(p.len() == 1 && upper(p[0])) {
            return false;
        }
        k += 1;
    }
    true
}

/// The end of `v[0..hi]` without trailing whitespace.
fn trim_end_to(v: &[char], hi: usize) -> (r: usize)
    requires
        hi <= v@.len(),
    ensures
        r == crate::text::back_space(v@, 0, hi as int),
        r <= hi,
{
    let mut b = hi;
    while b > 0 && space(v[b - 1])
        invariant
            b <= hi <= v@.len(),
            crate::text::back_space(v@, 0, b as int) == crate::text::back_space(v@, 0, hi as int),
        decreases b,
    {
        b -= 1;
    }
    b
}

/// The start of the run of non-whitespace characters that ends at `j`.
pub open spec fn word_back(v: Seq<char>, j: int) -> int
    decreases j,
{
    if j > 0 && !is_space(v[j - 1]) {
        word_back(v, j - 1)
    } else {
        j
    }
}

/// The end of `v[lo..j]` without trailing commas.
pub open spec fn comma_back(v: Seq<char>, lo: int, j: int) -> int
    decreases j - lo,
{
    if j > lo && v[j - 1] == ',' {
        comma_back(v, lo, j - 1)
    } else {
        j
    }
}

/// The period that ends `v[0..n]` ends a reference: what precedes it (spaces
/// removed) ends in a bracket, a parenthesis or a digit, or its last word,
/// trailing commas removed, is not an initial.
pub open spec fn ending_period(v: Seq<char>, n: int) -> bool {
    let w = crate::text::back_space(v, 0, n - 1);
    if w <= 0 {
        false
    } else if v[w - 1] == ']' || v[w - 1] == ')' || is_digit(v[w - 1]) {
        true
    } else {
        let s0 = word_back(v, w);
        !initial_token(v.subrange(s0, comma_back(v, s0, w)))
    }
}

/// `v[0..n]` looks like the end of a reference: a period after something other
/// than an initial, a closing bracket or parenthesis, or a digit.
pub open spec fn ref_boundary(v: Seq<char>, n: int) -> bool {
    if n <= 0 {
        false
    } else if v[n - 1] == '.' {
        ending_period(v, n)
    } else {
        v[n - 1] == ']' || v[n - 1] == ')' || is_digit(v[n - 1])
    }
}

/// A split at `pos` is kept when a reference ends before it.
pub open spec fn valid_split(v: Seq<char>, pos: int) -> bool {
    pos > 0 && crate::text::back_space(v, 0, pos) > 0 && ref_boundary(v, crate::text::back_space(v, 0, pos))
}

proof fn lemma_back_bounds(v: Seq<char>, j: int)
    requires
        0 <= j <= v.len(),
    ensures
        0 <= word_back(v, j) <= j,
    decreases j,
{
    if j > 0 && !is_space(v[j - 1]) {
        lemma_back_bounds(v, j - 1);
    }
}

proof fn lemma_comma_bounds(v: Seq<char>, lo: int, j: int)
    requires
        0 <= lo <= j <= v.len(),
    ensures
        lo <= comma_back(v, lo, j) <= j,
    decreases j - lo,
{
    if j > lo && v[j - 1] == ',' {
        lemma_comma_bounds(v, lo, j - 1);
    }
}

fn is_ref_ending_period(before: &[char], n: usize) -> (r: bool)
    requires
        1 <= n <= before@.len(),
    ensures
        r == ending_period(before@, n as int),
{
    let w = trim_end_to(before, n - 1);
    proof {
        crate::text::lemma_back_space_bounds(before@, 0, n - 1);
    }
    if w == 0 {
        return false;
    }
    let last = before[w - 1];
    if last == ']' || last == ')' || digit(last) {
        return true;
    }
    let mut s = w;
    while s > 0 && !space(before[s - 1])
        invariant
            s <= w <= before@.len(),
            word_back(before@, s as int) == word_back(before@, w as int),
        decreases s,
    {
        s -= 1;
    }
    let mut e = w;
    while e > s && before[e - 1] == ','
        invariant
            s <= e <= w <= before@.len(),
            comma_back(before@, s as int, e as int) == comma_back(before@, s as int, w as int),
        decreases e,
    {
        e -= 1;
    }
    let token = slice_vec(before, s, e);
    !is_initial_token(token.as_slice())
}

fn is_ref_boundary(before: &[char], n: usize) -> (r: bool)
    requires
        n <= before@.len(),
    ensures
        r == ref_boundary(before@, n as int),
{
    if n == 0 {
        return false;
    }
    let last = before[n - 1];
    if last == '.' {
        is_ref_ending_period(before, n)
    } else {
        last == ']' || last == ')' || digit(last)
    }
}

fn validate_split_position(text: &[char], pos: usize) -> (r: bool)
    requires
        pos <= text@.len(),
    ensures
        r == valid_split(text@, pos as int),
{
    if pos == 0 {
        return false;
    }
    let b = trim_end_to(text, pos);
    if b == 0 {
        return false;
    }
    is_ref_boundary(text, b)
}

/// The pattern of an author start "Surname, I." or "Surname, FirstName".
pub open spec fn author_pattern() -> Seq<char> {
    "[A-Z][^\\s,.:;\\[\\]()]+(?:\\s[A-Z][^\\s,.:;\\[\\]()]+){0,2}, (?:[^A-Za-z0-9\\s]? ?[A-Z](?:\\.|\\s|,)|[A-Z][a-z]{2,})"@
}

/// The pattern of an author start "Surname I." without a comma.
pub open spec fn author_pattern_nocomma() -> Seq<char> {
    "[A-Z][a-z]{2,}(?:[\\s-][A-Z][a-z]+)* [A-Z]\\."@
}

/// The position of `x` in an increasing list: the first element not below it.
pub open spec fn ins_at(v: Seq<int>, x: int, i: int) -> int
    decreases v.len() - i,
{
    if i < 0 || i >= v.len() || v[i] >= x {
        i
    } else {
        ins_at(v, x, i + 1)
    }
}

/// `x` added to an increasing list unless it is there.
pub open spec fn ins_sorted(v: Seq<int>, x: int) -> Seq<int> {
    let p = ins_at(v, x, 0);
    if p < v.len() && v[p] == x {
        v
    } else {
        v.insert(p, x)
    }
}

/// The positions of the prefixes `ps[0..hi]` that are valid splits, added in turn.
pub open spec fn add_splits(v: Seq<int>, text: Seq<char>, ps: Seq<Seq<char>>, hi: int) -> Seq<int>
    decreases hi,
{
    if hi <= 0 {
        v
    } else {
        let prev = add_splits(v, text, ps, hi - 1);
        let pos = ps[hi - 1].len() as int;
        if pos < text.len() && valid_split(text, pos) {
            ins_sorted(prev, pos)
        } else {
            prev
        }
    }
}

/// The split positions found by one pattern, added to `v`.
pub open spec fn pattern_splits(v: Seq<int>, text: Seq<char>, pat: Seq<char>) -> Seq<int> {
    if regex_compiles(pat) {
        let ps = regex_match_prefixes(pat, text);
        add_splits(v, text, ps, ps.len() as int)
    } else {
        v
    }
}

/// The positions where author-date references start, in increasing order.
pub open spec fn split_positions(text: Seq<char>) -> Seq<int> {
    pattern_splits(pattern_splits(Seq::empty(), text, author_pattern()), text, author_pattern_nocomma())
}

pub open spec fn pos_views(v: Seq<usize>) -> Seq<int> {
    v.map_values(|x: usize| x as int)
}

/// The positions where author-date references start, in order.
fn find_author_split_positions(text: &Vec<char>) -> (r: Vec<usize>)
    ensures
        pos_views(r@) == split_positions(text@),
        forall|k: int| 0 <= k < r@.len() ==> 0 < #[trigger] r@[k] < text@.len(),
        forall|a: int, b: int| 0 <= a < b < r@.len() ==> #[trigger] r@[a] < #[trigger] r@[b],
{
    let s = string_all(text.as_slice());
    let mut found: Vec<usize> = Vec::new();
    assert(pos_views(found@) =~= Seq::<int>::empty());
    let patterns: Vec<&str> = vec![
        "[A-Z][^\\s,.:;\\[\\]()]+(?:\\s[A-Z][^\\s,.:;\\[\\]()]+){0,2}, (?:[^A-Za-z0-9\\s]? ?[A-Z](?:\\.|\\s|,)|[A-Z][a-z]{2,})",
        "[A-Z][a-z]{2,}(?:[\\s-][A-Z][a-z]+)* [A-Z]\\.",
    ];
    assert(patterns@[0]@ == author_pattern());
    assert(patterns@[1]@ == author_pattern_nocomma());
    let mut pi: usize = 0;
    while pi < patterns.len()
        invariant
            pi <= patterns@.len(),
            patterns@.len() == 2,
            patterns@[0]@ == author_pattern(),
            patterns@[1]@ == author_pattern_nocomma(),
            s@ == text@,
            pi == 0 ==> pos_views(found@) == Seq::<int>::empty(),
            pi == 1 ==> pos_views(found@) == pattern_splits(Seq::empty(), text@, author_pattern()),
            pi == 2 ==> pos_views(found@) == split_positions(text@),
            forall|k: int| 0 <= k < found@.len() ==> 0 < #[trigger] found@[k] < text@.len(),
            forall|a: int, b: int| 0 <= a < b < found@.len() ==> #[trigger] found@[a] < #[trigger] found@[b],
        decreases patterns.len() - pi,
    {
        let ghost start = pos_views(found@);
        if crate::kb::pattern_compiles(patterns[pi]) {
            let prefixes = match_prefixes(patterns[pi], s.as_str());
            splits_from_prefixes(text, &prefixes, &mut found);
        }
        pi += 1;
    }
    found
}

/// Add to an increasing list of split positions the positions of the
/// prefixes (the text before each author-start match) that are valid splits.
pub fn splits_from_prefixes(text: &Vec<char>, prefixes: &Vec<String>, found: &mut Vec<usize>)
    requires
        forall|k: int| 0 <= k < old(found)@.len() ==> 0 < #[trigger] old(found)@[k] < text@.len(),
        forall|a: int, b: int| 0 <= a < b < old(found)@.len() ==> #[trigger] old(found)@[a] < #[trigger] old(found)@[b],
    ensures
        pos_views(final(found)@) == add_splits(pos_views(old(found)@), text@, prefixes@.map_values(|p: String| p@), prefixes@.len() as int),
        forall|k: int| 0 <= k < final(found)@.len() ==> 0 < #[trigger] final(found)@[k] < text@.len(),
        forall|a: int, b: int| 0 <= a < b < final(found)@.len() ==> #[trigger] final(found)@[a] < #[trigger] final(found)@[b],
{
    let ghost start = pos_views(found@);
    let ghost pv = prefixes@.map_values(|p: String| p@);
    let mut k: usize = 0;
    while k < prefixes.len()
        invariant
            k <= prefixes@.len(),
            pv == prefixes@.map_values(|p: String| p@),
            start == pos_views(old(found)@),
            pos_views(found@) == add_splits(start, text@, pv, k as int),
            forall|m: int| 0 <= m < found@.len() ==> 0 < #[trigger] found@[m] < text@.len(),
            forall|a: int, b: int| 0 <= a < b < found@.len() ==> #[trigger] found@[a] < #[trigger] found@[b],
        decreases prefixes.len() - k,
    {
        assert(pv[k as int] == prefixes@[k as int]@);
        let pos = chars_of(prefixes[k].as_str()).len();
        if pos < text.len() && validate_split_position(text.as_slice(), pos) {
            let ghost before = found@;
            insert_sorted(found, pos);
            assert forall|m: int| 0 <= m < found@.len() implies 0 < #[trigger] found@[m] < text@.len() by {
                if found@[m] != pos {
                    assert(before.contains(found@[m]));
                }
            }
        }
        k += 1;
    }
}

/// Insert a position into a strictly increasing list unless it is there.
fn insert_sorted(v: &mut Vec<usize>, x: usize)
    requires
        forall|a: int, b: int| 0 <= a < b < old(v)@.len() ==> #[trigger] old(v)@[a] < #[trigger] old(v)@[b],
    ensures
        pos_views(final(v)@) == ins_sorted(pos_views(old(v)@), x as int),
        forall|a: int, b: int| 0 <= a < b < final(v)@.len() ==> #[trigger] final(v)@[a] < #[trigger] final(v)@[b],
        forall|k: int| 0 <= k < final(v)@.len() ==> (#[trigger] final(v)@[k] == x || old(v)@.contains(final(v)@[k])),
{
    let ghost pv = pos_views(v@);
    let mut p: usize = 0;
    while p < v.len() && v[p] < x
        invariant
            p <= v@.len(),
            pv == pos_views(v@),
            forall|k: int| 0 <= k < p ==> #[trigger] v@[k] < x,
            ins_at(pv, x as int, p as int) == ins_at(pv, x as int, 0),
        decreases v.len() - p,
    {
        p += 1;
    }
    if p < v.len() && v[p] == x {
        assert forall|k: int| 0 <= k < v@.len() implies (#[trigger] v@[k] == x || v@.contains(v@[k])) by {}
        return;
    }
    let ghost before = v@;
    v.insert(p, x);
    assert(pos_views(v@) =~= pv.insert(p as int, x as int));
    assert forall|k: int| 0 <= k < v@.len() implies (#[trigger] v@[k] == x || before.contains(v@[k])) by {
        if k < p {
            assert(v@[k] == before[k]);
        } else if k > p {
            assert(v@[k] == before[k - 1]);
        }
    }
    assert forall|a: int, b: int| 0 <= a < b < v@.len() implies #[trigger] v@[a] < #[trigger] v@[b] by {
        if b < p {
            assert(v@[a] == before[a] && v@[b] == before[b]);
        } else if b == p {
            assert(v@[a] == before[a]);
        } else if a < p {
            assert(v@[a] == before[a] && v@[b] == before[b - 1]);
            assert(before[a] < x);
        } else if a == p {
            assert(v@[b] == before[b - 1]);
            assert(before[p as int] > x);
            if b - 1 > p {
                assert(before[p as int] < before[b - 1]);
            }
        } else {
            assert(v@[a] == before[a - 1] && v@[b] == before[b - 1]);
        }
    }
}

/// `parts` with `text[last..end]`, trimmed, added when it is not blank.
pub open spec fn with_piece(parts: Seq<Seq<char>>, text: Seq<char>, last: int, end: int) -> Seq<Seq<char>> {
    if 0 <= last <= end <= text.len() && trim(text.subrange(last, end)).len() > 0 {
        parts.push(trim(text.subrange(last, end)))
    } else {
        parts
    }
}

/// The pieces of `text` before the split positions `ps[0..k]`.
pub open spec fn pieces_upto(text: Seq<char>, ps: Seq<int>, k: int) -> Seq<Seq<char>>
    decreases k,
{
    if k <= 0 {
        Seq::empty()
    } else {
        with_piece(pieces_upto(text, ps, k - 1), text, if k - 1 == 0 { 0 } else { ps[k - 2] }, ps[k - 1])
    }
}

/// The pieces of a text cut at its author-date split positions, trimmed, the
/// blank ones left out.
pub open spec fn author_parts(text: Seq<char>) -> Seq<Seq<char>> {
    let ps = split_positions(text);
    let n = ps.len() as int;
    with_piece(pieces_upto(text, ps, n), text, if n == 0 { 0 } else { ps[n - 1] }, text.len() as int)
}

/// Split a blob of concatenated author-date references at the places where a
/// reference ends before "Surname, I." or "Surname FirstName".
fn split_author_date_text(text: &Vec<char>) -> (r: Vec<Vec<char>>)
    ensures
        crate::text::char_views(r@) == author_parts(text@),
        forall|k: int| 0 <= k < r@.len() ==> (#[trigger] r@[k])@.len() > 0 && trim(r@[k]@) == r@[k]@
            && r@[k]@.len() <= text@.len(),
{
    let positions = find_author_split_positions(text);
    let ghost ps = pos_views(positions@);
    let mut parts: Vec<Vec<char>> = Vec::new();
    assert(crate::text::char_views(parts@) =~= Seq::<Seq<char>>::empty());
    let mut last: usize = 0;
    let mut k: usize = 0;
    while k < positions.len()
        invariant
            k <= positions@.len(),
            ps == pos_views(positions@),
            last <= text@.len(),
            last as int == (if k == 0 { 0 } else { ps[k - 1] }),
            crate::text::char_views(parts@) == pieces_upto(text@, ps, k as int),
            forall|m: int| 0 <= m < parts@.len() ==> (#[trigger] parts@[m])@.len() > 0 && trim(parts@[m]@) == parts@[m]@
                && parts@[m]@.len() <= text@.len(),
            forall|m: int| 0 <= m < positions@.len() ==> 0 < #[trigger] positions@[m] < text@.len(),
        decreases positions.len() - k,
    {
        let end = positions[k];
        push_part(&mut parts, text, last, end);
        last = end;
        k += 1;
    }
    push_part(&mut parts, text, last, text.len());
    parts
}

/// Push `text[last..end]`, trimmed, when it is not blank and `last <= end`.
fn push_part(parts: &mut Vec<Vec<char>>, text: &Vec<char>, last: usize, end: usize)
    requires
        end <= text@.len(),
        forall|m: int| 0 <= m < old(parts)@.len() ==> (#[trigger] old(parts)@[m])@.len() > 0 && trim(old(parts)@[m]@) == old(parts)@[m]@
            && old(parts)@[m]@.len() <= text@.len(),
    ensures
        crate::text::char_views(final(parts)@) == with_piece(crate::text::char_views(old(parts)@), text@, last as int, end as int),
        forall|m: int| 0 <= m < final(parts)@.len() ==> (#[trigger] final(parts)@[m])@.len() > 0 && trim(final(parts)@[m]@) == final(parts)@[m]@
            && final(parts)@[m]@.len() <= text@.len(),
{
    if last <= end {
        let piece = slice_vec(text.as_slice(), last, end);
        let t = trimmed(&piece);
        if t.len() > 0 {
            proof {
                lemma_trim_idem(piece@);
                crate::text::lemma_skip_space_bounds(piece@, 0, piece@.len() as int);
                crate::text::lemma_back_space_bounds(piece@, crate::text::skip_space(piece@, 0, piece@.len() as int), piece@.len() as int);
            }
            let ghost before = parts@;
            let ghost bv = crate::text::char_views(parts@);
            parts.push(t);
            assert(crate::text::char_views(parts@) =~= bv.push(t@));
            assert forall|m: int| 0 <= m < parts@.len() implies (#[trigger] parts@[m])@.len() > 0 && trim(parts@[m]@) == parts@[m]@
                && parts@[m]@.len() <= text@.len() by {
                if m < before.len() {
                    assert(parts@[m] == before[m]);
                }
            }
        }
    }
}

/// A reference with its text replaced by a part and no marker.
pub open spec fn part_ref(r: RawFields, t: Seq<char>) -> RawFields {
    RawFields { text: t, linemarker: None, ..r }
}

/// A reference longer than 200 characters whose text splits into two or
/// more author-date parts becomes those parts, each split again in turn;
/// `fuel` bounds the depth.
pub open spec fn expand(r: RawFields, fuel: int) -> Seq<RawFields>
    decreases fuel, 0int,
{
    if fuel > 0 && r.text.len() > 200 && author_parts(r.text).len() >= 2 {
        expand_list(author_parts(r.text), author_parts(r.text).len() as int, r, fuel - 1)
    } else {
        seq![r]
    }
}

/// The expansions of the parts `ps[0..hi]` of a reference.
pub open spec fn expand_list(ps: Seq<Seq<char>>, hi: int, r: RawFields, fuel: int) -> Seq<RawFields>
    decreases fuel, hi,
{
    if hi <= 0 || fuel < 0 {
        Seq::empty()
    } else {
        expand_list(ps, hi - 1, r, fuel) + expand(part_ref(r, ps[hi - 1]), fuel)
    }
}

/// Every reference of `v[0..hi]`, expanded with its length as depth bound.
pub open spec fn blobs_all(v: Seq<RawFields>, hi: int) -> Seq<RawFields>
    decreases hi,
{
    if hi <= 0 {
        Seq::empty()
    } else {
        blobs_all(v, hi - 1) + expand(v[hi - 1], v[hi - 1].text.len() as int)
    }
}

/// Re-split references longer than 200 characters that hold several
/// author-date references; the parts are split again in turn.
fn expand_blob(r: RawReference, fuel: usize, out: &mut Vec<RawReference>)
    requires
        raw_ok(r),
        all_raw_ok(old(out)@, r.source),
    ensures
        all_raw_ok(final(out)@, r.source),
        crate::driver::raw_views(final(out)@) == crate::driver::raw_views(old(out)@) + expand(r@, fuel as int),
    decreases fuel,
{
    let text = chars_of(r.text.as_str());
    if text.len() > 200 && fuel > 0 {
        let splits = split_author_date_text(&text);
        if splits.len() >= 2 {
            let ghost sv = crate::text::char_views(splits@);
            let ghost start = crate::driver::raw_views(out@);
            let mut k: usize = 0;
            while k < splits.len()
                invariant
                    k <= splits@.len(),
                    fuel > 0,
                    sv == crate::text::char_views(splits@),
                    sv == author_parts(r@.text),
                    all_raw_ok(out@, r.source),
                    crate::driver::raw_views(out@) == start + expand_list(sv, k as int, r@, fuel - 1),
                    forall|m: int| 0 <= m < splits@.len() ==> (#[trigger] splits@[m])@.len() > 0 && trim(splits@[m]@) == splits@[m]@,
                decreases splits.len() - k,
            {
                let part = RawReference { text: string_all(splits[k].as_slice()), linemarker: None, source: r.source, page_num: r.page_num };
                assert(sv[k as int] == splits@[k as int]@);
                assert(part@ == part_ref(r@, sv[k as int]));
                let ghost mid = crate::driver::raw_views(out@);
                expand_blob(part, fuel - 1, out);
                assert(crate::driver::raw_views(out@) =~= start + expand_list(sv, k + 1, r@, fuel - 1));
                k += 1;
            }
            return;
        }
    }
    let ghost before = out@;
    let ghost bv = crate::driver::raw_views(out@);
    let ghost rv = r@;
    out.push(r);
    assert(crate::driver::raw_views(out@) =~= bv + seq![rv]);
    assert forall|k: int| 0 <= k < out@.len() implies raw_ok(#[trigger] out@[k]) && out@[k].source == rv.source by {
        if k < before.len() {
            assert(out@[k] == before[k]);
        }
    }
}

/// Split long unmarked references that are concatenated author-date references.
fn split_author_date_blobs(refs: Vec<RawReference>, source: ReferenceSource) -> (r: Vec<RawReference>)
    requires
        all_raw_ok(refs@, source),
    ensures
        all_raw_ok(r@, source),
        crate::driver::raw_views(r@) == blobs_all(crate::driver::raw_views(refs@), refs@.len() as int),
{
    let ghost v = crate::driver::raw_views(refs@);
    let len = refs.len();
    let mut out: Vec<RawReference> = Vec::new();
    assert(crate::driver::raw_views(out@) =~= Seq::<RawFields>::empty());
    let mut rest = refs;
    let mut i: usize = 0;
    while rest.len() > 0
        invariant
            i + rest@.len() == len,
            len == v.len(),
            crate::driver::raw_views(rest@) == v.subrange(i as int, len as int),
            all_raw_ok(rest@, source),
            all_raw_ok(out@, source),
            crate::driver::raw_views(out@) == blobs_all(v, i as int),
        decreases rest.len(),
    {
        let ghost old_rest = rest@;
        assert(crate::driver::raw_views(old_rest)[0] == old_rest[0]@);
        let r = rest.remove(0);
        assert(rest@ =~= old_rest.subrange(1, old_rest.len() as int));
        assert(r@ == v[i as int]);
        assert forall|m: int| 0 <= m < rest@.len() implies #[trigger] crate::driver::raw_views(rest@)[m] == v[i + 1 + m] by {
            assert(rest@[m] == old_rest[m + 1]);
            assert(crate::driver::raw_views(old_rest)[m + 1] == old_rest[m + 1]@);
        }
        assert(crate::driver::raw_views(rest@) =~= v.subrange(i + 1, len as int));
        assert forall|k: int| 0 <= k < rest@.len() implies raw_ok(#[trigger] rest@[k]) && rest@[k].source == source by {
            assert(rest@[k] == old_rest[k + 1]);
        }
        let fuel = r.text.as_str().unicode_len();
        expand_blob(r, fuel, &mut out);
        i += 1;
    }
    out
}


// ── Reference sections ─────────────────────────────────────────────────────

/// How many of `ls[0..hi]` begin with a line marker.
pub open spec fn marker_lines(ls: Seq<Seq<char>>, hi: int) -> int
    decreases hi,
{
    if hi <= 0 {
        0
    } else {
        marker_lines(ls, hi - 1) + if marker_at(ls[hi - 1]) is Some {
            1int
        } else {
            0
        }
    }
}

/// How many lines of a text (split at newlines) begin with a line marker.
pub fn count_markers_in_text(text: &[char]) -> (r: usize)
    ensures
        r == marker_lines(crate::text::split_on(text@, '\n'), crate::text::split_on(text@, '\n').len() as int),
{
    let lines = crate::text::split_chars(text, '\n');
    let ghost lv = crate::text::char_views(lines@);
    let mut total: usize = 0;
    let mut i: usize = 0;
    while i < lines.len()
        invariant
            i <= lines@.len(),
            lv == crate::text::char_views(lines@),
            total == marker_lines(lv, i as int),
            total <= i,
        decreases lines.len() - i,
    {
        assert(lv[i as int] == lines@[i as int]@);
        if line_marker(lines[i].as_slice()).is_some() {
            total += 1;
        }
        i += 1;
    }
    total
}

fn add_capped(a: usize, b: usize) -> (r: usize)
    ensures
        r == (if a + b > usize::MAX { usize::MAX as int } else { a + b }),
{
    if a > usize::MAX - b { usize::MAX } else { a + b }
}

/// A block's citation score, counted up to 4.
pub open spec fn capped_score(zb: ZonedBlock) -> int {
    if block_score(zb.lines@, zb.lines@.len() as int) >= 4 {
        4
    } else {
        block_score(zb.lines@, zb.lines@.len() as int)
    }
}

/// The scores of the blocks of `page` from `i` on, headers and page numbers
/// skipped, at most `left` of them: their sum and how many were scored.
pub open spec fn scan_scores(page: Seq<ZonedBlock>, i: int, left: int) -> (int, int)
    decreases page.len() - i,
{
    if i < 0 || i >= page.len() || left <= 0 {
        (0, 0)
    } else if skipped_zone(page[i].zone) {
        scan_scores(page, i + 1, left)
    } else {
        let (s, c) = scan_scores(page, i + 1, left - 1);
        (capped_score(page[i]) + s, c + 1)
    }
}

/// The citation score after a heading: up to 15 blocks after it on its page,
/// then the next page's blocks until 15 have been scored (at least one).
pub open spec fn score_after(pages: Seq<Vec<ZonedBlock>>, p: int, b: int) -> int {
    let (s1, c1) = scan_scores(pages[p]@, b + 1, 15);
    if p + 1 < pages.len() {
        s1 + scan_scores(pages[p + 1]@, 0, if c1 >= 15 { 1 } else { 15 - c1 }).0
    } else {
        s1
    }
}

proof fn lemma_scan_nonneg(page: Seq<ZonedBlock>, i: int, left: int)
    ensures
        scan_scores(page, i, left).0 >= 0,
        scan_scores(page, i, left).1 >= 0,
        left >= 0 ==> scan_scores(page, i, left).1 <= left,
    decreases page.len() - i,
{
    if !(i < 0 || i >= page.len() || left <= 0) {
        if skipped_zone(page[i].zone) {
            lemma_scan_nonneg(page, i + 1, left);
        } else {
            lemma_scan_nonneg(page, i + 1, left - 1);
            lemma_block_score_nonneg(page[i].lines@, page[i].lines@.len() as int);
        }
    }
}

/// Score up to `left` blocks of `page` from `i` on, stopping early once the
/// running total reaches 4.
fn scan_page(page: &Vec<ZonedBlock>, i: usize, left: usize, before: usize) -> (r: (usize, usize))
    requires
        before < 4,
        left <= 15,
    ensures
        r.0 >= 4 ==> before + scan_scores(page@, i as int, left as int).0 >= 4,
        r.0 < 4 ==> r.0 == before + scan_scores(page@, i as int, left as int).0
            && r.1 == scan_scores(page@, i as int, left as int).1,
{
    let mut k = i;
    let mut score = before;
    let mut used: usize = 0;
    while k < page.len() && used < left
        invariant
            score < 4,
            used <= left <= 15,
            i <= k || (k == i),
            k >= i,
            score + scan_scores(page@, k as int, (left - used) as int).0 == before + scan_scores(page@, i as int, left as int).0,
            used + scan_scores(page@, k as int, (left - used) as int).1 == scan_scores(page@, i as int, left as int).1,
        decreases page.len() - k,
    {
        let zb = &page[k];
        if !(zb.zone == ZoneKind::Header || zb.zone == ZoneKind::PageNumber) {
            score = score + score_citation_block(zb);
            used += 1;
            if score >= 4 {
                proof {
                    lemma_scan_nonneg(page@, k + 1, (left - used) as int);
                }
                return (score, used);
            }
        }
        k += 1;
    }
    (score, used)
}

/// Whether the content after a heading is citation-like: the citation scores of
/// up to 15 following blocks (headers and page numbers skipped), on this page
/// and the next, reach 4.
pub fn has_refs_after(pages: &Vec<Vec<ZonedBlock>>, page_idx: usize, block_idx: usize) -> (r: bool)
    requires
        page_idx < pages@.len(),
        block_idx < pages@[page_idx as int]@.len(),
    ensures
        r == (score_after(pages@, page_idx as int, block_idx as int) >= 4),
{
    let n = pages[page_idx].len();
    assert(block_idx < n);
    let (s1, c1) = scan_page(&pages[page_idx], block_idx + 1, 15, 0);
    proof {
        lemma_scan_nonneg(pages@[page_idx as int]@, block_idx + 1, 15);
        if page_idx + 1 < pages@.len() {
            lemma_scan_nonneg(pages@[page_idx + 1]@, 0, if scan_scores(pages@[page_idx as int]@, block_idx + 1, 15).1 >= 15 { 1 } else { 15 - scan_scores(pages@[page_idx as int]@, block_idx + 1, 15).1 });
        }
    }
    if s1 >= 4 {
        return true;
    }
    if pages.len() - page_idx > 1 {
        let left = if c1 >= 15 { 1 } else { 15 - c1 };
        let (s2, _) = scan_page(&pages[page_idx + 1], 0, left, s1);
        return s2 >= 4;
    }
    false
}

/// Where a reference heading stands: its page, its block, and its line when
/// the heading is a line inside a larger block.
pub struct HeadingLoc {
    pub page_idx: usize,
    pub block_idx: usize,
    pub line_idx: Option<usize>,
}

pub open spec fn loc_view(h: HeadingLoc) -> (int, int, Option<int>) {
    (
        h.page_idx as int,
        h.block_idx as int,
        match h.line_idx {
            Some(l) => Some(l as int),
            None => None,
        },
    )
}

pub open spec fn loc_views(v: Seq<HeadingLoc>) -> Seq<(int, int, Option<int>)> {
    v.map_values(|h: HeadingLoc| loc_view(h))
}

/// Whether block `b` of page `p` is a heading block followed by citation-like content.
pub open spec fn heading_block_at(pages: Seq<Vec<ZonedBlock>>, p: int, b: int) -> bool {
    is_heading(block_text_spec(pages[p]@[b])) && score_after(pages, p, b) >= 4
}

/// The heading blocks among blocks `0..hi` of page `p`.
pub open spec fn block_heads(pages: Seq<Vec<ZonedBlock>>, p: int, hi: int) -> Seq<(int, int, Option<int>)>
    decreases hi,
{
    if hi <= 0 {
        Seq::empty()
    } else if heading_block_at(pages, p, hi - 1) {
        block_heads(pages, p, hi - 1).push((p, hi - 1, None))
    } else {
        block_heads(pages, p, hi - 1)
    }
}

/// The heading lines among lines `0..hi` of block `b` of page `p`.
pub open spec fn line_heads(pages: Seq<Vec<ZonedBlock>>, p: int, b: int, hi: int) -> Seq<(int, int, Option<int>)>
    decreases hi,
{
    if hi <= 0 {
        Seq::empty()
    } else if is_heading(pages[p]@[b].lines@[hi - 1]@) && score_after(pages, p, b) >= 4 {
        line_heads(pages, p, b, hi - 1).push((p, b, Some(hi - 1)))
    } else {
        line_heads(pages, p, b, hi - 1)
    }
}

/// The heading lines of the blocks `0..hi` of page `p`.
pub open spec fn page_line_heads(pages: Seq<Vec<ZonedBlock>>, p: int, hi: int) -> Seq<(int, int, Option<int>)>
    decreases hi,
{
    if hi <= 0 {
        Seq::empty()
    } else {
        page_line_heads(pages, p, hi - 1) + line_heads(pages, p, hi - 1, pages[p]@[hi - 1].lines@.len() as int)
    }
}

/// The headings over pages `0..hi`: blocks, or lines when `lines` holds.
pub open spec fn all_heads(pages: Seq<Vec<ZonedBlock>>, hi: int, lines: bool) -> Seq<(int, int, Option<int>)>
    decreases hi,
{
    if hi <= 0 {
        Seq::empty()
    } else if lines {
        all_heads(pages, hi - 1, lines) + page_line_heads(pages, hi - 1, pages[hi - 1]@.len() as int)
    } else {
        all_heads(pages, hi - 1, lines) + block_heads(pages, hi - 1, pages[hi - 1]@.len() as int)
    }
}

/// The reference headings of a document: heading blocks followed by
/// citation-like content, or heading lines inside blocks when there are none.
pub open spec fn reference_headings(pages: Seq<Vec<ZonedBlock>>) -> Seq<(int, int, Option<int>)> {
    let blocks = all_heads(pages, pages.len() as int, false);
    if blocks.len() > 0 {
        blocks
    } else {
        all_heads(pages, pages.len() as int, true)
    }
}

/// The headings of one kind in all pages.
fn scan_headings(pages: &Vec<Vec<ZonedBlock>>, lines: bool) -> (r: Vec<HeadingLoc>)
    ensures
        loc_views(r@) == all_heads(pages@, pages@.len() as int, lines),
{
    let mut found: Vec<HeadingLoc> = Vec::new();
    assert(loc_views(found@) =~= Seq::<(int, int, Option<int>)>::empty());
    let mut p: usize = 0;
    while p < pages.len()
        invariant
            p <= pages@.len(),
            loc_views(found@) == all_heads(pages@, p as int, lines),
        decreases pages.len() - p,
    {
        let ghost start = loc_views(found@);
        let mut b: usize = 0;
        while b < pages[p].len()
            invariant
                p < pages@.len(),
                b <= pages@[p as int]@.len(),
                loc_views(found@) == start + (if lines {
                    page_line_heads(pages@, p as int, b as int)
                } else {
                    block_heads(pages@, p as int, b as int)
                }),
            decreases pages@[p as int]@.len() - b,
        {
            let zb = &pages[p][b];
            let ghost before = loc_views(found@);
            if !lines {
                if is_reference_heading(zb) && has_refs_after(pages, p, b) {
                    found.push(HeadingLoc { page_idx: p, block_idx: b, line_idx: None });
                    assert(loc_views(found@) =~= before.push((p as int, b as int, None)));
                }
                assert(start + block_heads(pages@, p as int, b + 1) =~= loc_views(found@));
            } else {
                let mut l: usize = 0;
                while l < zb.lines.len()
                    invariant
                        p < pages@.len(),
                        b < pages@[p as int]@.len(),
                        *zb == pages@[p as int]@[b as int],
                        l <= zb.lines@.len(),
                        loc_views(found@) == before + line_heads(pages@, p as int, b as int, l as int),
                    decreases zb.lines.len() - l,
                {
                    let ghost mid = loc_views(found@);
                    if crate::zones::is_reference_heading_line(zb.lines[l].as_str()) && has_refs_after(pages, p, b) {
                        found.push(HeadingLoc { page_idx: p, block_idx: b, line_idx: Some(l) });
                        assert(loc_views(found@) =~= mid.push((p as int, b as int, Some(l as int))));
                    }
                    l += 1;
                }
                assert(start + page_line_heads(pages@, p as int, b + 1) =~= loc_views(found@));
            }
            b += 1;
        }
        p += 1;
    }
    found
}

/// Every reference heading followed by citation-like content: heading blocks
/// first, and only when there are none, heading lines inside blocks.
pub fn find_all_reference_headings(pages: &Vec<Vec<ZonedBlock>>) -> (r: Vec<HeadingLoc>)
    ensures
        loc_views(r@) == reference_headings(pages@),
{
    let found = scan_headings(pages, false);
    if found.len() > 0 {
        return found;
    }
    scan_headings(pages, true)
}

/// The lines `ls[lo..hi]` joined by single spaces.
pub open spec fn join_from(ls: Seq<String>, lo: int, hi: int) -> Seq<char>
    decreases hi - lo,
{
    if hi <= lo {
        Seq::empty()
    } else if hi == lo + 1 {
        ls[lo]@
    } else {
        join_from(ls, lo, hi - 1) + seq![' '] + ls[hi - 1]@
    }
}

/// The lines of a block after the heading line, joined by spaces.
fn collect_lines_after(zb: &ZonedBlock, line_idx: usize) -> (r: String)
    ensures
        line_idx < zb.lines@.len() ==> r@ == join_from(zb.lines@, line_idx + 1, zb.lines@.len() as int),
        line_idx >= zb.lines@.len() ==> r@.len() == 0,
{
    let mut out = String::new();
    if line_idx >= zb.lines.len() {
        return out;
    }
    let lo = line_idx + 1;
    let mut i = lo;
    while i < zb.lines.len()
        invariant
            lo <= i <= zb.lines@.len(),
            out@ == join_from(zb.lines@, lo as int, i as int),
        decreases zb.lines.len() - i,
    {
        if i > lo {
            push_char(&mut out, ' ');
        }
        let l = chars_of(zb.lines[i].as_str());
        let mut k: usize = 0;
        let ghost pre = out@;
        while k < l.len()
            invariant
                k <= l@.len(),
                out@ == pre + l@.subrange(0, k as int),
            decreases l.len() - k,
        {
            push_char(&mut out, l[k]);
            assert(l@.subrange(0, k + 1) =~= l@.subrange(0, k as int).push(l@[k as int]));
            k += 1;
        }
        assert(l@.subrange(0, l@.len() as int) =~= l@);
        i += 1;
    }
    out
}

/// Block texts with their page numbers, as character sequences.
pub open spec fn text_views(v: Seq<(String, usize)>) -> Seq<(Seq<char>, usize)> {
    v.map_values(|x: (String, usize)| (x.0@, x.1))
}

/// The non-skipped blocks of `page[0..hi]`, as texts with page numbers.
pub open spec fn page_entries(page: Seq<ZonedBlock>, hi: int) -> Seq<(Seq<char>, usize)>
    decreases hi,
{
    if hi <= 0 {
        Seq::empty()
    } else if skipped_zone(page[hi - 1].zone) {
        page_entries(page, hi - 1)
    } else {
        page_entries(page, hi - 1).push((block_text_spec(page[hi - 1]), page[hi - 1].page_num))
    }
}

/// The first non-skipped block at or after `i` that is a reference heading.
pub open spec fn heading_from(page: Seq<ZonedBlock>, i: int) -> Option<int>
    decreases page.len() - i,
{
    if i < 0 || i >= page.len() {
        None
    } else if !skipped_zone(page[i].zone) && is_heading(block_text_spec(page[i])) {
        Some(i)
    } else {
        heading_from(page, i + 1)
    }
}

/// Whether some non-skipped block of `page[0..hi]` has a marker line.
pub open spec fn page_has_marker(page: Seq<ZonedBlock>, hi: int) -> bool
    decreases hi,
{
    if hi <= 0 {
        false
    } else {
        page_has_marker(page, hi - 1) || (!skipped_zone(page[hi - 1].zone) && marker_count(
            page[hi - 1].lines@,
            page[hi - 1].lines@.len() as int,
        ) > 0)
    }
}

/// Line counts of a block from line `hi` down, added to `(cit, tot)`: each
/// line counts while the total is below the largest `usize`.
pub open spec fn line_counts(ls: Seq<String>, hi: int, cit: int, tot: int) -> (int, int)
    decreases hi,
{
    if hi <= 0 {
        (cit, tot)
    } else {
        let (c, t) = line_counts(ls, hi - 1, cit, tot);
        if t < usize::MAX {
            (c + if citation_content(ls[hi - 1]@) { 1int } else { 0 }, t + 1)
        } else {
            (c, t)
        }
    }
}

/// Citation-content lines and all lines of the non-skipped blocks of `page[0..hi]`.
pub open spec fn page_counts(page: Seq<ZonedBlock>, hi: int) -> (int, int)
    decreases hi,
{
    if hi <= 0 {
        (0, 0)
    } else {
        let (c, t) = page_counts(page, hi - 1);
        if skipped_zone(page[hi - 1].zone) {
            (c, t)
        } else {
            line_counts(page[hi - 1].lines@, page[hi - 1].lines@.len() as int, c, t)
        }
    }
}

/// Whether a page without a heading continues the reference section.
pub open spec fn page_qualifies(page: Seq<ZonedBlock>, use_markers: bool) -> bool {
    if use_markers {
        page_has_marker(page, page.len() as int)
    } else {
        let (c, t) = page_counts(page, page.len() as int);
        c >= 3 && t > 0 && c >= t - c
    }
}

/// The blocks harvested from page `p` on, with `without` pages in a row that
/// did not qualify before it.
pub open spec fn gather_from(pages: Seq<Vec<ZonedBlock>>, p: int, without: int, use_markers: bool) -> Seq<(Seq<char>, usize)>
    decreases pages.len() - p,
{
    if p < 0 || p >= pages.len() {
        Seq::empty()
    } else {
        let page = pages[p]@;
        match heading_from(page, 0) {
            Some(h) => page_entries(page, h),
            None => if page_qualifies(page, use_markers) {
                page_entries(page, page.len() as int) + gather_from(pages, p + 1, 0, use_markers)
            } else if without + 1 >= 2 {
                Seq::empty()
            } else {
                page_entries(page, page.len() as int) + gather_from(pages, p + 1, without + 1, use_markers)
            },
        }
    }
}

proof fn lemma_line_counts(ls: Seq<String>, hi: int, cit: int, tot: int)
    requires
        0 <= cit <= tot <= usize::MAX,
    ensures
        0 <= line_counts(ls, hi, cit, tot).0 <= line_counts(ls, hi, cit, tot).1 <= usize::MAX,
    decreases hi,
{
    if hi > 0 {
        lemma_line_counts(ls, hi - 1, cit, tot);
    }
}

/// One page of the harvest: its blocks up to a heading, whether it has one,
/// and whether it qualifies.
fn scan_gather_page(page: &Vec<ZonedBlock>, use_markers: bool) -> (r: (Vec<(String, usize)>, bool, bool))
    ensures
        r.1 == (heading_from(page@, 0) is Some),
        r.1 ==> text_views(r.0@) == page_entries(page@, heading_from(page@, 0)->0),
        !r.1 ==> text_views(r.0@) == page_entries(page@, page@.len() as int) && r.2 == page_qualifies(page@, use_markers),
{
    let mut buf: Vec<(String, usize)> = Vec::new();
    let mut marker = false;
    let mut cit: usize = 0;
    let mut tot: usize = 0;
    let mut b: usize = 0;
    while b < page.len()
        invariant
            b <= page@.len(),
            heading_from(page@, b as int) == heading_from(page@, 0),
            text_views(buf@) == page_entries(page@, b as int),
            marker == page_has_marker(page@, b as int),
            (cit as int, tot as int) == page_counts(page@, b as int),
            cit <= tot,
        decreases page.len() - b,
    {
        let zb = &page[b];
        let ghost before = text_views(buf@);
        if !(zb.zone == ZoneKind::Header || zb.zone == ZoneKind::PageNumber) {
            if is_reference_heading(zb) {
                return (buf, true, false);
            }
            if count_markers_in_block(zb) > 0 {
                marker = true;
            }
            let mut l: usize = 0;
            let ghost (c0, t0) = (cit as int, tot as int);
            while l < zb.lines.len()
                invariant
                    l <= zb.lines@.len(),
                    (cit as int, tot as int) == line_counts(zb.lines@, l as int, c0, t0),
                    cit <= tot,
                decreases zb.lines.len() - l,
            {
                if tot < usize::MAX {
                    tot += 1;
                    let lc = chars_of(zb.lines[l].as_str());
                    if has_citation_content(lc.as_slice()) {
                        cit += 1;
                    }
                }
                l += 1;
            }
            buf.push((block_text(zb), zb.page_num));
            assert(text_views(buf@) =~= before.push((block_text_spec(*zb), zb.page_num)));
        }
        b += 1;
    }
    let q = if use_markers { marker } else { cit >= 3 && tot > 0 && cit >= tot - cit };
    (buf, false, q)
}

/// Harvest the pages after the heading's page. With markers, pages with a
/// marker line are taken, one page without may continue the list, and two
/// in a row end it; without markers a page qualifies when at least three of
/// its lines, and at least half, hold citation content. Another reference
/// heading ends the harvest.
fn gather_subsequent_pages(
    pages: &Vec<Vec<ZonedBlock>>,
    start_page: usize,
    ref_blocks: &mut Vec<(String, usize)>,
    use_markers: bool,
)
    requires
        start_page < pages@.len(),
    ensures
        text_views(final(ref_blocks)@) == text_views(old(ref_blocks)@) + gather_from(pages@, start_page + 1, 0, use_markers),
{
    let ghost start = text_views(ref_blocks@);
    let n = pages.len();
    assert(start_page < n);
    let mut without: usize = 0;
    let mut p = start_page + 1;
    while p < pages.len()
        invariant
            start == text_views(old(ref_blocks)@),
            start_page < p <= pages@.len(),
            without < 2,
            text_views(ref_blocks@) + gather_from(pages@, p as int, without as int, use_markers)
                == start + gather_from(pages@, start_page + 1, 0, use_markers),
        decreases pages.len() - p,
    {
        let ghost before = text_views(ref_blocks@);
        let (mut buf, heading, qualifies) = scan_gather_page(&pages[p], use_markers);
        let ghost bv = text_views(buf@);
        if heading {
            ref_blocks.append(&mut buf);
            assert(text_views(ref_blocks@) =~= before + bv);
            assert(gather_from(pages@, p as int, without as int, use_markers) == bv);
            return;
        }
        if qualifies {
            ref_blocks.append(&mut buf);
            assert(text_views(ref_blocks@) =~= before + bv);
            assert(before + gather_from(pages@, p as int, without as int, use_markers) =~= text_views(ref_blocks@) + gather_from(pages@, p + 1, 0, use_markers));
            without = 0;
        } else {
            if without + 1 >= 2 {
                assert(gather_from(pages@, p as int, without as int, use_markers) =~= Seq::<(Seq<char>, usize)>::empty());
                assert(before =~= before + Seq::<(Seq<char>, usize)>::empty());
                return;
            }
            ref_blocks.append(&mut buf);
            assert(text_views(ref_blocks@) =~= before + bv);
            assert(before + gather_from(pages@, p as int, without as int, use_markers) =~= text_views(ref_blocks@) + gather_from(pages@, p + 1, without + 1, use_markers));
            without = without + 1;
        }
        p += 1;
    }
    assert(gather_from(pages@, p as int, without as int, use_markers) =~= Seq::<(Seq<char>, usize)>::empty());
    assert(text_views(ref_blocks@) =~= text_views(ref_blocks@) + Seq::<(Seq<char>, usize)>::empty());
}

/// Whether some of the texts `bs[0..hi]` has a marker line.
pub open spec fn any_marker_text(bs: Seq<(Seq<char>, usize)>, hi: int) -> bool
    decreases hi,
{
    if hi <= 0 {
        false
    } else {
        any_marker_text(bs, hi - 1) || marker_lines(
            crate::text::split_on(bs[hi - 1].0, '\n'),
            crate::text::split_on(bs[hi - 1].0, '\n').len() as int,
        ) > 0
    }
}

/// The non-skipped blocks of `page[lo..hi]`, as texts with page numbers.
pub open spec fn page_entries_from(page: Seq<ZonedBlock>, lo: int, hi: int) -> Seq<(Seq<char>, usize)>
    decreases hi - lo,
{
    if hi <= lo {
        Seq::empty()
    } else if skipped_zone(page[hi - 1].zone) {
        page_entries_from(page, lo, hi - 1)
    } else {
        page_entries_from(page, lo, hi - 1).push((block_text_spec(page[hi - 1]), page[hi - 1].page_num))
    }
}

/// The blocks of the reference section of a heading: the rest of the heading's
/// block (for a heading line), the rest of its page, then the following pages.
pub open spec fn section_blocks(pages: Seq<Vec<ZonedBlock>>, p: int, b: int, line: Option<int>) -> Seq<(Seq<char>, usize)> {
    let page = pages[p]@;
    let first = match line {
        Some(l) => {
            let j = if l + 1 < page[b].lines@.len() {
                join_from(page[b].lines@, l + 1, page[b].lines@.len() as int)
            } else {
                Seq::empty()
            };
            if j.len() > 0 {
                seq![(j, page[b].page_num)]
            } else {
                Seq::empty()
            }
        },
        None => Seq::empty(),
    };
    let here = first + page_entries_from(page, b + 1, page.len() as int);
    here + gather_from(pages, p + 1, 0, any_marker_text(here, here.len() as int))
}

/// The section blocks of a heading, none when it is out of range.
pub open spec fn heading_blocks(pages: Seq<Vec<ZonedBlock>>, h: (int, int, Option<int>)) -> Seq<(Seq<char>, usize)> {
    if 0 <= h.0 < pages.len() && 0 <= h.1 < pages[h.0]@.len() {
        section_blocks(pages, h.0, h.1, h.2)
    } else {
        Seq::empty()
    }
}

/// The section blocks of the headings `hs[0..hi]`, in order.
pub open spec fn all_heading_blocks(pages: Seq<Vec<ZonedBlock>>, hs: Seq<(int, int, Option<int>)>, hi: int) -> Seq<(Seq<char>, usize)>
    decreases hi,
{
    if hi <= 0 {
        Seq::empty()
    } else {
        all_heading_blocks(pages, hs, hi - 1) + heading_blocks(pages, hs[hi - 1])
    }
}

/// The blocks the fallbacks find: dense marker blocks, else a trailing marker
/// cluster, else superscript markers.
pub open spec fn fallback_blocks(pages: Seq<Vec<ZonedBlock>>) -> Seq<(Seq<char>, usize)> {
    if dense_blocks(pages, pages.len() as int).len() > 0 {
        dense_blocks(pages, pages.len() as int)
    } else if trailing_cluster(pages).len() > 0 {
        trailing_cluster(pages)
    } else {
        superscript_refs(pages)
    }
}

/// The references of the reference section(s), or of the fallbacks.
pub open spec fn section_refs(pages: Seq<Vec<ZonedBlock>>) -> Seq<RawFields> {
    let hs = reference_headings(pages);
    if hs.len() > 0 {
        split_refs(all_heading_blocks(pages, hs, hs.len() as int), ReferenceSource::ReferenceSection)
    } else if fallback_blocks(pages).len() == 0 {
        Seq::empty()
    } else {
        split_refs(fallback_blocks(pages), ReferenceSource::ReferenceSection)
    }
}

/// The footnote blocks among blocks `0..hi` of a page.
pub open spec fn footnote_entries(page: Seq<ZonedBlock>, hi: int) -> Seq<(Seq<char>, usize)>
    decreases hi,
{
    if hi <= 0 {
        Seq::empty()
    } else if page[hi - 1].zone == ZoneKind::Footnote {
        footnote_entries(page, hi - 1).push((block_text_spec(page[hi - 1]), page[hi - 1].page_num))
    } else {
        footnote_entries(page, hi - 1)
    }
}

/// The references of `v[0..hi]` that look like citations.
pub open spec fn citing(v: Seq<RawFields>, hi: int) -> Seq<RawFields>
    decreases hi,
{
    if hi <= 0 {
        Seq::empty()
    } else if citation_like(v[hi - 1].text) {
        citing(v, hi - 1).push(v[hi - 1])
    } else {
        citing(v, hi - 1)
    }
}

/// The footnote references of a page: its footnote blocks split into
/// references, those that look like citations.
pub open spec fn page_notes(page: Seq<ZonedBlock>) -> Seq<RawFields> {
    let e = footnote_entries(page, page.len() as int);
    if e.len() > 0 {
        let v = split_refs(e, ReferenceSource::Footnote);
        citing(v, v.len() as int)
    } else {
        Seq::empty()
    }
}

/// The footnote references of pages `0..hi`.
pub open spec fn notes_upto(pages: Seq<Vec<ZonedBlock>>, hi: int) -> Seq<RawFields>
    decreases hi,
{
    if hi <= 0 {
        Seq::empty()
    } else {
        notes_upto(pages, hi - 1) + page_notes(pages[hi - 1]@)
    }
}

/// All references of a document: the section's, then the footnotes' that are
/// not already there.
pub open spec fn document_refs(pages: Seq<Vec<ZonedBlock>>) -> Seq<RawFields> {
    let notes = notes_upto(pages, pages.len() as int);
    merged(section_refs(pages), notes, notes.len() as int)
}

/// The blocks of a reference section: the rest of the heading's block and
/// page, then the following pages.
fn gather_ref_blocks(pages: &Vec<Vec<ZonedBlock>>, loc: &HeadingLoc) -> (r: Vec<(String, usize)>)
    ensures
        text_views(r@) == heading_blocks(pages@, loc_view(*loc)),
{
    let mut out: Vec<(String, usize)> = Vec::new();
    if loc.page_idx >= pages.len() || loc.block_idx >= pages[loc.page_idx].len() {
        assert(text_views(out@) =~= Seq::<(Seq<char>, usize)>::empty());
        return out;
    }
    let page = &pages[loc.page_idx];
    let ghost pv = page@;
    let ghost b0 = loc.block_idx as int;
    assert(text_views(out@) =~= Seq::<(Seq<char>, usize)>::empty());
    if let Some(l) = loc.line_idx {
        let zb = &page[loc.block_idx];
        let rest = collect_lines_after(zb, l);
        if chars_of(rest.as_str()).len() > 0 {
            out.push((rest, zb.page_num));
        }
        let ghost j = if l + 1 < zb.lines@.len() {
            join_from(zb.lines@, l + 1, zb.lines@.len() as int)
        } else {
            Seq::empty()
        };
        assert(rest@ == j);
        assert(text_views(out@) =~= (if j.len() > 0 {
            seq![(j, zb.page_num)]
        } else {
            Seq::empty()
        }));
    }
    let ghost first = text_views(out@);
    let lo = loc.block_idx + 1;
    let mut b = lo;
    while b < page.len()
        invariant
            lo <= b <= page@.len(),
            pv == page@,
            text_views(out@) == first + page_entries_from(pv, lo as int, b as int),
        decreases page.len() - b,
    {
        let zb = &page[b];
        let ghost before = text_views(out@);
        if !(zb.zone == ZoneKind::Header || zb.zone == ZoneKind::PageNumber) {
            out.push((block_text(zb), zb.page_num));
            assert(text_views(out@) =~= before.push((block_text_spec(*zb), zb.page_num)));
        }
        assert(first + page_entries_from(pv, lo as int, b + 1) =~= text_views(out@));
        b += 1;
    }
    let ghost here = text_views(out@);
    let mut has_markers = false;
    let mut k: usize = 0;
    while k < out.len()
        invariant
            k <= out@.len(),
            here == text_views(out@),
            has_markers == any_marker_text(here, k as int),
        decreases out.len() - k,
    {
        let t = chars_of(out[k].0.as_str());
        assert(here[k as int].0 == t@);
        if count_markers_in_text(t.as_slice()) > 0 {
            has_markers = true;
        }
        k += 1;
    }
    gather_subsequent_pages(pages, loc.page_idx, &mut out, has_markers);
    out
}

/// The references of the reference section(s), or of the fallbacks when no
/// heading is found.
fn collect_reference_section(pages: &Vec<Vec<ZonedBlock>>) -> (r: Vec<RawReference>)
    ensures
        all_raw_ok(r@, ReferenceSource::ReferenceSection),
        crate::driver::raw_views(r@) == section_refs(pages@),
{
    let headings = find_all_reference_headings(pages);
    let ghost hs = loc_views(headings@);
    if headings.len() > 0 {
        let mut all: Vec<(String, usize)> = Vec::new();
        assert(text_views(all@) =~= Seq::<(Seq<char>, usize)>::empty());
        let mut k: usize = 0;
        while k < headings.len()
            invariant
                k <= headings@.len(),
                hs == loc_views(headings@),
                text_views(all@) == all_heading_blocks(pages@, hs, k as int),
            decreases headings.len() - k,
        {
            let ghost before = text_views(all@);
            let mut blocks = gather_ref_blocks(pages, &headings[k]);
            assert(hs[k as int] == loc_view(headings@[k as int]));
            let ghost bv = text_views(blocks@);
            all.append(&mut blocks);
            assert(text_views(all@) =~= before + bv);
            k += 1;
        }
        return split_into_references(&all, ReferenceSource::ReferenceSection);
    }
    collect_refs_by_markers(pages)
}

/// Fallback: references from blocks that hold line markers.
fn collect_refs_by_markers(pages: &Vec<Vec<ZonedBlock>>) -> (r: Vec<RawReference>)
    ensures
        all_raw_ok(r@, ReferenceSource::ReferenceSection),
        fallback_blocks(pages@).len() == 0 ==> r@.len() == 0,
        fallback_blocks(pages@).len() > 0 ==> crate::driver::raw_views(r@) == split_refs(fallback_blocks(pages@), ReferenceSource::ReferenceSection),
{
    let lines = collect_marker_block_lines(pages);
    if lines.len() == 0 {
        return Vec::new();
    }
    split_into_references(&lines, ReferenceSource::ReferenceSection)
}


/// Whether a block is dense with references: three or more marker lines and
/// a citation score of at least 4.
pub open spec fn dense_block(zb: ZonedBlock) -> bool {
    !skipped_zone(zb.zone) && marker_count(zb.lines@, zb.lines@.len() as int) >= 3 && capped_score(zb) >= 4
}

/// The dense blocks among blocks `0..hi` of a page.
pub open spec fn dense_in_page(page: Seq<ZonedBlock>, hi: int) -> Seq<(Seq<char>, usize)>
    decreases hi,
{
    if hi <= 0 {
        Seq::empty()
    } else if dense_block(page[hi - 1]) {
        dense_in_page(page, hi - 1).push((block_text_spec(page[hi - 1]), page[hi - 1].page_num))
    } else {
        dense_in_page(page, hi - 1)
    }
}

/// The dense blocks of pages `0..hi`.
pub open spec fn dense_blocks(pages: Seq<Vec<ZonedBlock>>, hi: int) -> Seq<(Seq<char>, usize)>
    decreases hi,
{
    if hi <= 0 {
        Seq::empty()
    } else {
        dense_blocks(pages, hi - 1) + dense_in_page(pages[hi - 1]@, pages[hi - 1]@.len() as int)
    }
}

/// Blocks with three or more marker lines and a citation score of at least 4.
fn collect_dense_marker_blocks(pages: &Vec<Vec<ZonedBlock>>) -> (r: Vec<(String, usize)>)
    ensures
        text_views(r@) == dense_blocks(pages@, pages@.len() as int),
{
    let mut out: Vec<(String, usize)> = Vec::new();
    assert(text_views(out@) =~= Seq::<(Seq<char>, usize)>::empty());
    let mut p: usize = 0;
    while p < pages.len()
        invariant
            p <= pages@.len(),
            text_views(out@) == dense_blocks(pages@, p as int),
        decreases pages.len() - p,
    {
        let ghost start = text_views(out@);
        let mut b: usize = 0;
        while b < pages[p].len()
            invariant
                p < pages@.len(),
                b <= pages@[p as int]@.len(),
                text_views(out@) == start + dense_in_page(pages@[p as int]@, b as int),
            decreases pages@[p as int]@.len() - b,
        {
            let zb = &pages[p][b];
            let ghost before = text_views(out@);
            if !(zb.zone == ZoneKind::Header || zb.zone == ZoneKind::PageNumber) {
                if count_markers_in_block(zb) >= 3 && score_citation_block(zb) >= 4 {
                    out.push((block_text(zb), zb.page_num));
                    assert(text_views(out@) =~= before.push((block_text_spec(*zb), zb.page_num)));
                }
            }
            assert(start + dense_in_page(pages@[p as int]@, b + 1) =~= text_views(out@));
            b += 1;
        }
        p += 1;
    }
    out
}

/// Marker lines and marker lines with citation content after the marker,
/// over `ls[0..hi]`, each counted up to 5 and 3.
pub open spec fn cluster_line_counts(ls: Seq<Seq<char>>, hi: int, m: int, c: int) -> (int, int)
    decreases hi,
{
    if hi <= 0 {
        (m, c)
    } else {
        let (m1, c1) = cluster_line_counts(ls, hi - 1, m, c);
        match marker_at(ls[hi - 1]) {
            Some((_, _, _, e)) => (
                if m1 < 5 { m1 + 1 } else { m1 },
                if citation_content(trim(ls[hi - 1].subrange(e, ls[hi - 1].len() as int))) && c1 < 3 { c1 + 1 } else { c1 },
            ),
            None => (m1, c1),
        }
    }
}

/// The counts over the texts `bs[0..hi]`, each split at newlines.
pub open spec fn cluster_counts(bs: Seq<(Seq<char>, usize)>, hi: int) -> (int, int)
    decreases hi,
{
    if hi <= 0 {
        (0, 0)
    } else {
        let (m, c) = cluster_counts(bs, hi - 1);
        let ls = crate::text::split_on(bs[hi - 1].0, '\n');
        cluster_line_counts(ls, ls.len() as int, m, c)
    }
}

/// A trailing cluster is valid with five marker lines, three of them with
/// citation content after the marker.
pub open spec fn valid_cluster(bs: Seq<(Seq<char>, usize)>) -> bool {
    let (m, c) = cluster_counts(bs, bs.len() as int);
    m >= 5 && c >= 3
}

proof fn lemma_cluster_line_counts(ls: Seq<Seq<char>>, hi: int, m: int, c: int)
    requires
        0 <= m <= 5,
        0 <= c <= 3,
    ensures
        0 <= cluster_line_counts(ls, hi, m, c).0 <= 5,
        0 <= cluster_line_counts(ls, hi, m, c).1 <= 3,
    decreases hi,
{
    if hi > 0 {
        lemma_cluster_line_counts(ls, hi - 1, m, c);
    }
}

proof fn lemma_cluster_counts(bs: Seq<(Seq<char>, usize)>, hi: int)
    ensures
        0 <= cluster_counts(bs, hi).0 <= 5,
        0 <= cluster_counts(bs, hi).1 <= 3,
    decreases hi,
{
    if hi > 0 {
        lemma_cluster_counts(bs, hi - 1);
        let ls = crate::text::split_on(bs[hi - 1].0, '\n');
        lemma_cluster_line_counts(ls, ls.len() as int, cluster_counts(bs, hi - 1).0, cluster_counts(bs, hi - 1).1);
    }
}

/// Whether a trailing cluster holds at least five marker lines, three of them
/// with citation content after the marker.
fn is_valid_trailing_cluster(blocks: &Vec<(String, usize)>) -> (r: bool)
    ensures
        r == valid_cluster(text_views(blocks@)),
{
    let ghost bv = text_views(blocks@);
    let mut total: usize = 0;
    let mut citing: usize = 0;
    let mut k: usize = 0;
    while k < blocks.len()
        invariant
            k <= blocks@.len(),
            bv == text_views(blocks@),
            (total as int, citing as int) == cluster_counts(bv, k as int),
            total <= 5,
            citing <= 3,
        decreases blocks.len() - k,
    {
        let text = chars_of(blocks[k].0.as_str());
        assert(bv[k as int].0 == text@);
        let lines = crate::text::split_chars(text.as_slice(), '\n');
        let ghost lv = crate::text::char_views(lines@);
        let ghost (m0, c0) = (total as int, citing as int);
        let mut i: usize = 0;
        while i < lines.len()
            invariant
                i <= lines@.len(),
                lv == crate::text::char_views(lines@),
                (total as int, citing as int) == cluster_line_counts(lv, i as int, m0, c0),
                total <= 5,
                citing <= 3,
            decreases lines.len() - i,
        {
            let line = &lines[i];
            assert(lv[i as int] == line@);
            if let Some((_, _, _, e)) = line_marker(line.as_slice()) {
                if total < 5 {
                    total += 1;
                }
                let rest = slice_vec(line.as_slice(), e, line.len());
                let after = trimmed(&rest);
                if has_citation_content(after.as_slice()) && citing < 3 {
                    citing += 1;
                }
            }
            i += 1;
        }
        k += 1;
    }
    total >= 5 && citing >= 3
}

/// The marker lines of the texts `bs[0..hi]`, summed up to the largest `usize`.
pub open spec fn cluster_markers(bs: Seq<(Seq<char>, usize)>, hi: int) -> int
    decreases hi,
{
    if hi <= 0 {
        0
    } else {
        let t = cluster_markers(bs, hi - 1) + marker_lines(
            crate::text::split_on(bs[hi - 1].0, '\n'),
            crate::text::split_on(bs[hi - 1].0, '\n').len() as int,
        );
        if t > usize::MAX {
            usize::MAX as int
        } else {
            t
        }
    }
}

/// The blocks collected scanning pages `pages[0..p]` from the end, given the
/// blocks collected so far and the pages without markers in a row.
pub open spec fn trailing_from(pages: Seq<Vec<ZonedBlock>>, p: int, blocks: Seq<(Seq<char>, usize)>, without: int) -> Seq<(Seq<char>, usize)>
    decreases p,
{
    if p <= 0 {
        blocks
    } else {
        let page = pages[p - 1]@;
        if page_has_marker(page, page.len() as int) {
            trailing_from(pages, p - 1, blocks + page_entries(page, page.len() as int), 0)
        } else {
            let w = if without < 2 { without + 1 } else { without };
            if blocks.len() > 0 && w >= 2 {
                if valid_cluster(blocks) {
                    blocks
                } else {
                    trailing_from(pages, p - 1, Seq::empty(), 0)
                }
            } else {
                trailing_from(pages, p - 1, blocks, w)
            }
        }
    }
}

/// The trailing marker cluster of a document, in reading order: none unless
/// it holds at least five marker lines.
pub open spec fn trailing_cluster(pages: Seq<Vec<ZonedBlock>>) -> Seq<(Seq<char>, usize)> {
    let bs = trailing_from(pages, pages.len() as int, Seq::empty(), 0);
    if cluster_markers(bs, bs.len() as int) < 5 {
        Seq::empty()
    } else {
        Seq::new(bs.len(), |k: int| bs[bs.len() - 1 - k])
    }
}

/// The non-skipped blocks of a page as texts, and whether one has a marker.
fn page_blocks_with_marker(page: &Vec<ZonedBlock>) -> (r: (Vec<(String, usize)>, bool))
    ensures
        text_views(r.0@) == page_entries(page@, page@.len() as int),
        r.1 == page_has_marker(page@, page@.len() as int),
{
    let mut out: Vec<(String, usize)> = Vec::new();
    let mut marker = false;
    let mut b: usize = 0;
    while b < page.len()
        invariant
            b <= page@.len(),
            text_views(out@) == page_entries(page@, b as int),
            marker == page_has_marker(page@, b as int),
        decreases page.len() - b,
    {
        let zb = &page[b];
        if !(zb.zone == ZoneKind::Header || zb.zone == ZoneKind::PageNumber) {
            if count_markers_in_block(zb) > 0 {
                marker = true;
            }
            let ghost before = text_views(out@);
            out.push((block_text(zb), zb.page_num));
            assert(text_views(out@) =~= before.push((block_text_spec(*zb), zb.page_num)));
        }
        b += 1;
    }
    (out, marker)
}

/// Scan pages from the end for blocks of pages with markers, allowing one
/// page without; a cluster that is not valid is dropped and the scan goes on.
/// At least five markers in all are needed.
fn collect_trailing_marker_blocks(pages: &Vec<Vec<ZonedBlock>>) -> (r: Vec<(String, usize)>)
    ensures
        text_views(r@) == trailing_cluster(pages@),
{
    let mut blocks: Vec<(String, usize)> = Vec::new();
    assert(text_views(blocks@) =~= Seq::<(Seq<char>, usize)>::empty());
    let mut without: usize = 0;
    let mut p = pages.len();
    while p > 0
        invariant_except_break
            trailing_from(pages@, p as int, text_views(blocks@), without as int) == trailing_from(pages@, pages@.len() as int, Seq::empty(), 0),
        invariant
            p <= pages@.len(),
            without <= 2,
        ensures
            text_views(blocks@) == trailing_from(pages@, pages@.len() as int, Seq::empty(), 0),
        decreases p,
    {
        let ghost bv = text_views(blocks@);
        let (mut collected, has_markers) = page_blocks_with_marker(&pages[p - 1]);
        if has_markers {
            blocks.append(&mut collected);
            assert(text_views(blocks@) =~= bv + page_entries(pages@[p - 1]@, pages@[p - 1]@.len() as int));
            without = 0;
        } else {
            if without < 2 {
                without += 1;
            }
            if blocks.len() > 0 && without >= 2 {
                if is_valid_trailing_cluster(&blocks) {
                    break;
                }
                blocks = Vec::new();
                assert(text_views(blocks@) =~= Seq::<(Seq<char>, usize)>::empty());
                without = 0;
            }
        }
        p -= 1;
    }
    let ghost bs = text_views(blocks@);
    let mut total: usize = 0;
    let mut k: usize = 0;
    while k < blocks.len()
        invariant
            k <= blocks@.len(),
            bs == text_views(blocks@),
            total == cluster_markers(bs, k as int),
        decreases blocks.len() - k,
    {
        let t = chars_of(blocks[k].0.as_str());
        assert(bs[k as int].0 == t@);
        total = add_capped(total, count_markers_in_text(t.as_slice()));
        k += 1;
    }
    if total < 5 {
        let none: Vec<(String, usize)> = Vec::new();
        assert(text_views(none@) =~= Seq::<(Seq<char>, usize)>::empty());
        return none;
    }
    let r = reversed(blocks);
    assert(text_views(r@) =~= Seq::new(bs.len(), |k: int| bs[bs.len() - 1 - k]));
    r
}

/// The items in reverse order.
fn reversed(v: Vec<(String, usize)>) -> (r: Vec<(String, usize)>)
    ensures
        r@.len() == v@.len(),
        forall|k: int| 0 <= k < v@.len() ==> r@[k] == v@[v@.len() - 1 - k],
{
    let ghost orig = v@;
    let mut rest = v;
    let mut out: Vec<(String, usize)> = Vec::new();
    while rest.len() > 0
        invariant
            rest@ == orig.subrange(0, orig.len() - out@.len()),
            out@.len() <= orig.len(),
            forall|k: int| 0 <= k < out@.len() ==> out@[k] == orig[orig.len() - 1 - k],
        decreases rest.len(),
    {
        let x = rest.pop().unwrap();
        out.push(x);
    }
    out
}

/// The decimal value of the digits `s[0..hi]`.
pub open spec fn dec_value(s: Seq<char>, hi: int) -> int
    decreases hi,
{
    if hi <= 0 {
        0
    } else {
        dec_value(s, hi - 1) * 10 + (s[hi - 1] as int - '0' as int)
    }
}

proof fn lemma_dec_value_bound(s: Seq<char>, hi: int)
    requires
        0 <= hi <= s.len(),
        forall|k: int| 0 <= k < hi ==> is_digit(#[trigger] s[k]),
    ensures
        0 <= dec_value(s, hi) < pow10(hi),
    decreases hi,
{
    if hi > 0 {
        lemma_dec_value_bound(s, hi - 1);
    }
}

pub open spec fn pow10(n: int) -> int
    decreases n,
{
    if n <= 0 {
        1
    } else {
        10 * pow10(n - 1)
    }
}

/// The value of a text of one to four digits, or none.
fn bare_number(t: &Vec<char>) -> (r: Option<u32>)
    ensures
        r is Some <==> (1 <= t@.len() <= 4 && crate::text::all_digits(t@)),
        r matches Some(v) ==> v as int == dec_value(t@, t@.len() as int),
{
    if t.len() == 0 || t.len() > 4 {
        return None;
    }
    let mut v: u32 = 0;
    let mut i: usize = 0;
    while i < t.len()
        invariant
            i <= t@.len() <= 4,
            forall|k: int| 0 <= k < i ==> is_digit(#[trigger] t@[k]),
            v as int == dec_value(t@, i as int),
            v < pow10(i as int),
        decreases t.len() - i,
    {
        if !digit(t[i]) {
            return None;
        }
        proof {
            lemma_dec_value_bound(t@, i as int);
            assert(pow10(i as int) <= 1000) by {
                assert(pow10(0) == 1);
                assert(pow10(1) == 10);
                assert(pow10(2) == 100);
                assert(pow10(3) == 1000);
            }
        }
        let d = (t[i] as u32) - ('0' as u32);
        v = v * 10 + d;
        i += 1;
    }
    Some(v)
}

/// The non-skipped blocks of pages `0..hi`, in order.
pub open spec fn flat_entries(pages: Seq<Vec<ZonedBlock>>, hi: int) -> Seq<(Seq<char>, usize)>
    decreases hi,
{
    if hi <= 0 {
        Seq::empty()
    } else {
        flat_entries(pages, hi - 1) + page_entries(pages[hi - 1]@, pages[hi - 1]@.len() as int)
    }
}

/// The non-header, non-page-number blocks of all pages, in order.
fn flat_blocks(pages: &Vec<Vec<ZonedBlock>>) -> (r: Vec<(String, usize)>)
    ensures
        text_views(r@) == flat_entries(pages@, pages@.len() as int),
{
    let mut out: Vec<(String, usize)> = Vec::new();
    assert(text_views(out@) =~= Seq::<(Seq<char>, usize)>::empty());
    let mut p: usize = 0;
    while p < pages.len()
        invariant
            p <= pages@.len(),
            text_views(out@) == flat_entries(pages@, p as int),
        decreases pages.len() - p,
    {
        let ghost start = text_views(out@);
        let mut b: usize = 0;
        while b < pages[p].len()
            invariant
                p < pages@.len(),
                b <= pages@[p as int]@.len(),
                text_views(out@) == start + page_entries(pages@[p as int]@, b as int),
            decreases pages@[p as int]@.len() - b,
        {
            let zb = &pages[p][b];
            let ghost before = text_views(out@);
            if !(zb.zone == ZoneKind::Header || zb.zone == ZoneKind::PageNumber) {
                out.push((block_text(zb), zb.page_num));
                assert(text_views(out@) =~= before.push((block_text_spec(*zb), zb.page_num)));
            }
            assert(start + page_entries(pages@[p as int]@, b + 1) =~= text_views(out@));
            b += 1;
        }
        p += 1;
    }
    out
}

/// A bare number of one to four digits that is not a year from 1900 to 2099.
pub open spec fn marker_number(t: Seq<char>) -> bool {
    1 <= t.len() <= 4 && crate::text::all_digits(t) && !(1900 <= dec_value(t, t.len() as int) < 2100)
}

/// The citation text after a marker, from block `k` on, with `parts` parts
/// collected into `acc`: up to four non-empty blocks, up to the next marker number.
pub open spec fn citation_from(bs: Seq<(Seq<char>, usize)>, k: int, parts: int, acc: Seq<char>) -> Seq<char>
    decreases bs.len() - k,
{
    if k < 0 || k >= bs.len() || parts >= 4 {
        acc
    } else {
        let t = trim(bs[k].0);
        if t.len() == 0 {
            citation_from(bs, k + 1, parts, acc)
        } else if marker_number(t) {
            acc
        } else {
            citation_from(bs, k + 1, parts + 1, if parts > 0 { acc + seq![' '] + t } else { acc + t })
        }
    }
}

/// The citation text after a bare-number marker: up to four following
/// non-empty blocks, up to the next bare number that is not a year.
fn collect_citation_after(blocks: &Vec<(String, usize)>, start: usize) -> (r: Vec<char>)
    ensures
        r@ == citation_from(text_views(blocks@), start as int, 0, Seq::empty()),
{
    let ghost bv = text_views(blocks@);
    let mut out: Vec<char> = Vec::new();
    let mut parts: usize = 0;
    let mut k = start;
    while k < blocks.len() && parts < 4
        invariant_except_break
            citation_from(bv, k as int, parts as int, out@) == citation_from(bv, start as int, 0, Seq::empty()),
        invariant
            bv == text_views(blocks@),
            parts <= 4,
            k >= start,
        ensures
            out@ == citation_from(bv, start as int, 0, Seq::empty()),
        decreases blocks.len() - k,
    {
        let t = trimmed(&chars_of(blocks[k].0.as_str()));
        assert(bv[k as int].0 == blocks@[k as int].0@);
        if t.len() > 0 {
            if let Some(n) = bare_number(&t) {
                if !(1900 <= n && n < 2100) {
                    break;
                }
            }
            let ghost before = out@;
            if parts > 0 {
                out.push(' ');
            }
            extend_from(&mut out, t.as_slice(), 0, t.len());
            assert(t@.subrange(0, t@.len() as int) =~= t@);
            proof {
                if parts > 0 {
                    assert(out@ =~= before + seq![' '] + t@);
                } else {
                    assert(out@ =~= before + t@);
                }
            }
            parts += 1;
        }
        k += 1;
    }
    out
}

/// The marker-and-citation pairs found scanning `bs[0..i]` backwards from the
/// end, added to `pairs` (in the order found): each non-year bare number with
/// the citation text after it; the scan ends at a block without citation
/// content once a pair is found.
pub open spec fn pairs_before(bs: Seq<(Seq<char>, usize)>, i: int, pairs: Seq<(Seq<char>, usize)>) -> Seq<(Seq<char>, usize)>
    decreases i,
{
    if i <= 0 || i > bs.len() {
        pairs
    } else {
        let t = trim(bs[i - 1].0);
        if t.len() == 0 {
            pairs_before(bs, i - 1, pairs)
        } else if 1 <= t.len() <= 4 && crate::text::all_digits(t) {
            if 1900 <= dec_value(t, t.len() as int) < 2100 {
                pairs_before(bs, i - 1, pairs)
            } else {
                let c = citation_from(bs, i, 0, Seq::empty());
                if c.len() > 0 {
                    pairs_before(bs, i - 1, pairs.push((t + seq!['.', ' '] + c, bs[i - 1].1)))
                } else {
                    pairs_before(bs, i - 1, pairs)
                }
            }
        } else if pairs.len() > 0 && !citation_content(t) {
            pairs
        } else {
            pairs_before(bs, i - 1, pairs)
        }
    }
}

/// The superscript-marker references of a document in reading order: none
/// unless there are at least five.
pub open spec fn superscript_refs(pages: Seq<Vec<ZonedBlock>>) -> Seq<(Seq<char>, usize)> {
    let bs = flat_entries(pages, pages.len() as int);
    let ps = pairs_before(bs, bs.len() as int, Seq::empty());
    if ps.len() < 5 {
        Seq::empty()
    } else {
        Seq::new(ps.len(), |k: int| ps[ps.len() - 1 - k])
    }
}

/// Superscript-style markers: isolated small numbers, each paired with the
/// citation text after it, scanning from the end; at least five pairs.
fn collect_superscript_marker_refs(pages: &Vec<Vec<ZonedBlock>>) -> (r: Vec<(String, usize)>)
    ensures
        text_views(r@) == superscript_refs(pages@),
{
    let blocks = flat_blocks(pages);
    let ghost bv = text_views(blocks@);
    let mut pairs: Vec<(String, usize)> = Vec::new();
    assert(text_views(pairs@) =~= Seq::<(Seq<char>, usize)>::empty());
    let mut i = blocks.len();
    while i > 0
        invariant_except_break
            pairs_before(bv, i as int, text_views(pairs@)) == pairs_before(bv, bv.len() as int, Seq::empty()),
        invariant
            i <= blocks@.len(),
            bv == text_views(blocks@),
        ensures
            text_views(pairs@) == pairs_before(bv, bv.len() as int, Seq::empty()),
        decreases i,
    {
        i -= 1;
        let t = trimmed(&chars_of(blocks[i].0.as_str()));
        assert(bv[i as int] == (blocks@[i as int].0@, blocks@[i as int].1));
        if t.len() == 0 {
            continue;
        }
        match bare_number(&t) {
            Some(n) => {
                if 1900 <= n && n < 2100 {
                    continue;
                }
                let citation = collect_citation_after(&blocks, i + 1);
                if citation.len() > 0 {
                    let mut line = t.clone();
                    line.push('.');
                    line.push(' ');
                    extend_from(&mut line, citation.as_slice(), 0, citation.len());
                    assert(citation@.subrange(0, citation@.len() as int) =~= citation@);
                    assert(line@ =~= t@ + seq!['.', ' '] + citation@);
                    let ghost before = text_views(pairs@);
                    pairs.push((string_all(line.as_slice()), blocks[i].1));
                    assert(text_views(pairs@) =~= before.push((t@ + seq!['.', ' '] + citation@, bv[i as int].1)));
                }
            },
            None => {
                if pairs.len() > 0 && !has_citation_content(t.as_slice()) {
                    break;
                }
            },
        }
    }
    let ghost ps = text_views(pairs@);
    if pairs.len() < 5 {
        let none: Vec<(String, usize)> = Vec::new();
        assert(text_views(none@) =~= Seq::<(Seq<char>, usize)>::empty());
        return none;
    }
    let r = reversed(pairs);
    assert(text_views(r@) =~= Seq::new(ps.len(), |k: int| ps[ps.len() - 1 - k]));
    r
}

/// Dense marker blocks, else a trailing marker cluster, else superscript markers.
fn collect_marker_block_lines(pages: &Vec<Vec<ZonedBlock>>) -> (r: Vec<(String, usize)>)
    ensures
        text_views(r@) == (if dense_blocks(pages@, pages@.len() as int).len() > 0 {
            dense_blocks(pages@, pages@.len() as int)
        } else if trailing_cluster(pages@).len() > 0 {
            trailing_cluster(pages@)
        } else {
            superscript_refs(pages@)
        }),
{
    let dense = collect_dense_marker_blocks(pages);
    if dense.len() > 0 {
        return dense;
    }
    let trailing = collect_trailing_marker_blocks(pages);
    if trailing.len() > 0 {
        return trailing;
    }
    collect_superscript_marker_refs(pages)
}

// ── Footnotes and merging ──────────────────────────────────────────────────

/// A four-digit year from 1900 to 2099 standing as a word of its own.
pub open spec fn year_word_at(s: Seq<char>, i: int) -> bool {
    crate::driver::year_at(s, i) && (i == 0 || !(crate::text::is_alnum(s[i - 1]) || s[i - 1] == '_'))
        && (i + 4 == s.len() || !(crate::text::is_alnum(s[i + 4]) || s[i + 4] == '_'))
}

fn has_year_pattern(v: &[char]) -> (r: bool)
    ensures
        r == exists|i: int| #[trigger] year_word_at(v@, i),
{
    let mut i: usize = 0;
    while i < v.len()
        invariant
            i <= v@.len(),
            forall|k: int| 0 <= k < i ==> !#[trigger] year_word_at(v@, k),
        decreases v.len() - i,
    {
        if crate::driver::year_at_exec(v, i)
            && (i == 0 || !(crate::text::alnum(v[i - 1]) || v[i - 1] == '_'))
            && (v.len() - i == 4 || !(crate::text::alnum(v[i + 4]) || v[i + 4] == '_')) {
            assert(year_word_at(v@, i as int));
            return true;
        }
        i += 1;
    }
    assert forall|k: int| !#[trigger] year_word_at(v@, k) by {
        if 0 <= k < i {
        }
    }
    false
}

/// Whether a footnote looks like a citation: a year standing as a word,
/// `arXiv`, `doi` or `DOI`.
pub open spec fn citation_like(t: Seq<char>) -> bool {
    (exists|i: int| #[trigger] year_word_at(t, i)) || has_sub(t, "arXiv"@) || has_sub(t, "doi"@) || has_sub(t, "DOI"@)
}

fn is_citation_like(r: &RawReference) -> (b: bool)
    ensures
        b == citation_like(r.text@),
{
    let t = chars_of(r.text.as_str());
    if has_year_pattern(t.as_slice()) {
        return true;
    }
    find_sub(t.as_slice(), lit("arXiv").as_slice()).is_some() || find_sub(t.as_slice(), lit("doi").as_slice()).is_some()
        || find_sub(t.as_slice(), lit("DOI").as_slice()).is_some()
}

/// References from the footnote blocks of each page that look like citations.
fn collect_footnote_refs(pages: &Vec<Vec<ZonedBlock>>) -> (r: Vec<RawReference>)
    ensures
        all_raw_ok(r@, ReferenceSource::Footnote),
        forall|k: int| 0 <= k < r@.len() ==> citation_like((#[trigger] r@[k]).text@),
        crate::driver::raw_views(r@) == notes_upto(pages@, pages@.len() as int),
{
    let mut out: Vec<RawReference> = Vec::new();
    assert(crate::driver::raw_views(out@) =~= Seq::<RawFields>::empty());
    let mut p: usize = 0;
    while p < pages.len()
        invariant
            p <= pages@.len(),
            all_raw_ok(out@, ReferenceSource::Footnote),
            forall|k: int| 0 <= k < out@.len() ==> citation_like((#[trigger] out@[k]).text@),
            crate::driver::raw_views(out@) == notes_upto(pages@, p as int),
        decreases pages.len() - p,
    {
        let ghost start = crate::driver::raw_views(out@);
        let mut blocks: Vec<(String, usize)> = Vec::new();
        assert(text_views(blocks@) =~= Seq::<(Seq<char>, usize)>::empty());
        let mut b: usize = 0;
        while b < pages[p].len()
            invariant
                p < pages@.len(),
                b <= pages@[p as int]@.len(),
                text_views(blocks@) == footnote_entries(pages@[p as int]@, b as int),
            decreases pages@[p as int]@.len() - b,
        {
            let zb = &pages[p][b];
            if zb.zone == ZoneKind::Footnote {
                let ghost before = text_views(blocks@);
                blocks.push((block_text(zb), zb.page_num));
                assert(text_views(blocks@) =~= before.push((block_text_spec(*zb), zb.page_num)));
            }
            b += 1;
        }
        if blocks.len() > 0 {
            let found = split_into_references(&blocks, ReferenceSource::Footnote);
            let ghost fv = crate::driver::raw_views(found@);
            let len = found.len();
            let mut rest = found;
            let mut i: usize = 0;
            while rest.len() > 0
                invariant
                    i + rest@.len() == len,
                    len == fv.len(),
                    crate::driver::raw_views(rest@) == fv.subrange(i as int, len as int),
                    all_raw_ok(rest@, ReferenceSource::Footnote),
                    all_raw_ok(out@, ReferenceSource::Footnote),
                    forall|k: int| 0 <= k < out@.len() ==> citation_like((#[trigger] out@[k]).text@),
                    crate::driver::raw_views(out@) == start + citing(fv, i as int),
                decreases rest.len(),
            {
                let ghost old_rest = rest@;
                assert(crate::driver::raw_views(old_rest)[0] == old_rest[0]@);
                let r = rest.remove(0);
                assert(rest@ =~= old_rest.subrange(1, old_rest.len() as int));
                assert(r@ == fv[i as int]);
                assert forall|m: int| 0 <= m < rest@.len() implies #[trigger] crate::driver::raw_views(rest@)[m] == fv[i + 1 + m] by {
                    assert(rest@[m] == old_rest[m + 1]);
                    assert(crate::driver::raw_views(old_rest)[m + 1] == old_rest[m + 1]@);
                }
                assert(crate::driver::raw_views(rest@) =~= fv.subrange(i + 1, len as int));
                assert forall|k: int| 0 <= k < rest@.len() implies raw_ok(#[trigger] rest@[k]) && rest@[k].source == ReferenceSource::Footnote by {
                    assert(rest@[k] == old_rest[k + 1]);
                }
                let ghost before = out@;
                let ghost bv = crate::driver::raw_views(out@);
                if is_citation_like(&r) {
                    let ghost rv = r@;
                    out.push(r);
                    assert(crate::driver::raw_views(out@) =~= bv.push(rv));
                    assert forall|k: int| 0 <= k < out@.len() implies raw_ok(#[trigger] out@[k]) && out@[k].source == ReferenceSource::Footnote by {
                        if k < before.len() {
                            assert(out@[k] == before[k]);
                        }
                    }
                    assert forall|k: int| 0 <= k < out@.len() implies citation_like((#[trigger] out@[k]).text@) by {
                        if k < before.len() {
                            assert(out@[k] == before[k]);
                        }
                    }
                }
                i += 1;
            }
            assert(crate::driver::raw_views(out@) =~= start + page_notes(pages@[p as int]@));
        } else {
            assert(crate::driver::raw_views(out@) =~= start + page_notes(pages@[p as int]@));
        }
        p += 1;
    }
    out
}

/// Whether a character is alphanumeric, as `char::is_alphanumeric` says.
pub uninterp spec fn alphanumeric_char(c: char) -> bool;

/// The lower-case form of a character, as `char::to_lowercase` gives it.
pub uninterp spec fn lower_char(c: char) -> Seq<char>;

/// Relies on `char::is_alphanumeric`.
#[verifier::external_body]
fn is_alphanumeric(c: char) -> (r: bool)
    ensures
        r == alphanumeric_char(c),
{
    c.is_alphanumeric()
}

/// Relies on `char::to_lowercase`.
#[verifier::external_body]
fn to_lower_char(c: char) -> (r: String)
    ensures
        r@ == lower_char(c),
{
    c.to_lowercase().collect()
}

/// The alphanumeric characters of `s[0..hi]`, lower-cased.
pub open spec fn dedup_key(s: Seq<char>, hi: int) -> Seq<char>
    decreases hi,
{
    if hi <= 0 {
        Seq::empty()
    } else if alphanumeric_char(s[hi - 1]) {
        dedup_key(s, hi - 1) + lower_char(s[hi - 1])
    } else {
        dedup_key(s, hi - 1)
    }
}

/// The text's alphanumeric characters, lower-cased.
pub fn normalize_for_dedup(text: &str) -> (r: Vec<char>)
    ensures
        r@ == dedup_key(text@, text@.len() as int),
{
    let t = chars_of(text);
    let mut out: Vec<char> = Vec::new();
    let mut i: usize = 0;
    while i < t.len()
        invariant
            i <= t@.len(),
            t@ == text@,
            out@ == dedup_key(t@, i as int),
        decreases t.len() - i,
    {
        if is_alphanumeric(t[i]) {
            let l = chars_of(to_lower_char(t[i]).as_str());
            extend_from(&mut out, l.as_slice(), 0, l.len());
            assert(l@.subrange(0, l@.len() as int) =~= l@);
        }
        i += 1;
    }
    out
}

/// Whether two reference texts are the same once reduced to lower-cased
/// alphanumeric characters.
pub fn refs_overlap(a: &str, b: &str) -> (r: bool)
    ensures
        r == (dedup_key(a@, a@.len() as int) == dedup_key(b@, b@.len() as int)),
{
    let x = normalize_for_dedup(a);
    let y = normalize_for_dedup(b);
    x.len() == y.len() && has_at(x.as_slice(), 0, y.as_slice()) && {
        assert(x@.subrange(0, y@.len() as int) =~= x@);
        true
    } || {
        proof {
            if x@ == y@ {
                assert(x@.subrange(0, y@.len() as int) =~= x@);
            }
        }
        false
    }
}

/// A reference from a footnote looks like a citation.
pub open spec fn footnote_ok(r: RawReference) -> bool {
    r.source == ReferenceSource::Footnote ==> citation_like(r.text@)
}

/// The reduced form of a text: its alphanumeric characters, lower-cased.
pub open spec fn dkey(s: Seq<char>) -> Seq<char> {
    dedup_key(s, s.len() as int)
}

/// Whether some reference in `v` has the reduced text of `t`.
pub open spec fn has_dup(v: Seq<RawFields>, t: Seq<char>) -> bool {
    exists|k: int| 0 <= k < v.len() && dkey((#[trigger] v[k]).text) == dkey(t)
}

/// The references with the footnotes `notes[0..hi]` appended in turn, each
/// unless its reduced text is already there.
pub open spec fn merged(v: Seq<RawFields>, notes: Seq<RawFields>, hi: int) -> Seq<RawFields>
    decreases hi,
{
    if hi <= 0 {
        v
    } else {
        let prev = merged(v, notes, hi - 1);
        if has_dup(prev, notes[hi - 1].text) {
            prev
        } else {
            prev.push(notes[hi - 1])
        }
    }
}

/// Append each footnote reference unless one already in the list has the same
/// reduced text.
pub fn dedup_and_merge(section_refs: &mut Vec<RawReference>, footnote_refs: Vec<RawReference>)
    requires
        forall|k: int| 0 <= k < old(section_refs)@.len() ==> raw_ok(#[trigger] old(section_refs)@[k]),
        forall|k: int| 0 <= k < footnote_refs@.len() ==> raw_ok(#[trigger] footnote_refs@[k]),
    ensures
        crate::driver::raw_views(final(section_refs)@) == merged(
            crate::driver::raw_views(old(section_refs)@),
            crate::driver::raw_views(footnote_refs@),
            footnote_refs@.len() as int,
        ),
        forall|k: int| 0 <= k < final(section_refs)@.len() ==> raw_ok(#[trigger] final(section_refs)@[k]),
        (forall|k: int| 0 <= k < old(section_refs)@.len() ==> footnote_ok(#[trigger] old(section_refs)@[k]))
            && (forall|k: int| 0 <= k < footnote_refs@.len() ==> footnote_ok(#[trigger] footnote_refs@[k]))
            ==> forall|k: int| 0 <= k < final(section_refs)@.len() ==> footnote_ok(#[trigger] final(section_refs)@[k]),
{
    let ghost start = section_refs@;
    let ghost sv0 = crate::driver::raw_views(start);
    let ghost nv = crate::driver::raw_views(footnote_refs@);
    let mut i: usize = 0;
    while i < footnote_refs.len()
        invariant
            i <= footnote_refs@.len(),
            start == old(section_refs)@,
            sv0 == crate::driver::raw_views(start),
            nv == crate::driver::raw_views(footnote_refs@),
            crate::driver::raw_views(section_refs@) == merged(sv0, nv, i as int),
            forall|k: int| 0 <= k < footnote_refs@.len() ==> raw_ok(#[trigger] footnote_refs@[k]),
            forall|k: int| 0 <= k < section_refs@.len() ==> raw_ok(#[trigger] section_refs@[k]),
            (forall|k: int| 0 <= k < start.len() ==> footnote_ok(#[trigger] start[k]))
                && (forall|k: int| 0 <= k < footnote_refs@.len() ==> footnote_ok(#[trigger] footnote_refs@[k]))
                ==> forall|k: int| 0 <= k < section_refs@.len() ==> footnote_ok(#[trigger] section_refs@[k]),
        decreases footnote_refs.len() - i,
    {
        let f = &footnote_refs[i];
        assert(nv[i as int] == f@);
        let ghost cur = crate::driver::raw_views(section_refs@);
        let mut dup = false;
        let mut k: usize = 0;
        while k < section_refs.len()
            invariant_except_break
                !dup,
                forall|m: int| 0 <= m < k ==> dkey((#[trigger] cur[m]).text) != dkey(f.text@),
            invariant
                k <= section_refs@.len(),
                cur == crate::driver::raw_views(section_refs@),
            ensures
                dup == has_dup(cur, f.text@),
            decreases section_refs.len() - k,
        {
            assert(cur[k as int] == section_refs@[k as int]@);
            if refs_overlap(section_refs[k].text.as_str(), f.text.as_str()) {
                dup = true;
                break;
            }
            k += 1;
        }
        if !dup {
            let ghost before = section_refs@;
            let c = f.copy();
            assert(raw_ok(footnote_refs@[i as int]));
            section_refs.push(c);
            assert(crate::driver::raw_views(section_refs@) =~= cur.push(nv[i as int]));
            assert forall|m: int| 0 <= m < section_refs@.len() implies raw_ok(#[trigger] section_refs@[m]) by {
                if m < before.len() {
                    assert(section_refs@[m] == before[m]);
                }
            }
            proof {
                if (forall|k: int| 0 <= k < start.len() ==> footnote_ok(#[trigger] start[k]))
                    && (forall|k: int| 0 <= k < footnote_refs@.len() ==> footnote_ok(#[trigger] footnote_refs@[k])) {
                    assert forall|m: int| 0 <= m < section_refs@.len() implies footnote_ok(#[trigger] section_refs@[m]) by {
                        if m < before.len() {
                            assert(section_refs@[m] == before[m]);
                        } else {
                            assert(section_refs@[m]@ == footnote_refs@[i as int]@);
                            assert(footnote_ok(footnote_refs@[i as int]));
                        }
                    }
                }
            }
        }
        i += 1;
    }
}

/// Collect all references of a document from its classified blocks, page by
/// page: the reference section's, then the footnotes' that are not already
/// there. Every reference's text is non-empty and trimmed.
pub fn collect_references(pages: &Vec<Vec<ZonedBlock>>) -> (r: Vec<RawReference>)
    ensures
        crate::driver::raw_views(r@) == document_refs(pages@),
        forall|k: int| 0 <= k < r@.len() ==> raw_ok(#[trigger] r@[k]),
        forall|k: int| 0 <= k < r@.len() && (#[trigger] r@[k]).source == ReferenceSource::Footnote ==> citation_like(r@[k].text@),
{
    let mut refs = collect_reference_section(pages);
    let notes = collect_footnote_refs(pages);
    assert forall|k: int| 0 <= k < refs@.len() implies footnote_ok(#[trigger] refs@[k]) by {}
    assert forall|k: int| 0 <= k < notes@.len() implies footnote_ok(#[trigger] notes@[k]) by {}
    dedup_and_merge(&mut refs, notes);
    assert forall|k: int| 0 <= k < refs@.len() && (#[trigger] refs@[k]).source == ReferenceSource::Footnote implies citation_like(refs@[k].text@) by {
        assert(footnote_ok(refs@[k]));
    }
    refs
}

} // verus!
