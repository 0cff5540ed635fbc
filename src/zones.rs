//! Reference-heading detection on the text of blocks and lines.
use vstd::prelude::*;

use crate::kb::upper_of;
use crate::text::{
    chars_of, digit, is_digit, lit, slice_vec, trim, trim_end, trimmed,
};

verus! {

/// A dot or an ellipsis.
pub open spec fn is_dotlike(c: char) -> bool {
    c == '.' || c == '\u{2026}'
}

/// The length of the run of dots (spaces between them allowed) that ends
/// the scan of `s[0..i]`, as the table-of-contents check counts it.
pub open spec fn dot_run(s: Seq<char>, i: int) -> int
    decreases i,
{
    if i <= 0 {
        0
    } else if is_dotlike(s[i - 1]) {
        dot_run(s, i - 1) + 1
    } else if s[i - 1] == ' ' && spaces_to(s, i) < s.len() && is_dotlike(s[spaces_to(s, i)]) {
        dot_run(s, i - 1)
    } else {
        0
    }
}

/// The end of the run of spaces from `i`.
pub open spec fn spaces_to(s: Seq<char>, i: int) -> int
    decreases s.len() - i,
{
    if 0 <= i < s.len() && s[i] == ' ' {
        spaces_to(s, i + 1)
    } else {
        i
    }
}

/// Dot leaders of a table of contents: three or more dots or ellipses in a
/// row, with or without spaces between them.
pub open spec fn dot_leaders(s: Seq<char>) -> bool {
    exists|i: int| 1 <= i <= s.len() && #[trigger] dot_run(s, i) >= 3
}

/// Whether the first character after the spaces from `i` is a dot or an ellipsis.
fn next_is_dot(text: &Vec<char>, i: usize) -> (r: bool)
    requires
        i <= text@.len(),
    ensures
        r == (spaces_to(text@, i as int) < text@.len() && is_dotlike(text@[spaces_to(text@, i as int)])),
{
    let mut k = i;
    while k < text.len() && text[k] == ' '
        invariant
            i <= k <= text@.len(),
            spaces_to(text@, k as int) == spaces_to(text@, i as int),
        decreases text.len() - k,
    {
        k += 1;
    }
    k < text.len() && (text[k] == '.' || text[k] == '\u{2026}')
}

/// Detect dot leaders such as "References . . . ." or "References.....".
pub fn has_dot_leaders(text: &Vec<char>) -> (r: bool)
    ensures
        r == dot_leaders(text@),
{
    let mut run: usize = 0;
    let mut i: usize = 0;
    while i < text.len()
        invariant
            i <= text@.len(),
            run == dot_run(text@, i as int),
            run <= i,
            forall|k: int| 1 <= k <= i ==> #[trigger] dot_run(text@, k) < 3,
        decreases text.len() - i,
    {
        let c = text[i];
        if c == '.' || c == '\u{2026}' {
            run += 1;
        } else if c == ' ' && next_is_dot(text, i + 1) {
        } else {
            run = 0;
        }
        i += 1;
        assert(run == dot_run(text@, i as int));
        if run >= 3 {
            assert(1 <= i <= text@.len() && dot_run(text@, i as int) >= 3);
            return true;
        }
    }
    false
}

/// The end of `s[0..j]` once a trailing run of `(digits)` groups joined by
/// `-` is removed, as in "References (36)-(84)"; `None` when there is none.
pub open spec fn paren_range_start(s: Seq<char>, j: int) -> Option<int>
    decreases j,
{
    if j < 2 || s[j - 1] != ')' {
        None
    } else {
        let d = digit_back(s, j - 1);
        if d < j - 1 && d >= 1 && s[d - 1] == '(' {
            let b = d - 1;
            if b >= 2 && s[b - 1] == '-' && s[b - 2] == ')' {
                match paren_range_start(s, b - 1) {
                    Some(x) => Some(x),
                    None => Some(b),
                }
            } else {
                Some(b)
            }
        } else {
            None
        }
    }
}

/// The start of the run of digits and dashes that ends at `j`.
pub open spec fn digit_back(s: Seq<char>, j: int) -> int
    decreases j,
{
    if j > 0 && (is_digit(s[j - 1]) || s[j - 1] == '-') {
        digit_back(s, j - 1)
    } else {
        j
    }
}

fn digit_back_exec(s: &[char], j: usize) -> (r: usize)
    requires
        j <= s@.len(),
    ensures
        r == digit_back(s@, j as int),
        r <= j,
{
    let mut k = j;
    while k > 0 && (digit(s[k - 1]) || s[k - 1] == '-')
        invariant
            k <= j <= s@.len(),
            digit_back(s@, k as int) == digit_back(s@, j as int),
        decreases k,
    {
        k -= 1;
    }
    k
}

fn paren_range_start_exec(s: &[char], j: usize) -> (r: Option<usize>)
    requires
        j <= s@.len(),
    ensures
        r is None <==> paren_range_start(s@, j as int) is None,
        r matches Some(x) ==> paren_range_start(s@, j as int) == Some(x as int) && x <= j,
    decreases j,
{
    if j < 2 || s[j - 1] != ')' {
        return None;
    }
    let d = digit_back_exec(s, j - 1);
    if d < j - 1 && d >= 1 && s[d - 1] == '(' {
        let b = d - 1;
        if b >= 2 && s[b - 1] == '-' && s[b - 2] == ')' {
            match paren_range_start_exec(s, b - 1) {
                Some(x) => Some(x),
                None => Some(b),
            }
        } else {
            Some(b)
        }
    } else {
        None
    }
}

/// `s` with a trailing parenthesized number range removed (then trailing
/// whitespace), after trailing whitespace is removed.
pub open spec fn without_paren_range(s: Seq<char>) -> Seq<char> {
    let t = trim_end(s);
    match paren_range_start(t, t.len() as int) {
        Some(x) => trim_end(t.subrange(0, x)),
        None => t,
    }
}

/// Strip trailing parenthesized number ranges: "(36)-(84)", "(1)-(35)".
pub fn strip_trailing_paren_range(text: &Vec<char>) -> (r: Vec<char>)
    ensures
        r@ == without_paren_range(text@),
{
    let (_, b) = crate::text::trim_bounds(text.as_slice(), 0, text.len());
    let t = slice_vec(text.as_slice(), 0, trim_end_len(text));
    match paren_range_start_exec(t.as_slice(), t.len()) {
        Some(x) => {
            let u = slice_vec(t.as_slice(), 0, x);
            slice_vec(u.as_slice(), 0, trim_end_len(&u))
        },
        None => t,
    }
}

/// The length of `v` once trailing whitespace is removed.
fn trim_end_len(v: &Vec<char>) -> (r: usize)
    ensures
        r == crate::text::back_space(v@, 0, v@.len() as int),
        r <= v@.len(),
{
    let mut b = v.len();
    while b > 0 && crate::text::space(v[b - 1])
        invariant
            b <= v@.len(),
            crate::text::back_space(v@, 0, b as int) == crate::text::back_space(v@, 0, v@.len() as int),
        decreases b,
    {
        b -= 1;
    }
    b
}

/// The text with trailing `:` and `.` removed.
pub open spec fn strip_colon_dot(s: Seq<char>, j: int) -> int
    decreases j,
{
    if j > 0 && (s[j - 1] == ':' || s[j - 1] == '.') {
        strip_colon_dot(s, j - 1)
    } else {
        j
    }
}

pub open spec fn references_word() -> Seq<char> {
    seq!['R', 'E', 'F', 'E', 'R', 'E', 'N', 'C', 'E', 'S']
}

pub open spec fn bibliography_word() -> Seq<char> {
    seq!['B', 'I', 'B', 'L', 'I', 'O', 'G', 'R', 'A', 'P', 'H', 'Y']
}

/// The exact headings.
pub open spec fn exact_headings() -> Seq<Seq<char>> {
    seq![references_word(), bibliography_word(), "REFERENCES AND NOTES"@, "LITERATURE CITED"@]
}

/// The end of the leading run of digits, dots and spaces.
pub open spec fn number_prefix(s: Seq<char>, i: int) -> int
    decreases s.len() - i,
{
    if 0 <= i < s.len() && (is_digit(s[i]) || s[i] == '.' || s[i] == ' ') {
        number_prefix(s, i + 1)
    } else {
        i
    }
}

pub open spec fn is_roman(c: char) -> bool {
    c == 'I' || c == 'V' || c == 'X' || c == 'L' || c == 'C' || c == 'D' || c == 'M'
}

/// The end of the leading run of Roman-numeral letters from `i`.
pub open spec fn roman_run(s: Seq<char>, i: int) -> int
    decreases s.len() - i,
{
    if 0 <= i < s.len() && is_roman(s[i]) {
        roman_run(s, i + 1)
    } else {
        i
    }
}

/// Where the digits, dots and spaces of a section number begin: after a
/// Roman numeral and its dot ("IX."), else at the start.
pub open spec fn section_start(s: Seq<char>) -> int {
    let r = roman_run(s, 0);
    if r > 0 && r < s.len() && s[r] == '.' {
        r + 1
    } else {
        0
    }
}

/// The start of the trailing run of digits and spaces.
pub open spec fn number_suffix(s: Seq<char>, j: int) -> int
    decreases j,
{
    if j > 0 && (is_digit(s[j - 1]) || s[j - 1] == ' ') {
        number_suffix(s, j - 1)
    } else {
        j
    }
}

/// How many digits `s[lo..hi]` holds.
pub open spec fn digit_count(s: Seq<char>, lo: int, hi: int) -> int
    decreases hi - lo,
{
    if hi <= lo {
        0
    } else {
        digit_count(s, lo, hi - 1) + if is_digit(s[hi - 1]) {
            1int
        } else {
            0
        }
    }
}

pub open spec fn is_ref_word(s: Seq<char>) -> bool {
    s == references_word() || s == bibliography_word()
}

/// Whether an upper-cased, trimmed text is a reference heading.
pub open spec fn heading_text(text: Seq<char>) -> bool {
    if dot_leaders(text) {
        false
    } else {
        let t = without_paren_range(text.subrange(0, strip_colon_dot(text, text.len() as int)));
        if exists|k: int| 0 <= k < 4 && exact_headings()[k] == t {
            true
        } else if t.len() >= 30 {
            false
        } else {
            let p = number_prefix(t, section_start(t));
            if is_ref_word(t.subrange(p, t.len() as int)) {
                (p > 0 && (t[p - 1] == ' ' || t[p - 1] == '.')) || digit_count(t, 0, p) <= 1
            } else {
                let q = number_suffix(t, t.len() as int);
                let stem = trim_end(t.subrange(0, q));
                is_ref_word(stem) && digit_count(t, q, t.len() as int) <= 1
            }
        }
    }
}

fn same_chars(a: &[char], b: &[char]) -> (r: bool)
    ensures
        r == (a@ == b@),
{
    if a.len() != b.len() {
        return false;
    }
    let r = crate::text::has_at(a, 0, b);
    assert(a@.subrange(0, b@.len() as int) =~= a@);
    r
}

fn count_digits(s: &[char], lo: usize, hi: usize) -> (r: usize)
    requires
        lo <= hi <= s@.len(),
    ensures
        r == digit_count(s@, lo as int, hi as int),
        r <= hi - lo,
{
    let mut n: usize = 0;
    let mut i = lo;
    while i < hi
        invariant
            lo <= i <= hi <= s@.len(),
            n == digit_count(s@, lo as int, i as int),
            n <= i - lo,
        decreases hi - i,
    {
        if digit(s[i]) {
            n += 1;
        }
        i += 1;
    }
    n
}

fn is_ref_word_exec(s: &[char]) -> (r: bool)
    ensures
        r == is_ref_word(s@),
{
    let a = lit("REFERENCES");
    let b = lit("BIBLIOGRAPHY");
    proof {
        reveal_strlit("REFERENCES");
        reveal_strlit("BIBLIOGRAPHY");
    }
    assert(a@ =~= references_word());
    assert(b@ =~= bibliography_word());
    same_chars(s, a.as_slice()) || same_chars(s, b.as_slice())
}

/// Whether an upper-cased, trimmed text is a reference heading: one of the
/// exact headings, or a short `REFERENCES`/`BIBLIOGRAPHY` with a section
/// number before it or a single-digit folio after it.
pub fn is_heading_text(text: &Vec<char>) -> (r: bool)
    ensures
        r == heading_text(text@),
{
    if has_dot_leaders(text) {
        return false;
    }
    let mut j = text.len();
    while j > 0 && (text[j - 1] == ':' || text[j - 1] == '.')
        invariant
            j <= text@.len(),
            strip_colon_dot(text@, j as int) == strip_colon_dot(text@, text@.len() as int),
        decreases j,
    {
        j -= 1;
    }
    assert(strip_colon_dot(text@, j as int) == j);
    let head = slice_vec(text.as_slice(), 0, j);
    let t = strip_trailing_paren_range(&head);
    assert(t@ == without_paren_range(text@.subrange(0, strip_colon_dot(text@, text@.len() as int))));
    let names: Vec<&str> = vec!["REFERENCES", "BIBLIOGRAPHY", "REFERENCES AND NOTES", "LITERATURE CITED"];
    proof {
        reveal_strlit("REFERENCES");
        reveal_strlit("BIBLIOGRAPHY");
        assert(names@[0]@ =~= exact_headings()[0]);
        assert(names@[1]@ =~= exact_headings()[1]);
    }
    let mut k: usize = 0;
    while k < 4
        invariant
            k <= 4,
            names@.len() == 4,
            forall|m: int| 0 <= m < 4 ==> (#[trigger] names@[m])@ == exact_headings()[m],
            forall|m: int| 0 <= m < k ==> exact_headings()[m] != t@,
            !dot_leaders(text@),
            t@ == without_paren_range(text@.subrange(0, strip_colon_dot(text@, text@.len() as int))),
        decreases 4 - k,
    {
        let e = lit(names[k]);
        if same_chars(t.as_slice(), e.as_slice()) {
            assert(exact_headings()[k as int] == t@);
            return true;
        }
        k += 1;
    }
    if t.len() >= 30 {
        return false;
    }
    let mut r: usize = 0;
    while r < t.len() && (t[r] == 'I' || t[r] == 'V' || t[r] == 'X' || t[r] == 'L' || t[r] == 'C'
        || t[r] == 'D' || t[r] == 'M')
        invariant
            r <= t@.len(),
            roman_run(t@, r as int) == roman_run(t@, 0),
        decreases t.len() - r,
    {
        r += 1;
    }
    let p0: usize = if r > 0 && r < t.len() && t[r] == '.' { r + 1 } else { 0 };
    let mut p: usize = p0;
    while p < t.len() && (digit(t[p]) || t[p] == '.' || t[p] == ' ')
        invariant
            p0 <= p <= t@.len(),
            p0 == section_start(t@),
            number_prefix(t@, p as int) == number_prefix(t@, p0 as int),
        decreases t.len() - p,
    {
        p += 1;
    }
    let rest = slice_vec(t.as_slice(), p, t.len());
    if is_ref_word_exec(rest.as_slice()) {
        let sep = p > 0 && (t[p - 1] == ' ' || t[p - 1] == '.');
        return sep || count_digits(t.as_slice(), 0, p) <= 1;
    }
    let mut q = t.len();
    while q > 0 && (digit(t[q - 1]) || t[q - 1] == ' ')
        invariant
            q <= t@.len(),
            number_suffix(t@, q as int) == number_suffix(t@, t@.len() as int),
        decreases q,
    {
        q -= 1;
    }
    let stem0 = slice_vec(t.as_slice(), 0, q);
    let stem = slice_vec(stem0.as_slice(), 0, trim_end_len(&stem0));
    is_ref_word_exec(stem.as_slice()) && count_digits(t.as_slice(), q, t.len()) <= 1
}

/// Whether a text, upper-cased and trimmed, is a reference heading.
pub open spec fn is_heading(s: Seq<char>) -> bool {
    heading_text(trim(upper_of(s)))
}

/// Check if a single line's text is a reference heading.
pub fn is_reference_heading_line(line_text: &str) -> (r: bool)
    ensures
        r == is_heading(line_text@),
{
    let up = crate::kb::to_upper(line_text);
    let t = trimmed(&chars_of(up.as_str()));
    is_heading_text(&t)
}

} // verus!
