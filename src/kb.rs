//! The knowledge bases: journal titles, collaborations and report numbers,
//! and the three match primitives over them.
use vstd::prelude::*;

use crate::text::{
    alnum, ascii_lower, chars_of, extend_from, find_sub, find_sub_from, has_at, has_sub,
    is_alnum, is_alpha, is_space, lit, push_char, slice_vec, space, starts_at, string_all,
    split_on, string_of, to_ascii_lower, trim, trimmed,
};
use crate::types::sv;

verus! {

// ── Outside calls ──────────────────────────────────────────────────────────

/// The Unicode upper-case form of a text, as `str::to_uppercase` gives it.
pub uninterp spec fn upper_of(s: Seq<char>) -> Seq<char>;

/// Whether the `regex` crate accepts a pattern.
pub uninterp spec fn regex_compiles(pattern: Seq<char>) -> bool;

/// The text of the leftmost-first match of a pattern in a text, by the `regex` crate.
pub uninterp spec fn regex_find(pattern: Seq<char>, text: Seq<char>) -> Option<Seq<char>>;

/// Relies on `str::to_uppercase`: the result depends on the characters alone.
#[verifier::external_body]
pub(crate) fn to_upper(s: &str) -> (r: String)
    ensures
        r@ == upper_of(s@),
{
    s.to_uppercase()
}

/// Relies on `regex::Regex::new`: whether the pattern compiles.
#[verifier::external_body]
pub(crate) fn pattern_compiles(pattern: &str) -> (r: bool)
    ensures
        r == regex_compiles(pattern@),
{
    regex::Regex::new(pattern).is_ok()
}

/// Relies on `regex::Regex::new` and `regex::Regex::find`: the text of the
/// leftmost-first match, if any.
#[verifier::external_body]
fn find_pattern(pattern: &str, text: &str) -> (r: Option<String>)
    requires
        regex_compiles(pattern@),
    ensures
        sv(r) == regex_find(pattern@, text@),
{
    regex::Regex::new(pattern).unwrap().find(text).map(|m| m.as_str().to_string())
}

// ── Numeration DSL ─────────────────────────────────────────────────────────

/// The end (exclusive) of a character class that opens at `start`: just past
/// the first `]` after it, or the end of the text.
pub open spec fn class_end(s: Seq<char>, start: int, i: int) -> int
    decreases s.len() - i,
{
    if i >= s.len() {
        s.len() as int
    } else if s[i] == ']' && i > start {
        i + 1
    } else {
        class_end(s, start, i + 1)
    }
}

/// The end (exclusive) of the parenthesized group scanned from `i` at `depth`.
pub open spec fn group_close(s: Seq<char>, i: int, depth: int) -> int
    decreases s.len() - i,
{
    if i < 0 || i >= s.len() {
        s.len() as int
    } else {
        let d = depth + (if s[i] == '(' {
            1int
        } else {
            0
        }) - (if s[i] == ')' {
            1int
        } else {
            0
        });
        if d == 0 {
            i + 1
        } else {
            group_close(s, i + 1, d)
        }
    }
}

/// The end of a group opening at `i`, with a trailing quantifier.
pub open spec fn group_end(s: Seq<char>, i: int) -> int {
    let e = group_close(s, i, 0);
    if e < s.len() && (s[e] == '?' || s[e] == '+' || s[e] == '*') {
        e + 1
    } else {
        e
    }
}

pub open spec fn dsl_digit() -> Seq<char> {
    seq!['\\', 'd']
}

pub open spec fn dsl_sep() -> Seq<char> {
    seq!['[', '\\', 's', '\\', '-', '/', ']', '+']
}

pub open spec fn dsl_letter() -> Seq<char> {
    seq!['[', 'A', '-', 'Z', 'a', '-', 'z', ']']
}

/// What one step of the DSL conversion emits at `i`, and how many characters
/// it consumes.
pub open spec fn dsl_step(s: Seq<char>, i: int) -> (Seq<char>, int) {
    let c = s[i];
    if c == '\\' && i + 1 < s.len() {
        (s.subrange(i, i + 2), 2)
    } else if c == '[' {
        (s.subrange(i, class_end(s, i, i)), class_end(s, i, i) - i)
    } else if c == '(' {
        (s.subrange(i, group_end(s, i)), group_end(s, i) - i)
    } else if c == ')' || c == '|' || c == '+' || c == '*' || c == '?' {
        (seq![c], 1)
    } else if starts_at(s, i, seq!['y', 'y', 'y', 'y']) {
        (seq!['[', '1', '2', ']', '\\', 'd', '{', '3', '}'], 4)
    } else if starts_at(s, i, seq!['y', 'y']) {
        (seq!['\\', 'd', '{', '2', '}'], 2)
    } else if starts_at(s, i, seq!['m', 'm']) {
        (seq!['[', '0', '1', ']', '\\', 'd'], 2)
    } else if c == '9' && i + 1 < s.len() && s[i + 1] == '?' {
        (dsl_digit().push('?'), 2)
    } else if c == '9' {
        (dsl_digit(), 1)
    } else if c == 's' || c == ' ' {
        (dsl_sep(), 1)
    } else if c == 'a' && i + 1 < s.len() && s[i + 1] == '?' {
        (dsl_letter().push('?'), 2)
    } else if c == 'a' {
        (dsl_letter(), 1)
    } else {
        (seq![c], 1)
    }
}

pub proof fn lemma_class_end(s: Seq<char>, start: int, i: int)
    requires
        0 <= start < i <= s.len(),
    ensures
        i <= class_end(s, start, i) <= s.len(),
    decreases s.len() - i,
{
    if i < s.len() && !(s[i] == ']' && i > start) {
        lemma_class_end(s, start, i + 1);
    }
}

pub proof fn lemma_group_close(s: Seq<char>, i: int, depth: int)
    requires
        0 <= i <= s.len(),
    ensures
        i <= group_close(s, i, depth) <= s.len(),
        i < s.len() ==> i < group_close(s, i, depth),
    decreases s.len() - i,
{
    if i < s.len() {
        let d = depth + (if s[i] == '(' {
            1int
        } else {
            0
        }) - (if s[i] == ')' {
            1int
        } else {
            0
        });
        if d != 0 {
            lemma_group_close(s, i + 1, d);
        }
    }
}

pub proof fn lemma_dsl_step(s: Seq<char>, i: int)
    requires
        0 <= i < s.len(),
    ensures
        1 <= dsl_step(s, i).1 <= s.len() - i,
{
    if s[i] == '[' {
        lemma_class_end(s, i, i + 1);
    }
    if s[i] == '(' {
        lemma_group_close(s, i, 0);
    }
}

/// The regex text of the DSL from position `i` on.
pub open spec fn dsl_from(s: Seq<char>, i: int) -> Seq<char>
    decreases s.len() - i,
{
    if i < 0 || i >= s.len() {
        Seq::empty()
    } else {
        if dsl_step(s, i).1 < 1 || i + dsl_step(s, i).1 > s.len() {
            Seq::empty()
        } else {
            dsl_step(s, i).0 + dsl_from(s, i + dsl_step(s, i).1)
        }
    }
}

/// The regex text of a numeration written in the DSL.
pub open spec fn dsl_regex(s: Seq<char>) -> Seq<char> {
    dsl_from(s, 0)
}

/// Convert the numeration DSL to a regex string: `9` → `\d`, `9?` → `\d?`,
/// `s` and a space → separators, `yyyy` → a year, `yy` → two digits,
/// `mm` → a month, `a` → a letter; regex constructs pass through.
fn numeration_to_regex(dsl: &Vec<char>) -> (r: Vec<char>)
    ensures
        r@ == dsl_regex(dsl@),
{
    let ghost s = dsl@;
    let mut out: Vec<char> = Vec::new();
    let mut i: usize = 0;
    while i < dsl.len()
        invariant
            i <= s.len(),
            s == dsl@,
            out@ + dsl_from(s, i as int) == dsl_regex(s),
        decreases dsl.len() - i,
    {
        proof {
            lemma_dsl_step(s, i as int);
        }
        let ghost before = out@;
        let consumed = match try_emit_regex_construct(dsl, i, &mut out) {
            Some(c) => c,
            None => match try_emit_dsl_token(dsl, i, &mut out) {
                Some(c) => c,
                None => emit_literal(dsl[i], &mut out),
            },
        };
        assert(out@ == before + dsl_step(s, i as int).0);
        assert(consumed == dsl_step(s, i as int).1);
        assert(before + dsl_from(s, i as int) =~= out@ + dsl_from(s, i + consumed));
        i += consumed;
    }
    assert(dsl_from(s, i as int) =~= Seq::<char>::empty());
    assert(out@ =~= out@ + dsl_from(s, i as int));
    out
}

/// A pass-through regex construct at `i`: an escape, a class, a group, or one
/// of `) | + * ?`. Returns how many characters it consumed.
fn try_emit_regex_construct(chars: &Vec<char>, i: usize, out: &mut Vec<char>) -> (r: Option<usize>)
    requires
        i < chars@.len(),
    ensures
        r is Some <==> (chars@[i as int] == '\\' && i + 1 < chars@.len()) || chars@[i as int] == '['
            || chars@[i as int] == '(' || chars@[i as int] == ')' || chars@[i as int] == '|'
            || chars@[i as int] == '+' || chars@[i as int] == '*' || chars@[i as int] == '?',
        r matches Some(c) ==> c == dsl_step(chars@, i as int).1 && final(out)@ == old(out)@
            + dsl_step(chars@, i as int).0,
        r is None ==> final(out)@ == old(out)@,
{
    let c = chars[i];
    if c == '\\' && chars.len() - i > 1 {
        out.push(chars[i]);
        out.push(chars[i + 1]);
        assert(chars@.subrange(i as int, i + 2) =~= seq![chars@[i as int], chars@[i + 1]]);
        Some(2)
    } else if c == '[' {
        Some(emit_char_class(chars, i, out))
    } else if c == '(' {
        Some(emit_group(chars, i, out))
    } else if c == ')' || c == '|' || c == '+' || c == '*' || c == '?' {
        out.push(c);
        Some(1)
    } else {
        None
    }
}

fn emit_char_class(chars: &Vec<char>, start: usize, out: &mut Vec<char>) -> (r: usize)
    requires
        start < chars@.len(),
    ensures
        r == class_end(chars@, start as int, start as int) - start,
        final(out)@ == old(out)@ + chars@.subrange(start as int, start + r),
{
    let ghost s = chars@;
    let ghost o = out@;
    let mut i = start;
    while i < chars.len()
        invariant
            start <= i <= s.len(),
            s == chars@,
            class_end(s, start as int, i as int) == class_end(s, start as int, start as int),
            o == old(out)@,
            out@ == o + s.subrange(start as int, i as int),
        decreases chars.len() - i,
    {
        out.push(chars[i]);
        assert(out@ =~= o + s.subrange(start as int, i + 1));
        if chars[i] == ']' && i > start {
            let r = i - start + 1;
            assert(chars@.subrange(start as int, start + r) =~= s.subrange(start as int, i + 1));
            return r;
        }
        assert(s.subrange(start as int, i + 1) =~= s.subrange(start as int, i as int).push(s[i as int]));
        i += 1;
    }
    i - start
}

fn emit_group(chars: &Vec<char>, start: usize, out: &mut Vec<char>) -> (r: usize)
    requires
        start < chars@.len(),
        chars@[start as int] == '(',
    ensures
        r == group_end(chars@, start as int) - start,
        final(out)@ == old(out)@ + chars@.subrange(start as int, start + r),
{
    let ghost s = chars@;
    let ghost o = out@;
    let mut i = start;
    let mut depth: usize = 0;
    while i < chars.len()
        invariant_except_break
            group_close(s, i as int, depth as int) == group_close(s, start as int, 0),
            i == start ==> depth == 0,
            i > start ==> 1 <= depth,
            depth <= i - start,
        invariant
            s[start as int] == '(',
            start <= i <= s.len(),
            s == chars@,
            out@ == o + s.subrange(start as int, i as int),
        ensures
            i == group_close(s, start as int, 0),
        decreases chars.len() - i,
    {
        if chars[i] == '(' {
            depth += 1;
        }
        if chars[i] == ')' {
            depth -= 1;
        }
        out.push(chars[i]);
        assert(out@ =~= o + s.subrange(start as int, i + 1));
        i += 1;
        if depth == 0 {
            break;
        }
    }
    if i < chars.len() && (chars[i] == '?' || chars[i] == '+' || chars[i] == '*') {
        out.push(chars[i]);
        assert(out@ =~= o + s.subrange(start as int, i + 1));
        i += 1;
    }
    i - start
}

/// A DSL token at `i`. Returns how many characters it consumed.
fn try_emit_dsl_token(chars: &Vec<char>, i: usize, out: &mut Vec<char>) -> (r: Option<usize>)
    requires
        i < chars@.len(),
        !((chars@[i as int] == '\\' && i + 1 < chars@.len()) || chars@[i as int] == '['
            || chars@[i as int] == '(' || chars@[i as int] == ')' || chars@[i as int] == '|'
            || chars@[i as int] == '+' || chars@[i as int] == '*' || chars@[i as int] == '?'),
    ensures
        r matches Some(c) ==> c == dsl_step(chars@, i as int).1 && final(out)@ == old(out)@
            + dsl_step(chars@, i as int).0,
        r is None ==> final(out)@ == old(out)@ && dsl_step(chars@, i as int) == (
            seq![chars@[i as int]],
            1int,
        ),
{
    let s = chars.as_slice();
    let c = chars[i];
    let n = chars.len();
    if has_at(s, i, lit("yyyy").as_slice()) {
        proof {
            reveal_strlit("yyyy");
        }
        assert("yyyy"@ =~= seq!['y', 'y', 'y', 'y']);
        let e = lit("[12]\\d{3}");
        proof {
            reveal_strlit("[12]\\d{3}");
        }
        extend_from(out, e.as_slice(), 0, e.len());
        assert(e@.subrange(0, e@.len() as int) =~= seq!['[', '1', '2', ']', '\\', 'd', '{', '3', '}']);
        return Some(4);
    }
    proof {
        reveal_strlit("yyyy");
    }
    assert("yyyy"@ =~= seq!['y', 'y', 'y', 'y']);
    if has_at(s, i, lit("yy").as_slice()) {
        proof {
            reveal_strlit("yy");
        }
        assert("yy"@ =~= seq!['y', 'y']);
        let e = lit("\\d{2}");
        proof {
            reveal_strlit("\\d{2}");
        }
        extend_from(out, e.as_slice(), 0, e.len());
        assert(e@.subrange(0, e@.len() as int) =~= seq!['\\', 'd', '{', '2', '}']);
        return Some(2);
    }
    proof {
        reveal_strlit("yy");
    }
    assert("yy"@ =~= seq!['y', 'y']);
    if has_at(s, i, lit("mm").as_slice()) {
        proof {
            reveal_strlit("mm");
        }
        assert("mm"@ =~= seq!['m', 'm']);
        let e = lit("[01]\\d");
        proof {
            reveal_strlit("[01]\\d");
        }
        extend_from(out, e.as_slice(), 0, e.len());
        assert(e@.subrange(0, e@.len() as int) =~= seq!['[', '0', '1', ']', '\\', 'd']);
        return Some(2);
    }
    proof {
        reveal_strlit("mm");
    }
    assert("mm"@ =~= seq!['m', 'm']);
    if c == '9' {
        out.push('\\');
        out.push('d');
        if i + 1 < n && chars[i + 1] == '?' {
            out.push('?');
            return Some(2);
        }
        return Some(1);
    }
    if c == 's' || c == ' ' {
        let e = lit("[\\s\\-/]+");
        proof {
            reveal_strlit("[\\s\\-/]+");
        }
        extend_from(out, e.as_slice(), 0, e.len());
        assert(e@.subrange(0, e@.len() as int) =~= dsl_sep());
        return Some(1);
    }
    if c == 'a' {
        let e = lit("[A-Za-z]");
        proof {
            reveal_strlit("[A-Za-z]");
        }
        extend_from(out, e.as_slice(), 0, e.len());
        assert(e@.subrange(0, e@.len() as int) =~= dsl_letter());
        if i + 1 < n && chars[i + 1] == '?' {
            out.push('?');
            return Some(2);
        }
        return Some(1);
    }
    None
}

fn emit_literal(ch: char, out: &mut Vec<char>) -> (r: usize)
    ensures
        r == 1,
        final(out)@ == old(out)@.push(ch),
{
    out.push(ch);
    1
}


// ── Normalization and journal matching ─────────────────────────────────────

/// A key and the value it stands for.
#[derive(Clone, Debug)]
pub struct KbEntry {
    pub key: String,
    pub value: String,
}

/// The entries as pairs of character sequences.
pub open spec fn entries(v: Seq<KbEntry>) -> Seq<(Seq<char>, Seq<char>)> {
    v.map_values(|e: KbEntry| (e.key@, e.value@))
}

/// A character that separates words when journal names are normalized.
pub open spec fn is_name_sep(c: char) -> bool {
    c == '.' || c == ':' || is_space(c)
}

/// The words of `s[0..hi]` (split at separators) joined by single spaces, and
/// whether a separator is pending after a word.
pub open spec fn collapse(s: Seq<char>, hi: int) -> (Seq<char>, bool)
    decreases hi,
{
    if hi <= 0 {
        (Seq::empty(), false)
    } else {
        let (out, pending) = collapse(s, hi - 1);
        let c = s[hi - 1];
        if is_name_sep(c) {
            (out, out.len() > 0)
        } else if pending {
            (out.push(' ').push(c), false)
        } else {
            (out.push(c), false)
        }
    }
}

/// The normalized form of a journal name: dots and colons become spaces, runs
/// of whitespace collapse to one, the ends are trimmed, and letters are upper-cased.
pub open spec fn normalized_name(s: Seq<char>) -> Seq<char> {
    upper_of(collapse(s, s.len() as int).0)
}

/// Normalize a journal name for matching: "Phys. Rev. D" → "PHYS REV D".
pub fn normalize_abbrev(s: &[char]) -> (r: Vec<char>)
    ensures
        r@ == normalized_name(s@),
{
    let mut out: Vec<char> = Vec::new();
    let mut pending = false;
    let mut i: usize = 0;
    while i < s.len()
        invariant
            i <= s@.len(),
            collapse(s@, i as int) == (out@, pending),
        decreases s.len() - i,
    {
        let c = s[i];
        if c == '.' || c == ':' || space(c) {
            pending = out.len() > 0;
        } else {
            if pending {
                out.push(' ');
            }
            out.push(c);
            pending = false;
        }
        i += 1;
    }
    let st = string_all(out.as_slice());
    let up = to_upper(st.as_str());
    chars_of(up.as_str())
}

/// A separator that `find_original_byte_len` skips: dot, colon, space or tab.
pub open spec fn is_skip_sep(c: char) -> bool {
    c == '.' || c == ':' || c == ' ' || c == '\t'
}

pub open spec fn skip_seps(s: Seq<char>, i: int) -> int
    decreases s.len() - i,
{
    if 0 <= i < s.len() && is_skip_sep(s[i]) {
        skip_seps(s, i + 1)
    } else {
        i
    }
}

pub open spec fn skip_dots(s: Seq<char>, i: int) -> int
    decreases s.len() - i,
{
    if 0 <= i < s.len() && s[i] == '.' {
        skip_dots(s, i + 1)
    } else {
        i
    }
}

/// How far into `s` (from `orig`, having matched `norm` normalized characters)
/// the first `n` normalized characters reach, trailing dots included.
pub open spec fn orig_len_from(s: Seq<char>, n: int, orig: int, norm: int) -> int
    decreases s.len() - orig,
{
    if orig < 0 || orig >= s.len() || norm >= n {
        skip_dots(s, orig)
    } else if is_skip_sep(s[orig]) {
        if skip_seps(s, orig) <= orig || skip_seps(s, orig) > s.len() {
            orig
        } else {
            orig_len_from(s, n, skip_seps(s, orig), if norm > 0 { norm + 1 } else { norm })
        }
    } else {
        orig_len_from(s, n, orig + 1, norm + 1)
    }
}

proof fn lemma_skip_seps(s: Seq<char>, i: int)
    requires
        0 <= i <= s.len(),
    ensures
        i <= skip_seps(s, i) <= s.len(),
        i < s.len() && is_skip_sep(s[i]) ==> i < skip_seps(s, i),
    decreases s.len() - i,
{
    if i < s.len() && is_skip_sep(s[i]) {
        lemma_skip_seps(s, i + 1);
    }
}

proof fn lemma_skip_dots(s: Seq<char>, i: int)
    requires
        0 <= i <= s.len(),
    ensures
        i <= skip_dots(s, i) <= s.len(),
    decreases s.len() - i,
{
    if i < s.len() && s[i] == '.' {
        lemma_skip_dots(s, i + 1);
    }
}

/// How many characters of the original text correspond to the first
/// `norm_len` characters of its normalized form.
fn find_original_byte_len(original: &[char], norm_len: usize) -> (r: usize)
    ensures
        r == orig_len_from(original@, norm_len as int, 0, 0),
        r <= original@.len(),
{
    let ghost s = original@;
    let n = original.len();
    let mut norm_pos: usize = 0;
    let mut orig_pos: usize = 0;
    while orig_pos < n && norm_pos < norm_len
        invariant
            n == s.len(),
            s == original@,
            orig_pos <= n,
            norm_pos <= norm_len,
            orig_len_from(s, norm_len as int, orig_pos as int, norm_pos as int) == orig_len_from(
                s,
                norm_len as int,
                0,
                0,
            ),
        decreases n - orig_pos,
    {
        let ch = original[orig_pos];
        if ch == '.' || ch == ':' || ch == ' ' || ch == '\t' {
            proof {
                lemma_skip_seps(s, orig_pos as int);
            }
            if norm_pos > 0 {
                norm_pos += 1;
            }
            let ghost from = orig_pos as int;
            while orig_pos < n && (original[orig_pos] == '.' || original[orig_pos] == ':'
                || original[orig_pos] == ' ' || original[orig_pos] == '\t')
                invariant
                    n == s.len(),
                    s == original@,
                    from <= orig_pos <= n,
                    skip_seps(s, orig_pos as int) == skip_seps(s, from),
                decreases n - orig_pos,
            {
                orig_pos += 1;
            }
        } else {
            norm_pos += 1;
            orig_pos += 1;
        }
    }
    proof {
        lemma_skip_dots(s, orig_pos as int);
    }
    let ghost at = orig_pos as int;
    while orig_pos < n && original[orig_pos] == '.'
        invariant
            n == s.len(),
            s == original@,
            at <= orig_pos <= n,
            skip_dots(s, orig_pos as int) == skip_dots(s, at),
        decreases n - orig_pos,
    {
        orig_pos += 1;
    }
    orig_pos
}


/// Whether a journal match of `len` characters ends at a boundary: the end of
/// the text, a character that is not an ASCII letter or digit, a consumed
/// trailing dot, or an uppercase section letter followed by a digit.
pub open spec fn journal_boundary(s: Seq<char>, len: int) -> bool {
    len >= s.len() || !is_alnum(s[len]) || (len > 0 && s[len - 1] == '.') || (len > 0
        && crate::text::is_digit(s[len]) && crate::text::is_upper(s[len - 1]))
}

fn is_journal_boundary(suffix: &[char], match_len: usize) -> (r: bool)
    ensures
        r == journal_boundary(suffix@, match_len as int),
{
    if match_len >= suffix.len() {
        return true;
    }
    let next = suffix[match_len];
    if !alnum(next) {
        return true;
    }
    if match_len > 0 && suffix[match_len - 1] == '.' {
        return true;
    }
    match_len > 0 && crate::text::digit(next) && crate::text::upper(suffix[match_len - 1])
}

/// The first entry among `es[k..]` whose key starts the normalized text `norm`
/// and whose match ends at a boundary of `s`: the matched length and the value.
pub open spec fn first_entry_match(
    es: Seq<(Seq<char>, Seq<char>)>,
    norm: Seq<char>,
    s: Seq<char>,
    k: int,
) -> Option<(int, Seq<char>)>
    decreases es.len() - k,
{
    if k < 0 || k >= es.len() {
        None
    } else if starts_at(norm, 0, es[k].0) && journal_boundary(
        s,
        orig_len_from(s, es[k].0.len() as int, 0, 0),
    ) {
        Some((orig_len_from(s, es[k].0.len() as int, 0, 0), es[k].1))
    } else {
        first_entry_match(es, norm, s, k + 1)
    }
}

/// A match of one of the entries at the start of `s`, which must begin with an
/// ASCII letter.
pub open spec fn entry_match(es: Seq<(Seq<char>, Seq<char>)>, s: Seq<char>) -> Option<(int, Seq<char>)> {
    if s.len() == 0 || !is_alpha(s[0]) {
        None
    } else {
        first_entry_match(es, normalized_name(s), s, 0)
    }
}

fn match_entries(es: &Vec<KbEntry>, suffix: &[char]) -> (r: Option<(usize, String)>)
    ensures
        r is None <==> entry_match(entries(es@), suffix@) is None,
        r matches Some((n, v)) ==> entry_match(entries(es@), suffix@) == Some((n as int, v@)),
{
    if suffix.len() == 0 || !(crate::text::upper(suffix[0]) || crate::text::lower(suffix[0])) {
        return None;
    }
    let norm = normalize_abbrev(suffix);
    match_normalized(es, norm.as_slice(), suffix)
}

/// The first entry whose key starts the normalized text `norm` and whose
/// match ends at a journal boundary of `suffix`: the matched length in
/// characters of `suffix` and the entry's value.
pub fn match_normalized(es: &Vec<KbEntry>, norm: &[char], suffix: &[char]) -> (r: Option<(usize, String)>)
    ensures
        r is None <==> first_entry_match(entries(es@), norm@, suffix@, 0) is None,
        r matches Some((n, v)) ==> first_entry_match(entries(es@), norm@, suffix@, 0) == Some((n as int, v@)),
{
    let ghost ev = entries(es@);
    let mut k: usize = 0;
    while k < es.len()
        invariant
            k <= es@.len(),
            ev == entries(es@),
            first_entry_match(ev, norm@, suffix@, k as int) == first_entry_match(ev, norm@, suffix@, 0),
        decreases es.len() - k,
    {
        let key = chars_of(es[k].key.as_str());
        assert(ev[k as int] == (es@[k as int].key@, es@[k as int].value@));
        if has_at(norm, 0, key.as_slice()) {
            let len = find_original_byte_len(suffix, key.len());
            if is_journal_boundary(suffix, len) {
                let v = es[k].value.clone();
                assert(key@ == ev[k as int].0);
                assert(starts_at(norm@, 0, ev[k as int].0));
                assert(len == orig_len_from(suffix@, ev[k as int].0.len() as int, 0, 0));
                assert(first_entry_match(ev, norm@, suffix@, k as int) == Some((len as int, v@)));
                return Some((len, v));
            }
        }
        k += 1;
    }
    None
}

/// Journal matching at character position `pos` of `text`: it must start a
/// word; full titles are tried before abbreviations.
pub open spec fn journal_match(kb: KnowledgeBase, text: Seq<char>, pos: int) -> Option<(int, Seq<char>)> {
    if pos < 0 || pos > text.len() || (pos > 0 && is_alnum(text[pos - 1])) {
        None
    } else {
        match entry_match(entries(kb.titles@), text.subrange(pos, text.len() as int)) {
            Some(m) => Some(m),
            None => entry_match(entries(kb.abbrevs@), text.subrange(pos, text.len() as int)),
        }
    }
}

/// A journal name at character position `pos` of `text`: the number of
/// characters it covers and its canonical abbreviation.
pub fn match_journal_chars(kb: &KnowledgeBase, text: &[char], pos: usize) -> (r: Option<(usize, String)>)
    ensures
        r is None <==> journal_match(*kb, text@, pos as int) is None,
        r matches Some((n, v)) ==> journal_match(*kb, text@, pos as int) == Some((n as int, v@)),
{
    if pos > text.len() {
        return None;
    }
    if pos > 0 && alnum(text[pos - 1]) {
        return None;
    }
    let suffix = slice_vec(text, pos, text.len());
    match match_entries(&kb.titles, suffix.as_slice()) {
        Some(m) => Some(m),
        None => match_entries(&kb.abbrevs, suffix.as_slice()),
    }
}

/// The number of bytes of a character in UTF-8.
pub open spec fn utf8_len(c: char) -> int {
    if (c as u32) < 0x80 {
        1
    } else if (c as u32) < 0x800 {
        2
    } else if (c as u32) < 0x10000 {
        3
    } else {
        4
    }
}

/// The UTF-8 length of `s[lo..hi]`.
pub open spec fn byte_len(s: Seq<char>, lo: int, hi: int) -> int
    decreases hi - lo,
{
    if hi <= lo {
        0
    } else {
        byte_len(s, lo, hi - 1) + utf8_len(s[hi - 1])
    }
}

/// The character index at which byte offset `pos` falls, scanning from
/// character `i` at byte `acc`; none when `pos` is not a character boundary.
pub open spec fn char_index_of(s: Seq<char>, pos: int, i: int, acc: int) -> Option<int>
    decreases s.len() - i,
{
    if acc == pos {
        Some(i)
    } else if i < 0 || i >= s.len() || acc > pos {
        None
    } else {
        char_index_of(s, pos, i + 1, acc + utf8_len(s[i]))
    }
}

fn utf8_len_exec(c: char) -> (r: usize)
    ensures
        r == utf8_len(c),
{
    if (c as u32) < 0x80 {
        1
    } else if (c as u32) < 0x800 {
        2
    } else if (c as u32) < 0x10000 {
        3
    } else {
        4
    }
}

/// Try to match a journal name at byte offset `pos` of `text`, which must be
/// a character boundary. Returns the matched length in bytes and the
/// abbreviated name.
pub fn match_journal_name(kb: &KnowledgeBase, text: &str, pos: usize) -> (r: Option<(usize, String)>)
    requires
        text@.len() * 4 <= usize::MAX,
    ensures
        r is None <==> (char_index_of(text@, pos as int, 0, 0) is None || journal_match(
            *kb,
            text@,
            char_index_of(text@, pos as int, 0, 0)->0,
        ) is None),
        r matches Some((n, v)) ==> {
            let ci = char_index_of(text@, pos as int, 0, 0)->0;
            let (m, a) = journal_match(*kb, text@, ci)->0;
            a == v@ && n == byte_len(text@, ci, ci + m)
        },
{
    let t = chars_of(text);
    let ghost s = t@;
    let mut i: usize = 0;
    let mut acc: usize = 0;
    while acc != pos && i < t.len() && acc < pos
        invariant
            s == t@,
            i <= s.len(),
            acc <= 4 * i,
            s.len() * 4 <= usize::MAX,
            char_index_of(s, pos as int, i as int, acc as int) == char_index_of(s, pos as int, 0, 0),
        decreases s.len() - i,
    {
        acc = acc + utf8_len_exec(t[i]);
        i += 1;
    }
    if acc != pos {
        return None;
    }
    match match_journal_chars(kb, t.as_slice(), i) {
        Some((m, v)) => {
            proof {
                lemma_journal_match_len(*kb, s, i as int);
            }
            let mut n: usize = 0;
            let mut k: usize = 0;
            while k < m
                invariant
                    s == t@,
                    i + m <= s.len(),
                    k <= m,
                    n <= 4 * k,
                    s.len() * 4 <= usize::MAX,
                    n == byte_len(s, i as int, i + k),
                decreases m - k,
            {
                n = n + utf8_len_exec(t[i + k]);
                k += 1;
            }
            Some((n, v))
        },
        None => None,
    }
}

/// The canonical name of the first collaboration among `es[k..]` whose
/// upper-case name occurs in `upper`.
pub open spec fn first_collaboration(es: Seq<(Seq<char>, Seq<char>)>, upper: Seq<char>, k: int) -> Option<Seq<char>>
    decreases es.len() - k,
{
    if k < 0 || k >= es.len() {
        None
    } else if has_sub(upper, es[k].0) {
        Some(es[k].1)
    } else {
        first_collaboration(es, upper, k + 1)
    }
}

/// Collaboration matching: the first known name contained in the upper-cased text.
pub open spec fn collaboration_match(kb: KnowledgeBase, text: Seq<char>) -> Option<Seq<char>> {
    first_collaboration(entries(kb.collaborations@), upper_of(text), 0)
}

/// Try to match a collaboration name in the text.
pub fn match_collaboration(kb: &KnowledgeBase, text: &str) -> (r: Option<String>)
    ensures
        sv(r) == collaboration_match(*kb, text@),
{
    let up = to_upper(text);
    let u = chars_of(up.as_str());
    collaboration_in(kb, u.as_slice())
}

/// The canonical name of the first known collaboration whose upper-case name
/// occurs in the upper-cased text `upper`.
pub fn collaboration_in(kb: &KnowledgeBase, upper: &[char]) -> (r: Option<String>)
    ensures
        sv(r) == first_collaboration(entries(kb.collaborations@), upper@, 0),
{
    let ghost ev = entries(kb.collaborations@);
    let mut k: usize = 0;
    while k < kb.collaborations.len()
        invariant
            k <= kb.collaborations@.len(),
            ev == entries(kb.collaborations@),
            first_collaboration(ev, upper@, k as int) == first_collaboration(ev, upper@, 0),
        decreases kb.collaborations.len() - k,
    {
        let name = chars_of(kb.collaborations[k].key.as_str());
        assert(ev[k as int] == (kb.collaborations@[k as int].key@, kb.collaborations@[k as int].value@));
        if find_sub(upper, name.as_slice()).is_some() {
            return Some(kb.collaborations[k].value.clone());
        }
        k += 1;
    }
    None
}

// ── Report-number trie ─────────────────────────────────────────────────────

/// An edge of the trie: from a node, on a lower-case character (a space stands
/// for a run of separators), to a node.
#[derive(Clone, Copy, Debug)]
pub struct TrieEdge {
    pub from: usize,
    pub key: char,
    pub to: usize,
}

/// A pattern whose prefix ends at `node`: the standardized prefix and the
/// regex that matches the numeration after it.
#[derive(Clone, Debug)]
pub struct TrieLeaf {
    pub node: usize,
    pub standardized: String,
    pub pattern: String,
}

/// A trie of report-number prefixes; node 0 is the root.
pub struct ReportNumberTrie {
    pub node_count: usize,
    pub edges: Vec<TrieEdge>,
    pub leaves: Vec<TrieLeaf>,
}

/// A report number found in a text.
pub struct ReportNumberMatch {
    pub matched: String,
    pub standardized: String,
}

impl ReportNumberTrie {
    /// Every leaf's pattern compiles.
    pub open spec fn wf(&self) -> bool {
        &&& forall|l: int| 0 <= l < self.leaves@.len() ==> regex_compiles(#[trigger] self.leaves@[l].pattern@)
        &&& unique_children(self.edges@)
    }
}

/// At most one child per node and key.
pub open spec fn unique_children(edges: Seq<TrieEdge>) -> bool {
    forall|a: int, b: int|
        0 <= a < b < edges.len() ==> !((#[trigger] edges[a]).from == (#[trigger] edges[b]).from && edges[a].key == edges[b].key)
}

proof fn lemma_push_unique(edges: Seq<TrieEdge>, e: TrieEdge)
    requires
        unique_children(edges),
        forall|x: int| 0 <= x < edges.len() ==> !((#[trigger] edges[x]).from == e.from && edges[x].key == e.key),
    ensures
        unique_children(edges.push(e)),
{
    let t = edges.push(e);
    assert forall|a: int, b: int| 0 <= a < b < t.len() implies !((#[trigger] t[a]).from == (#[trigger] t[b]).from
        && t[a].key == t[b].key) by {
        assert(t[a] == edges[a]);
        if b < edges.len() {
            assert(t[b] == edges[b]);
        } else {
            assert(t[b] == e);
        }
    }
}

proof fn lemma_child_none(edges: Seq<TrieEdge>, n: int, c: char, k: int)
    requires
        0 <= k,
        child_from(edges, n, c, k) is None,
    ensures
        forall|e: int| k <= e < edges.len() ==> !((#[trigger] edges[e]).from == n && edges[e].key == c),
    decreases edges.len() - k,
{
    if k < edges.len() {
        lemma_child_none(edges, n, c, k + 1);
    }
}

/// A character that the trie's space edge consumes.
pub open spec fn is_report_sep(c: char) -> bool {
    c == ' ' || c == '\t' || c == '-' || c == '/'
}

pub open spec fn skip_report_seps(s: Seq<char>, i: int) -> int
    decreases s.len() - i,
{
    if 0 <= i < s.len() && is_report_sep(s[i]) {
        skip_report_seps(s, i + 1)
    } else {
        i
    }
}

proof fn lemma_skip_report_seps(s: Seq<char>, i: int)
    requires
        0 <= i <= s.len(),
    ensures
        i <= skip_report_seps(s, i) <= s.len(),
        i < s.len() && is_report_sep(s[i]) ==> i < skip_report_seps(s, i),
    decreases s.len() - i,
{
    if i < s.len() && is_report_sep(s[i]) {
        lemma_skip_report_seps(s, i + 1);
    }
}

/// The node that the first edge among `edges[k..]` from `n` on `c` leads to.
pub open spec fn child_from(edges: Seq<TrieEdge>, n: int, c: char, k: int) -> Option<int>
    decreases edges.len() - k,
{
    if k < 0 || k >= edges.len() {
        None
    } else if edges[k].from == n && edges[k].key == c {
        Some(edges[k].to as int)
    } else {
        child_from(edges, n, c, k + 1)
    }
}

/// The first leaf among `leaves[k..]` at node `n` whose numeration matches the
/// text from `pos`: the text from `start` to the end of the match, and the
/// standardized prefix.
pub open spec fn leaf_match(
    leaves: Seq<TrieLeaf>,
    n: int,
    text: Seq<char>,
    pos: int,
    start: int,
    k: int,
) -> Option<(Seq<char>, Seq<char>)>
    decreases leaves.len() - k,
{
    if k < 0 || k >= leaves.len() {
        None
    } else if leaves[k].node == n && regex_find(
        leaves[k].pattern@,
        text.subrange(pos, text.len() as int),
    ) is Some {
        Some(
            (
                text.subrange(start, pos) + regex_find(
                    leaves[k].pattern@,
                    text.subrange(pos, text.len() as int),
                )->0,
                leaves[k].standardized@,
            ),
        )
    } else {
        leaf_match(leaves, n, text, pos, start, k + 1)
    }
}

/// The walk from node `n` at text position `pos`: the last leaf match found on
/// the way, where the walk follows lower-cased characters and lets the space
/// edge consume a run of separators.
pub open spec fn walk(t: ReportNumberTrie, n: int, text: Seq<char>, pos: int, start: int, best: Option<(Seq<char>, Seq<char>)>) -> Option<(Seq<char>, Seq<char>)>
    decreases text.len() - pos,
{
    let best2 = match leaf_match(t.leaves@, n, text, pos, start, 0) {
        Some(m) => Some(m),
        None => best,
    };
    if pos < 0 || pos >= text.len() {
        best2
    } else {
        let c = ascii_lower(text[pos]);
        if is_report_sep(c) {
            match child_from(t.edges@, n, ' ', 0) {
                Some(ch) => if pos < skip_report_seps(text, pos) <= text.len() {
                    walk(t, ch, text, skip_report_seps(text, pos), start, best2)
                } else {
                    best2
                },
                None => best2,
            }
        } else {
            match child_from(t.edges@, n, c, 0) {
                Some(ch) => walk(t, ch, text, pos + 1, start, best2),
                None => best2,
            }
        }
    }
}

/// The first match at a word start from `start` on.
pub open spec fn report_match_from(t: ReportNumberTrie, text: Seq<char>, start: int) -> Option<(Seq<char>, Seq<char>)>
    decreases text.len() - start,
{
    if start < 0 || start >= text.len() {
        None
    } else if (start == 0 || !is_alnum(text[start - 1])) && walk(t, 0, text, start, start, None) is Some {
        walk(t, 0, text, start, start, None)
    } else {
        report_match_from(t, text, start + 1)
    }
}

/// The text of a report number: the prefix part `text[start..pos]` followed by
/// the numeration `m` that the leaf's pattern matched.
pub fn matched_text(text: &[char], start: usize, pos: usize, m: &String) -> (r: String)
    requires
        start <= pos <= text@.len(),
    ensures
        r@ == text@.subrange(start as int, pos as int) + m@,
{
    let mut matched = string_of(text, start, pos);
    let mc = chars_of(m.as_str());
    let mut i: usize = 0;
    let ghost pre = matched@;
    while i < mc.len()
        invariant
            i <= mc@.len(),
            matched@ == pre + mc@.subrange(0, i as int),
        decreases mc.len() - i,
    {
        push_char(&mut matched, mc[i]);
        assert(mc@.subrange(0, i + 1) =~= mc@.subrange(0, i as int).push(mc@[i as int]));
        i += 1;
    }
    assert(mc@.subrange(0, mc@.len() as int) =~= mc@);
    matched
}

/// The matched text and standardized prefix of an optional match.
pub open spec fn match_view(m: Option<ReportNumberMatch>) -> Option<(Seq<char>, Seq<char>)> {
    match m {
        Some(m) => Some((m.matched@, m.standardized@)),
        None => None,
    }
}

impl ReportNumberTrie {
    /// A trie with the root alone.
    pub fn new() -> (r: ReportNumberTrie)
        ensures
            r.wf(),
            r.node_count == 1,
            r.edges@.len() == 0,
            r.leaves@.len() == 0,
    {
        ReportNumberTrie { node_count: 1, edges: Vec::new(), leaves: Vec::new() }
    }

    fn child(&self, n: usize, c: char) -> (r: Option<usize>)
        requires
            self.wf(),
        ensures
            r is None <==> child_from(self.edges@, n as int, c, 0) is None,
            r matches Some(x) ==> child_from(self.edges@, n as int, c, 0) == Some(x as int),
    {
        let mut k: usize = 0;
        while k < self.edges.len()
            invariant
                self.wf(),
                k <= self.edges@.len(),
                child_from(self.edges@, n as int, c, k as int) == child_from(self.edges@, n as int, c, 0),
            decreases self.edges.len() - k,
        {
            let e = self.edges[k];
            if e.from == n && e.key == c {
                return Some(e.to);
            }
            k += 1;
        }
        None
    }

    /// The first leaf at node `n` whose numeration matches the text from `pos`.
    fn try_leaves(&self, n: usize, text: &[char], pos: usize, start: usize) -> (r: Option<ReportNumberMatch>)
        requires
            self.wf(),
            start <= pos <= text@.len(),
        ensures
            match_view(r) == leaf_match(self.leaves@, n as int, text@, pos as int, start as int, 0),
    {
        let suffix = string_of(text, pos, text.len());
        let mut k: usize = 0;
        while k < self.leaves.len()
            invariant
                self.wf(),
                start <= pos <= text@.len(),
                suffix@ == text@.subrange(pos as int, text@.len() as int),
                k <= self.leaves@.len(),
                leaf_match(self.leaves@, n as int, text@, pos as int, start as int, k as int)
                    == leaf_match(self.leaves@, n as int, text@, pos as int, start as int, 0),
            decreases self.leaves.len() - k,
        {
            let leaf = &self.leaves[k];
            if leaf.node == n {
                assert(regex_compiles(self.leaves@[k as int].pattern@));
                if let Some(m) = find_pattern(leaf.pattern.as_str(), suffix.as_str()) {
                    let matched = matched_text(text, start, pos, &m);
                    return Some(ReportNumberMatch { matched, standardized: leaf.standardized.clone() });
                }
            }
            k += 1;
        }
        None
    }

    fn try_match_at(&self, text: &[char], start: usize) -> (r: Option<ReportNumberMatch>)
        requires
            self.wf(),
            start <= text@.len(),
        ensures
            match_view(r) == walk(*self, 0, text@, start as int, start as int, None),
    {
        let n = text.len();
        let mut node: usize = 0;
        let mut pos = start;
        let mut best: Option<ReportNumberMatch> = None;
        loop
            invariant
                self.wf(),
                n == text@.len(),
                start <= pos <= n,
                walk(*self, node as int, text@, pos as int, start as int, match_view(best))
                    == walk(*self, 0, text@, start as int, start as int, None),
            decreases n - pos,
        {
            if let Some(m) = self.try_leaves(node, text, pos, start) {
                best = Some(m);
            }
            if pos >= n {
                return best;
            }
            let c = to_ascii_lower(text[pos]);
            if c == ' ' || c == '\t' || c == '-' || c == '/' {
                match self.child(node, ' ') {
                    Some(ch) => {
                        proof {
                            lemma_skip_report_seps(text@, pos as int);
                        }
                        let ghost from = pos as int;
                        while pos < n && (text[pos] == ' ' || text[pos] == '\t' || text[pos] == '-'
                            || text[pos] == '/')
                            invariant
                                n == text@.len(),
                                from <= pos <= n,
                                skip_report_seps(text@, pos as int) == skip_report_seps(text@, from),
                            decreases n - pos,
                        {
                            pos += 1;
                        }
                        node = ch;
                    },
                    None => {
                        return best;
                    },
                }
            } else {
                match self.child(node, c) {
                    Some(ch) => {
                        node = ch;
                        pos += 1;
                    },
                    None => {
                        return best;
                    },
                }
            }
        }
    }

    /// Find the first report number in `text` that starts a word.
    pub fn find_match(&self, text: &str) -> (r: Option<ReportNumberMatch>)
        requires
            self.wf(),
        ensures
            match_view(r) == report_match_from(*self, text@, 0),
    {
        let t = chars_of(text);
        let mut start: usize = 0;
        while start < t.len()
            invariant
                self.wf(),
                t@ == text@,
                start <= t@.len(),
                report_match_from(*self, text@, start as int) == report_match_from(*self, text@, 0),
            decreases t.len() - start,
        {
            if start == 0 || !alnum(t[start - 1]) {
                let m = self.try_match_at(t.as_slice(), start);
                if m.is_some() {
                    return m;
                }
            }
            start += 1;
        }
        None
    }
}

/// The knowledge bases, built once from their text and read-only afterwards.
pub struct KnowledgeBase {
    /// Normalized full journal titles and their abbreviations, longest first.
    pub titles: Vec<KbEntry>,
    /// Normalized abbreviations and their canonical form, longest first.
    pub abbrevs: Vec<KbEntry>,
    /// Upper-case collaboration names and their canonical form.
    pub collaborations: Vec<KbEntry>,
    /// The report-number trie.
    pub reports: ReportNumberTrie,
}

/// Try to match a report number in the text: the matched text and the
/// standardized prefix.
pub fn match_report_number(kb: &KnowledgeBase, text: &str) -> (r: Option<(String, String)>)
    requires
        kb.reports.wf(),
    ensures
        r is None <==> report_match_from(kb.reports, text@, 0) is None,
        r matches Some((a, b)) ==> report_match_from(kb.reports, text@, 0) == Some((a@, b@)),
{
    match kb.reports.find_match(text) {
        Some(m) => Some((m.matched, m.standardized)),
        None => None,
    }
}


// ── Loading ────────────────────────────────────────────────────────────────

pub open spec fn dashes() -> Seq<char> {
    seq!['-', '-', '-']
}

/// The two trimmed fields of a record line `A --- B`; blank lines, comments
/// and lines without a separator give none.
pub open spec fn kb_record(line: Seq<char>) -> Option<(Seq<char>, Seq<char>)> {
    let t = trim(line);
    if t.len() == 0 || t[0] == '#' {
        None
    } else {
        match find_sub_from(t, dashes(), 0) {
            Some(k) => Some((trim(t.subrange(0, k)), trim(t.subrange(k + 3, t.len() as int)))),
            None => None,
        }
    }
}

/// The position where an entry whose key has length `n` goes so that keys stay
/// ordered longest first, after the entries of equal length.
pub open spec fn ins_pos(s: Seq<(Seq<char>, Seq<char>)>, n: int, i: int) -> int
    decreases s.len() - i,
{
    if i < 0 || i >= s.len() {
        s.len() as int
    } else if s[i].0.len() < n {
        i
    } else {
        ins_pos(s, n, i + 1)
    }
}

pub open spec fn insert_by_len(s: Seq<(Seq<char>, Seq<char>)>, e: (Seq<char>, Seq<char>)) -> Seq<(Seq<char>, Seq<char>)> {
    s.insert(ins_pos(s, e.0.len() as int, 0), e)
}

/// Whether some entry has key `k`.
pub open spec fn has_key(s: Seq<(Seq<char>, Seq<char>)>, k: Seq<char>) -> bool {
    exists|i: int| 0 <= i < s.len() && (#[trigger] s[i]).0 == k
}

/// The full-title index of the records among `lines[0..hi]`.
pub open spec fn title_index(lines: Seq<Seq<char>>, hi: int) -> Seq<(Seq<char>, Seq<char>)>
    decreases hi,
{
    if hi <= 0 {
        Seq::empty()
    } else {
        let prev = title_index(lines, hi - 1);
        match kb_record(lines[hi - 1]) {
            Some((full, abbrev)) => insert_by_len(prev, (normalized_name(full), abbrev)),
            None => prev,
        }
    }
}

/// The abbreviation index of the records among `lines[0..hi]`: normalized
/// abbreviations of three characters or more, each once.
pub open spec fn abbrev_index(lines: Seq<Seq<char>>, hi: int) -> Seq<(Seq<char>, Seq<char>)>
    decreases hi,
{
    if hi <= 0 {
        Seq::empty()
    } else {
        let prev = abbrev_index(lines, hi - 1);
        match kb_record(lines[hi - 1]) {
            Some((_, abbrev)) => if normalized_name(abbrev).len() < 3 || has_key(
                prev,
                normalized_name(abbrev),
            ) {
                prev
            } else {
                insert_by_len(prev, (normalized_name(abbrev), abbrev))
            },
            None => prev,
        }
    }
}

/// The index of the first entry with key `k`.
pub open spec fn key_pos(s: Seq<(Seq<char>, Seq<char>)>, k: Seq<char>, i: int) -> Option<int>
    decreases s.len() - i,
{
    if i < 0 || i >= s.len() {
        None
    } else if s[i].0 == k {
        Some(i)
    } else {
        key_pos(s, k, i + 1)
    }
}

/// The collaboration index of the records among `lines[0..hi]`: upper-case
/// names in file order; a repeated name takes the later canonical form.
pub open spec fn collaboration_index(lines: Seq<Seq<char>>, hi: int) -> Seq<(Seq<char>, Seq<char>)>
    decreases hi,
{
    if hi <= 0 {
        Seq::empty()
    } else {
        let prev = collaboration_index(lines, hi - 1);
        match kb_record(lines[hi - 1]) {
            Some((name, canonical)) => match key_pos(prev, upper_of(name), 0) {
                Some(i) => prev.update(i, (upper_of(name), canonical)),
                None => prev.push((upper_of(name), canonical)),
            },
            None => prev,
        }
    }
}

/// The two trimmed fields of a record line.
fn parse_record(line: &Vec<char>) -> (r: Option<(Vec<char>, Vec<char>)>)
    ensures
        r is None <==> kb_record(line@) is None,
        r matches Some((a, b)) ==> kb_record(line@) == Some((a@, b@)),
{
    let t = trimmed(line);
    if t.len() == 0 || t[0] == '#' {
        return None;
    }
    let d = lit("---");
    proof {
        reveal_strlit("---");
    }
    assert(d@ =~= dashes());
    match find_sub(t.as_slice(), d.as_slice()) {
        Some(k) => {
            assert(crate::text::starts_at(t@, k as int, dashes()));
            let a = slice_vec(t.as_slice(), 0, k);
            let b = slice_vec(t.as_slice(), k + 3, t.len());
            Some((trimmed(&a), trimmed(&b)))
        },
        None => None,
    }
}

/// The position where an entry with a key of length `n` goes.
fn insert_position(v: &Vec<KbEntry>, n: usize) -> (r: usize)
    ensures
        r == ins_pos(entries(v@), n as int, 0),
        r <= v@.len(),
{
    let ghost ev = entries(v@);
    let mut i: usize = 0;
    while i < v.len()
        invariant
            i <= v@.len(),
            ev == entries(v@),
            ins_pos(ev, n as int, i as int) == ins_pos(ev, n as int, 0),
        decreases v.len() - i,
    {
        assert(ev[i as int] == (v@[i as int].key@, v@[i as int].value@));
        if chars_of(v[i].key.as_str()).len() < n {
            return i;
        }
        i += 1;
    }
    i
}

/// Insert an entry, keeping keys ordered longest first.
fn insert_entry(v: &mut Vec<KbEntry>, key: Vec<char>, value: Vec<char>)
    ensures
        entries(final(v)@) == insert_by_len(entries(old(v)@), (key@, value@)),
{
    let p = insert_position(v, key.len());
    let e = KbEntry { key: string_all(key.as_slice()), value: string_all(value.as_slice()) };
    let ghost before = entries(v@);
    v.insert(p, e);
    assert(entries(v@) =~= before.insert(p as int, (key@, value@)));
}

/// The index of the entry with key `k`, if any.
fn find_key(v: &Vec<KbEntry>, k: &Vec<char>) -> (r: Option<usize>)
    ensures
        r is None <==> key_pos(entries(v@), k@, 0) is None,
        r matches Some(i) ==> key_pos(entries(v@), k@, 0) == Some(i as int) && i < v@.len(),
{
    let ghost ev = entries(v@);
    let mut i: usize = 0;
    while i < v.len()
        invariant
            i <= v@.len(),
            ev == entries(v@),
            key_pos(ev, k@, i as int) == key_pos(ev, k@, 0),
        decreases v.len() - i,
    {
        assert(ev[i as int] == (v@[i as int].key@, v@[i as int].value@));
        let key = chars_of(v[i].key.as_str());
        if key.len() == k.len() && has_at(key.as_slice(), 0, k.as_slice()) {
            assert(key@.subrange(0, k@.len() as int) =~= key@);
            return Some(i);
        }
        proof {
            if key@ == k@ {
                assert(key@.subrange(0, k@.len() as int) =~= key@);
            }
        }
        i += 1;
    }
    None
}

proof fn lemma_key_pos(s: Seq<(Seq<char>, Seq<char>)>, k: Seq<char>, i: int)
    requires
        0 <= i <= s.len(),
    ensures
        key_pos(s, k, i) is None <==> !(exists|j: int| i <= j < s.len() && (#[trigger] s[j]).0 == k),
    decreases s.len() - i,
{
    if i < s.len() {
        lemma_key_pos(s, k, i + 1);
    }
}

impl KnowledgeBase {
    /// Build the journal, report-number and collaboration knowledge bases from
    /// their text, one record per line.
    pub fn new(journal_kb: &str, report_kb: &str, collaboration_kb: &str) -> (r: KnowledgeBase)
        ensures
            entries(r.titles@) == title_index(
                split_on(journal_kb@, '\n'),
                split_on(journal_kb@, '\n').len() as int,
            ),
            entries(r.abbrevs@) == abbrev_index(
                split_on(journal_kb@, '\n'),
                split_on(journal_kb@, '\n').len() as int,
            ),
            entries(r.collaborations@) == collaboration_index(
                split_on(collaboration_kb@, '\n'),
                split_on(collaboration_kb@, '\n').len() as int,
            ),
            r.reports.wf(),
            trie_model(r.reports) == report_trie_of(report_kb@),
    {
        let jl = crate::text::split_chars(chars_of(journal_kb).as_slice(), '\n');
        let ghost jv = crate::text::char_views(jl@);
        let mut titles: Vec<KbEntry> = Vec::new();
        let mut abbrevs: Vec<KbEntry> = Vec::new();
        let mut i: usize = 0;
        while i < jl.len()
            invariant
                i <= jl@.len(),
                jv == crate::text::char_views(jl@),
                entries(titles@) == title_index(jv, i as int),
                entries(abbrevs@) == abbrev_index(jv, i as int),
            decreases jl.len() - i,
        {
            assert(jv[i as int] == jl@[i as int]@);
            if let Some((full, abbrev)) = parse_record(&jl[i]) {
                let nf = normalize_abbrev(full.as_slice());
                insert_entry(&mut titles, nf, abbrev.clone());
                let na = normalize_abbrev(abbrev.as_slice());
                if na.len() >= 3 {
                    let found = find_key(&abbrevs, &na);
                    proof {
                        lemma_key_pos(entries(abbrevs@), na@, 0);
                    }
                    if found.is_none() {
                        insert_entry(&mut abbrevs, na, abbrev);
                    }
                }
            }
            i += 1;
        }
        let cl = crate::text::split_chars(chars_of(collaboration_kb).as_slice(), '\n');
        let ghost cv = crate::text::char_views(cl@);
        let mut collaborations: Vec<KbEntry> = Vec::new();
        let mut i: usize = 0;
        while i < cl.len()
            invariant
                i <= cl@.len(),
                cv == crate::text::char_views(cl@),
                entries(collaborations@) == collaboration_index(cv, i as int),
            decreases cl.len() - i,
        {
            assert(cv[i as int] == cl@[i as int]@);
            if let Some((name, canonical)) = parse_record(&cl[i]) {
                let up = chars_of(to_upper(string_all(name.as_slice()).as_str()).as_str());
                let ghost before = entries(collaborations@);
                let e = KbEntry { key: string_all(up.as_slice()), value: string_all(canonical.as_slice()) };
                match find_key(&collaborations, &up) {
                    Some(k) => {
                        collaborations.set(k, e);
                        assert(entries(collaborations@) =~= before.update(k as int, (up@, canonical@)));
                    },
                    None => {
                        collaborations.push(e);
                        assert(entries(collaborations@) =~= before.push((up@, canonical@)));
                    },
                }
            }
            i += 1;
        }
        KnowledgeBase { titles, abbrevs, collaborations, reports: build_report_trie(report_kb) }
    }
}

/// The trie as plain values: node count, edges, and leaves as (node,
/// standardized prefix, pattern).
pub open spec fn trie_model(t: ReportNumberTrie) -> (int, Seq<TrieEdge>, Seq<(int, Seq<char>, Seq<char>)>) {
    (t.node_count as int, t.edges@, t.leaves@.map_values(|l: TrieLeaf| (l.node as int, l.standardized@, l.pattern@)))
}

/// Walking the key `key[i..]` from `node`, adding a fresh node for each
/// missing child: the node count, the edges, the last node, and whether the
/// walk finished (it stops when no fresh node number is left).
pub open spec fn walk_insert(count: int, edges: Seq<TrieEdge>, node: int, key: Seq<char>, i: int) -> (int, Seq<TrieEdge>, int, bool)
    decreases key.len() - i,
{
    if i < 0 || i >= key.len() {
        (count, edges, node, true)
    } else {
        match child_from(edges, node, key[i], 0) {
            Some(ch) => walk_insert(count, edges, ch, key, i + 1),
            None => if count >= usize::MAX || count < 0 || node < 0 || node > usize::MAX {
                (count, edges, node, false)
            } else {
                walk_insert(count + 1, edges.push(TrieEdge { from: node as usize, key: key[i], to: count as usize }), count, key, i + 1)
            },
        }
    }
}

/// The numeration patterns joined by `|`.
pub open spec fn join_bar(ns: Seq<Seq<char>>, hi: int) -> Seq<char>
    decreases hi,
{
    if hi <= 0 {
        Seq::empty()
    } else if hi == 1 {
        ns[0]
    } else {
        join_bar(ns, hi - 1) + seq!['|'] + ns[hi - 1]
    }
}

/// The pattern of a leaf: `(?i)^[\s\-/]*(?:` the numerations `)`.
pub open spec fn leaf_pattern(ns: Seq<Seq<char>>) -> Seq<char> {
    "(?i)^[\\s\\-/]*(?:"@ + join_bar(ns, ns.len() as int) + seq![')']
}

/// The trie after inserting a prefix line with the numerations that apply.
pub open spec fn insert_model(
    m: (int, Seq<TrieEdge>, Seq<(int, Seq<char>, Seq<char>)>),
    prefix: Seq<char>,
    standardized: Seq<char>,
    ns: Seq<Seq<char>>,
) -> (int, Seq<TrieEdge>, Seq<(int, Seq<char>, Seq<char>)>) {
    if ns.len() == 0 {
        m
    } else {
        let key = pairs_lowered(tabs_to_spaces(prefix), 0);
        let (c, e, node, ok) = walk_insert(m.0, m.1, 0, key, 0);
        if !ok {
            (c, e, m.2)
        } else if regex_compiles(leaf_pattern(ns)) {
            (c, e, m.2.push((node, standardized, leaf_pattern(ns))))
        } else {
            (c, e, m.2)
        }
    }
}

pub open spec fn stars() -> Seq<char> {
    seq!['*', '*', '*', '*', '*']
}

/// The state after the KB lines `ls[0..hi]`: the trie, the numerations of the
/// current block, and whether a prefix line followed them.
pub open spec fn build_lines(ls: Seq<Seq<char>>, hi: int) -> ((int, Seq<TrieEdge>, Seq<(int, Seq<char>, Seq<char>)>), Seq<Seq<char>>, bool)
    decreases hi,
{
    if hi <= 0 {
        ((1, Seq::empty(), Seq::empty()), Seq::empty(), false)
    } else {
        let (m, ns, after) = build_lines(ls, hi - 1);
        let t = trim(ls[hi - 1]);
        let n = t.len() as int;
        if n == 0 || t[0] == '#' || starts_at(t, 0, stars()) {
            (m, ns, after)
        } else if t[0] == '<' && t[n - 1] == '>' && n >= 2 {
            let base = if after { Seq::empty() } else { ns };
            (m, base.push(dsl_regex(t.subrange(1, n - 1))), false)
        } else {
            match find_sub_from(t, dashes(), 0) {
                Some(k) => if n - k >= 3 {
                    (insert_model(m, trim(t.subrange(0, k)), trim(t.subrange(k + 3, n)), ns), ns, true)
                } else {
                    (m, ns, after)
                },
                None => (m, ns, after),
            }
        }
    }
}

/// The trie of a report-number KB text.
pub open spec fn report_trie_of(text: Seq<char>) -> (int, Seq<TrieEdge>, Seq<(int, Seq<char>, Seq<char>)>) {
    let ls = split_on(text, '\n');
    build_lines(ls, ls.len() as int).0
}

/// Build the report-number trie from its knowledge base: blocks of
/// `<numeration>` lines, each followed by `prefix --- standardized` lines;
/// the numerations of a block apply to the prefix lines that follow it.
pub fn build_report_trie(kb_text: &str) -> (r: ReportNumberTrie)
    ensures
        r.wf(),
        trie_model(r) == report_trie_of(kb_text@),
{
    let lines = crate::text::split_chars(chars_of(kb_text).as_slice(), '\n');
    let ghost lv = crate::text::char_views(lines@);
    let mut trie = ReportNumberTrie::new();
    let mut numerations: Vec<Vec<char>> = Vec::new();
    let mut after_prefix = false;
    let stars_v = lit("*****");
    let d = lit("---");
    proof {
        reveal_strlit("*****");
        reveal_strlit("---");
    }
    assert(stars_v@ =~= stars());
    assert(d@ =~= dashes());
    assert(trie_model(trie).1 =~= Seq::<TrieEdge>::empty());
    assert(trie_model(trie).2 =~= Seq::<(int, Seq<char>, Seq<char>)>::empty());
    assert(crate::text::char_views(numerations@) =~= Seq::<Seq<char>>::empty());
    let mut i: usize = 0;
    while i < lines.len()
        invariant
            i <= lines@.len(),
            lv == crate::text::char_views(lines@),
            lv == split_on(kb_text@, '\n'),
            stars_v@ == stars(),
            d@ == dashes(),
            trie.wf(),
            build_lines(lv, i as int) == (trie_model(trie), crate::text::char_views(numerations@), after_prefix),
        decreases lines.len() - i,
    {
        assert(lv[i as int] == lines@[i as int]@);
        let line = trimmed(&lines[i]);
        let n = line.len();
        if n == 0 || line[0] == '#' || has_at(line.as_slice(), 0, stars_v.as_slice()) {
        } else if line[0] == '<' && line[n - 1] == '>' && n >= 2 {
            if after_prefix {
                numerations = Vec::new();
                after_prefix = false;
            }
            let inner = slice_vec(line.as_slice(), 1, n - 1);
            let ghost before = crate::text::char_views(numerations@);
            let dr = numeration_to_regex(&inner);
            numerations.push(dr);
            assert(crate::text::char_views(numerations@) =~= before.push(dr@));
        } else if let Some(k) = find_sub(line.as_slice(), d.as_slice()) {
            if n - k >= 3 {
                let prefix = trimmed(&slice_vec(line.as_slice(), 0, k));
                let standardized = trimmed(&slice_vec(line.as_slice(), k + 3, n));
                insert_into_trie(&mut trie, &prefix, &standardized, &numerations);
                after_prefix = true;
            }
        }
        i += 1;
    }
    assert(lv.len() == lines@.len());
    trie
}

/// Tabs replaced by spaces.
pub open spec fn tabs_to_spaces(s: Seq<char>) -> Seq<char> {
    s.map_values(|c: char| if c == '\t' { ' ' } else { c })
}

/// From `i` on: each pair of spaces becomes one, scanning left to right, and
/// letters are lower-cased.
pub open spec fn pairs_lowered(t: Seq<char>, i: int) -> Seq<char>
    decreases t.len() - i,
{
    if i < 0 || i >= t.len() {
        Seq::empty()
    } else if t[i] == ' ' && i + 1 < t.len() && t[i + 1] == ' ' {
        seq![' '] + pairs_lowered(t, i + 2)
    } else {
        seq![ascii_lower(t[i])] + pairs_lowered(t, i + 1)
    }
}

/// A prefix normalized for the trie: tabs become spaces, each pair of spaces
/// becomes one, and letters are lower-cased.
fn normalize_prefix(prefix: &Vec<char>) -> (r: Vec<char>)
    ensures
        r@ == pairs_lowered(tabs_to_spaces(prefix@), 0),
{
    let mut tabs: Vec<char> = Vec::new();
    let mut i: usize = 0;
    while i < prefix.len()
        invariant
            i <= prefix@.len(),
            tabs@ == tabs_to_spaces(prefix@.subrange(0, i as int)),
        decreases prefix.len() - i,
    {
        tabs.push(if prefix[i] == '\t' { ' ' } else { prefix[i] });
        assert(tabs_to_spaces(prefix@.subrange(0, i + 1)) =~= tabs_to_spaces(prefix@.subrange(0, i as int)).push(
            if prefix@[i as int] == '\t' { ' ' } else { prefix@[i as int] },
        ));
        i += 1;
    }
    assert(prefix@.subrange(0, prefix@.len() as int) =~= prefix@);
    let ghost t = tabs@;
    let mut out: Vec<char> = Vec::new();
    let mut j: usize = 0;
    while j < tabs.len()
        invariant
            j <= tabs@.len(),
            t == tabs@,
            out@ + pairs_lowered(t, j as int) == pairs_lowered(t, 0),
        decreases tabs.len() - j,
    {
        let ghost before = out@;
        if tabs[j] == ' ' && tabs.len() - j > 1 && tabs[j + 1] == ' ' {
            out.push(' ');
            assert(before + pairs_lowered(t, j as int) =~= out@ + pairs_lowered(t, j + 2));
            j += 2;
        } else {
            out.push(to_ascii_lower(tabs[j]));
            assert(before + pairs_lowered(t, j as int) =~= out@ + pairs_lowered(t, j + 1));
            j += 1;
        }
    }
    assert(out@ =~= out@ + pairs_lowered(t, j as int));
    out
}

/// Insert a prefix with the numerations that apply to it.
fn insert_into_trie(
    trie: &mut ReportNumberTrie,
    prefix: &Vec<char>,
    standardized: &Vec<char>,
    numerations: &Vec<Vec<char>>,
)
    requires
        old(trie).wf(),
    ensures
        final(trie).wf(),
        trie_model(*final(trie)) == insert_model(trie_model(*old(trie)), prefix@, standardized@, crate::text::char_views(numerations@)),
{
    let ghost ns = crate::text::char_views(numerations@);
    if numerations.len() == 0 {
        return;
    }
    let key = normalize_prefix(prefix);
    let ghost m0 = trie_model(*trie);
    let ghost target = walk_insert(m0.0, m0.1, 0, key@, 0);
    let mut node: usize = 0;
    let mut i: usize = 0;
    while i < key.len()
        invariant
            trie.wf(),
            i <= key@.len(),
            trie.leaves@ == old(trie).leaves@,
            m0 == trie_model(*old(trie)),
            target == walk_insert(m0.0, m0.1, 0, key@, 0),
            key@ == pairs_lowered(tabs_to_spaces(prefix@), 0),
            ns == crate::text::char_views(numerations@),
            numerations@.len() > 0,
            trie_model(*trie).2 == m0.2,
            walk_insert(trie.node_count as int, trie.edges@, node as int, key@, i as int) == target,
        decreases key.len() - i,
    {
        match trie.child(node, key[i]) {
            Some(ch) => {
                node = ch;
            },
            None => {
                if trie.node_count == usize::MAX {
                    assert(trie_model(*trie) =~= (target.0, target.1, m0.2));
                    return;
                }
                let fresh = trie.node_count;
                let ghost old_edges = trie.edges@;
                let edge = TrieEdge { from: node, key: key[i], to: fresh };
                proof {
                    lemma_child_none(old_edges, node as int, key@[i as int], 0);
                }
                trie.edges.push(edge);
                trie.node_count = fresh + 1;
                proof {
                    lemma_push_unique(old_edges, edge);
                    assert(trie.edges@ == old_edges.push(edge));
                }
                node = fresh;
            },
        }
        i += 1;
    }
    let ghost walked = (trie.node_count as int, trie.edges@, node as int);
    let mut pattern = lit("(?i)^[\\s\\-/]*(?:");
    let mut k: usize = 0;
    while k < numerations.len()
        invariant
            k <= numerations@.len(),
            ns == crate::text::char_views(numerations@),
            pattern@ == "(?i)^[\\s\\-/]*(?:"@ + join_bar(ns, k as int),
            trie.wf(),
            trie_model(*trie) == (target.0, target.1, m0.2),
            node as int == target.2,
            target.3,
            m0 == trie_model(*old(trie)),
            target == walk_insert(m0.0, m0.1, 0, key@, 0),
            key@ == pairs_lowered(tabs_to_spaces(prefix@), 0),
        decreases numerations.len() - k,
    {
        assert(ns[k as int] == numerations@[k as int]@);
        let ghost before = pattern@;
        if k > 0 {
            pattern.push('|');
        }
        extend_from(&mut pattern, numerations[k].as_slice(), 0, numerations[k].len());
        assert(numerations@[k as int]@.subrange(0, numerations@[k as int]@.len() as int) =~= numerations@[k as int]@);
        assert(pattern@ =~= "(?i)^[\\s\\-/]*(?:"@ + join_bar(ns, k + 1));
        k += 1;
    }
    pattern.push(')');
    assert(pattern@ =~= leaf_pattern(ns));
    let p = string_all(pattern.as_slice());
    if pattern_compiles(p.as_str()) {
        let ghost old_leaves = trie.leaves@;
        let leaf = TrieLeaf { node, standardized: string_all(standardized.as_slice()), pattern: p };
        trie.leaves.push(leaf);
        assert(trie.leaves@ == old_leaves.push(leaf));
        assert forall|l: int| 0 <= l < trie.leaves@.len() implies regex_compiles(
            #[trigger] trie.leaves@[l].pattern@,
        ) by {
            if l < old_leaves.len() {
                assert(old_leaves.push(leaf)[l] == old_leaves[l]);
            }
        }
        assert(trie_model(*trie).2 =~= m0.2.push((node as int, standardized@, leaf_pattern(ns))));
    }
}


proof fn lemma_entry_len(es: Seq<(Seq<char>, Seq<char>)>, norm: Seq<char>, s: Seq<char>, k: int)
    ensures
        first_entry_match(es, norm, s, k) matches Some((n, _)) ==> 0 <= n <= s.len(),
    decreases es.len() - k,
{
    if 0 <= k < es.len() {
        lemma_orig_len(s, es[k].0.len() as int, 0, 0);
        lemma_entry_len(es, norm, s, k + 1);
    }
}

proof fn lemma_orig_len(s: Seq<char>, n: int, orig: int, norm: int)
    requires
        0 <= orig <= s.len(),
    ensures
        orig <= orig_len_from(s, n, orig, norm) <= s.len(),
    decreases s.len() - orig,
{
    if orig >= s.len() || norm >= n {
        lemma_skip_dots(s, orig);
    } else if is_skip_sep(s[orig]) {
        lemma_skip_seps(s, orig);
        if !(skip_seps(s, orig) <= orig || skip_seps(s, orig) > s.len()) {
            lemma_orig_len(s, n, skip_seps(s, orig), if norm > 0 { norm + 1 } else { norm });
        }
    } else {
        lemma_orig_len(s, n, orig + 1, norm + 1);
    }
}

/// A journal match at `pos` ends within the text.
pub proof fn lemma_journal_match_len(kb: KnowledgeBase, text: Seq<char>, pos: int)
    ensures
        journal_match(kb, text, pos) matches Some((n, _)) ==> 0 <= pos && pos + n <= text.len(),
{
    if 0 <= pos <= text.len() {
        let s = text.subrange(pos, text.len() as int);
        if s.len() > 0 && is_alpha(s[0]) {
            lemma_entry_len(entries(kb.titles@), normalized_name(s), s, 0);
            lemma_entry_len(entries(kb.abbrevs@), normalized_name(s), s, 0);
        }
    }
}

} // verus!
