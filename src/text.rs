//! Character-level helpers: classes of characters, trimming, searching,
//! and conversion between `String` and `Vec<char>`.
use vstd::prelude::*;
use vstd::string::StrSliceExecFns;

verus! {

pub open spec fn is_digit(c: char) -> bool {
    '0' <= c && c <= '9'
}

pub open spec fn is_upper(c: char) -> bool {
    'A' <= c && c <= 'Z'
}

pub open spec fn is_lower(c: char) -> bool {
    'a' <= c && c <= 'z'
}

pub open spec fn is_alpha(c: char) -> bool {
    is_upper(c) || is_lower(c)
}

pub open spec fn is_alnum(c: char) -> bool {
    is_alpha(c) || is_digit(c)
}

/// The whitespace characters that separate words: Unicode White_Space.
pub open spec fn is_space(c: char) -> bool {
    c == ' ' || ('\t' <= c && c <= '\r') || c == '\u{85}' || c == '\u{a0}' || c == '\u{1680}'
        || ('\u{2000}' <= c && c <= '\u{200a}') || c == '\u{2028}' || c == '\u{2029}'
        || c == '\u{202f}' || c == '\u{205f}' || c == '\u{3000}'
}

pub fn digit(c: char) -> (r: bool)
    ensures
        r == is_digit(c),
{
    '0' <= c && c <= '9'
}

pub fn upper(c: char) -> (r: bool)
    ensures
        r == is_upper(c),
{
    'A' <= c && c <= 'Z'
}

pub fn lower(c: char) -> (r: bool)
    ensures
        r == is_lower(c),
{
    'a' <= c && c <= 'z'
}

pub fn alnum(c: char) -> (r: bool)
    ensures
        r == is_alnum(c),
{
    upper(c) || lower(c) || digit(c)
}

pub fn space(c: char) -> (r: bool)
    ensures
        r == is_space(c),
{
    c == ' ' || ('\t' <= c && c <= '\r') || c == '\u{85}' || c == '\u{a0}' || c == '\u{1680}'
        || ('\u{2000}' <= c && c <= '\u{200a}') || c == '\u{2028}' || c == '\u{2029}'
        || c == '\u{202f}' || c == '\u{205f}' || c == '\u{3000}'
}

/// The lower-case form of an ASCII letter; other characters are unchanged.
pub open spec fn ascii_lower(c: char) -> char {
    if is_upper(c) {
        ((c as u32) + 32) as char
    } else {
        c
    }
}

pub fn to_ascii_lower(c: char) -> (r: char)
    ensures
        r == ascii_lower(c),
{
    if upper(c) {
        ((c as u32) + 32) as u8 as char
    } else {
        c
    }
}

/// Relies on `String::push`: the character is appended.
#[verifier::external_body]
pub fn push_char(s: &mut String, c: char)
    ensures
        final(s)@ == old(s)@.push(c),
{
    s.push(c)
}

/// The characters of `s`, in order.
pub fn chars_of(s: &str) -> (r: Vec<char>)
    ensures
        r@ == s@,
{
    let n = s.unicode_len();
    let mut r: Vec<char> = Vec::new();
    let mut i: usize = 0;
    while i < n
        invariant
            n == s@.len(),
            i <= n,
            r@ == s@.subrange(0, i as int),
        decreases n - i,
    {
        r.push(s.get_char(i));
        i += 1;
    }
    r
}

/// A string holding the characters `v[lo..hi]`.
pub fn string_of(v: &[char], lo: usize, hi: usize) -> (r: String)
    requires
        lo <= hi <= v@.len(),
    ensures
        r@ == v@.subrange(lo as int, hi as int),
{
    let mut r = String::new();
    let mut i = lo;
    while i < hi
        invariant
            lo <= i <= hi <= v@.len(),
            r@ == v@.subrange(lo as int, i as int),
        decreases hi - i,
    {
        push_char(&mut r, v[i]);
        i += 1;
    }
    r
}

/// A string holding all of `v`.
pub fn string_all(v: &[char]) -> (r: String)
    ensures
        r@ == v@,
{
    string_of(v, 0, v.len())
}

/// The index of the first whitespace-free character at or after `i`
/// (or `hi` when there is none before it).
pub open spec fn skip_space(s: Seq<char>, i: int, hi: int) -> int
    decreases hi - i,
{
    if i < hi && is_space(s[i]) {
        skip_space(s, i + 1, hi)
    } else {
        i
    }
}

/// The end of `s[lo..j]` once trailing whitespace is removed.
pub open spec fn back_space(s: Seq<char>, lo: int, j: int) -> int
    decreases j - lo,
{
    if j > lo && is_space(s[j - 1]) {
        back_space(s, lo, j - 1)
    } else {
        j
    }
}

/// `s` with leading and trailing whitespace removed.
pub open spec fn trim(s: Seq<char>) -> Seq<char> {
    let a = skip_space(s, 0, s.len() as int);
    s.subrange(a, back_space(s, a, s.len() as int))
}

/// `s` with trailing whitespace removed.
pub open spec fn trim_end(s: Seq<char>) -> Seq<char> {
    s.subrange(0, back_space(s, 0, s.len() as int))
}

pub proof fn lemma_skip_space_bounds(s: Seq<char>, i: int, hi: int)
    requires
        0 <= i <= hi <= s.len(),
    ensures
        i <= skip_space(s, i, hi) <= hi,
        forall|k: int| i <= k < skip_space(s, i, hi) ==> is_space(s[k]),
        skip_space(s, i, hi) < hi ==> !is_space(s[skip_space(s, i, hi)]),
    decreases hi - i,
{
    if i < hi && is_space(s[i]) {
        lemma_skip_space_bounds(s, i + 1, hi);
    }
}

pub proof fn lemma_back_space_bounds(s: Seq<char>, lo: int, j: int)
    requires
        0 <= lo <= j <= s.len(),
    ensures
        lo <= back_space(s, lo, j) <= j,
        forall|k: int| back_space(s, lo, j) <= k < j ==> is_space(s[k]),
        back_space(s, lo, j) > lo ==> !is_space(s[back_space(s, lo, j) - 1]),
    decreases j - lo,
{
    if j > lo && is_space(s[j - 1]) {
        lemma_back_space_bounds(s, lo, j - 1);
    }
}

/// The bounds `(a, b)` of `v[lo..hi]` once surrounding whitespace is removed.
pub fn trim_bounds(v: &[char], lo: usize, hi: usize) -> (r: (usize, usize))
    requires
        lo <= hi <= v@.len(),
    ensures
        r.0 == skip_space(v@, lo as int, hi as int),
        r.1 == back_space(v@, r.0 as int, hi as int),
        lo <= r.0 <= r.1 <= hi,
{
    let mut a = lo;
    while a < hi && space(v[a])
        invariant
            lo <= a <= hi <= v@.len(),
            skip_space(v@, a as int, hi as int) == skip_space(v@, lo as int, hi as int),
        decreases hi - a,
    {
        a += 1;
    }
    let mut b = hi;
    while b > a && space(v[b - 1])
        invariant
            a <= b <= hi <= v@.len(),
            back_space(v@, a as int, b as int) == back_space(v@, a as int, hi as int),
        decreases b - a,
    {
        b -= 1;
    }
    (a, b)
}

/// `s` with surrounding whitespace removed.
pub fn trimmed(s: &Vec<char>) -> (r: Vec<char>)
    ensures
        r@ == trim(s@),
{
    let (a, b) = trim_bounds(s.as_slice(), 0, s.len());
    slice_vec(s.as_slice(), a, b)
}

/// A copy of `v[lo..hi]`.
pub fn slice_vec(v: &[char], lo: usize, hi: usize) -> (r: Vec<char>)
    requires
        lo <= hi <= v@.len(),
    ensures
        r@ == v@.subrange(lo as int, hi as int),
{
    let mut r: Vec<char> = Vec::new();
    let mut i = lo;
    while i < hi
        invariant
            lo <= i <= hi <= v@.len(),
            r@ == v@.subrange(lo as int, i as int),
        decreases hi - i,
    {
        r.push(v[i]);
        i += 1;
    }
    r
}

/// Appends `v[lo..hi]` to `out`.
pub fn extend_from(out: &mut Vec<char>, v: &[char], lo: usize, hi: usize)
    requires
        lo <= hi <= v@.len(),
    ensures
        final(out)@ == old(out)@ + v@.subrange(lo as int, hi as int),
{
    let ghost start = out@;
    let mut i = lo;
    while i < hi
        invariant
            lo <= i <= hi <= v@.len(),
            out@ == start + v@.subrange(lo as int, i as int),
        decreases hi - i,
    {
        out.push(v[i]);
        i += 1;
    }
}

/// Whether `s` contains the character `c`.
pub open spec fn has_char(s: Seq<char>, c: char) -> bool {
    exists|k: int| 0 <= k < s.len() && s[k] == c
}

pub fn contains_char(v: &[char], c: char) -> (r: bool)
    ensures
        r == has_char(v@, c),
{
    let mut i: usize = 0;
    while i < v.len()
        invariant
            i <= v@.len(),
            forall|k: int| 0 <= k < i ==> v@[k] != c,
        decreases v.len() - i,
    {
        if v[i] == c {
            return true;
        }
        i += 1;
    }
    false
}

/// The first index at or after `i` where `c` stands, if any.
pub open spec fn find_char_from(s: Seq<char>, c: char, i: int) -> Option<int>
    decreases s.len() - i,
{
    if i < 0 || i >= s.len() {
        None
    } else if s[i] == c {
        Some(i)
    } else {
        find_char_from(s, c, i + 1)
    }
}

pub fn find_char(v: &[char], c: char, from: usize) -> (r: Option<usize>)
    requires
        from <= v@.len(),
    ensures
        r is None <==> find_char_from(v@, c, from as int) is None,
        r matches Some(k) ==> find_char_from(v@, c, from as int) == Some(k as int),
        r matches Some(k) ==> from <= k < v@.len() && v@[k as int] == c,
{
    let mut i = from;
    while i < v.len()
        invariant
            from <= i <= v@.len(),
            find_char_from(v@, c, i as int) == find_char_from(v@, c, from as int),
        decreases v.len() - i,
    {
        if v[i] == c {
            return Some(i);
        }
        i += 1;
    }
    None
}

/// Whether `v[i..]` starts with `p`.
pub open spec fn starts_at(s: Seq<char>, i: int, p: Seq<char>) -> bool {
    0 <= i && i + p.len() <= s.len() && s.subrange(i, i + p.len()) == p
}

pub fn has_at(v: &[char], i: usize, p: &[char]) -> (r: bool)
    ensures
        r == starts_at(v@, i as int, p@),
{
    if i > v.len() || p.len() > v.len() - i {
        return false;
    }
    let n = v.len();
    let mut k: usize = 0;
    while k < p.len()
        invariant
            n == v@.len(),
            i + p@.len() <= v@.len(),
            i <= v@.len(),
            k <= p@.len(),
            forall|m: int| 0 <= m < k ==> v@[i + m] == p@[m],
        decreases p.len() - k,
    {
        assert(i + k < n);
        if v[i + k] != p[k] {
            assert(v@.subrange(i as int, i + p@.len())[k as int] != p@[k as int]);
            return false;
        }
        k += 1;
    }
    assert(v@.subrange(i as int, i + p@.len()) =~= p@);
    true
}

/// Whether `p` occurs in `s`.
pub open spec fn has_sub(s: Seq<char>, p: Seq<char>) -> bool {
    exists|i: int| 0 <= i <= s.len() - p.len() && #[trigger] starts_at(s, i, p)
}

/// The first index where `p` occurs in `s` at or after `i`.
pub open spec fn find_sub_from(s: Seq<char>, p: Seq<char>, i: int) -> Option<int>
    decreases s.len() + 1 - i,
{
    if i < 0 || i + p.len() > s.len() {
        None
    } else if starts_at(s, i, p) {
        Some(i)
    } else {
        find_sub_from(s, p, i + 1)
    }
}

pub fn find_sub(v: &[char], p: &[char]) -> (r: Option<usize>)
    ensures
        r matches Some(k) ==> find_sub_from(v@, p@, 0) == Some(k as int) && starts_at(v@, k as int, p@),
        r is None ==> find_sub_from(v@, p@, 0) is None,
        r is None <==> !has_sub(v@, p@),
{
    if p.len() == 0 {
        assert(starts_at(v@, 0, p@)) by {
            assert(v@.subrange(0, 0) =~= p@);
        }
        return Some(0);
    }
    if p.len() > v.len() {
        proof {
            if has_sub(v@, p@) {
                let k = choose|k: int| 0 <= k <= v@.len() - p@.len() && #[trigger] starts_at(v@, k, p@);
            }
        }
        return None;
    }
    let mut i: usize = 0;
    while i <= v.len() - p.len()
        invariant
            1 <= p@.len() <= v@.len(),
            i <= v@.len() - p@.len() + 1,
            find_sub_from(v@, p@, i as int) == find_sub_from(v@, p@, 0),
            forall|k: int| 0 <= k < i ==> !#[trigger] starts_at(v@, k, p@),
        decreases v.len() + 1 - i,
    {
        if has_at(v, i, p) {
            return Some(i);
        }
        i += 1;
    }
    proof {
        if has_sub(v@, p@) {
            let k = choose|k: int| 0 <= k <= v@.len() - p@.len() && #[trigger] starts_at(v@, k, p@);
            assert(starts_at(v@, k, p@));
        }
    }
    None
}

/// The characters of a string literal or other `&str`.
pub fn lit(s: &str) -> (r: Vec<char>)
    ensures
        r@ == s@,
{
    chars_of(s)
}

} // verus!

verus! {

/// A set of characters that trimming removes from the ends of a word.
#[derive(Clone, Copy, Debug, PartialEq, Eq, Structural)]
pub enum Strip {
    /// Anything but an ASCII digit.
    NonDigit,
    /// Anything but an ASCII letter, an ASCII digit, `-` or `–`.
    NonAlnumDash,
    /// `,` `.` `;` `:`
    Punct,
    /// `,` `.` `;`
    PunctNoColon,
    /// `,`
    Comma,
    /// `.` `)` `]` `}` `>`
    Closers,
    /// `.`
    Dot,
    /// `,` `.` `;` `:` `[` `]`
    WordEdge,
}

pub open spec fn strips(c: char, k: Strip) -> bool {
    match k {
        Strip::NonDigit => !is_digit(c),
        Strip::NonAlnumDash => !is_alnum(c) && c != '-' && c != '\u{2013}',
        Strip::Punct => c == ',' || c == '.' || c == ';' || c == ':',
        Strip::PunctNoColon => c == ',' || c == '.' || c == ';',
        Strip::Comma => c == ',',
        Strip::Closers => c == '.' || c == ')' || c == ']' || c == '}' || c == '>',
        Strip::Dot => c == '.',
        Strip::WordEdge => c == ',' || c == '.' || c == ';' || c == ':' || c == '[' || c == ']',
    }
}

pub fn strips_char(c: char, k: Strip) -> (r: bool)
    ensures
        r == strips(c, k),
{
    match k {
        Strip::NonDigit => !digit(c),
        Strip::NonAlnumDash => !alnum(c) && c != '-' && c != '\u{2013}',
        Strip::Punct => c == ',' || c == '.' || c == ';' || c == ':',
        Strip::PunctNoColon => c == ',' || c == '.' || c == ';',
        Strip::Comma => c == ',',
        Strip::Closers => c == '.' || c == ')' || c == ']' || c == '}' || c == '>',
        Strip::Dot => c == '.',
        Strip::WordEdge => c == ',' || c == '.' || c == ';' || c == ':' || c == '[' || c == ']',
    }
}

pub open spec fn skip_set(s: Seq<char>, k: Strip, i: int, hi: int) -> int
    decreases hi - i,
{
    if i < hi && strips(s[i], k) {
        skip_set(s, k, i + 1, hi)
    } else {
        i
    }
}

pub open spec fn back_set(s: Seq<char>, k: Strip, lo: int, j: int) -> int
    decreases j - lo,
{
    if j > lo && strips(s[j - 1], k) {
        back_set(s, k, lo, j - 1)
    } else {
        j
    }
}

/// `s` with the characters of `k` removed from both ends.
pub open spec fn strip(s: Seq<char>, k: Strip) -> Seq<char> {
    let a = skip_set(s, k, 0, s.len() as int);
    s.subrange(a, back_set(s, k, a, s.len() as int))
}

/// `s` with the characters of `k` removed from its end.
pub open spec fn strip_end(s: Seq<char>, k: Strip) -> Seq<char> {
    s.subrange(0, back_set(s, k, 0, s.len() as int))
}

pub proof fn lemma_back_set_bounds(s: Seq<char>, k: Strip, lo: int, j: int)
    requires
        0 <= lo <= j <= s.len(),
    ensures
        lo <= back_set(s, k, lo, j) <= j,
    decreases j - lo,
{
    if j > lo && strips(s[j - 1], k) {
        lemma_back_set_bounds(s, k, lo, j - 1);
    }
}

/// The bounds of `v[lo..hi]` once the characters of `k` are removed from both ends.
pub fn strip_bounds(v: &[char], k: Strip, lo: usize, hi: usize) -> (r: (usize, usize))
    requires
        lo <= hi <= v@.len(),
    ensures
        r.0 == skip_set(v@, k, lo as int, hi as int),
        r.1 == back_set(v@, k, r.0 as int, hi as int),
        lo <= r.0 <= r.1 <= hi,
{
    let mut a = lo;
    while a < hi && strips_char(v[a], k)
        invariant
            lo <= a <= hi <= v@.len(),
            skip_set(v@, k, a as int, hi as int) == skip_set(v@, k, lo as int, hi as int),
        decreases hi - a,
    {
        a += 1;
    }
    let mut b = hi;
    while b > a && strips_char(v[b - 1], k)
        invariant
            a <= b <= hi <= v@.len(),
            back_set(v@, k, a as int, b as int) == back_set(v@, k, a as int, hi as int),
        decreases b - a,
    {
        b -= 1;
    }
    (a, b)
}

/// `v` with the characters of `k` removed from both ends.
pub fn stripped(v: &[char], k: Strip) -> (r: Vec<char>)
    ensures
        r@ == strip(v@, k),
{
    let (a, b) = strip_bounds(v, k, 0, v.len());
    slice_vec(v, a, b)
}

/// `v` with the characters of `k` removed from its end.
pub fn stripped_end(v: &[char], k: Strip) -> (r: Vec<char>)
    ensures
        r@ == strip_end(v@, k),
{
    let mut b = v.len();
    while b > 0 && strips_char(v[b - 1], k)
        invariant
            b <= v@.len(),
            back_set(v@, k, 0, b as int) == back_set(v@, k, 0, v@.len() as int),
        decreases b,
    {
        b -= 1;
    }
    slice_vec(v, 0, b)
}

/// Whether every character of `s` is an ASCII digit.
pub open spec fn all_digits(s: Seq<char>) -> bool {
    forall|k: int| 0 <= k < s.len() ==> is_digit(#[trigger] s[k])
}

pub fn all_digits_in(v: &[char], lo: usize, hi: usize) -> (r: bool)
    requires
        lo <= hi <= v@.len(),
    ensures
        r == all_digits(v@.subrange(lo as int, hi as int)),
{
    let mut i = lo;
    while i < hi
        invariant
            lo <= i <= hi <= v@.len(),
            forall|k: int| lo <= k < i ==> is_digit(#[trigger] v@[k]),
        decreases hi - i,
    {
        if !digit(v[i]) {
            assert(v@.subrange(lo as int, hi as int)[i - lo] == v@[i as int]);
            return false;
        }
        i += 1;
    }
    assert forall|k: int| 0 <= k < hi - lo implies is_digit(
        #[trigger] v@.subrange(lo as int, hi as int)[k],
    ) by {
        assert(v@.subrange(lo as int, hi as int)[k] == v@[lo + k]);
    }
    true
}


/// The parts of `s[0..i]` split at `sep`: the finished parts and the current one.
pub open spec fn split_acc_on(s: Seq<char>, sep: char, i: int) -> (Seq<Seq<char>>, Seq<char>)
    decreases i,
{
    if i <= 0 {
        (Seq::empty(), Seq::empty())
    } else {
        let (ps, cur) = split_acc_on(s, sep, i - 1);
        if s[i - 1] == sep {
            (ps.push(cur), Seq::empty())
        } else {
            (ps, cur.push(s[i - 1]))
        }
    }
}

/// `s` split at every `sep`.
pub open spec fn split_on(s: Seq<char>, sep: char) -> Seq<Seq<char>> {
    let (ps, cur) = split_acc_on(s, sep, s.len() as int);
    ps.push(cur)
}

pub open spec fn char_views(v: Seq<Vec<char>>) -> Seq<Seq<char>> {
    v.map_values(|p: Vec<char>| p@)
}

/// `v` split at every `sep`.
pub fn split_chars(v: &[char], sep: char) -> (r: Vec<Vec<char>>)
    ensures
        char_views(r@) == split_on(v@, sep),
{
    let mut parts: Vec<Vec<char>> = Vec::new();
    let mut cur: Vec<char> = Vec::new();
    let mut i: usize = 0;
    while i < v.len()
        invariant
            i <= v@.len(),
            split_acc_on(v@, sep, i as int) == (char_views(parts@), cur@),
        decreases v.len() - i,
    {
        if v[i] == sep {
            let ghost before = char_views(parts@);
            let done = cur;
            parts.push(done);
            assert(char_views(parts@) =~= before.push(done@));
            cur = Vec::new();
        } else {
            cur.push(v[i]);
        }
        i += 1;
    }
    let ghost before = char_views(parts@);
    let last = cur;
    parts.push(last);
    assert(char_views(parts@) =~= before.push(last@));
    parts
}

} // verus!
