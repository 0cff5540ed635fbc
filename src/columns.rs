//! Page-level decisions on integer data: the two-column gap in a histogram of
//! word coverage, the weighted mode of font-size keys, and page-number text.
use vstd::prelude::*;

use crate::text::{chars_of, digit, is_digit, trim, trimmed};

verus! {

/// The first bin of the middle part of the page that is searched for a gap.
pub open spec fn gap_lo(n: int) -> int {
    n * 30 / 100
}

/// The end (exclusive) of the middle part of the page.
pub open spec fn gap_hi(n: int) -> int {
    n * 70 / 100
}

/// Whether bin `i` is sparse: covered by at most a tenth of the lines.
pub open spec fn sparse(c: Seq<u32>, i: int, num_lines: usize) -> bool {
    c[i] as int <= num_lines as int / 10
}

/// Whether the `n` bins from `s` are all sparse.
pub open spec fn low_run(c: Seq<u32>, s: int, n: int, num_lines: usize) -> bool {
    forall|i: int| s <= i < s + n ==> #[trigger] sparse(c, i, num_lines)
}

/// The widest run of bins in `coverage[len*30/100 .. len*70/100]` whose count
/// is at most `num_lines / 10`: its first bin and its length; the earliest
/// among equally wide runs; none when no bin qualifies.
pub fn widest_gap(coverage: &Vec<u32>, num_lines: usize) -> (r: Option<(usize, usize)>)
    requires
        coverage@.len() * 100 <= usize::MAX,
    ensures
        r is None <==> forall|i: int| gap_lo(coverage@.len() as int) <= i < gap_hi(coverage@.len() as int)
            ==> !#[trigger] sparse(coverage@, i, num_lines),
        r matches Some((s, n)) ==> n >= 1 && gap_lo(coverage@.len() as int) <= s && s + n <= gap_hi(
            coverage@.len() as int,
        ) && low_run(coverage@, s as int, n as int, num_lines) && (forall|t: int, m: int|
            gap_lo(coverage@.len() as int) <= t && t + m <= gap_hi(coverage@.len() as int) && low_run(
                coverage@,
                t,
                m,
                num_lines,
            ) ==> m <= n) && (forall|t: int|
            gap_lo(coverage@.len() as int) <= t && t + n <= gap_hi(coverage@.len() as int) && low_run(
                coverage@,
                t,
                n as int,
                num_lines,
            ) ==> s <= t),
{
    let len = coverage.len();
    let lo = len * 30 / 100;
    let hi = len * 70 / 100;
    let threshold = num_lines / 10;
    let ghost c = coverage@;
    let mut best_start: usize = lo;
    let mut best_len: usize = 0;
    let mut gap_start: usize = lo;
    let mut in_gap = false;
    let mut i = lo;
    while i < hi
        invariant
            c == coverage@,
            lo == gap_lo(c.len() as int),
            hi == gap_hi(c.len() as int),
            lo <= hi <= c.len(),
            threshold == num_lines / 10,
            lo <= i <= hi,
            in_gap ==> lo <= gap_start < i && low_run(c, gap_start as int, i - gap_start, num_lines)
                && (gap_start == lo || !sparse(c, gap_start - 1, num_lines)),
            !in_gap ==> (i == lo || !sparse(c, i - 1, num_lines)),
            best_len > 0 ==> lo <= best_start && best_start + best_len <= i && low_run(
                c,
                best_start as int,
                best_len as int,
                num_lines,
            ),
            forall|t: int, m: int|
                lo <= t && m >= 1 && t + m <= i && low_run(c, t, m, num_lines) ==> m <= best_len,
            forall|t: int|
                lo <= t && best_len >= 1 && t + best_len <= i && low_run(c, t, best_len as int, num_lines)
                    ==> best_start <= t,
            best_len == 0 ==> forall|k: int| lo <= k < i ==> !#[trigger] sparse(c, k, num_lines),
        decreases hi - i,
    {
        let val = coverage[i];
        if (val as usize) <= threshold {
            if !in_gap {
                gap_start = i;
                in_gap = true;
            }
            let gap_len = i - gap_start + 1;
            proof {
                assert(low_run(c, gap_start as int, gap_len as int, num_lines));
                assert forall|t: int, m: int|
                    lo <= t && m >= 1 && t + m == i + 1 && low_run(c, t, m, num_lines) implies m
                    <= gap_len by {
                    if t < gap_start {
                        assert(sparse(c, gap_start - 1, num_lines));
                    }
                }
            }
            if gap_len > best_len {
                proof {
                    assert forall|t: int|
                        lo <= t && t + gap_len <= i + 1 && low_run(c, t, gap_len as int, num_lines)
                            implies gap_start <= t by {
                        if t + gap_len <= i {
                            assert(gap_len <= best_len);
                        }
                    }
                }
                best_len = gap_len;
                best_start = gap_start;
            }
        } else {
            in_gap = false;
            proof {
                assert forall|t: int, m: int|
                    lo <= t && m >= 1 && t + m == i + 1 implies !low_run(c, t, m, num_lines) by {
                    assert(!sparse(c, i as int, num_lines));
                }
            }
        }
        i += 1;
    }
    if best_len < 1 {
        return None;
    }
    proof {
        assert forall|t: int, m: int|
            gap_lo(c.len() as int) <= t && t + m <= gap_hi(c.len() as int) && low_run(c, t, m, num_lines)
                implies m <= best_len by {
            if m >= 1 {
            }
        }
        assert(exists|k: int| lo <= k < hi && sparse(c, k, num_lines)) by {
            assert(sparse(c, best_start as int, num_lines));
        }
    }
    Some((best_start, best_len))
}


/// Whether a block's text is a page number: once trimmed, non-empty and made
/// of ASCII digits and `-` only.
pub open spec fn page_number_text(s: Seq<char>) -> bool {
    let t = trim(s);
    t.len() > 0 && forall|k: int| 0 <= k < t.len() ==> is_digit(#[trigger] t[k]) || t[k] == '-'
}

pub fn is_page_number_text(text: &str) -> (r: bool)
    ensures
        r == page_number_text(text@),
{
    let t = trimmed(&chars_of(text));
    assert(t@ == trim(text@));
    if t.len() == 0 {
        return false;
    }
    let mut k: usize = 0;
    while k < t.len()
        invariant
            k <= t@.len(),
            t@ == trim(text@),
            t@.len() > 0,
            forall|m: int| 0 <= m < k ==> is_digit(#[trigger] t@[m]) || t@[m] == '-',
        decreases t.len() - k,
    {
        if !(digit(t[k]) || t[k] == '-') {
            assert(!(is_digit(t@[k as int]) || t@[k as int] == '-'));
            return false;
        }
        k += 1;
    }
    true
}

/// The index of the entry with key `k` in `t[i..]`.
pub open spec fn tally_pos(t: Seq<(i32, usize)>, k: i32, i: int) -> Option<int>
    decreases t.len() - i,
{
    if i < 0 || i >= t.len() {
        None
    } else if t[i].0 == k {
        Some(i)
    } else {
        tally_pos(t, k, i + 1)
    }
}

/// A count increased by `w`, held at the largest `usize`.
pub open spec fn add_sat(c: usize, w: usize) -> usize {
    if c as int + w as int > usize::MAX { usize::MAX } else { (c + w) as usize }
}

/// The total weight of each key among `ks[0..hi]`, keys in order of first
/// appearance.
pub open spec fn tally(ks: Seq<i32>, ws: Seq<usize>, hi: int) -> Seq<(i32, usize)>
    decreases hi,
{
    if hi <= 0 {
        Seq::empty()
    } else {
        let t = tally(ks, ws, hi - 1);
        match tally_pos(t, ks[hi - 1], 0) {
            Some(p) => t.update(p, (t[p].0, add_sat(t[p].1, ws[hi - 1]))),
            None => t.push((ks[hi - 1], ws[hi - 1])),
        }
    }
}

/// The index of the greatest total among `t[0..hi]`, the last of equal ones.
pub open spec fn last_max(t: Seq<(i32, usize)>, hi: int) -> Option<int>
    decreases hi,
{
    if hi <= 0 {
        None
    } else {
        match last_max(t, hi - 1) {
            Some(b) => if t[hi - 1].1 >= t[b].1 { Some(hi - 1) } else { Some(b) },
            None => Some(hi - 1),
        }
    }
}

/// The key with the greatest total weight (the last such in order of first
/// appearance), none when there are no keys.
pub open spec fn weighted_mode_spec(ks: Seq<i32>, ws: Seq<usize>) -> Option<i32> {
    let t = tally(ks, ws, ks.len() as int);
    match last_max(t, t.len() as int) {
        Some(b) => Some(t[b].0),
        None => None,
    }
}

proof fn lemma_last_max(t: Seq<(i32, usize)>, hi: int)
    requires
        0 <= hi <= t.len(),
    ensures
        last_max(t, hi) matches Some(b) ==> 0 <= b < hi,
        hi > 0 ==> last_max(t, hi) is Some,
    decreases hi,
{
    if hi > 0 {
        lemma_last_max(t, hi - 1);
    }
}

/// The weighted mode of the keys: each key weighs `ws[i]`.
pub fn weighted_mode(ks: &Vec<i32>, ws: &Vec<usize>) -> (r: Option<i32>)
    requires
        ks@.len() == ws@.len(),
    ensures
        r == weighted_mode_spec(ks@, ws@),
{
    let mut t: Vec<(i32, usize)> = Vec::new();
    let mut i: usize = 0;
    while i < ks.len()
        invariant
            i <= ks@.len() == ws@.len(),
            t@ == tally(ks@, ws@, i as int),
        decreases ks.len() - i,
    {
        let k = ks[i];
        let mut p: usize = 0;
        while p < t.len() && t[p].0 != k
            invariant
                p <= t@.len(),
                tally_pos(t@, k, p as int) == tally_pos(t@, k, 0),
            decreases t.len() - p,
        {
            p += 1;
        }
        if p < t.len() {
            let (key, c) = t[p];
            let w = ws[i];
            let n = if c > usize::MAX - w { usize::MAX } else { c + w };
            t.set(p, (key, n));
        } else {
            t.push((k, ws[i]));
        }
        i += 1;
    }
    let ghost tv = t@;
    let mut best: Option<usize> = None;
    let mut j: usize = 0;
    while j < t.len()
        invariant
            j <= t@.len(),
            tv == t@,
            best matches Some(b) ==> b < j && last_max(tv, j as int) == Some(b as int),
            best is None ==> last_max(tv, j as int) is None,
        decreases t.len() - j,
    {
        match best {
            Some(b) => {
                if t[j].1 >= t[b].1 {
                    best = Some(j);
                }
            },
            None => {
                best = Some(j);
            },
        }
        j += 1;
    }
    match best {
        Some(b) => Some(t[b].0),
        None => None,
    }
}

} // verus!
