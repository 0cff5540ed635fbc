//! The steps between the stages: splitting references at semicolons and
//! resolving `ibid` placeholders across records.
use vstd::prelude::*;

use crate::parse::{
    arxiv_subs, ibid_lit, ibid_subs, journal_subs, num_from, parse_spec, primary_ref,
    views, with_journal_info, with_identifiers, with_standalone_ibid, without_spurious_journal, blank_ref, first_kind,
};
use crate::types::TokenKind;
use crate::kb::KnowledgeBase;
use crate::tokenizer::tokenize;
use crate::text::{
    chars_of, has_sub, is_digit, lit, string_all, trim, trimmed, digit, find_sub,
};
use crate::types::{sv, ParsedReference, RawFields, RawReference, RefFields, Token};
use crate::tokenizer::{token_views, tvs};

verus! {

/// A four-digit year from 1900 to 2099 starts at `i`.
pub open spec fn year_at(s: Seq<char>, i: int) -> bool {
    0 <= i && i + 4 <= s.len() && ((s[i] == '1' && s[i + 1] == '9') || (s[i] == '2' && s[i + 1]
        == '0')) && is_digit(s[i + 2]) && is_digit(s[i + 3])
}

/// `s` holds a four-digit year from 1900 to 2099.
pub open spec fn has_year(s: Seq<char>) -> bool {
    exists|i: int| #[trigger] year_at(s, i)
}

pub fn year_at_exec(v: &[char], i: usize) -> (r: bool)
    ensures
        r == year_at(v@, i as int),
{
    if i > v.len() || v.len() - i < 4 {
        return false;
    }
    ((v[i] == '1' && v[i + 1] == '9') || (v[i] == '2' && v[i + 1] == '0')) && digit(v[i + 2])
        && digit(v[i + 3])
}

pub fn contains_year(v: &[char]) -> (r: bool)
    ensures
        r == has_year(v@),
{
    let mut i: usize = 0;
    while i < v.len()
        invariant
            i <= v@.len(),
            forall|k: int| 0 <= k < i ==> !#[trigger] year_at(v@, k),
        decreases v.len() - i,
    {
        if year_at_exec(v, i) {
            return true;
        }
        i += 1;
    }
    assert forall|k: int| !#[trigger] year_at(v@, k) by {
        if 0 <= k < i {
        }
    }
    false
}

/// The markers of a citation that semicolon splitting looks for besides a year.
pub open spec fn citation_words() -> Seq<Seq<char>> {
    seq![
        "arXiv"@, "hep-"@, "astro-"@, "gr-qc"@, "cond-mat"@, "nucl-"@, "math-"@,
        "quant-ph"@, "physics/"@, "doi"@, "DOI"@, "Preprint"@, "preprint"@
    ]
}

/// Whether a fragment looks like a citation: a year, an arXiv prefix, a DOI
/// or a preprint mention.
pub open spec fn looks_like_citation_spec(s: Seq<char>) -> bool {
    has_year(s) || exists|k: int| 0 <= k < citation_words().len() && has_sub(s, #[trigger] citation_words()[k])
}

/// Whether a fragment looks like a citation.
pub fn looks_like_citation(text: &Vec<char>) -> (r: bool)
    ensures
        r == looks_like_citation_spec(text@),
{
    if contains_year(text.as_slice()) {
        return true;
    }
    let words: Vec<&str> = vec![
        "arXiv", "hep-", "astro-", "gr-qc", "cond-mat", "nucl-", "math-", "quant-ph", "physics/",
        "doi", "DOI", "Preprint", "preprint",
    ];
    assert(words@.len() == citation_words().len());
    let mut k: usize = 0;
    while k < words.len()
        invariant
            k <= words@.len(),
            words@.len() == citation_words().len(),
            forall|m: int| 0 <= m < words@.len() ==> (#[trigger] words@[m])@ == citation_words()[m],
            forall|m: int| 0 <= m < k ==> !has_sub(text@, #[trigger] citation_words()[m]),
        decreases words.len() - k,
    {
        let w = lit(words[k]);
        if find_sub(text.as_slice(), w.as_slice()).is_some() {
            return true;
        }
        k += 1;
    }
    false
}

/// The parts of `s[0..i]` split at `;`: the finished parts and the current one.
pub open spec fn split_acc(s: Seq<char>, i: int) -> (Seq<Seq<char>>, Seq<char>)
    decreases i,
{
    if i <= 0 {
        (Seq::empty(), Seq::empty())
    } else {
        let (ps, cur) = split_acc(s, i - 1);
        if s[i - 1] == ';' {
            (ps.push(cur), Seq::empty())
        } else {
            (ps, cur.push(s[i - 1]))
        }
    }
}

/// `s` split at every `;`.
pub open spec fn split_semi(s: Seq<char>) -> Seq<Seq<char>> {
    let (ps, cur) = split_acc(s, s.len() as int);
    ps.push(cur)
}

/// The trimmed parts among `ps[0..hi]` that are not empty.
pub open spec fn kept_parts(ps: Seq<Seq<char>>, hi: int) -> Seq<Seq<char>>
    decreases hi,
{
    if hi <= 0 {
        Seq::empty()
    } else if trim(ps[hi - 1]).len() > 0 {
        kept_parts(ps, hi - 1).push(trim(ps[hi - 1]))
    } else {
        kept_parts(ps, hi - 1)
    }
}

/// How many of `ps[0..hi]` look like citations.
pub open spec fn citation_count(ps: Seq<Seq<char>>, hi: int) -> int
    decreases hi,
{
    if hi <= 0 {
        0
    } else {
        citation_count(ps, hi - 1) + if looks_like_citation_spec(ps[hi - 1]) {
            1int
        } else {
            0
        }
    }
}

/// A reference with the text replaced.
pub open spec fn with_text(r: RawFields, t: Seq<char>) -> RawFields {
    RawFields { text: t, ..r }
}

/// The trimmed non-empty semicolon parts of a reference.
pub open spec fn semicolon_parts(r: RawFields) -> Seq<Seq<char>> {
    let ps = split_semi(r.text);
    kept_parts(ps, ps.len() as int)
}

/// One reference, split into its semicolon parts where at least two of them
/// look like citations; otherwise unchanged.
pub open spec fn split_one(r: RawFields) -> Seq<RawFields> {
    let kept = semicolon_parts(r);
    if kept.len() > 1 && citation_count(kept, kept.len() as int) >= 2 {
        kept.map_values(|t: Seq<char>| with_text(r, t))
    } else {
        seq![r]
    }
}

/// Every reference of `v[0..hi]` split at semicolons, in order.
pub open spec fn split_all(v: Seq<RawFields>, hi: int) -> Seq<RawFields>
    decreases hi,
{
    if hi <= 0 {
        Seq::empty()
    } else {
        split_all(v, hi - 1) + split_one(v[hi - 1])
    }
}

pub open spec fn raw_views(v: Seq<RawReference>) -> Seq<RawFields> {
    v.map_values(|r: RawReference| r@)
}

/// The semicolon parts of `text`, trimmed, without the empty ones.
fn semicolon_split(text: &Vec<char>) -> (r: Vec<Vec<char>>)
    ensures
        r@.map_values(|p: Vec<char>| p@) == kept_parts(split_semi(text@), split_semi(text@).len() as int),
{
    let ghost s = text@;
    let mut parts: Vec<Vec<char>> = Vec::new();
    let mut cur: Vec<char> = Vec::new();
    let ghost mut raw_parts: Seq<Seq<char>> = Seq::empty();
    let mut i: usize = 0;
    while i < text.len()
        invariant
            i <= s.len(),
            s == text@,
            split_acc(s, i as int) == (raw_parts, cur@),
            parts@.map_values(|p: Vec<char>| p@) == kept_parts(raw_parts, raw_parts.len() as int),
        decreases text.len() - i,
    {
        if text[i] == ';' {
            let t = trimmed(&cur);
            let ghost old_parts = raw_parts;
            proof {
                raw_parts = raw_parts.push(cur@);
                assert(raw_parts.drop_last() =~= old_parts);
                assert(kept_parts(raw_parts, raw_parts.len() - 1) == kept_parts(old_parts, old_parts.len() as int)) by {
                    lemma_kept_parts_prefix(raw_parts, old_parts, old_parts.len() as int);
                }
            }
            if t.len() > 0 {
                let ghost before = parts@.map_values(|p: Vec<char>| p@);
                parts.push(t);
                assert(parts@.map_values(|p: Vec<char>| p@) =~= before.push(trim(cur@)));
            }
            cur = Vec::new();
        } else {
            cur.push(text[i]);
        }
        i += 1;
    }
    let t = trimmed(&cur);
    let ghost old_parts = raw_parts;
    proof {
        raw_parts = raw_parts.push(cur@);
        lemma_kept_parts_prefix(raw_parts, old_parts, old_parts.len() as int);
    }
    if t.len() > 0 {
        let ghost before = parts@.map_values(|p: Vec<char>| p@);
        parts.push(t);
        assert(parts@.map_values(|p: Vec<char>| p@) =~= before.push(trim(cur@)));
    }
    assert(split_semi(s) == raw_parts);
    parts
}

proof fn lemma_kept_parts_prefix(a: Seq<Seq<char>>, b: Seq<Seq<char>>, hi: int)
    requires
        0 <= hi <= b.len(),
        hi <= a.len(),
        forall|k: int| 0 <= k < hi ==> a[k] == b[k],
    ensures
        kept_parts(a, hi) == kept_parts(b, hi),
    decreases hi,
{
    if hi > 0 {
        lemma_kept_parts_prefix(a, b, hi - 1);
    }
}

/// Split references whose text holds semicolons into sub-references, where at
/// least two parts look like citations. Marker, source and page carry over.
pub fn split_semicolon_subrefs(refs: Vec<RawReference>) -> (r: Vec<RawReference>)
    ensures
        raw_views(r@) == split_all(raw_views(refs@), refs@.len() as int),
{
    let mut result: Vec<RawReference> = Vec::new();
    let mut i: usize = 0;
    while i < refs.len()
        invariant
            i <= refs@.len(),
            raw_views(result@) == split_all(raw_views(refs@), i as int),
        decreases refs.len() - i,
    {
        let raw = &refs[i];
        let text = chars_of(raw.text.as_str());
        let parts = semicolon_split(&text);
        let ghost kept = parts@.map_values(|p: Vec<char>| p@);
        let mut count: usize = 0;
        let mut k: usize = 0;
        while k < parts.len()
            invariant
                k <= parts@.len(),
                kept == parts@.map_values(|p: Vec<char>| p@),
                count == citation_count(kept, k as int),
                count <= k,
            decreases parts.len() - k,
        {
            if looks_like_citation(&parts[k]) {
                count += 1;
            }
            k += 1;
        }
        let ghost before = raw_views(result@);
        assert(raw_views(refs@)[i as int] == raw@);
        if parts.len() > 1 && count >= 2 {
            let mut m: usize = 0;
            while m < parts.len()
                invariant
                    m <= parts@.len(),
                    kept == parts@.map_values(|p: Vec<char>| p@),
                    raw_views(result@) == before + kept.subrange(0, m as int).map_values(
                        |t: Seq<char>| with_text(raw@, t),
                    ),
                decreases parts.len() - m,
            {
                let piece = RawReference {
                    text: string_all(parts[m].as_slice()),
                    linemarker: crate::types::copy_opt(&raw.linemarker),
                    source: raw.source,
                    page_num: raw.page_num,
                };
                assert(kept[m as int] == parts@[m as int]@);
                assert(piece@ == with_text(raw@, kept[m as int]));
                let ghost mid = raw_views(result@);
                result.push(piece);
                assert(raw_views(result@) =~= mid.push(piece@));
                assert(kept.subrange(0, m + 1) =~= kept.subrange(0, m as int).push(kept[m as int]));
                assert(kept.subrange(0, m + 1).map_values(|t: Seq<char>| with_text(raw@, t))
                    =~= kept.subrange(0, m as int).map_values(|t: Seq<char>| with_text(raw@, t)).push(
                    with_text(raw@, kept[m as int]),
                ));
                assert(raw_views(result@) =~= before + kept.subrange(0, m + 1).map_values(
                    |t: Seq<char>| with_text(raw@, t),
                ));
                m += 1;
            }
            assert(kept.subrange(0, kept.len() as int) =~= kept);
        } else {
            result.push(raw.copy());
            assert(raw_views(result@) =~= before + seq![raw@]);
        }
        assert(split_all(raw_views(refs@), i + 1) == before + split_one(raw@));
        i += 1;
    }
    result
}

// ── ibid resolution ────────────────────────────────────────────────────────

/// Whether a record's journal is concrete: set, and not the placeholder.
pub open spec fn concrete_journal(r: RefFields) -> bool {
    r.journal_title is Some && r.journal_title != Some(ibid_lit())
}

/// The nearest index below `j` whose record shares marker `m` and has a
/// concrete journal.
pub open spec fn nearest_below(v: Seq<RefFields>, m: Option<Seq<char>>, j: int) -> Option<int>
    decreases j,
{
    if j <= 0 {
        None
    } else if v[j - 1].linemarker == m && concrete_journal(v[j - 1]) {
        Some(j - 1)
    } else {
        nearest_below(v, m, j - 1)
    }
}

/// The records after the resolution pass has looked at `v[0..i]`.
pub open spec fn resolved_upto(v: Seq<RefFields>, i: int) -> Seq<RefFields>
    decreases i,
{
    if i <= 0 {
        v
    } else {
        let w = resolved_upto(v, i - 1);
        if w[i - 1].journal_title == Some(ibid_lit()) {
            match nearest_below(w, w[i - 1].linemarker, i - 1) {
                Some(j) => w.update(
                    i - 1,
                    RefFields { journal_title: w[j].journal_title, ..w[i - 1] },
                ),
                None => w,
            }
        } else {
            w
        }
    }
}

/// The records after the resolution pass.
pub open spec fn resolved(v: Seq<RefFields>) -> Seq<RefFields> {
    resolved_upto(v, v.len() as int)
}

/// Rewrite each `ibid` placeholder to the journal of the nearest earlier record
/// with the same line marker and a concrete journal; placeholders without one
/// stay as they are.
pub fn resolve_ibid_journals(refs: &mut Vec<ParsedReference>)
    ensures
        views(final(refs)@) == resolved(views(old(refs)@)),
{
    let ghost v0 = views(refs@);
    let n = refs.len();
    let mut i: usize = 0;
    while i < n
        invariant
            n == refs@.len(),
            i <= n,
            v0.len() == n,
            views(refs@) == resolved_upto(v0, i as int),
        decreases n - i,
    {
        proof {
            lemma_resolved_len(v0, i as int);
        }
        let placeholder = match &refs[i].journal_title {
            Some(t) => is_ibid_title(t),
            None => false,
        };
        let ghost w = views(refs@);
        assert(w[i as int] == refs@[i as int]@);
        if placeholder {
            let mut j = i;
            let mut target: Option<usize> = None;
            while j > 0
                invariant_except_break
                    target is None,
                invariant
                    j <= i < n == refs@.len(),
                    w == views(refs@),
                    nearest_below(w, w[i as int].linemarker, i as int) == nearest_below(
                        w,
                        w[i as int].linemarker,
                        j as int,
                    ),
                ensures
                    target matches Some(t) ==> t < i && nearest_below(w, w[i as int].linemarker, i as int) == Some(t as int),
                    target is None ==> nearest_below(w, w[i as int].linemarker, i as int) is None,
                decreases j,
            {
                assert(w[j - 1] == refs@[j - 1]@);
                assert(w[i as int] == refs@[i as int]@);
                let same = crate::types::same_opt(&refs[j - 1].linemarker, &refs[i].linemarker);
                let concrete = match &refs[j - 1].journal_title {
                    Some(t) => !is_ibid_title(t),
                    None => false,
                };
                if same && concrete {
                    target = Some(j - 1);
                    break;
                }
                j -= 1;
            }
            if let Some(j) = target {
                let t = crate::types::copy_opt(&refs[j].journal_title);
                let mut r = refs[i].copy();
                r.journal_title = t;
                refs.set(i, r);
                assert(views(refs@) =~= w.update(
                    i as int,
                    RefFields { journal_title: w[j as int].journal_title, ..w[i as int] },
                ));
            }
        }
        i += 1;
    }
}

/// Whether a title is the `ibid` placeholder.
fn is_ibid_title(s: &String) -> (r: bool)
    ensures
        r == (s@ == ibid_lit()),
{
    let c = chars_of(s.as_str());
    let ib = lit("ibid");
    proof {
        reveal_strlit("ibid");
    }
    let r = c.len() == 4 && crate::text::has_at(c.as_slice(), 0, ib.as_slice());
    proof {
        if c@.len() == 4 {
            assert(c@.subrange(0, 4) =~= c@);
        }
        assert(ib@ =~= ibid_lit());
    }
    r
}

proof fn lemma_resolved_len(v: Seq<RefFields>, i: int)
    requires
        0 <= i <= v.len(),
    ensures
        resolved_upto(v, i).len() == v.len(),
    decreases i,
{
    if i > 0 {
        lemma_resolved_len(v, i - 1);
    }
}


// ── Laws ───────────────────────────────────────────────────────────────────

/// A record with a volume has a journal.
pub open spec fn volume_has_journal(r: RefFields) -> bool {
    r.journal_volume is Some ==> r.journal_title is Some
}

pub open spec fn all_volumes_have_journals(v: Seq<RefFields>) -> bool {
    forall|k: int| 0 <= k < v.len() ==> volume_has_journal(#[trigger] v[k])
}

proof fn lemma_num_keeps_journal(w: Seq<Token>, i: int, r: RefFields, f: bool)
    requires
        r.journal_title is Some,
    ensures
        num_from(w, i, r, f).journal_title is Some,
    decreases w.len() - i,
{
    if !(i < 0 || i >= w.len() || i >= 8 || crate::parse::stops_numeration(w[i].kind)) {
        let (r2, f2) = crate::parse::num_step(r, f, w[i]);
        lemma_num_keeps_journal(w, i + 1, r2, f2);
    }
}

proof fn lemma_journal_subs(raw: RawReference, ts: Seq<Token>, p: RefFields, hi: int)
    ensures
        all_volumes_have_journals(journal_subs(raw, ts, p, hi)),
    decreases hi,
{
    if hi > 0 {
        lemma_journal_subs(raw, ts, p, hi - 1);
        if crate::parse::later_journal(ts, hi - 1) {
            let j = hi - 1;
            let e = crate::parse::segment_end(ts, j);
            let base = RefFields {
                arxiv_id: crate::parse::first_text_in(ts, TokenKind::ArxivId, j, e),
                doi: crate::parse::first_text_in(ts, TokenKind::Doi, j, e),
                ..crate::parse::sub_base(raw, crate::parse::segment_text(ts, j, e), p, Some(crate::parse::tok_value(ts[j])))
            };
            lemma_num_keeps_journal(ts.subrange(j + 1, crate::parse::min(e, j + 9)), 0, base, false);
        }
    }
}

proof fn lemma_ibid_subs(raw: RawReference, ts: Seq<Token>, p: RefFields, hi: int)
    ensures
        all_volumes_have_journals(ibid_subs(raw, ts, p, hi)),
    decreases hi,
{
    if hi > 0 && p.journal_title is Some && p.journal_title != Some(ibid_lit()) {
        lemma_ibid_subs(raw, ts, p, hi - 1);
        lemma_num_keeps_journal(
            ts.subrange(hi, crate::parse::min(hi + 8, ts.len() as int)),
            0,
            crate::parse::sub_base(raw, crate::parse::ibid_text(ts, hi - 1), p, p.journal_title),
            false,
        );
    }
}

proof fn lemma_arxiv_subs(raw: RawReference, ts: Seq<Token>, p: RefFields, hi: int)
    ensures
        all_volumes_have_journals(arxiv_subs(raw, ts, p, hi)),
    decreases hi,
{
    if hi > 0 {
        lemma_arxiv_subs(raw, ts, p, hi - 1);
    }
}

/// Every record that parsing emits and that has a volume also has a journal.
pub proof fn lemma_parsed_volume_has_journal(raw: RawReference, ts: Seq<Token>)
    ensures
        all_volumes_have_journals(parse_spec(raw, ts)),
{
    let p = primary_ref(raw, ts);
    let r0 = with_identifiers(blank_ref(raw), ts);
    let r1 = with_journal_info(r0, ts);
    let r2 = without_spurious_journal(r1);
    assert(volume_has_journal(r2)) by {
        if first_kind(ts, TokenKind::JournalName) is Some {
            let j = first_kind(ts, TokenKind::JournalName)->0;
            let a = RefFields { journal_title: Some(crate::parse::tok_value(ts[j])), ..r0 };
            lemma_num_keeps_journal(ts.subrange(j + 1, ts.len() as int), 0, a, false);
        }
    }
    let r3 = if r2.journal_title is None {
        with_standalone_ibid(r2, ts)
    } else {
        r2
    };
    assert(volume_has_journal(r3));
    assert(volume_has_journal(p));
    let n = ts.len() as int;
    lemma_journal_subs(raw, ts, p, n);
    lemma_ibid_subs(raw, ts, p, n);
    lemma_arxiv_subs(raw, ts, p, n);
    let all = parse_spec(raw, ts);
    let a = journal_subs(raw, ts, p, n);
    let b = ibid_subs(raw, ts, p, n);
    let c = arxiv_subs(raw, ts, p, n);
    assert forall|k: int| 0 <= k < all.len() implies volume_has_journal(#[trigger] all[k]) by {
        if k == 0 {
        } else if k < 1 + a.len() {
            assert(all[k] == a[k - 1]);
        } else if k < 1 + a.len() + b.len() {
            assert(all[k] == b[k - 1 - a.len()]);
        } else {
            assert(all[k] == c[k - 1 - a.len() - b.len()]);
        }
    }
}

proof fn lemma_nearest_frame(w1: Seq<RefFields>, w2: Seq<RefFields>, m: Option<Seq<char>>, k: int)
    requires
        0 <= k <= w1.len(),
        k <= w2.len(),
        forall|x: int| 0 <= x < k ==> w1[x] == w2[x],
    ensures
        nearest_below(w1, m, k) == nearest_below(w2, m, k),
    decreases k,
{
    if k > 0 {
        lemma_nearest_frame(w1, w2, m, k - 1);
    }
}

proof fn lemma_nearest_found(w: Seq<RefFields>, m: Option<Seq<char>>, k: int)
    requires
        0 <= k <= w.len(),
    ensures
        nearest_below(w, m, k) matches Some(j) ==> 0 <= j < k && w[j].linemarker == m
            && concrete_journal(w[j]),
    decreases k,
{
    if k > 0 {
        lemma_nearest_found(w, m, k - 1);
    }
}

/// No placeholder among `w[0..i]` that an earlier record could resolve.
pub open spec fn settled_upto(w: Seq<RefFields>, i: int) -> bool {
    forall|k: int|
        0 <= k < i && #[trigger] w[k].journal_title == Some(ibid_lit()) ==> nearest_below(
            w,
            w[k].linemarker,
            k,
        ) is None
}

proof fn lemma_resolved_step(v: Seq<RefFields>, i: int)
    requires
        0 <= i <= v.len(),
        all_volumes_have_journals(v),
    ensures
        resolved_upto(v, i).len() == v.len(),
        all_volumes_have_journals(resolved_upto(v, i)),
        settled_upto(resolved_upto(v, i), i),
        forall|x: int| i <= x < v.len() ==> #[trigger] resolved_upto(v, i)[x] == v[x],
    decreases i,
{
    if i > 0 {
        lemma_resolved_step(v, i - 1);
        let w = resolved_upto(v, i - 1);
        let u = resolved_upto(v, i);
        let m = w[i - 1].linemarker;
        lemma_nearest_found(w, m, i - 1);
        assert forall|x: int| 0 <= x < i - 1 implies w[x] == u[x] by {}
        assert forall|k: int|
            0 <= k < i && #[trigger] u[k].journal_title == Some(ibid_lit()) implies nearest_below(
            u,
            u[k].linemarker,
            k,
        ) is None by {
            lemma_nearest_frame(w, u, u[k].linemarker, k);
            if k == i - 1 {
                if w[k].journal_title == Some(ibid_lit()) && nearest_below(w, m, k) is Some {
                    let j = nearest_below(w, m, k)->0;
                    assert(u[k].journal_title == w[j].journal_title);
                }
            } else {
                assert(u[k] == w[k]);
            }
        }
        assert forall|k: int| 0 <= k < u.len() implies volume_has_journal(#[trigger] u[k]) by {
            assert(volume_has_journal(w[k]));
        }
    }
}

/// After the resolution pass every record with a volume still has a journal,
/// and the placeholder `ibid` remains only on records that no earlier record
/// with the same line marker and a concrete journal precedes.
pub proof fn lemma_resolution_settles(v: Seq<RefFields>)
    requires
        all_volumes_have_journals(v),
    ensures
        all_volumes_have_journals(resolved(v)),
        forall|k: int|
            0 <= k < resolved(v).len() && #[trigger] resolved(v)[k].journal_title == Some(ibid_lit())
                ==> nearest_below(resolved(v), resolved(v)[k].linemarker, k) is None,
{
    lemma_resolved_step(v, v.len() as int);
}


/// Parsing a reference twice with the same knowledge base gives identical
/// records: the two token sequences that `tokenize` gives agree on their
/// views, and parsing reads tokens only through their views.
pub proof fn lemma_parse_twice(
    kb: KnowledgeBase,
    raw: RawReference,
    t1: Seq<Token>,
    t2: Seq<Token>,
    a: Seq<ParsedReference>,
    b: Seq<ParsedReference>,
)
    requires
        tvs(t1) == token_views(kb, raw.text@),
        tvs(t2) == token_views(kb, raw.text@),
        views(a) == parse_spec(raw, t1),
        views(b) == parse_spec(raw, t2),
    ensures
        views(a) == views(b),
{
    assert(t1.len() == tvs(t1).len() && t2.len() == tvs(t2).len());
    assert forall|i: int| 0 <= i < t1.len() implies (#[trigger] t1[i]).kind == t2[i].kind && t1[i].text@ == t2[i].text@
        && sv(t1[i].normalized) == sv(t2[i].normalized) by {
        assert(tvs(t1)[i] == crate::tokenizer::tv(t1[i]));
        assert(tvs(t2)[i] == crate::tokenizer::tv(t2[i]));
    }
    crate::parse::lemma_parse_same_tokens(raw, t1, t2);
}

/// No journal-name token of `ts` has the placeholder as its canonical form.
pub open spec fn no_ibid_journal(ts: Seq<Token>) -> bool {
    forall|j: int| 0 <= j < ts.len() && (#[trigger] ts[j]).kind == TokenKind::JournalName ==> crate::parse::tok_value(ts[j]) != ibid_lit()
}

proof fn lemma_num_keeps_not_ibid(w: Seq<Token>, i: int, r: RefFields, f: bool)
    requires
        r.journal_title != Some(ibid_lit()),
    ensures
        num_from(w, i, r, f).journal_title != Some(ibid_lit()),
        r.journal_title is None ==> num_from(w, i, r, f).journal_title is None,
    decreases w.len() - i,
{
    if !(i < 0 || i >= w.len() || i >= 8 || crate::parse::stops_numeration(w[i].kind)) {
        let (r2, f2) = crate::parse::num_step(r, f, w[i]);
        match r.journal_title {
            Some(t) => {
                if !(t.len() > 0 && crate::text::is_upper(t.last())) {
                    assert forall|l: char| (t + seq![' ', l]) != ibid_lit() by {
                        if (t + seq![' ', l]).len() == 4 {
                            assert((t + seq![' ', l])[2] == ' ');
                            assert(ibid_lit()[2] == 'i');
                        }
                    }
                }
            },
            None => {},
        }
        lemma_num_keeps_not_ibid(w, i + 1, r2, f2);
    }
}

/// The placeholder journal `ibid` is taken only by the primary record, only
/// when no journal name was found, and then with an `Ibid` token and a volume;
/// provided no journal name in the knowledge base is itself `ibid`.
pub proof fn lemma_placeholder_only_primary(raw: RawReference, ts: Seq<Token>)
    requires
        no_ibid_journal(ts),
    ensures
        forall|k: int|
            0 <= k < parse_spec(raw, ts).len() && (#[trigger] parse_spec(raw, ts)[k]).journal_title == Some(ibid_lit()) ==> k == 0
                && first_kind(ts, TokenKind::JournalName) is None && first_kind(ts, TokenKind::Ibid) is Some
                && parse_spec(raw, ts)[0].journal_volume is Some,
{
    let p = primary_ref(raw, ts);
    let n = ts.len() as int;
    let r0 = with_identifiers(blank_ref(raw), ts);
    match first_kind(ts, TokenKind::JournalName) {
        Some(j) => {
            crate::parse::lemma_first_kind_found(ts, TokenKind::JournalName, 0, n);
            let r1 = RefFields { journal_title: Some(crate::parse::tok_value(ts[j])), ..r0 };
            lemma_num_keeps_not_ibid(ts.subrange(j + 1, n), 0, r1, false);
        },
        None => {
            match first_kind(ts, TokenKind::Ibid) {
                Some(i) => {
                    let r2 = without_spurious_journal(with_journal_info(r0, ts));
                    lemma_num_keeps_not_ibid(ts.subrange(i + 1, n), 0, r2, false);
                },
                None => {},
            }
        },
    }
    assert(p.journal_title == Some(ibid_lit()) ==> first_kind(ts, TokenKind::JournalName) is None
        && first_kind(ts, TokenKind::Ibid) is Some && p.journal_volume is Some);
    lemma_journal_subs_not_ibid(raw, ts, p, n);
    lemma_ibid_subs_not_ibid(raw, ts, p, n);
    lemma_arxiv_subs_not_ibid(raw, ts, p, n);
    let all = parse_spec(raw, ts);
    let a = journal_subs(raw, ts, p, n);
    let b = ibid_subs(raw, ts, p, n);
    let c = arxiv_subs(raw, ts, p, n);
    assert forall|k: int| 0 <= k < all.len() && (#[trigger] all[k]).journal_title == Some(ibid_lit()) implies k == 0
        && first_kind(ts, TokenKind::JournalName) is None && first_kind(ts, TokenKind::Ibid) is Some
        && all[0].journal_volume is Some by {
        if k == 0 {
        } else if k < 1 + a.len() {
            assert(all[k] == a[k - 1]);
        } else if k < 1 + a.len() + b.len() {
            assert(all[k] == b[k - 1 - a.len()]);
        } else {
            assert(all[k] == c[k - 1 - a.len() - b.len()]);
        }
    }
}

pub open spec fn none_ibid(v: Seq<RefFields>) -> bool {
    forall|k: int| 0 <= k < v.len() ==> (#[trigger] v[k]).journal_title != Some(ibid_lit())
}

proof fn lemma_journal_subs_not_ibid(raw: RawReference, ts: Seq<Token>, p: RefFields, hi: int)
    requires
        no_ibid_journal(ts),
        hi <= ts.len(),
    ensures
        none_ibid(journal_subs(raw, ts, p, hi)),
    decreases hi,
{
    if hi > 0 {
        lemma_journal_subs_not_ibid(raw, ts, p, hi - 1);
        let j = hi - 1;
        if crate::parse::later_journal(ts, j) {
            let e = crate::parse::segment_end(ts, j);
            let base = RefFields {
                arxiv_id: crate::parse::first_text_in(ts, TokenKind::ArxivId, j, e),
                doi: crate::parse::first_text_in(ts, TokenKind::Doi, j, e),
                ..crate::parse::sub_base(raw, crate::parse::segment_text(ts, j, e), p, Some(crate::parse::tok_value(ts[j])))
            };
            lemma_num_keeps_not_ibid(ts.subrange(j + 1, crate::parse::min(e, j + 9)), 0, base, false);
        }
    }
}

proof fn lemma_ibid_subs_not_ibid(raw: RawReference, ts: Seq<Token>, p: RefFields, hi: int)
    ensures
        none_ibid(ibid_subs(raw, ts, p, hi)),
    decreases hi,
{
    if hi > 0 && p.journal_title is Some && p.journal_title != Some(ibid_lit()) {
        lemma_ibid_subs_not_ibid(raw, ts, p, hi - 1);
        lemma_num_keeps_not_ibid(
            ts.subrange(hi, crate::parse::min(hi + 8, ts.len() as int)),
            0,
            crate::parse::sub_base(raw, crate::parse::ibid_text(ts, hi - 1), p, p.journal_title),
            false,
        );
    }
}

proof fn lemma_arxiv_subs_not_ibid(raw: RawReference, ts: Seq<Token>, p: RefFields, hi: int)
    ensures
        none_ibid(arxiv_subs(raw, ts, p, hi)),
    decreases hi,
{
    if hi > 0 {
        lemma_arxiv_subs_not_ibid(raw, ts, p, hi - 1);
    }
}

// ── The pipeline from raw references to records ────────────────────────────

/// Tokenize and parse each raw reference, in order.
pub fn parse_all_references(kb: &KnowledgeBase, raw_refs: &Vec<RawReference>) -> (r: Vec<ParsedReference>)
    requires
        kb.reports.wf(),
    ensures
        exists|tss: Seq<Seq<Token>>| #[trigger] tokens_of_all(*kb, raw_refs@, tss) && views(r@) == parse_all_spec(raw_refs@, tss, raw_refs@.len() as int),
        all_volumes_have_journals(views(r@)),
{
    let mut out: Vec<ParsedReference> = Vec::new();
    let ghost mut tss: Seq<Seq<Token>> = Seq::empty();
    let mut i: usize = 0;
    while i < raw_refs.len()
        invariant
            i <= raw_refs@.len(),
            kb.reports.wf(),
            tss.len() == i,
            forall|m: int| 0 <= m < i ==> tvs(#[trigger] tss[m]) == token_views(*kb, raw_refs@[m].text@),
            views(out@) == parse_all_spec(raw_refs@, tss, i as int),
            all_volumes_have_journals(views(out@)),
        decreases raw_refs.len() - i,
    {
        let raw = &raw_refs[i];
        let tokens = tokenize(kb, raw.text.as_str());
        let ghost old_tss = tss;
        proof {
            tss = tss.push(tokens@);
            assert forall|m: int| 0 <= m < i + 1 implies tvs(#[trigger] tss[m]) == token_views(*kb, raw_refs@[m].text@) by {
                if m < i {
                    assert(tss[m] == old_tss[m]);
                }
            }
            lemma_parse_all_prefix(raw_refs@, old_tss, tss, i as int);
        }
        let mut parsed = crate::parse::parse_references(raw, tokens.as_slice());
        proof {
            lemma_parsed_volume_has_journal(*raw, tokens@);
        }
        let ghost a = views(out@);
        let ghost b = views(parsed@);
        out.append(&mut parsed);
        proof {
            assert(views(out@) =~= a + b);
            assert(views(out@) == parse_all_spec(raw_refs@, tss, i + 1));
            assert forall|k: int| 0 <= k < views(out@).len() implies volume_has_journal(#[trigger] views(out@)[k]) by {
                if k < a.len() {
                    assert(views(out@)[k] == a[k]);
                } else {
                    assert(views(out@)[k] == b[k - a.len()]);
                }
            }
        }
        i += 1;
    }
    assert(tokens_of_all(*kb, raw_refs@, tss));
    out
}

/// The records of the raw references `raws[0..hi]`, each parsed with its tokens.
pub open spec fn parse_all_spec(raws: Seq<RawReference>, tss: Seq<Seq<Token>>, hi: int) -> Seq<RefFields>
    decreases hi,
{
    if hi <= 0 {
        Seq::empty()
    } else {
        parse_all_spec(raws, tss, hi - 1) + parse_spec(raws[hi - 1], tss[hi - 1])
    }
}

/// `tss` holds, for each raw reference, tokens as `tokenize` gives them.
pub open spec fn tokens_of_all(kb: KnowledgeBase, raws: Seq<RawReference>, tss: Seq<Seq<Token>>) -> bool {
    tss.len() == raws.len() && forall|m: int| 0 <= m < raws.len() ==> tvs(#[trigger] tss[m]) == token_views(kb, raws[m].text@)
}

proof fn lemma_parse_all_prefix(raws: Seq<RawReference>, a: Seq<Seq<Token>>, b: Seq<Seq<Token>>, hi: int)
    requires
        0 <= hi <= a.len(),
        hi <= b.len(),
        forall|m: int| 0 <= m < hi ==> a[m] == b[m],
    ensures
        parse_all_spec(raws, a, hi) == parse_all_spec(raws, b, hi),
    decreases hi,
{
    if hi > 0 {
        lemma_parse_all_prefix(raws, a, b, hi - 1);
    }
}

/// From raw references to records: split at semicolons, tokenize and parse,
/// then resolve `ibid` placeholders. Every record with a volume has a journal,
/// and a placeholder remains only where no earlier record with the same line
/// marker has a concrete journal.
pub fn extract_records(kb: &KnowledgeBase, raw_refs: Vec<RawReference>) -> (r: Vec<ParsedReference>)
    requires
        kb.reports.wf(),
    ensures
        exists|parts: Seq<RawReference>, tss: Seq<Seq<Token>>|
            raw_views(parts) == split_all(raw_views(raw_refs@), raw_refs@.len() as int)
                && #[trigger] tokens_of_all(*kb, parts, tss)
                && views(r@) == resolved(parse_all_spec(parts, tss, parts.len() as int)),
        all_volumes_have_journals(views(r@)),
        forall|k: int|
            0 <= k < r@.len() && #[trigger] r@[k]@.journal_title == Some(ibid_lit()) ==> nearest_below(
                views(r@),
                r@[k]@.linemarker,
                k,
            ) is None,
{
    let ghost input = raw_refs@;
    let split = split_semicolon_subrefs(raw_refs);
    let mut parsed = parse_all_references(kb, &split);
    let ghost v = views(parsed@);
    let ghost tss = choose|tss: Seq<Seq<Token>>| #[trigger] tokens_of_all(*kb, split@, tss) && v == parse_all_spec(split@, tss, split@.len() as int);
    resolve_ibid_journals(&mut parsed);
    assert(tokens_of_all(*kb, split@, tss));
    proof {
        lemma_resolution_settles(v);
        assert forall|k: int|
            0 <= k < parsed@.len() && #[trigger] parsed@[k]@.journal_title == Some(ibid_lit()) implies nearest_below(
            views(parsed@),
            parsed@[k]@.linemarker,
            k,
        ) is None by {
            assert(views(parsed@)[k] == parsed@[k]@);
        }
    }
    parsed
}

} // verus!
