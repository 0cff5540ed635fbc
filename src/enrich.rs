//! Decisions of the optional DOI enrichment: cache keys, query terms, and what
//! a resolver outcome does to the cache. The lookups themselves are made by
//! the caller.
use vstd::prelude::*;

use crate::text::{chars_of, extend_from, string_all};
use crate::types::{sv, ParsedReference};

verus! {

/// What the resolver answered.
pub enum LookupOutcome {
    /// A DOI was found.
    Found(String),
    /// The resolver confirmed there is none.
    NotFound,
    /// A transient failure: nothing is known.
    Skipped,
}

/// A lookup to make: the cache key and the query terms.
pub struct Lookup {
    pub key: String,
    pub terms: String,
}

/// The cache key of a journal lookup.
pub open spec fn journal_key(j: Seq<char>, v: Seq<char>, p: Seq<char>) -> Seq<char> {
    seq!['j', ':'] + j + seq!['|', 'v', ':'] + v + seq!['|', 'p', ':'] + p
}

/// The query terms of a journal lookup.
pub open spec fn journal_terms(j: Seq<char>, v: Seq<char>, p: Seq<char>) -> Seq<char> {
    j + seq![' '] + v + seq![' '] + p
}

fn append_str(out: &mut Vec<char>, s: &str)
    ensures
        final(out)@ == old(out)@ + s@,
{
    let c = chars_of(s);
    extend_from(out, c.as_slice(), 0, c.len());
    assert(c@.subrange(0, c@.len() as int) =~= c@);
}

/// The journal lookup of a record, which needs its journal, volume and page.
pub fn journal_lookup(r: &ParsedReference) -> (res: Option<Lookup>)
    ensures
        res is Some <==> (r@.journal_title is Some && r@.journal_volume is Some && r@.journal_page is Some),
        res matches Some(l) ==> l.key@ == journal_key(
            r@.journal_title->0,
            r@.journal_volume->0,
            r@.journal_page->0,
        ) && l.terms@ == journal_terms(
            r@.journal_title->0,
            r@.journal_volume->0,
            r@.journal_page->0,
        ),
{
    match (&r.journal_title, &r.journal_volume, &r.journal_page) {
        (Some(j), Some(v), Some(p)) => {
            let mut key: Vec<char> = Vec::new();
            append_str(&mut key, "j:");
            append_str(&mut key, j.as_str());
            append_str(&mut key, "|v:");
            append_str(&mut key, v.as_str());
            append_str(&mut key, "|p:");
            append_str(&mut key, p.as_str());
            let mut terms: Vec<char> = Vec::new();
            append_str(&mut terms, j.as_str());
            append_str(&mut terms, " ");
            append_str(&mut terms, v.as_str());
            append_str(&mut terms, " ");
            append_str(&mut terms, p.as_str());
            proof {
                reveal_strlit("j:");
                reveal_strlit("|v:");
                reveal_strlit("|p:");
                reveal_strlit(" ");
                assert(key@ =~= journal_key(j@, v@, p@));
                assert(terms@ =~= journal_terms(j@, v@, p@));
            }
            Some(Lookup { key: string_all(key.as_slice()), terms: string_all(terms.as_slice()) })
        },
        _ => None,
    }
}

/// The arXiv lookup of a record, which needs its arXiv id: key `arxiv:<id>`,
/// terms `arXiv <id>`.
pub fn arxiv_lookup(r: &ParsedReference) -> (res: Option<Lookup>)
    ensures
        res is Some <==> r@.arxiv_id is Some,
        res matches Some(l) ==> l.key@ == seq!['a', 'r', 'x', 'i', 'v', ':'] + r@.arxiv_id->0
            && l.terms@ == seq!['a', 'r', 'X', 'i', 'v', ' '] + r@.arxiv_id->0,
{
    match &r.arxiv_id {
        Some(id) => {
            let mut key: Vec<char> = Vec::new();
            append_str(&mut key, "arxiv:");
            append_str(&mut key, id.as_str());
            let mut terms: Vec<char> = Vec::new();
            append_str(&mut terms, "arXiv ");
            append_str(&mut terms, id.as_str());
            proof {
                reveal_strlit("arxiv:");
                reveal_strlit("arXiv ");
                assert(key@ =~= seq!['a', 'r', 'x', 'i', 'v', ':'] + id@);
                assert(terms@ =~= seq!['a', 'r', 'X', 'i', 'v', ' '] + id@);
            }
            Some(Lookup { key: string_all(key.as_slice()), terms: string_all(terms.as_slice()) })
        },
        None => None,
    }
}

/// What to do with a resolver outcome: the cache entry to store (none for a
/// transient failure, a negative entry for a confirmed miss) and the DOI.
pub fn settle_outcome(outcome: LookupOutcome) -> (res: (Option<Option<String>>, Option<String>))
    ensures
        outcome matches LookupOutcome::Found(d) ==> res.0 matches Some(Some(c)) && c@ == d@ && sv(res.1) == Some(d@),
        outcome matches LookupOutcome::NotFound ==> res.0 matches Some(None) && res.1 is None,
        outcome matches LookupOutcome::Skipped ==> res.0 is None && res.1 is None,
{
    match outcome {
        LookupOutcome::Found(d) => {
            let c = d.clone();
            (Some(Some(c)), Some(d))
        },
        LookupOutcome::NotFound => (Some(None), None),
        LookupOutcome::Skipped => (None, None),
    }
}

/// Whether a record still lacks a DOI and so takes part in enrichment.
pub fn needs_doi(r: &ParsedReference) -> (res: bool)
    ensures
        res == (r@.doi is None),
{
    r.doi.is_none()
}


/// The lookups to try for a record, in order: none when it has a DOI;
/// otherwise the journal lookup when journal, volume and page are set, then
/// the arXiv lookup when an arXiv id is set. The first that finds a DOI ends
/// the search.
pub fn lookup_plan(r: &ParsedReference) -> (res: Vec<Lookup>)
    ensures
        r@.doi is Some ==> res@.len() == 0,
        r@.doi is None ==> res@.len() == (if r@.journal_title is Some && r@.journal_volume is Some
            && r@.journal_page is Some { 1int } else { 0 }) + (if r@.arxiv_id is Some { 1int } else { 0 }),
        r@.doi is None && r@.journal_title is Some && r@.journal_volume is Some && r@.journal_page is Some
            ==> res@[0].key@ == journal_key(r@.journal_title->0, r@.journal_volume->0, r@.journal_page->0)
            && res@[0].terms@ == journal_terms(r@.journal_title->0, r@.journal_volume->0, r@.journal_page->0),
        r@.doi is None && r@.arxiv_id is Some ==> res@[res@.len() - 1].key@ == seq!['a', 'r', 'x', 'i', 'v', ':']
            + r@.arxiv_id->0,
{
    let mut plan: Vec<Lookup> = Vec::new();
    if !needs_doi(r) {
        return plan;
    }
    if let Some(l) = journal_lookup(r) {
        plan.push(l);
    }
    if let Some(l) = arxiv_lookup(r) {
        plan.push(l);
    }
    plan
}

} // verus!
