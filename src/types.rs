//! The records that the stages hand on to each other.
use vstd::prelude::*;

verus! {

/// Zone classification for a block.
#[derive(Clone, Copy, Debug, PartialEq, Eq, Structural)]
pub enum ZoneKind {
    Header,
    PageNumber,
    Body,
    Footnote,
    ReferenceHeading,
    ReferenceBody,
}

/// Where a reference was found.
#[derive(Clone, Copy, Debug, PartialEq, Eq, Structural)]
pub enum ReferenceSource {
    ReferenceSection,
    Footnote,
}

/// A raw reference string before parsing.
#[derive(Clone, Debug)]
pub struct RawReference {
    pub text: String,
    pub linemarker: Option<String>,
    pub source: ReferenceSource,
    pub page_num: usize,
}

/// Token kinds for reference tokenization.
#[derive(Clone, Copy, Debug, PartialEq, Eq, Structural)]
pub enum TokenKind {
    Doi,
    ArxivId,
    Isbn,
    Url,
    ReportNumber,
    LineMarker,
    Year,
    Number,
    PageRange,
    JournalName,
    Collaboration,
    Word,
    Punctuation,
    Ibid,
}

/// A token in a reference string.
#[derive(Clone, Debug)]
pub struct Token {
    pub kind: TokenKind,
    pub text: String,
    /// The normalized form (for journal names, report numbers, collaborations, years).
    pub normalized: Option<String>,
}

/// A parsed reference ready for output.
#[derive(Clone, Debug)]
pub struct ParsedReference {
    pub raw_ref: String,
    pub linemarker: Option<String>,
    pub authors: Option<String>,
    pub title: Option<String>,
    pub journal_title: Option<String>,
    pub journal_volume: Option<String>,
    pub journal_year: Option<String>,
    pub journal_page: Option<String>,
    pub doi: Option<String>,
    pub arxiv_id: Option<String>,
    pub isbn: Option<String>,
    pub report_number: Option<String>,
    pub url: Option<String>,
    pub collaboration: Option<String>,
    pub source: ReferenceSource,
}

/// The fields of a `ParsedReference`, as sequences of characters.
pub struct RefFields {
    pub raw_ref: Seq<char>,
    pub linemarker: Option<Seq<char>>,
    pub authors: Option<Seq<char>>,
    pub title: Option<Seq<char>>,
    pub journal_title: Option<Seq<char>>,
    pub journal_volume: Option<Seq<char>>,
    pub journal_year: Option<Seq<char>>,
    pub journal_page: Option<Seq<char>>,
    pub doi: Option<Seq<char>>,
    pub arxiv_id: Option<Seq<char>>,
    pub isbn: Option<Seq<char>>,
    pub report_number: Option<Seq<char>>,
    pub url: Option<Seq<char>>,
    pub collaboration: Option<Seq<char>>,
    pub source: ReferenceSource,
}

/// The fields of a `RawReference`, as sequences of characters.
pub struct RawFields {
    pub text: Seq<char>,
    pub linemarker: Option<Seq<char>>,
    pub source: ReferenceSource,
    pub page_num: usize,
}

impl View for RawReference {
    type V = RawFields;

    open spec fn view(&self) -> RawFields {
        RawFields {
            text: self.text@,
            linemarker: sv(self.linemarker),
            source: self.source,
            page_num: self.page_num,
        }
    }
}

/// The characters of an optional string.
pub open spec fn sv(o: Option<String>) -> Option<Seq<char>> {
    match o {
        Some(s) => Some(s@),
        None => None,
    }
}

impl View for ParsedReference {
    type V = RefFields;

    open spec fn view(&self) -> RefFields {
        RefFields {
            raw_ref: self.raw_ref@,
            linemarker: sv(self.linemarker),
            authors: sv(self.authors),
            title: sv(self.title),
            journal_title: sv(self.journal_title),
            journal_volume: sv(self.journal_volume),
            journal_year: sv(self.journal_year),
            journal_page: sv(self.journal_page),
            doi: sv(self.doi),
            arxiv_id: sv(self.arxiv_id),
            isbn: sv(self.isbn),
            report_number: sv(self.report_number),
            url: sv(self.url),
            collaboration: sv(self.collaboration),
            source: self.source,
        }
    }
}

/// A copy of an optional string.
pub fn copy_opt(o: &Option<String>) -> (r: Option<String>)
    ensures
        sv(r) == sv(*o),
{
    match o {
        Some(s) => Some(s.clone()),
        None => None,
    }
}

/// Whether two optional strings hold the same characters.
pub fn same_opt(a: &Option<String>, b: &Option<String>) -> (r: bool)
    ensures
        r == (sv(*a) == sv(*b)),
{
    match (a, b) {
        (Some(x), Some(y)) => x.eq(y),
        (None, None) => true,
        _ => false,
    }
}

impl RawReference {
    /// A copy of this reference.
    pub fn copy(&self) -> (r: RawReference)
        ensures
            r@ == self@,
    {
        RawReference {
            text: self.text.clone(),
            linemarker: copy_opt(&self.linemarker),
            source: self.source,
            page_num: self.page_num,
        }
    }
}

impl ParsedReference {
    /// A copy of this record.
    pub fn copy(&self) -> (r: ParsedReference)
        ensures
            r@ == self@,
    {
        ParsedReference {
            raw_ref: self.raw_ref.clone(),
            linemarker: copy_opt(&self.linemarker),
            authors: copy_opt(&self.authors),
            title: copy_opt(&self.title),
            journal_title: copy_opt(&self.journal_title),
            journal_volume: copy_opt(&self.journal_volume),
            journal_year: copy_opt(&self.journal_year),
            journal_page: copy_opt(&self.journal_page),
            doi: copy_opt(&self.doi),
            arxiv_id: copy_opt(&self.arxiv_id),
            isbn: copy_opt(&self.isbn),
            report_number: copy_opt(&self.report_number),
            url: copy_opt(&self.url),
            collaboration: copy_opt(&self.collaboration),
            source: self.source,
        }
    }
}

} // verus!
