//! Enrichment: what metadata providers know of a book beyond what it says of
//! itself.

use vstd::prelude::*;
use vstd::slice::slice_subrange;

use crate::epub_metadata::{
    clone_identifiers, BookModel, IdentifierModel, MetadataIdentifier, NormalizedMetadata,
};
use crate::text::{
    chars_of, clone_text, clone_texts, contains, contains_chars, find, find_bounds, glue, is_digit,
    is_space, lower, lower_all, lower_chars, matches_at, same_but_case, same_but_case_chars,
    stands_at, string_of, strip_prefixes, trim, trim_chars, trim_keeps, viewed, views, without,
};

pub mod merge;
pub mod providers;

verus! {

#[derive(Debug, Clone, PartialEq, Eq)]
pub struct EnrichmentConfig {
    pub mode: EnrichmentMode,
}

#[derive(Debug, Clone, Copy, PartialEq, Eq, Structural)]
pub enum EnrichmentMode {
    ProposeOnly,
    AutoApplyHighConfidence,
}

/// What a provider is asked about.
#[derive(Debug, Clone, PartialEq, Eq)]
pub struct LookupRequest {
    pub title: Option<String>,
    pub authors: Vec<String>,
    pub identifiers: Vec<MetadataIdentifier>,
    pub language: Option<String>,
}

pub struct RequestModel {
    pub title: Option<Seq<char>>,
    pub authors: Seq<Seq<char>>,
    pub identifiers: Seq<IdentifierModel>,
    pub language: Option<Seq<char>>,
}

impl View for LookupRequest {
    type V = RequestModel;

    open spec fn view(&self) -> RequestModel {
        RequestModel {
            title: viewed(self.title),
            authors: views(self.authors@),
            identifiers: views(self.identifiers@),
            language: viewed(self.language),
        }
    }
}

impl RequestModel {
    /// The request about a book.
    pub open spec fn about(book: BookModel) -> RequestModel {
        RequestModel {
            title: book.title,
            authors: book.authors,
            identifiers: book.identifiers,
            language: book.language,
        }
    }
}

impl LookupRequest {
    /// The request about a book.
    pub fn from(metadata: &NormalizedMetadata) -> (request: LookupRequest)
        ensures
            request@ == RequestModel::about(metadata@),
    {
        LookupRequest {
            title: clone_text(&metadata.title),
            authors: clone_texts(&metadata.authors),
            identifiers: clone_identifiers(&metadata.identifiers),
            language: clone_text(&metadata.language),
        }
    }
}

#[derive(Debug, Clone, Copy, PartialEq, Eq, Structural)]
pub enum Confidence {
    High,
    Medium,
    Low,
}

/// Where a value comes from.
#[derive(Debug, PartialEq, Eq)]
pub struct Provenance {
    pub source: String,
    pub record_id: String,
    pub url: String,
}

pub struct ProvenanceModel {
    pub source: Seq<char>,
    pub record_id: Seq<char>,
    pub url: Seq<char>,
}

impl View for Provenance {
    type V = ProvenanceModel;

    open spec fn view(&self) -> ProvenanceModel {
        ProvenanceModel { source: self.source@, record_id: self.record_id@, url: self.url@ }
    }
}

impl Clone for Provenance {
    fn clone(&self) -> (copy: Self)
        ensures
            copy@ == self@,
    {
        Provenance {
            source: self.source.clone(),
            record_id: self.record_id.clone(),
            url: self.url.clone(),
        }
    }
}

/// A value with how far it can be relied on and where it comes from.
#[derive(Debug, Clone, PartialEq, Eq)]
pub struct ProvenancedValue<T> {
    pub value: T,
    pub confidence: Confidence,
    pub provenance: Provenance,
}

pub struct ValueModel {
    pub value: Seq<char>,
    pub confidence: Confidence,
    pub provenance: ProvenanceModel,
}

impl View for ProvenancedValue<String> {
    type V = ValueModel;

    open spec fn view(&self) -> ValueModel {
        ValueModel {
            value: self.value@,
            confidence: self.confidence,
            provenance: self.provenance@,
        }
    }
}

/// What a provider's record says of the book that was asked about.
#[derive(Debug, Clone, Default, PartialEq, Eq)]
pub struct EnrichmentCandidate {
    pub title: Option<ProvenancedValue<String>>,
    pub authors: Vec<ProvenancedValue<String>>,
    pub series: Option<ProvenancedValue<String>>,
    pub series_index: Option<ProvenancedValue<String>>,
    pub evidence: CandidateEvidence,
}

/// What speaks for a candidate, and against it.
#[derive(Debug, Clone, Copy, Default, PartialEq, Eq, Structural)]
pub struct CandidateEvidence {
    pub identifier_match: bool,
    pub title_author_match: bool,
    pub structured_series: bool,
    pub subject_only_series: bool,
    pub ambiguous: bool,
}

pub struct CandidateModel {
    pub title: Option<ValueModel>,
    pub authors: Seq<ValueModel>,
    pub series: Option<ValueModel>,
    pub series_index: Option<ValueModel>,
    pub evidence: CandidateEvidence,
}

impl View for EnrichmentCandidate {
    type V = CandidateModel;

    open spec fn view(&self) -> CandidateModel {
        CandidateModel {
            title: viewed(self.title),
            authors: views(self.authors@),
            series: viewed(self.series),
            series_index: viewed(self.series_index),
            evidence: self.evidence,
        }
    }
}

/// Someone who can be asked about a book.
pub trait MetadataProvider {
    fn lookup(&self, request: &LookupRequest) -> Result<Vec<EnrichmentCandidate>, ProviderError>;
}

/// Why a provider has no answer.
#[derive(Debug, Clone, PartialEq, Eq)]
pub struct ProviderError {
    pub source: String,
    pub message: String,
}

pub struct ProviderErrorModel {
    pub source: Seq<char>,
    pub message: Seq<char>,
}

impl View for ProviderError {
    type V = ProviderErrorModel;

    open spec fn view(&self) -> ProviderErrorModel {
        ProviderErrorModel { source: self.source@, message: self.message@ }
    }
}

impl ProviderError {
    pub fn new(source: &str, message: &str) -> (error: Self)
        ensures
            error@ == (ProviderErrorModel { source: source@, message: message@ }),
    {
        ProviderError { source: source.to_owned(), message: message.to_owned() }
    }

    /// What the error says to a reader.
    pub fn message_text(&self) -> (text: String)
        ensures
            text@ == self.source@ + " lookup failed: "@ + self.message@,
    {
        glue(self.source.as_str(), " lookup failed: ", self.message.as_str())
    }
}

/// What is left of an identifier without what marks it as an ISBN, dashes and
/// spaces.
pub open spec fn bare_isbn(value: Seq<char>) -> Seq<char> {
    without(
        strip_prefixes(strip_prefixes(trim(value), "urn:isbn:"@), "isbn:"@),
        |c: char| c == '-' || c == ' ',
    )
}

/// Ten or thirteen digits, the tenth of which may be an X.
pub open spec fn has_isbn_form(s: Seq<char>) -> bool {
    (s.len() == 10 || s.len() == 13) && forall|i: int|
        0 <= i < s.len() ==> is_digit(#[trigger] s[i]) || (i == 9 && (s[i] == 'x' || s[i] == 'X'))
}

/// The ISBN that an identifier is, if it is one by its scheme, its prefix or its
/// first digits.
pub open spec fn isbn_of(identifier: IdentifierModel) -> Option<Seq<char>> {
    let bare = bare_isbn(identifier.value);
    if has_isbn_form(bare) && {
        ||| identifier.scheme is Some && same_but_case(identifier.scheme->0, "isbn"@)
        ||| contains(lower_all(identifier.value), "isbn"@)
        ||| stands_at(bare, "978"@, 0)
        ||| stands_at(bare, "979"@, 0)
    } {
        Some(bare)
    } else {
        None
    }
}

/// The first ISBN among a book's identifiers.
pub open spec fn first_isbn(identifiers: Seq<IdentifierModel>) -> Option<Seq<char>>
    decreases identifiers.len(),
{
    if identifiers.len() == 0 {
        None
    } else if isbn_of(identifiers[0]) is Some {
        isbn_of(identifiers[0])
    } else {
        first_isbn(identifiers.drop_first())
    }
}

proof fn first_isbn_after(identifiers: Seq<IdentifierModel>, n: int)
    requires
        0 <= n <= identifiers.len(),
        forall|i: int| 0 <= i < n ==> isbn_of(#[trigger] identifiers[i]) is None,
    ensures
        first_isbn(identifiers) == first_isbn(identifiers.skip(n)),
    decreases n,
{
    if n > 0 {
        assert(isbn_of(identifiers[0]) is None);
        assert forall|i: int| 0 <= i < n - 1 implies isbn_of(
            #[trigger] identifiers.drop_first()[i],
        ) is None by {
            assert(identifiers.drop_first()[i] == identifiers[i + 1]);
        }
        first_isbn_after(identifiers.drop_first(), n - 1);
        assert(identifiers.drop_first().skip(n - 1) =~= identifiers.skip(n));
    } else {
        assert(identifiers.skip(0) =~= identifiers);
    }
}

fn strip_prefix_copies<'a>(s: &'a [char], prefix: &[char]) -> (rest: &'a [char])
    ensures
        rest@ == strip_prefixes(s@, prefix@),
{
    let mut rest: &[char] = s;
    while prefix.len() > 0 && matches_at(rest, prefix, 0)
        invariant
            strip_prefixes(s@, prefix@) == strip_prefixes(rest@, prefix@),
        decreases rest@.len(),
    {
        let next = slice_subrange(rest, prefix.len(), rest.len());
        assert(next@ =~= rest@.skip(prefix@.len() as int));
        rest = next;
    }
    rest
}

fn without_dashes(s: &[char]) -> (out: Vec<char>)
    ensures
        out@ == without(s@, |c: char| c == '-' || c == ' '),
{
    let ghost f = |c: char| c == '-' || c == ' ';
    let mut out: Vec<char> = Vec::new();
    let mut i: usize = 0;
    while i < s.len()
        invariant
            i <= s.len(),
            f == (|c: char| c == '-' || c == ' '),
            out@ == without(s@.take(i as int), f),
        decreases s.len() - i,
    {
        assert(s@.take(i + 1).drop_last() =~= s@.take(i as int));
        if s[i] != '-' && s[i] != ' ' {
            out.push(s[i]);
        }
        i += 1;
    }
    assert(s@.take(i as int) =~= s@);
    out
}

fn isbn_form(s: &[char]) -> (yes: bool)
    ensures
        yes == has_isbn_form(s@),
{
    if s.len() != 10 && s.len() != 13 {
        return false;
    }
    let mut i: usize = 0;
    while i < s.len()
        invariant
            i <= s.len(),
            forall|j: int|
                0 <= j < i ==> is_digit(#[trigger] s@[j]) || (j == 9 && (s@[j] == 'x' || s@[j]
                    == 'X')),
        decreases s.len() - i,
    {
        let c = s[i];
        if !(('0' <= c && c <= '9') || (i == 9 && (c == 'x' || c == 'X'))) {
            return false;
        }
        i += 1;
    }
    true
}

fn isbn_from_identifier(identifier: &MetadataIdentifier) -> (isbn: Option<String>)
    ensures
        viewed(isbn) == isbn_of(identifier@),
{
    let raw = chars_of(identifier.value.as_str());
    let urn = chars_of("urn:isbn:");
    let name = chars_of("isbn:");
    let word = chars_of("isbn");
    let stripped = strip_prefix_copies(
        strip_prefix_copies(trim_chars(raw.as_slice()), urn.as_slice()),
        name.as_slice(),
    );
    let bare = without_dashes(stripped);
    if !isbn_form(bare.as_slice()) {
        return None;
    }
    let scheme_is_isbn = match &identifier.scheme {
        Some(scheme) => same_but_case_chars(chars_of(scheme.as_str()).as_slice(), word.as_slice()),
        None => false,
    };
    if scheme_is_isbn || contains_chars(
        lower_chars(raw.as_slice()).as_slice(),
        word.as_slice(),
    ) || matches_at(bare.as_slice(), chars_of("978").as_slice(), 0) || matches_at(
        bare.as_slice(),
        chars_of("979").as_slice(),
        0,
    ) {
        Some(string_of(bare.as_slice()))
    } else {
        None
    }
}

/// The first ISBN among a book's identifiers, in digits alone.
pub fn isbn_from_identifiers(identifiers: &[MetadataIdentifier]) -> (isbn: Option<String>)
    ensures
        viewed(isbn) == first_isbn(views(identifiers@)),
{
    let ghost model = views(identifiers@);
    let mut i: usize = 0;
    while i < identifiers.len()
        invariant
            i <= identifiers.len(),
            model == views(identifiers@),
            forall|j: int| 0 <= j < i ==> isbn_of(#[trigger] model[j]) is None,
        decreases identifiers.len() - i,
    {
        let isbn = isbn_from_identifier(&identifiers[i]);
        if isbn.is_some() {
            proof {
                first_isbn_after(model, i as int);
                assert(model.skip(i as int)[0] == model[i as int]);
            }
            return isbn;
        }
        i += 1;
    }
    proof {
        first_isbn_after(model, i as int);
    }
    None
}

/// An ISBN that was found has the form of one.
pub proof fn found_isbns_have_isbn_form(identifiers: Seq<IdentifierModel>)
    requires
        first_isbn(identifiers) is Some,
    ensures
        has_isbn_form(first_isbn(identifiers)->0),
    decreases identifiers.len(),
{
    if isbn_of(identifiers[0]) is None {
        found_isbns_have_isbn_form(identifiers.drop_first());
    }
}

/// Ten or thirteen signs, each of them a digit but for the tenth, which may be an X.
pub open spec fn reads_as_isbn(s: Seq<char>) -> bool {
    &&& s.len() == 10 || s.len() == 13
    &&& forall|i: int|
        0 <= i < s.len() ==> '0' <= #[trigger] s[i] <= '9' || (i == 9 && (s[i] == 'X' || s[i]
            == 'x'))
}

proof fn without_is_a_filter(s: Seq<char>)
    ensures
        without(s, |c: char| c == '-' || c == ' ') == s.filter(|c: char| c != '-' && c != ' '),
    decreases s.len(),
{
    reveal(Seq::filter);
    if s.len() > 0 {
        without_is_a_filter(s.drop_last());
    } else {
        assert(s.filter(|c: char| c != '-' && c != ' ') =~= s);
    }
}

proof fn other_signs_stay(s: Seq<char>, i: int)
    requires
        0 <= i < s.len(),
        s[i] != '-' && s[i] != ' ',
    ensures
        without(s, |c: char| c == '-' || c == ' ').contains(s[i]),
    decreases s.len(),
{
    let f = |c: char| c == '-' || c == ' ';
    let rest = without(s.drop_last(), f);
    if i == s.len() - 1 {
        assert(without(s, f).last() == s[i]);
        assert(without(s, f)[without(s, f).len() - 1] == s[i]);
    } else {
        other_signs_stay(s.drop_last(), i);
        let k = choose|k: int| 0 <= k < rest.len() && rest[k] == s[i];
        assert(without(s, f)[k] == s[i]);
    }
}

proof fn isbn_prefixes_are_stripped(prefix: Seq<char>, written: Seq<char>)
    requires
        prefix.len() == 0 || prefix == "isbn:"@ || prefix == "urn:isbn:"@,
        written.len() > 0,
        '0' <= written.first() <= '9',
        !is_space(written.last()),
    ensures
        bare_isbn(prefix + written) == without(written, |c: char| c == '-' || c == ' '),
        prefix.len() > 0 ==> contains(lower_all(prefix + written), "isbn"@),
{
    reveal_strlit("urn:isbn:");
    reveal_strlit("isbn:");
    reveal_strlit("isbn");
    let (urn, short) = ("urn:isbn:"@, "isbn:"@);
    let value = prefix + written;
    assert(value.last() == written.last());
    assert(!is_space(value.first())) by {
        if prefix.len() > 0 {
            assert(value[0] == prefix[0]);
        } else {
            assert(value[0] == written[0]);
        }
    }
    trim_keeps(value, |c: char| is_space(c));
    assert(!stands_at(written, urn, 0)) by {
        if stands_at(written, urn, 0) {
            assert(written.subrange(0, urn.len() as int)[0] == written[0]);
        }
    }
    assert(!stands_at(written, short, 0)) by {
        if stands_at(written, short, 0) {
            assert(written.subrange(0, short.len() as int)[0] == written[0]);
        }
    }
    assert(strip_prefixes(written, urn) == written);
    assert(strip_prefixes(written, short) == written);
    if prefix.len() == 0 {
        assert(value =~= written);
    } else if prefix == urn {
        assert(value.subrange(0, urn.len() as int) =~= urn);
        assert(value.skip(urn.len() as int) =~= written);
        assert(lower_all(value).subrange(4, 8) =~= "isbn"@);
        find_bounds(lower_all(value), "isbn"@, 0);
        assert(stands_at(lower_all(value), "isbn"@, 4));
    } else {
        assert(!stands_at(value, urn, 0)) by {
            if stands_at(value, urn, 0) {
                assert(value.subrange(0, urn.len() as int)[0] == value[0]);
                assert(value[0] == prefix[0]);
            }
        }
        assert(value.subrange(0, short.len() as int) =~= short);
        assert(value.skip(short.len() as int) =~= written);
        assert(lower_all(value).subrange(0, 4) =~= "isbn"@);
        find_bounds(lower_all(value), "isbn"@, 0);
        assert(stands_at(lower_all(value), "isbn"@, 0));
    }
}

/// An identifier that is written with digits, behind "isbn:" or "urn:isbn:" or
/// behind nothing, is an ISBN where it reads as one without its dashes and spaces
/// and is marked as one: by that prefix, by its scheme, in capitals or not, or by the
/// digits 978 or 979 at its start. The ISBN is what is left of it.
pub proof fn marked_isbns_are_recognized(
    prefix: Seq<char>,
    written: Seq<char>,
    scheme: Option<Seq<char>>,
    is_unique: bool,
)
    requires
        prefix.len() == 0 || prefix == "isbn:"@ || prefix == "urn:isbn:"@,
        written.len() > 0,
        '0' <= written.first() <= '9',
        !is_space(written.last()),
    ensures
        ({
            let digits = written.filter(|c: char| c != '-' && c != ' ');
            let marked = {
                ||| prefix.len() > 0
                ||| scheme is Some && same_but_case(scheme->0, "isbn"@)
                ||| digits[0] == '9' && digits[1] == '7' && (digits[2] == '8' || digits[2] == '9')
            };
            isbn_of(IdentifierModel { value: prefix + written, scheme, is_unique })
                == if reads_as_isbn(digits) && marked {
                Some(digits)
            } else {
                None
            }
        }),
{
    let value = prefix + written;
    let digits = written.filter(|c: char| c != '-' && c != ' ');
    isbn_prefixes_are_stripped(prefix, written);
    without_is_a_filter(written);
    assert(bare_isbn(value) == digits);
    assert(has_isbn_form(digits) <==> reads_as_isbn(digits)) by {
        if has_isbn_form(digits) {
            assert forall|i: int| 0 <= i < digits.len() implies '0' <= #[trigger] digits[i] <= '9'
                || (i == 9 && (digits[i] == 'X' || digits[i] == 'x')) by {
                assert(is_digit(digits[i]) || (i == 9 && (digits[i] == 'x' || digits[i] == 'X')));
            }
        }
        if reads_as_isbn(digits) {
            assert forall|i: int| 0 <= i < digits.len() implies is_digit(#[trigger] digits[i]) || (i
                == 9 && (digits[i] == 'x' || digits[i] == 'X')) by {}
        }
    }
    reveal_strlit("978");
    reveal_strlit("979");
    reveal_strlit("isbn");
    if reads_as_isbn(digits) {
        let start = digits.subrange(0, 3);
        assert(start[0] == digits[0] && start[1] == digits[1] && start[2] == digits[2]);
        assert(stands_at(digits, "978"@, 0) <==> digits[0] == '9' && digits[1] == '7' && digits[2]
            == '8') by {
            if digits[0] == '9' && digits[1] == '7' && digits[2] == '8' {
                assert(start =~= "978"@);
            }
        }
        assert(stands_at(digits, "979"@, 0) <==> digits[0] == '9' && digits[1] == '7' && digits[2]
            == '9') by {
            if digits[0] == '9' && digits[1] == '7' && digits[2] == '9' {
                assert(start =~= "979"@);
            }
        }
        if prefix.len() == 0 && contains(lower_all(value), "isbn"@) {
            assert(value =~= written);
            find_bounds(lower_all(value), "isbn"@, 0);
            let at = find(lower_all(value), "isbn"@, 0)->0;
            assert(lower_all(value).subrange(at, at + 4)[0] == lower_all(value)[at]);
            assert(lower(written[at]) == 'i');
            other_signs_stay(written, at);
            let k = choose|k: int| 0 <= k < digits.len() && digits[k] == written[at];
            assert('0' <= digits[k] <= '9' || digits[k] == 'X' || digits[k] == 'x');
            assert(false);
        }
    }
}

/// A book is looked up by the first of its identifiers that is an ISBN, whatever
/// others stand before and after it.
pub proof fn the_first_isbn_counts(identifiers: Seq<IdentifierModel>, place: int)
    requires
        0 <= place <= identifiers.len(),
        forall|i: int| 0 <= i < place ==> isbn_of(#[trigger] identifiers[i]) is None,
    ensures
        place == identifiers.len() ==> first_isbn(identifiers) is None,
        place < identifiers.len() && isbn_of(identifiers[place]) is Some ==> first_isbn(identifiers)
            == isbn_of(identifiers[place]),
{
    first_isbn_after(identifiers, place);
    if place < identifiers.len() {
        assert(identifiers.skip(place)[0] == identifiers[place]);
    }
}

/// A lookup asks about the book as it is: its title, its authors in order, its
/// identifiers and its language.
pub proof fn lookups_ask_about_the_book(book: BookModel)
    ensures
        RequestModel::about(book).title == book.title,
        RequestModel::about(book).authors == book.authors,
        RequestModel::about(book).identifiers == book.identifiers,
        RequestModel::about(book).language == book.language,
{
}

} // verus!
