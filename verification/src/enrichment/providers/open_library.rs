//! What Open Library knows of a book.
//!
//! [`OpenLibraryLookup`] says which document is to be fetched next, and goes on
//! with what came of it.

use vstd::prelude::*;
use vstd::slice::slice_subrange;
use vstd::utf8::encode_utf8;

use crate::enrichment::merge::{answer, first_of, is_reliable};
use crate::enrichment::{
    first_isbn, isbn_from_identifiers, CandidateEvidence, CandidateModel, Confidence,
    EnrichmentCandidate, LookupRequest, Provenance, ProvenanceModel, ProvenancedValue,
    ProviderError, ProviderErrorModel, RequestModel, ValueModel,
};
use crate::text::{
    chars_of, clone_text, glue, matches_at, pair, push_chars, pushed_view, same_chars, stands_at,
    string_of, trim, trim_chars, viewed, views,
};

verus! {

/// Whether a character is a letter or a number by Unicode, as
/// `char::is_alphanumeric` has it.
pub uninterp spec fn is_alphanumeric(c: char) -> bool;

/// The characters that `char::to_lowercase` makes of one.
pub uninterp spec fn lowercase(c: char) -> Seq<char>;

/// `char::is_alphanumeric`, which depends on the character alone.
#[verifier::external_body]
fn char_is_alphanumeric(c: char) -> (yes: bool)
    ensures
        yes == is_alphanumeric(c),
{
    c.is_alphanumeric()
}

/// `char::to_lowercase`, which depends on the character alone.
#[verifier::external_body]
fn char_to_lowercase(c: char) -> (small: Vec<char>)
    ensures
        small@ == lowercase(c),
{
    c.to_lowercase().collect()
}

/// A byte that stands for itself in a URL: a letter, a digit, or one of four
/// signs.
pub open spec fn is_unreserved(b: u8) -> bool {
    ||| 48 <= b <= 57
    ||| 65 <= b <= 90
    ||| 97 <= b <= 122
    ||| b == 45
    ||| b == 46
    ||| b == 95
    ||| b == 126
}

pub open spec fn hex_digit(n: int) -> char {
    if n < 10 {
        (48 + n) as char
    } else {
        (55 + n) as char
    }
}

/// Bytes as they stand in a URL.
pub open spec fn percent_encoded(bytes: Seq<u8>) -> Seq<char>
    decreases bytes.len(),
{
    if bytes.len() == 0 {
        Seq::empty()
    } else {
        let b = bytes.last();
        percent_encoded(bytes.drop_last()) + if is_unreserved(b) {
            seq![b as char]
        } else {
            seq!['%', hex_digit(b as int / 16), hex_digit(b as int % 16)]
        }
    }
}

/// `urlencoding::encode`: the UTF-8 bytes of a text, each of which stands for
/// itself or is written as a percent sign and two hexadecimal digits.
#[verifier::external_body]
fn url_encode(value: &str) -> (encoded: String)
    ensures
        encoded@ == percent_encoded(encode_utf8(value@)),
{
    urlencoding::encode(value).into_owned()
}

/// The answer to a search.
#[derive(Debug, Clone, PartialEq, Eq)]
pub struct SearchResponse {
    pub num_found: usize,
    pub docs: Vec<SearchDoc>,
}

/// A work that a search found.
#[derive(Debug, Clone, Default, PartialEq, Eq)]
pub struct SearchDoc {
    pub key: String,
    pub title: Option<String>,
    pub author_name: Vec<String>,
    pub series_name: Vec<String>,
    pub series_position: Vec<String>,
    pub subject: Vec<String>,
}

/// An edition of a book.
#[derive(Debug, PartialEq, Eq)]
pub struct EditionResponse {
    pub key: String,
    pub title: Option<String>,
    pub works: Vec<WorkRef>,
}

/// The work that an edition belongs to.
#[derive(Debug, Clone, PartialEq, Eq)]
pub struct WorkRef {
    pub key: String,
}

/// A work.
#[derive(Debug, Clone, PartialEq, Eq)]
pub struct WorkResponse {
    pub identifiers: WorkIdentifiers,
    pub subjects: Vec<String>,
}

/// The names that others have for a work.
#[derive(Debug, Clone, Default, PartialEq, Eq)]
pub struct WorkIdentifiers {
    pub wikidata: Vec<String>,
}

pub struct SearchModel {
    pub num_found: nat,
    pub docs: Seq<DocModel>,
}

pub struct DocModel {
    pub key: Seq<char>,
    pub title: Option<Seq<char>>,
    pub author_name: Seq<Seq<char>>,
    pub series_name: Seq<Seq<char>>,
    pub series_position: Seq<Seq<char>>,
    pub subject: Seq<Seq<char>>,
}

pub struct EditionModel {
    pub key: Seq<char>,
    pub title: Option<Seq<char>>,
    pub works: Seq<Seq<char>>,
}

pub struct WorkModel {
    pub wikidata: Seq<Seq<char>>,
    pub subjects: Seq<Seq<char>>,
}

impl View for SearchResponse {
    type V = SearchModel;

    open spec fn view(&self) -> SearchModel {
        SearchModel { num_found: self.num_found as nat, docs: views(self.docs@) }
    }
}

impl View for SearchDoc {
    type V = DocModel;

    open spec fn view(&self) -> DocModel {
        DocModel {
            key: self.key@,
            title: viewed(self.title),
            author_name: views(self.author_name@),
            series_name: views(self.series_name@),
            series_position: views(self.series_position@),
            subject: views(self.subject@),
        }
    }
}

impl View for WorkRef {
    type V = Seq<char>;

    open spec fn view(&self) -> Seq<char> {
        self.key@
    }
}

impl View for EditionResponse {
    type V = EditionModel;

    open spec fn view(&self) -> EditionModel {
        EditionModel {
            key: self.key@,
            title: viewed(self.title),
            works: views(self.works@),
        }
    }
}

impl View for WorkResponse {
    type V = WorkModel;

    open spec fn view(&self) -> WorkModel {
        WorkModel {
            wikidata: views(self.identifiers.wikidata@),
            subjects: views(self.subjects@),
        }
    }
}

/// Where Open Library's record of a key is found.
pub open spec fn record(key: Seq<char>) -> ProvenanceModel {
    ProvenanceModel {
        source: "Open Library"@,
        record_id: key,
        url: "https://openlibrary.org"@ + key,
    }
}

/// The series that a subject heading names, such as `series:Stormlight Archive`.
pub open spec fn series_subject(subjects: Seq<Seq<char>>) -> Option<Seq<char>>
    decreases subjects.len(),
{
    if subjects.len() == 0 {
        None
    } else if stands_at(subjects[0], "series:"@, 0) {
        Some(trim(subjects[0].skip("series:"@.len() as int)))
    } else {
        series_subject(subjects.drop_first())
    }
}

pub open spec fn of_record(
    value: Option<Seq<char>>,
    confidence: Confidence,
    provenance: ProvenanceModel,
) -> Option<ValueModel> {
    match value {
        Some(inner) => Some(ValueModel { value: inner, confidence, provenance }),
        None => None,
    }
}

/// What a work that a search found says of the book.
pub open spec fn candidate_of(doc: DocModel, identifier_match: bool, ambiguous: bool) -> CandidateModel {
    let provenance = record(doc.key);
    let confidence = if identifier_match {
        Confidence::High
    } else {
        Confidence::Medium
    };
    let stated = doc.series_name.len() > 0;
    CandidateModel {
        title: of_record(doc.title, confidence, provenance),
        authors: doc.author_name.map_values(
            |name: Seq<char>| ValueModel { value: name, confidence, provenance },
        ),
        series: if stated {
            of_record(Some(doc.series_name[0]), Confidence::High, provenance)
        } else {
            of_record(series_subject(doc.subject), Confidence::Low, provenance)
        },
        series_index: of_record(first_of(doc.series_position), Confidence::High, provenance),
        evidence: CandidateEvidence {
            identifier_match,
            title_author_match: true,
            structured_series: stated,
            subject_only_series: !stated && series_subject(doc.subject) is Some,
            ambiguous,
        },
    }
}

/// What the works that a search found say of the book.
pub open spec fn candidates_of(search: SearchModel, identifier_match: bool) -> Seq<CandidateModel> {
    search.docs.map_values(
        |doc: DocModel| candidate_of(doc, identifier_match, search.num_found > 1),
    )
}

/// What an edition says of the book.
pub open spec fn edition_candidate(edition: EditionModel) -> CandidateModel {
    CandidateModel {
        title: of_record(edition.title, Confidence::High, record(edition.key)),
        authors: Seq::empty(),
        series: None,
        series_index: None,
        evidence: CandidateEvidence {
            identifier_match: true,
            title_author_match: true,
            structured_series: false,
            subject_only_series: false,
            ambiguous: false,
        },
    }
}

/// What is compared of a title or a name: its letters and numbers, in small
/// letters.
pub open spec fn match_text(s: Seq<char>) -> Seq<char>
    decreases s.len(),
{
    if s.len() == 0 {
        s
    } else if is_alphanumeric(s.last()) {
        match_text(s.drop_last()) + lowercase(s.last())
    } else {
        match_text(s.drop_last())
    }
}

pub open spec fn value_matches(value: Option<ValueModel>, wanted: Seq<char>) -> bool {
    value is Some && match_text(value->0.value) == match_text(wanted)
}

/// The title of a candidate and the first of its authors are those asked for.
pub open spec fn fits(candidate: CandidateModel, title: Seq<char>, author: Seq<char>) -> bool {
    value_matches(candidate.title, title) && value_matches(first_of(candidate.authors), author)
}

pub open spec fn with_fit(candidate: CandidateModel, title: Seq<char>, author: Seq<char>) -> CandidateModel {
    CandidateModel {
        evidence: CandidateEvidence {
            title_author_match: fits(candidate, title, author),
            ..candidate.evidence
        },
        ..candidate
    }
}

/// A candidate with what the work of the book adds to it.
pub open spec fn with_work(
    candidate: CandidateModel,
    work: WorkModel,
    work_key: Seq<char>,
    edition_key: Seq<char>,
) -> CandidateModel {
    let hint = series_subject(work.subjects);
    let adds_series = candidate.series is None && hint is Some;
    CandidateModel {
        title: match candidate.title {
            Some(title) => if work.wikidata.len() > 0 {
                Some(
                    ValueModel {
                        provenance: ProvenanceModel {
                            record_id: edition_key + "|"@ + work_key + "|"@ + work.wikidata[0],
                            ..title.provenance
                        },
                        ..title
                    },
                )
            } else {
                Some(title)
            },
            None => None,
        },
        series: if adds_series {
            of_record(hint, Confidence::Low, record(work_key))
        } else {
            candidate.series
        },
        evidence: CandidateEvidence {
            subject_only_series: candidate.evidence.subject_only_series || adds_series,
            ..candidate.evidence
        },
        ..candidate
    }
}

fn series_from_subjects(subjects: &Vec<String>) -> (series: Option<String>)
    ensures
        viewed(series) == series_subject(views(subjects@)),
{
    let ghost model = views(subjects@);
    let prefix = chars_of("series:");
    let mut i: usize = 0;
    assert(model.skip(0) =~= model);
    while i < subjects.len()
        invariant
            i <= subjects.len(),
            model == views(subjects@),
            prefix@ == "series:"@,
            series_subject(model) == series_subject(model.skip(i as int)),
        decreases subjects.len() - i,
    {
        let subject = chars_of(subjects[i].as_str());
        proof {
            assert(model.skip(i as int)[0] == subject@);
            assert(model.skip(i as int).drop_first() =~= model.skip(i + 1));
        }
        if matches_at(subject.as_slice(), prefix.as_slice(), 0) {
            let rest = slice_subrange(subject.as_slice(), prefix.len(), subject.len());
            assert(rest@ =~= subject@.skip(prefix@.len() as int));
            return Some(string_of(trim_chars(rest)));
        }
        i += 1;
    }
    None
}

fn record_of(key: &str) -> (provenance: Provenance)
    ensures
        provenance@ == record(key@),
{
    Provenance {
        source: "Open Library".to_owned(),
        record_id: key.to_owned(),
        url: pair("https://openlibrary.org", key),
    }
}

fn provenanced(value: Option<String>, confidence: Confidence, provenance: &Provenance) -> (out:
    Option<ProvenancedValue<String>>)
    ensures
        viewed(out) == of_record(viewed(value), confidence, provenance@),
{
    match value {
        Some(value) => Some(
            ProvenancedValue { value, confidence, provenance: provenance.clone() },
        ),
        None => None,
    }
}

fn first_text(texts: &Vec<String>) -> (first: Option<String>)
    ensures
        viewed(first) == first_of(views(texts@)),
{
    if texts.len() > 0 {
        Some(texts[0].clone())
    } else {
        None
    }
}

fn candidate_from_doc(doc: &SearchDoc, identifier_match: bool, ambiguous: bool) -> (candidate:
    EnrichmentCandidate)
    ensures
        candidate@ == candidate_of(doc@, identifier_match, ambiguous),
{
    let provenance = record_of(doc.key.as_str());
    let confidence = if identifier_match {
        Confidence::High
    } else {
        Confidence::Medium
    };
    let ghost goal = candidate_of(doc@, identifier_match, ambiguous);
    let mut authors: Vec<ProvenancedValue<String>> = Vec::new();
    let mut i: usize = 0;
    assert(views(authors@) =~= goal.authors.take(0));
    while i < doc.author_name.len()
        invariant
            i <= doc.author_name.len(),
            provenance@ == record(doc@.key),
            goal == candidate_of(doc@, identifier_match, ambiguous),
            confidence == if identifier_match {
                Confidence::High
            } else {
                Confidence::Medium
            },
            views(authors@) == goal.authors.take(i as int),
        decreases doc.author_name.len() - i,
    {
        let author = ProvenancedValue {
            value: doc.author_name[i].clone(),
            confidence,
            provenance: provenance.clone(),
        };
        proof {
            pushed_view(authors@, author);
            assert(author@ == goal.authors[i as int]);
            assert(goal.authors.take(i as int).push(author@) =~= goal.authors.take(i + 1));
        }
        authors.push(author);
        i += 1;
    }
    assert(goal.authors.take(i as int) =~= goal.authors);
    let stated = doc.series_name.len() > 0;
    let mut subject_only_series = false;
    let series = if stated {
        provenanced(first_text(&doc.series_name), Confidence::High, &provenance)
    } else {
        let hint = series_from_subjects(&doc.subject);
        subject_only_series = hint.is_some();
        provenanced(hint, Confidence::Low, &provenance)
    };
    EnrichmentCandidate {
        title: provenanced(clone_text(&doc.title), confidence, &provenance),
        authors,
        series,
        series_index: provenanced(
            first_text(&doc.series_position),
            Confidence::High,
            &provenance,
        ),
        evidence: CandidateEvidence {
            identifier_match,
            title_author_match: true,
            structured_series: stated,
            subject_only_series,
            ambiguous,
        },
    }
}

/// What the works that a search found say of the book.
pub fn candidates_from_search(search: SearchResponse, identifier_match: bool) -> (candidates: Vec<
    EnrichmentCandidate,
>)
    ensures
        views(candidates@) == candidates_of(search@, identifier_match),
{
    let ghost goal = candidates_of(search@, identifier_match);
    let ambiguous = search.num_found > 1;
    let mut candidates: Vec<EnrichmentCandidate> = Vec::new();
    let mut i: usize = 0;
    assert(views(candidates@) =~= goal.take(0));
    while i < search.docs.len()
        invariant
            i <= search.docs.len(),
            ambiguous == (search.num_found > 1),
            goal == candidates_of(search@, identifier_match),
            views(candidates@) == goal.take(i as int),
        decreases search.docs.len() - i,
    {
        let candidate = candidate_from_doc(&search.docs[i], identifier_match, ambiguous);
        proof {
            pushed_view(candidates@, candidate);
            assert(candidate@ == goal[i as int]);
            assert(goal.take(i as int).push(candidate@) =~= goal.take(i + 1));
        }
        candidates.push(candidate);
        i += 1;
    }
    assert(goal.take(i as int) =~= goal);
    candidates
}

fn candidate_from_edition(edition: &EditionResponse) -> (candidate: EnrichmentCandidate)
    ensures
        candidate@ == edition_candidate(edition@),
{
    let provenance = record_of(edition.key.as_str());
    let candidate = EnrichmentCandidate {
        title: provenanced(clone_text(&edition.title), Confidence::High, &provenance),
        authors: Vec::new(),
        series: None,
        series_index: None,
        evidence: CandidateEvidence {
            identifier_match: true,
            title_author_match: true,
            structured_series: false,
            subject_only_series: false,
            ambiguous: false,
        },
    };
    assert(candidate@.authors =~= Seq::empty());
    candidate
}

fn normalize_match_text(value: &str) -> (out: Vec<char>)
    ensures
        out@ == match_text(value@),
{
    let chars = chars_of(value);
    let mut out: Vec<char> = Vec::new();
    let mut i: usize = 0;
    while i < chars.len()
        invariant
            i <= chars.len(),
            out@ == match_text(chars@.take(i as int)),
        decreases chars.len() - i,
    {
        assert(chars@.take(i + 1).drop_last() =~= chars@.take(i as int));
        if char_is_alphanumeric(chars[i]) {
            push_chars(&mut out, char_to_lowercase(chars[i]).as_slice());
        }
        i += 1;
    }
    assert(chars@.take(i as int) =~= chars@);
    out
}

fn value_fits(value: Option<&ProvenancedValue<String>>, wanted: &str) -> (yes: bool)
    ensures
        yes == value_matches(viewed(value), wanted@),
{
    match value {
        Some(found) => same_chars(
            normalize_match_text(found.value.as_str()).as_slice(),
            normalize_match_text(wanted).as_slice(),
        ),
        None => false,
    }
}

/// Whether the title of a candidate and the first of its authors are those asked
/// for, in letters and numbers.
pub fn candidate_matches_request(candidate: &EnrichmentCandidate, title: &str, author: &str) -> (yes:
    bool)
    ensures
        yes == fits(candidate@, title@, author@),
{
    let first_author: Option<&ProvenancedValue<String>> = if candidate.authors.len() > 0 {
        Some(&candidate.authors[0])
    } else {
        None
    };
    value_fits(candidate.title.as_ref(), title) && value_fits(first_author, author)
}

/// Adds to a candidate what the work of the book says.
pub fn add_work_data(
    candidate: EnrichmentCandidate,
    work: &WorkResponse,
    work_key: &str,
    edition_key: &str,
) -> (out: EnrichmentCandidate)
    ensures
        out@ == with_work(candidate@, work@, work_key@, edition_key@),
{
    let mut candidate = candidate;
    if work.identifiers.wikidata.len() > 0 {
        candidate.title = match candidate.title {
            Some(title) => {
                let both = glue(edition_key, "|", work_key);
                let record_id = glue(both.as_str(), "|", work.identifiers.wikidata[0].as_str());
                Some(
                    ProvenancedValue {
                        value: title.value,
                        confidence: title.confidence,
                        provenance: Provenance {
                            source: title.provenance.source,
                            record_id,
                            url: title.provenance.url,
                        },
                    },
                )
            },
            None => None,
        };
    }
    if candidate.series.is_none() {
        let hint = series_from_subjects(&work.subjects);
        if hint.is_some() {
            candidate.series = provenanced(hint, Confidence::Low, &record_of(work_key));
            candidate.evidence.subject_only_series = true;
        }
    }
    candidate
}

/// What is to be fetched next to look a book up.
#[derive(Debug, PartialEq, Eq)]
pub enum OpenLibraryLookup {
    /// The edition of an ISBN.
    Edition { isbn: String },
    /// The works of an ISBN.
    IsbnSearch { isbn: String, edition: EditionResponse },
    /// The work of an edition, which may add something to the candidates.
    Work { candidates: Vec<EnrichmentCandidate>, work_key: String, edition_key: String },
    /// The works of a title and an author.
    TitleSearch { title: String, author: String },
    /// Nothing: this is what came of it.
    Finished { result: Result<Vec<EnrichmentCandidate>, ProviderError> },
}

pub enum LookupModel {
    Edition { isbn: Seq<char> },
    IsbnSearch { isbn: Seq<char>, edition: EditionModel },
    Work { candidates: Seq<CandidateModel>, work_key: Seq<char>, edition_key: Seq<char> },
    TitleSearch { title: Seq<char>, author: Seq<char> },
    Finished { result: Result<Seq<CandidateModel>, ProviderErrorModel> },
}

impl View for OpenLibraryLookup {
    type V = LookupModel;

    open spec fn view(&self) -> LookupModel {
        match self {
            OpenLibraryLookup::Edition { isbn } => LookupModel::Edition { isbn: isbn@ },
            OpenLibraryLookup::IsbnSearch { isbn, edition } => LookupModel::IsbnSearch {
                isbn: isbn@,
                edition: edition@,
            },
            OpenLibraryLookup::Work { candidates, work_key, edition_key } => LookupModel::Work {
                candidates: views(candidates@),
                work_key: work_key@,
                edition_key: edition_key@,
            },
            OpenLibraryLookup::TitleSearch { title, author } => LookupModel::TitleSearch {
                title: title@,
                author: author@,
            },
            OpenLibraryLookup::Finished { result } => LookupModel::Finished {
                result: answer(*result),
            },
        }
    }
}

/// A document that was fetched, or why it was not, in plain values.
pub open spec fn fetched<T: View>(outcome: Result<T, ProviderError>) -> Result<
    T::V,
    ProviderErrorModel,
> {
    match outcome {
        Ok(document) => Ok(document@),
        Err(error) => Err(error@),
    }
}

/// A lookup that found nothing.
pub open spec fn nothing_found() -> LookupModel {
    LookupModel::Finished { result: Ok(Seq::empty()) }
}

impl LookupModel {
    /// A book is looked up by its ISBN, else by its title and its first author.
    pub open spec fn first(request: RequestModel) -> LookupModel {
        match first_isbn(request.identifiers) {
            Some(isbn) => LookupModel::Edition { isbn },
            None => match (request.title, first_of(request.authors)) {
                (Some(title), Some(author)) => LookupModel::TitleSearch { title, author },
                _ => nothing_found(),
            },
        }
    }

    pub open spec fn after_edition(self, outcome: Result<EditionModel, ProviderErrorModel>) -> LookupModel {
        match self {
            LookupModel::Edition { isbn } => match outcome {
                Ok(edition) => LookupModel::IsbnSearch { isbn, edition },
                Err(error) => LookupModel::Finished { result: Err(error) },
            },
            other => other,
        }
    }

    /// Where the search by ISBN finds nothing, the edition speaks for the book;
    /// where the edition belongs to a work, that is asked too.
    pub open spec fn after_search(self, outcome: Result<SearchModel, ProviderErrorModel>) -> LookupModel {
        match (self, outcome) {
            (LookupModel::IsbnSearch { isbn, edition }, Ok(search)) => {
                let found = candidates_of(search, true);
                let candidates = if found.len() == 0 {
                    seq![edition_candidate(edition)]
                } else {
                    found
                };
                if edition.works.len() > 0 {
                    LookupModel::Work {
                        candidates,
                        work_key: edition.works[0],
                        edition_key: edition.key,
                    }
                } else {
                    LookupModel::Finished { result: Ok(candidates) }
                }
            },
            (LookupModel::TitleSearch { title, author }, Ok(search)) => LookupModel::Finished {
                result: Ok(
                    candidates_of(search, false).map_values(
                        |candidate: CandidateModel| with_fit(candidate, title, author),
                    ),
                ),
            },
            (LookupModel::IsbnSearch { .. }, Err(error)) => LookupModel::Finished {
                result: Err(error),
            },
            (LookupModel::TitleSearch { .. }, Err(error)) => LookupModel::Finished {
                result: Err(error),
            },
            (other, _) => other,
        }
    }

    /// The candidates stand without the work, too.
    pub open spec fn after_work(self, outcome: Result<WorkModel, ProviderErrorModel>) -> LookupModel {
        match self {
            LookupModel::Work { candidates, work_key, edition_key } => LookupModel::Finished {
                result: Ok(
                    match outcome {
                        Ok(work) => candidates.map_values(
                            |candidate: CandidateModel|
                                with_work(candidate, work, work_key, edition_key),
                        ),
                        Err(_) => candidates,
                    },
                ),
            },
            other => other,
        }
    }

    /// Where the document that is to be fetched next is found.
    pub open spec fn url(self) -> Option<Seq<char>> {
        match self {
            LookupModel::Edition { isbn } => Some(
                "https://openlibrary.org/isbn/"@ + isbn + ".json"@,
            ),
            LookupModel::IsbnSearch { isbn, .. } => Some(
                "https://openlibrary.org/search.json?isbn="@ + isbn
                    + "&fields=key,title,author_name,series_name,series_position,subject&limit=3"@,
            ),
            LookupModel::Work { work_key, .. } => Some(
                "https://openlibrary.org"@ + work_key + ".json"@,
            ),
            LookupModel::TitleSearch { title, author } => Some(
                "https://openlibrary.org/search.json?title="@ + percent_encoded(encode_utf8(title))
                    + "&author="@ + percent_encoded(encode_utf8(author))
                    + "&fields=key,title,author_name,series_name,series_position,subject&limit=5"@,
            ),
            LookupModel::Finished { .. } => None,
        }
    }
}

fn with_fits(candidates: Vec<EnrichmentCandidate>, title: &str, author: &str) -> (out: Vec<
    EnrichmentCandidate,
>)
    ensures
        views(out@) == views(candidates@).map_values(
            |candidate: CandidateModel| with_fit(candidate, title@, author@),
        ),
{
    let ghost model = views(candidates@);
    let ghost goal = model.map_values(
        |candidate: CandidateModel| with_fit(candidate, title@, author@),
    );
    let mut candidates = candidates;
    let mut i: usize = 0;
    while i < candidates.len()
        invariant
            i <= candidates.len() == model.len(),
            goal == model.map_values(
                |candidate: CandidateModel| with_fit(candidate, title@, author@),
            ),
            forall|j: int| 0 <= j < i ==> (#[trigger] candidates@[j])@ == goal[j],
            forall|j: int| i <= j < model.len() ==> (#[trigger] candidates@[j])@ == model[j],
        decreases candidates.len() - i,
    {
        let fit = candidate_matches_request(&candidates[i], title, author);
        let ghost before = candidates@;
        candidates[i].evidence.title_author_match = fit;
        assert(candidates@[i as int]@ == goal[i as int]);
        assert forall|j: int| i < j < model.len() implies (#[trigger] candidates@[j])@
            == model[j] by {
            assert(candidates@[j] == before[j]);
        }
        assert forall|j: int| 0 <= j < i implies (#[trigger] candidates@[j])@ == goal[j] by {
            assert(candidates@[j] == before[j]);
        }
        i += 1;
    }
    assert(views(candidates@) =~= goal);
    candidates
}

fn with_work_data(
    candidates: Vec<EnrichmentCandidate>,
    work: &WorkResponse,
    work_key: &str,
    edition_key: &str,
) -> (out: Vec<EnrichmentCandidate>)
    ensures
        views(out@) == views(candidates@).map_values(
            |candidate: CandidateModel| with_work(candidate, work@, work_key@, edition_key@),
        ),
{
    let ghost model = views(candidates@);
    let ghost goal = model.map_values(
        |candidate: CandidateModel| with_work(candidate, work@, work_key@, edition_key@),
    );
    let mut out: Vec<EnrichmentCandidate> = Vec::new();
    assert(views(out@) =~= goal.take(0));
    for candidate in it: candidates
        invariant
            it.seq() == candidates@,
            model == views(candidates@),
            goal == model.map_values(
                |candidate: CandidateModel| with_work(candidate, work@, work_key@, edition_key@),
            ),
            views(out@) == goal.take(it.index()),
    {
        let ghost i = it.index();
        assert(candidate@ == model[i]);
        let added = add_work_data(candidate, work, work_key, edition_key);
        proof {
            pushed_view(out@, added);
            assert(goal.take(i).push(added@) =~= goal.take(i + 1));
        }
        out.push(added);
    }
    assert(goal.take(goal.len() as int) =~= goal);
    out
}

impl OpenLibraryLookup {
    /// Starts to look a book up.
    pub fn start(request: &LookupRequest) -> (lookup: OpenLibraryLookup)
        ensures
            lookup@ == LookupModel::first(request@),
    {
        match isbn_from_identifiers(request.identifiers.as_slice()) {
            Some(isbn) => OpenLibraryLookup::Edition { isbn },
            None => {
                match (clone_text(&request.title), first_text(&request.authors)) {
                    (Some(title), Some(author)) => OpenLibraryLookup::TitleSearch { title, author },
                    _ => {
                        let none: Vec<EnrichmentCandidate> = Vec::new();
                        assert(views(none@) =~= Seq::empty());
                        OpenLibraryLookup::Finished { result: Ok(none) }
                    },
                }
            },
        }
    }

    /// Where the document that is to be fetched next is found.
    pub fn url(&self) -> (url: Option<String>)
        ensures
            viewed(url) == self@.url(),
    {
        match self {
            OpenLibraryLookup::Edition { isbn } => Some(
                glue("https://openlibrary.org/isbn/", isbn.as_str(), ".json"),
            ),
            OpenLibraryLookup::IsbnSearch { isbn, .. } => Some(
                glue(
                    "https://openlibrary.org/search.json?isbn=",
                    isbn.as_str(),
                    "&fields=key,title,author_name,series_name,series_position,subject&limit=3",
                ),
            ),
            OpenLibraryLookup::Work { work_key, .. } => Some(
                glue("https://openlibrary.org", work_key.as_str(), ".json"),
            ),
            OpenLibraryLookup::TitleSearch { title, author } => {
                let title_part = url_encode(title.as_str());
                let author_part = url_encode(author.as_str());
                let start = glue(
                    "https://openlibrary.org/search.json?title=",
                    title_part.as_str(),
                    "&author=",
                );
                Some(
                    glue(
                        start.as_str(),
                        author_part.as_str(),
                        "&fields=key,title,author_name,series_name,series_position,subject&limit=5",
                    ),
                )
            },
            OpenLibraryLookup::Finished { .. } => None,
        }
    }

    /// Goes on with the edition that was to be fetched.
    pub fn after_edition(self, outcome: Result<EditionResponse, ProviderError>) -> (lookup:
        OpenLibraryLookup)
        ensures
            lookup@ == self@.after_edition(fetched(outcome)),
    {
        match self {
            OpenLibraryLookup::Edition { isbn } => match outcome {
                Ok(edition) => OpenLibraryLookup::IsbnSearch { isbn, edition },
                Err(error) => OpenLibraryLookup::Finished { result: Err(error) },
            },
            other => other,
        }
    }

    /// Goes on with the answer to the search that was to be made.
    pub fn after_search(self, outcome: Result<SearchResponse, ProviderError>) -> (lookup:
        OpenLibraryLookup)
        ensures
            lookup@ == self@.after_search(fetched(outcome)),
    {
        match (self, outcome) {
            (OpenLibraryLookup::IsbnSearch { isbn, edition }, Ok(search)) => {
                let mut candidates = candidates_from_search(search, true);
                if candidates.len() == 0 {
                    let only = candidate_from_edition(&edition);
                    candidates.push(only);
                    assert(views(candidates@) =~= seq![only@]);
                }
                if edition.works.len() > 0 {
                    OpenLibraryLookup::Work {
                        candidates,
                        work_key: edition.works[0].key.clone(),
                        edition_key: edition.key,
                    }
                } else {
                    OpenLibraryLookup::Finished { result: Ok(candidates) }
                }
            },
            (OpenLibraryLookup::TitleSearch { title, author }, Ok(search)) => {
                let candidates = candidates_from_search(search, false);
                OpenLibraryLookup::Finished {
                    result: Ok(with_fits(candidates, title.as_str(), author.as_str())),
                }
            },
            (OpenLibraryLookup::IsbnSearch { .. }, Err(error)) => OpenLibraryLookup::Finished {
                result: Err(error),
            },
            (OpenLibraryLookup::TitleSearch { .. }, Err(error)) => OpenLibraryLookup::Finished {
                result: Err(error),
            },
            (other, _) => other,
        }
    }

    /// Goes on with the work that was to be fetched.
    pub fn after_work(self, outcome: Result<WorkResponse, ProviderError>) -> (lookup:
        OpenLibraryLookup)
        ensures
            lookup@ == self@.after_work(fetched(outcome)),
    {
        match self {
            OpenLibraryLookup::Work { candidates, work_key, edition_key } => match outcome {
                Ok(work) => OpenLibraryLookup::Finished {
                    result: Ok(
                        with_work_data(candidates, &work, work_key.as_str(), edition_key.as_str()),
                    ),
                },
                Err(_) => OpenLibraryLookup::Finished { result: Ok(candidates) },
            },
            other => other,
        }
    }
}

/// What a search says can be relied on only where it found one work, and where
/// the series is not taken from a subject heading.
pub proof fn search_results_are_taken_with_care(
    search: SearchModel,
    identifier_match: bool,
    index: int,
)
    requires
        0 <= index < search.docs.len(),
        is_reliable(candidates_of(search, identifier_match)[index], search.docs.len() > 1),
    ensures
        search.num_found <= 1,
        search.docs.len() == 1,
        search.docs[index].series_name.len() > 0 || series_subject(search.docs[index].subject)
            is None,
        candidates_of(search, identifier_match)[index].series is Some ==> candidates_of(
            search,
            identifier_match,
        )[index].series->0.confidence == Confidence::High,
{
}

/// Every value that a search gives says that it comes from Open Library, and from
/// which record.
pub proof fn search_results_say_where_they_come_from(
    search: SearchModel,
    identifier_match: bool,
    index: int,
)
    requires
        0 <= index < search.docs.len(),
    ensures
        ({
            let candidate = candidates_of(search, identifier_match)[index];
            let origin = record(search.docs[index].key);
            &&& candidate.title is Some ==> candidate.title->0.provenance == origin
            &&& candidate.series is Some ==> candidate.series->0.provenance == origin
            &&& candidate.series_index is Some ==> candidate.series_index->0.provenance == origin
            &&& forall|i: int|
                0 <= i < candidate.authors.len() ==> (#[trigger] candidate.authors[i]).provenance
                    == origin
        }),
{
}

/// A candidate that was found by title and author has no identifier to support it:
/// it is put to the reader, whether both fit or not.
pub proof fn title_searches_wait_for_the_reader(
    search: SearchModel,
    title: Seq<char>,
    author: Seq<char>,
    index: int,
    multiple: bool,
)
    requires
        0 <= index < search.docs.len(),
    ensures
        !is_reliable(with_fit(candidates_of(search, false)[index], title, author), multiple),
        with_fit(candidates_of(search, false)[index], title, author).evidence.title_author_match
            == fits(candidates_of(search, false)[index], title, author),
{
}

/// Whether a subject heading that names a series stands at a place and none before
/// it.
pub open spec fn is_first_series_heading(subjects: Seq<Seq<char>>, place: int) -> bool {
    &&& 0 <= place < subjects.len()
    &&& "series:"@.is_prefix_of(subjects[place])
    &&& forall|i: int| 0 <= i < place ==> !"series:"@.is_prefix_of(#[trigger] subjects[i])
}

proof fn the_first_heading_names_the_series(subjects: Seq<Seq<char>>)
    ensures
        forall|place: int| #[trigger]
            is_first_series_heading(subjects, place) ==> series_subject(subjects) == Some(
                trim(subjects[place].skip(7)),
            ),
        (forall|i: int|
            0 <= i < subjects.len() ==> !"series:"@.is_prefix_of(#[trigger] subjects[i]))
            ==> series_subject(subjects) is None,
    decreases subjects.len(),
{
    reveal_strlit("series:");
    let prefix = "series:"@;
    assert(prefix.len() == 7);
    if subjects.len() > 0 {
        assert(stands_at(subjects[0], prefix, 0) <==> prefix.is_prefix_of(subjects[0]));
        let rest = subjects.drop_first();
        the_first_heading_names_the_series(rest);
        assert forall|place: int| #[trigger]
            is_first_series_heading(subjects, place) implies series_subject(subjects) == Some(
            trim(subjects[place].skip(7)),
        ) by {
            if place > 0 {
                assert(!prefix.is_prefix_of(subjects[0]));
                assert forall|i: int| 0 <= i < place - 1 implies !prefix.is_prefix_of(
                    #[trigger] rest[i],
                ) by {
                    assert(rest[i] == subjects[i + 1]);
                }
                assert(rest[place - 1] == subjects[place]);
                assert(is_first_series_heading(rest, place - 1));
            }
        }
        if forall|i: int| 0 <= i < subjects.len() ==> !prefix.is_prefix_of(#[trigger] subjects[i]) {
            assert(!prefix.is_prefix_of(subjects[0]));
            assert forall|i: int| 0 <= i < rest.len() implies !prefix.is_prefix_of(
                #[trigger] rest[i],
            ) by {
                assert(rest[i] == subjects[i + 1]);
            }
        }
    }
}

/// Whether a value is this text, held with this confidence and taken from Open
/// Library's record of a key.
pub open spec fn is_taken_from(
    value: ValueModel,
    text: Seq<char>,
    confidence: Confidence,
    key: Seq<char>,
) -> bool {
    &&& value.value == text
    &&& value.confidence == confidence
    &&& value.provenance.source == "Open Library"@
    &&& value.provenance.record_id == key
    &&& value.provenance.url == "https://openlibrary.org"@ + key
}

/// Whether a candidate says what a work that was found says: its title and its
/// authors, held to be certain where it was found by an identifier; the first series
/// that it states and its first place in it, held to be certain; and, where it states
/// none, the series of its first heading of that kind, as a hint.
pub open spec fn speaks_for(
    candidate: CandidateModel,
    doc: DocModel,
    by_identifier: bool,
) -> bool {
    let confidence = if by_identifier {
        Confidence::High
    } else {
        Confidence::Medium
    };
    let no_heading = forall|i: int|
        0 <= i < doc.subject.len() ==> !"series:"@.is_prefix_of(#[trigger] doc.subject[i]);
    &&& candidate.evidence.identifier_match == by_identifier
    &&& doc.title is None ==> candidate.title is None
    &&& doc.title is Some ==> candidate.title is Some && is_taken_from(
        candidate.title->0,
        doc.title->0,
        confidence,
        doc.key,
    )
    &&& candidate.authors.len() == doc.author_name.len()
    &&& forall|i: int|
        0 <= i < doc.author_name.len() ==> is_taken_from(
            #[trigger] candidate.authors[i],
            doc.author_name[i],
            confidence,
            doc.key,
        )
    &&& candidate.evidence.structured_series == (doc.series_name.len() > 0)
    &&& doc.series_name.len() > 0 ==> candidate.series is Some && is_taken_from(
        candidate.series->0,
        doc.series_name[0],
        Confidence::High,
        doc.key,
    ) && !candidate.evidence.subject_only_series
    &&& doc.series_name.len() == 0 ==> forall|place: int| #[trigger]
        is_first_series_heading(doc.subject, place) ==> candidate.series is Some && is_taken_from(
            candidate.series->0,
            trim(doc.subject[place].skip(7)),
            Confidence::Low,
            doc.key,
        ) && candidate.evidence.subject_only_series
    &&& doc.series_name.len() == 0 && no_heading ==> candidate.series is None
        && !candidate.evidence.subject_only_series
    &&& doc.series_position.len() == 0 ==> candidate.series_index is None
    &&& doc.series_position.len() > 0 ==> candidate.series_index is Some && is_taken_from(
        candidate.series_index->0,
        doc.series_position[0],
        Confidence::High,
        doc.key,
    )
}

proof fn candidates_speak_for_works(search: SearchModel, by_identifier: bool)
    ensures
        candidates_of(search, by_identifier).len() == search.docs.len(),
        forall|i: int|
            0 <= i < search.docs.len() ==> speaks_for(
                #[trigger] candidates_of(search, by_identifier)[i],
                search.docs[i],
                by_identifier,
            ) && (candidates_of(search, by_identifier)[i].evidence.ambiguous <==> search.num_found
                > 1) && candidates_of(search, by_identifier)[i].evidence.title_author_match,
{
    assert forall|i: int| 0 <= i < search.docs.len() implies speaks_for(
        #[trigger] candidates_of(search, by_identifier)[i],
        search.docs[i],
        by_identifier,
    ) by {
        the_first_heading_names_the_series(search.docs[i].subject);
    }
}

/// What a search by an ISBN finds speaks for the book, work by work, and is ambiguous
/// where more than one was found; where it finds nothing, the edition does, with its
/// title alone. The first work of the edition is asked next, where it names one.
pub proof fn isbn_searches_speak_for_the_book(
    isbn: Seq<char>,
    edition: EditionModel,
    search: SearchModel,
)
    ensures
        ({
            let after = (LookupModel::IsbnSearch { isbn, edition }).after_search(Ok(search));
            let candidates = match after {
                LookupModel::Work { candidates, .. } => candidates,
                LookupModel::Finished { result: Ok(candidates) } => candidates,
                _ => Seq::empty(),
            };
            &&& edition.works.len() > 0 ==> after == (LookupModel::Work {
                candidates,
                work_key: edition.works[0],
                edition_key: edition.key,
            })
            &&& edition.works.len() == 0 ==> after == (LookupModel::Finished {
                result: Ok(candidates),
            })
            &&& search.docs.len() > 0 ==> {
                &&& candidates.len() == search.docs.len()
                &&& forall|i: int|
                    0 <= i < search.docs.len() ==> speaks_for(
                        #[trigger] candidates[i],
                        search.docs[i],
                        true,
                    ) && candidates[i].evidence.title_author_match && (
                    candidates[i].evidence.ambiguous <==> search.num_found > 1)
            }
            &&& search.docs.len() == 0 ==> {
                let candidate = candidates[0];
                &&& candidates.len() == 1
                &&& edition.title is None ==> candidate.title is None
                &&& edition.title is Some ==> candidate.title is Some && is_taken_from(
                    candidate.title->0,
                    edition.title->0,
                    Confidence::High,
                    edition.key,
                )
                &&& candidate.authors.len() == 0
                &&& candidate.series is None
                &&& candidate.series_index is None
                &&& candidate.evidence.identifier_match
                &&& candidate.evidence.title_author_match
                &&& !candidate.evidence.structured_series
                &&& !candidate.evidence.subject_only_series
                &&& !candidate.evidence.ambiguous
            }
        }),
{
    candidates_speak_for_works(search, true);
}

/// What a search by title and author finds is held to fit where its title and its
/// first author, in letters and numbers alone and in small letters, are those asked
/// for, and is ambiguous where more than one work was found.
pub proof fn title_searches_are_held_against_the_request(
    title: Seq<char>,
    author: Seq<char>,
    search: SearchModel,
)
    ensures
        match (LookupModel::TitleSearch { title, author }).after_search(Ok(search)) {
            LookupModel::Finished { result: Ok(candidates) } => {
                &&& candidates.len() == search.docs.len()
                &&& forall|i: int|
                    0 <= i < search.docs.len() ==> {
                        let (candidate, doc) = (#[trigger] candidates[i], search.docs[i]);
                        &&& speaks_for(candidate, doc, false)
                        &&& candidate.evidence.ambiguous <==> search.num_found > 1
                        &&& candidate.evidence.title_author_match <==> doc.title is Some
                            && match_text(doc.title->0) == match_text(title)
                            && doc.author_name.len() > 0 && match_text(doc.author_name[0])
                            == match_text(author)
                    }
            },
            _ => false,
        },
{
    candidates_speak_for_works(search, false);
    let found = candidates_of(search, false);
    let candidates = found.map_values(
        |candidate: CandidateModel| with_fit(candidate, title, author),
    );
    assert forall|i: int| 0 <= i < search.docs.len() implies {
        let (candidate, doc) = (#[trigger] candidates[i], search.docs[i]);
        &&& speaks_for(candidate, doc, false)
        &&& candidate.evidence.ambiguous <==> search.num_found > 1
        &&& candidate.evidence.title_author_match <==> doc.title is Some && match_text(
            doc.title->0,
        ) == match_text(title) && doc.author_name.len() > 0 && match_text(doc.author_name[0])
            == match_text(author)
    } by {
        assert(speaks_for(found[i], search.docs[i], false));
        if search.docs[i].author_name.len() > 0 {
            assert(is_taken_from(
                found[i].authors[0],
                search.docs[i].author_name[0],
                Confidence::Medium,
                search.docs[i].key,
            ));
        }
    }
}

/// What is compared of a text is compared sign by sign, in order: the small form of
/// each letter and number, and nothing of any other sign.
pub proof fn texts_are_compared_by_their_letters_and_numbers(a: Seq<char>, b: Seq<char>, c: char)
    ensures
        match_text(a + b) == match_text(a) + match_text(b),
        match_text(seq![c]) == if is_alphanumeric(c) {
            lowercase(c)
        } else {
            Seq::empty()
        },
        match_text(Seq::empty()) == Seq::<char>::empty(),
    decreases b.len(),
{
    let one = seq![c];
    assert(one.drop_last() =~= Seq::empty());
    assert(match_text(one.drop_last()) =~= Seq::empty());
    assert(match_text(one) =~= if is_alphanumeric(c) {
        lowercase(c)
    } else {
        Seq::empty()
    });
    if b.len() > 0 {
        texts_are_compared_by_their_letters_and_numbers(a, b.drop_last(), c);
        assert((a + b).drop_last() =~= a + b.drop_last());
        assert((a + b).last() == b.last());
        assert(match_text(a + b) =~= match_text(a) + match_text(b));
    } else {
        assert(a + b =~= a);
        assert(match_text(a) + match_text(b) =~= match_text(a));
    }
}

/// The work of a book adds to each candidate the name that Wikidata has for it, in
/// the record of the title, behind the keys of the edition and the work; and, where
/// the candidate has no series, that of the work's first heading of that kind, as a
/// hint. It changes nothing else; a work that could not be fetched changes nothing.
pub proof fn works_add_what_candidates_lack(
    candidates: Seq<CandidateModel>,
    work_key: Seq<char>,
    edition_key: Seq<char>,
    work: WorkModel,
    error: ProviderErrorModel,
)
    ensures
        ({
            let before = LookupModel::Work { candidates, work_key, edition_key };
            let no_heading = forall|i: int|
                0 <= i < work.subjects.len() ==> !"series:"@.is_prefix_of(
                    #[trigger] work.subjects[i],
                );
            &&& before.after_work(Err(error)) == (LookupModel::Finished { result: Ok(candidates) })
            &&& match before.after_work(Ok(work)) {
                LookupModel::Finished { result: Ok(after) } => {
                    &&& after.len() == candidates.len()
                    &&& forall|i: int|
                        0 <= i < candidates.len() ==> {
                            let (new, old_one) = (#[trigger] after[i], candidates[i]);
                            &&& new.authors == old_one.authors
                            &&& new.series_index == old_one.series_index
                            &&& new.title is Some <==> old_one.title is Some
                            &&& new.title is Some ==> {
                                let (a, b) = (new.title->0, old_one.title->0);
                                &&& a.value == b.value
                                &&& a.confidence == b.confidence
                                &&& a.provenance.source == b.provenance.source
                                &&& a.provenance.url == b.provenance.url
                                &&& a.provenance.record_id == if work.wikidata.len() > 0 {
                                    edition_key + "|"@ + work_key + "|"@ + work.wikidata[0]
                                } else {
                                    b.provenance.record_id
                                }
                            }
                            &&& old_one.series is Some || no_heading ==> new.series
                                == old_one.series && new.evidence == old_one.evidence
                            &&& old_one.series is None ==> forall|place: int| #[trigger]
                                is_first_series_heading(work.subjects, place) ==> new.series is Some
                                    && is_taken_from(
                                    new.series->0,
                                    trim(work.subjects[place].skip(7)),
                                    Confidence::Low,
                                    work_key,
                                ) && new.evidence == (CandidateEvidence {
                                    subject_only_series: true,
                                    ..old_one.evidence
                                })
                        }
                },
                _ => false,
            }
        }),
{
    the_first_heading_names_the_series(work.subjects);
}

/// A book is looked up by its ISBN, where it has one: its edition is fetched, then
/// the works of the ISBN. Without one it is looked up by its title and its first
/// author, where it has both, and else not at all. A document that could not be
/// fetched ends the lookup with the error.
pub proof fn books_are_looked_up_by_isbn_first(
    request: RequestModel,
    isbn: Seq<char>,
    edition: EditionModel,
    title: Seq<char>,
    author: Seq<char>,
    error: ProviderErrorModel,
)
    ensures
        ({
            let first = LookupModel::first(request);
            let failed = LookupModel::Finished { result: Err(error) };
            &&& first_isbn(request.identifiers) is Some ==> first == (LookupModel::Edition {
                isbn: first_isbn(request.identifiers)->0,
            })
            &&& first_isbn(request.identifiers) is None && request.title is Some
                && request.authors.len() > 0 ==> first == (LookupModel::TitleSearch {
                title: request.title->0,
                author: request.authors[0],
            })
            &&& first_isbn(request.identifiers) is None && (request.title is None
                || request.authors.len() == 0) ==> first == (LookupModel::Finished {
                result: Ok(Seq::empty()),
            })
            &&& (LookupModel::Edition { isbn }).after_edition(Ok(edition))
                == (LookupModel::IsbnSearch { isbn, edition })
            &&& (LookupModel::Edition { isbn }).after_edition(Err(error)) == failed
            &&& (LookupModel::IsbnSearch { isbn, edition }).after_search(Err(error)) == failed
            &&& (LookupModel::TitleSearch { title, author }).after_search(Err(error)) == failed
        }),
{
}

/// Each document is asked for by what it is about.
pub proof fn documents_are_asked_for_by_their_subject(
    isbn: Seq<char>,
    edition: EditionModel,
    candidates: Seq<CandidateModel>,
    work_key: Seq<char>,
    edition_key: Seq<char>,
    title: Seq<char>,
    author: Seq<char>,
)
    ensures
        ({
            let host = "https://openlibrary.org"@;
            let search = "/search.json?"@;
            let fields = "&fields=key,title,author_name,series_name,series_position,subject"@;
            &&& (LookupModel::Edition { isbn }).url() == Some(host + "/isbn/"@ + isbn + ".json"@)
            &&& (LookupModel::IsbnSearch { isbn, edition }).url() == Some(
                host + search + "isbn="@ + isbn + fields + "&limit=3"@,
            )
            &&& (LookupModel::Work { candidates, work_key, edition_key }).url() == Some(
                host + work_key + ".json"@,
            )
            &&& (LookupModel::TitleSearch { title, author }).url() == Some(
                host + search + "title="@ + percent_encoded(encode_utf8(title)) + "&author="@
                    + percent_encoded(encode_utf8(author)) + fields + "&limit=5"@,
            )
        }),
{
    reveal_strlit("https://openlibrary.org");
    reveal_strlit("/isbn/");
    reveal_strlit("https://openlibrary.org/isbn/");
    reveal_strlit("/search.json?");
    reveal_strlit("isbn=");
    reveal_strlit("title=");
    reveal_strlit("https://openlibrary.org/search.json?isbn=");
    reveal_strlit("https://openlibrary.org/search.json?title=");
    reveal_strlit("&fields=key,title,author_name,series_name,series_position,subject");
    reveal_strlit("&limit=3");
    reveal_strlit("&limit=5");
    reveal_strlit(
        "&fields=key,title,author_name,series_name,series_position,subject&limit=3",
    );
    reveal_strlit(
        "&fields=key,title,author_name,series_name,series_position,subject&limit=5",
    );
    let host = "https://openlibrary.org"@;
    let search = "/search.json?"@;
    let fields = "&fields=key,title,author_name,series_name,series_position,subject"@;
    assert(host + "/isbn/"@ =~= "https://openlibrary.org/isbn/"@);
    assert(host + search + "isbn="@ =~= "https://openlibrary.org/search.json?isbn="@);
    assert(host + search + "title="@ =~= "https://openlibrary.org/search.json?title="@);
    let three = "&fields=key,title,author_name,series_name,series_position,subject&limit=3"@;
    let five = "&fields=key,title,author_name,series_name,series_position,subject&limit=5"@;
    assert(fields + "&limit=3"@ =~= three);
    assert(fields + "&limit=5"@ =~= five);
    let by_isbn = "https://openlibrary.org/search.json?isbn="@ + isbn;
    assert(by_isbn + fields + "&limit=3"@ =~= by_isbn + three);
    let by_title = "https://openlibrary.org/search.json?title="@ + percent_encoded(
        encode_utf8(title),
    ) + "&author="@ + percent_encoded(encode_utf8(author));
    assert(by_title + fields + "&limit=5"@ =~= by_title + five);
}

} // verus!
