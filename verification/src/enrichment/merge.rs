//! What a lookup's answer means for a book: which fields are filled in, and which
//! are put to the reader first.

use vstd::prelude::*;

use crate::epub_metadata::{BookModel, NormalizedMetadata};
use crate::text::{clone_text, is_blank, is_blank_text, pushed_view, same_text, viewed, views};
use super::{
    CandidateModel, Confidence, EnrichmentCandidate, EnrichmentMode, LookupRequest,
    MetadataProvider, Provenance, ProvenanceModel, ProvenancedValue, ProviderError,
    ProviderErrorModel, RequestModel, ValueModel,
};

verus! {

/// What enrichment came to.
#[derive(Debug, Clone, PartialEq, Eq)]
pub struct EnrichmentReport {
    pub status: EnrichmentStatus,
    pub patches: Vec<FieldPatch>,
    pub applied: bool,
    pub warnings: Vec<String>,
    pub errors: Vec<ProviderErrorReport>,
}

#[derive(Debug, Clone, Copy, PartialEq, Eq, Structural)]
pub enum EnrichmentStatus {
    NotRequested,
    Found,
    NoMatch,
    NeedsConfirmation,
    LookupFailed,
}

/// A change to one field.
#[derive(Debug, PartialEq, Eq)]
pub struct FieldPatch {
    pub field: MetadataField,
    pub old_value: Option<String>,
    pub new_value: String,
    pub confidence: Confidence,
    pub provenance: Provenance,
    pub applied: bool,
    pub reason: String,
}

#[derive(Debug, Clone, Copy, PartialEq, Eq, Structural)]
pub enum MetadataField {
    Title,
    Author,
    Series,
    SeriesIndex,
}

#[derive(Debug, Clone, PartialEq, Eq)]
pub struct ProviderErrorReport {
    pub source: String,
    pub message: String,
}

/// A book's metadata after enrichment, and how that came about.
#[derive(Debug, Clone, PartialEq, Eq)]
pub struct EnrichmentOutcome {
    pub metadata: NormalizedMetadata,
    pub report: EnrichmentReport,
}

pub struct PatchModel {
    pub field: MetadataField,
    pub old_value: Option<Seq<char>>,
    pub new_value: Seq<char>,
    pub confidence: Confidence,
    pub provenance: ProvenanceModel,
    pub applied: bool,
    pub reason: Seq<char>,
}

pub struct ReportModel {
    pub status: EnrichmentStatus,
    pub patches: Seq<PatchModel>,
    pub applied: bool,
    pub warnings: Seq<Seq<char>>,
    pub errors: Seq<ProviderErrorModel>,
}

pub struct OutcomeModel {
    pub metadata: BookModel,
    pub report: ReportModel,
}

impl View for FieldPatch {
    type V = PatchModel;

    open spec fn view(&self) -> PatchModel {
        PatchModel {
            field: self.field,
            old_value: viewed(self.old_value),
            new_value: self.new_value@,
            confidence: self.confidence,
            provenance: self.provenance@,
            applied: self.applied,
            reason: self.reason@,
        }
    }
}

impl Clone for FieldPatch {
    fn clone(&self) -> (copy: Self)
        ensures
            copy@ == self@,
    {
        FieldPatch {
            field: self.field,
            old_value: clone_text(&self.old_value),
            new_value: self.new_value.clone(),
            confidence: self.confidence,
            provenance: self.provenance.clone(),
            applied: self.applied,
            reason: self.reason.clone(),
        }
    }
}

impl View for ProviderErrorReport {
    type V = ProviderErrorModel;

    open spec fn view(&self) -> ProviderErrorModel {
        ProviderErrorModel { source: self.source@, message: self.message@ }
    }
}

impl View for EnrichmentReport {
    type V = ReportModel;

    open spec fn view(&self) -> ReportModel {
        ReportModel {
            status: self.status,
            patches: views(self.patches@),
            applied: self.applied,
            warnings: views(self.warnings@),
            errors: views(self.errors@),
        }
    }
}

impl View for EnrichmentOutcome {
    type V = OutcomeModel;

    open spec fn view(&self) -> OutcomeModel {
        OutcomeModel { metadata: self.metadata@, report: self.report@ }
    }
}

/// A lookup's answer.
pub open spec fn answer(looked_up: Result<Vec<EnrichmentCandidate>, ProviderError>) -> Result<
    Seq<CandidateModel>,
    ProviderErrorModel,
> {
    match looked_up {
        Ok(candidates) => Ok(views(candidates@)),
        Err(error) => Err(error@),
    }
}

/// A candidate that can be relied on without asking: the only one, its title,
/// authors and identifier fit, and its series is not taken from a subject heading.
pub open spec fn is_reliable(candidate: CandidateModel, multiple: bool) -> bool {
    let evidence = candidate.evidence;
    &&& !evidence.ambiguous
    &&& !multiple
    &&& evidence.title_author_match
    &&& evidence.identifier_match
    &&& !evidence.subject_only_series
}

pub open spec fn holds_something(value: Option<Seq<char>>) -> bool {
    value is Some && !is_blank(value->0)
}

/// The patch, if any, that a proposed value makes.
pub open spec fn patch_for(
    field: MetadataField,
    old_value: Option<Seq<char>>,
    proposed: Option<ValueModel>,
    reliable: bool,
    mode: EnrichmentMode,
) -> Option<PatchModel> {
    match proposed {
        None => None,
        Some(value) => if old_value == Some(value.value) {
            None
        } else {
            let applied = mode == EnrichmentMode::AutoApplyHighConfidence && value.confidence
                == Confidence::High && reliable && (!holds_something(old_value) || field
                == MetadataField::Series || field == MetadataField::SeriesIndex);
            Some(
                PatchModel {
                    field,
                    old_value,
                    new_value: value.value,
                    confidence: value.confidence,
                    provenance: value.provenance,
                    applied,
                    reason: if applied {
                        "high-confidence enrichment auto-applied"@
                    } else if holds_something(old_value) {
                        "existing metadata preserved pending confirmation"@
                    } else {
                        "proposed for confirmation"@
                    },
                },
            )
        },
    }
}

pub open spec fn first_of<T>(items: Seq<T>) -> Option<T> {
    if items.len() > 0 {
        Some(items[0])
    } else {
        None
    }
}

pub open spec fn as_seq<T>(item: Option<T>) -> Seq<T> {
    match item {
        Some(inner) => seq![inner],
        None => Seq::empty(),
    }
}

/// What is applied of a patch.
pub open spec fn taken(patch: Option<PatchModel>) -> Option<Seq<char>> {
    match patch {
        Some(p) => if p.applied {
            Some(p.new_value)
        } else {
            None
        },
        None => None,
    }
}

pub open spec fn or_else<T>(first: Option<T>, second: Option<T>) -> Option<T> {
    if first is Some {
        first
    } else {
        second
    }
}

pub open spec fn title_patch(
    book: BookModel,
    candidate: CandidateModel,
    reliable: bool,
    mode: EnrichmentMode,
) -> Option<PatchModel> {
    patch_for(MetadataField::Title, book.title, candidate.title, reliable, mode)
}

pub open spec fn author_patch(
    book: BookModel,
    candidate: CandidateModel,
    reliable: bool,
    mode: EnrichmentMode,
) -> Option<PatchModel> {
    patch_for(
        MetadataField::Author,
        first_of(book.authors),
        first_of(candidate.authors),
        reliable,
        mode,
    )
}

pub open spec fn series_patch(
    book: BookModel,
    candidate: CandidateModel,
    reliable: bool,
    mode: EnrichmentMode,
) -> Option<PatchModel> {
    patch_for(MetadataField::Series, book.series, candidate.series, reliable, mode)
}

pub open spec fn series_index_patch(
    book: BookModel,
    candidate: CandidateModel,
    reliable: bool,
    mode: EnrichmentMode,
) -> Option<PatchModel> {
    patch_for(
        MetadataField::SeriesIndex,
        book.series_index,
        candidate.series_index,
        reliable,
        mode,
    )
}

/// What the first of one or more candidates makes of a book.
pub open spec fn enriched_by(
    book: BookModel,
    candidate: CandidateModel,
    multiple: bool,
    mode: EnrichmentMode,
) -> OutcomeModel {
    let reliable = is_reliable(candidate, multiple);
    let ambiguous = candidate.evidence.ambiguous || multiple;
    let title = title_patch(book, candidate, reliable, mode);
    let author = author_patch(book, candidate, reliable, mode);
    let series = series_patch(book, candidate, reliable, mode);
    let index = series_index_patch(book, candidate, reliable, mode);
    let patches = as_seq(title) + as_seq(author) + as_seq(series) + as_seq(index);
    OutcomeModel {
        metadata: BookModel {
            title: or_else(taken(title), book.title),
            authors: match taken(author) {
                Some(name) => seq![name],
                None => book.authors,
            },
            series: or_else(taken(series), book.series),
            series_index: or_else(taken(index), book.series_index),
            ..book
        },
        report: ReportModel {
            status: if ambiguous || exists|i: int|
                0 <= i < patches.len() && !(#[trigger] patches[i]).applied {
                EnrichmentStatus::NeedsConfirmation
            } else {
                EnrichmentStatus::Found
            },
            patches,
            applied: exists|i: int| 0 <= i < patches.len() && (#[trigger] patches[i]).applied,
            warnings: (if ambiguous {
                seq!["ambiguous_enrichment_match"@]
            } else {
                Seq::empty()
            }) + (if candidate.evidence.subject_only_series {
                seq!["series_from_subject_hint_only"@]
            } else {
                Seq::empty()
            }),
            errors: Seq::empty(),
        },
    }
}

/// What a lookup's answer makes of a book.
pub open spec fn enriched(
    book: BookModel,
    looked_up: Result<Seq<CandidateModel>, ProviderErrorModel>,
    mode: EnrichmentMode,
) -> OutcomeModel {
    match looked_up {
        Err(error) => OutcomeModel {
            metadata: book,
            report: ReportModel {
                status: EnrichmentStatus::LookupFailed,
                patches: Seq::empty(),
                applied: false,
                warnings: Seq::empty(),
                errors: seq![error],
            },
        },
        Ok(candidates) => if candidates.len() == 0 {
            OutcomeModel {
                metadata: book,
                report: ReportModel {
                    status: EnrichmentStatus::NoMatch,
                    patches: Seq::empty(),
                    applied: false,
                    warnings: Seq::empty(),
                    errors: Seq::empty(),
                },
            }
        } else {
            enriched_by(book, candidates[0], candidates.len() > 1, mode)
        },
    }
}

/// Whether a candidate can be relied on without asking.
pub fn candidate_can_auto_apply(candidate: &EnrichmentCandidate, multiple_candidates: bool) -> (yes:
    bool)
    ensures
        yes == is_reliable(candidate@, multiple_candidates),
{
    !candidate.evidence.ambiguous && !multiple_candidates && candidate.evidence.title_author_match
        && candidate.evidence.identifier_match && !candidate.evidence.subject_only_series
}

/// Adds the patch, if any, that a proposed value makes, and gives back the value
/// where the patch is applied.
fn push_patch(
    patches: &mut Vec<FieldPatch>,
    field: MetadataField,
    old_value: Option<&String>,
    proposed: Option<&ProvenancedValue<String>>,
    candidate_auto_apply: bool,
    mode: EnrichmentMode,
) -> (value: Option<String>)
    ensures
        ({
            let patch = patch_for(
                field,
                viewed(old_value),
                viewed(proposed),
                candidate_auto_apply,
                mode,
            );
            views(final(patches)@) == views(old(patches)@) + as_seq(patch) && viewed(value)
                == taken(patch)
        }),
{
    let ghost before = patches@;
    let proposed = match proposed {
        Some(proposed) => proposed,
        None => {
            assert(views(before) + Seq::<PatchModel>::empty() =~= views(before));
            return None;
        },
    };
    let mut replacing_existing = false;
    let mut old_copy: Option<String> = None;
    match old_value {
        Some(old_text) => {
            if same_text(old_text.as_str(), proposed.value.as_str()) {
                assert(views(before) + Seq::<PatchModel>::empty() =~= views(before));
                return None;
            }
            replacing_existing = !is_blank_text(old_text.as_str());
            old_copy = Some(old_text.clone());
        },
        None => {},
    }
    let applied = mode == EnrichmentMode::AutoApplyHighConfidence && proposed.confidence
        == Confidence::High && candidate_auto_apply && (!replacing_existing || field
        == MetadataField::Series || field == MetadataField::SeriesIndex);
    let reason: String = if applied {
        "high-confidence enrichment auto-applied".to_owned()
    } else if replacing_existing {
        "existing metadata preserved pending confirmation".to_owned()
    } else {
        "proposed for confirmation".to_owned()
    };
    let patch = FieldPatch {
        field,
        old_value: old_copy,
        new_value: proposed.value.clone(),
        confidence: proposed.confidence,
        provenance: proposed.provenance.clone(),
        applied,
        reason,
    };
    proof {
        pushed_view(before, patch);
        assert(views(before) + seq![patch@] =~= views(before).push(patch@));
    }
    patches.push(patch);
    if applied {
        Some(proposed.value.clone())
    } else {
        None
    }
}

fn any_patch(patches: &Vec<FieldPatch>, applied: bool) -> (yes: bool)
    ensures
        yes == (exists|i: int|
            0 <= i < views(patches@).len() && (#[trigger] views(patches@)[i]).applied == applied),
{
    let mut i: usize = 0;
    while i < patches.len()
        invariant
            i <= patches.len(),
            forall|j: int| 0 <= j < i ==> (#[trigger] views(patches@)[j]).applied != applied,
        decreases patches.len() - i,
    {
        if patches[i].applied == applied {
            assert(views(patches@)[i as int].applied == applied);
            return true;
        }
        i += 1;
    }
    false
}

/// What a lookup's answer makes of a book.
pub fn enrich_from_lookup(
    metadata: &NormalizedMetadata,
    looked_up: Result<Vec<EnrichmentCandidate>, ProviderError>,
    mode: EnrichmentMode,
) -> (outcome: EnrichmentOutcome)
    ensures
        outcome@ == enriched(metadata@, answer(looked_up), mode),
{
    let candidates: Vec<EnrichmentCandidate> = match looked_up {
        Ok(candidates) => candidates,
        Err(error) => {
            let mut errors: Vec<ProviderErrorReport> = Vec::new();
            errors.push(ProviderErrorReport { source: error.source, message: error.message });
            let report = EnrichmentReport {
                status: EnrichmentStatus::LookupFailed,
                patches: Vec::new(),
                applied: false,
                warnings: Vec::new(),
                errors,
            };
            proof {
                assert(report@.patches =~= Seq::empty());
                assert(report@.warnings =~= Seq::empty());
                assert(report@.errors =~= seq![error@]);
            }
            return EnrichmentOutcome { metadata: metadata.clone(), report };
        },
    };
    if candidates.len() == 0 {
        let report = EnrichmentReport {
            status: EnrichmentStatus::NoMatch,
            patches: Vec::new(),
            applied: false,
            warnings: Vec::new(),
            errors: Vec::new(),
        };
        proof {
            assert(report@.patches =~= Seq::empty());
            assert(report@.warnings =~= Seq::empty());
            assert(report@.errors =~= Seq::empty());
        }
        return EnrichmentOutcome { metadata: metadata.clone(), report };
    }
    let candidate = &candidates[0];
    let multiple = candidates.len() > 1;
    let auto_apply = candidate_can_auto_apply(candidate, multiple);
    let ambiguous = candidate.evidence.ambiguous || multiple;
    let mut enriched_metadata = metadata.clone();
    let mut patches: Vec<FieldPatch> = Vec::new();
    let mut warnings: Vec<String> = Vec::new();
    if ambiguous {
        warnings.push("ambiguous_enrichment_match".to_owned());
    }
    if candidate.evidence.subject_only_series {
        warnings.push("series_from_subject_hint_only".to_owned());
    }
    assert(views(patches@) =~= Seq::empty());
    let title = push_patch(
        &mut patches,
        MetadataField::Title,
        metadata.title.as_ref(),
        candidate.title.as_ref(),
        auto_apply,
        mode,
    );
    let first_author: Option<&String> = if metadata.authors.len() > 0 {
        Some(&metadata.authors[0])
    } else {
        None
    };
    let proposed_author: Option<&ProvenancedValue<String>> = if candidate.authors.len() > 0 {
        Some(&candidate.authors[0])
    } else {
        None
    };
    let author = push_patch(
        &mut patches,
        MetadataField::Author,
        first_author,
        proposed_author,
        auto_apply,
        mode,
    );
    let series = push_patch(
        &mut patches,
        MetadataField::Series,
        metadata.series.as_ref(),
        candidate.series.as_ref(),
        auto_apply,
        mode,
    );
    let series_index = push_patch(
        &mut patches,
        MetadataField::SeriesIndex,
        metadata.series_index.as_ref(),
        candidate.series_index.as_ref(),
        auto_apply,
        mode,
    );
    if title.is_some() {
        enriched_metadata.title = title;
    }
    match author {
        Some(name) => {
            let mut authors: Vec<String> = Vec::new();
            authors.push(name);
            assert(views(authors@) =~= seq![name@]);
            enriched_metadata.authors = authors;
        },
        None => {},
    }
    if series.is_some() {
        enriched_metadata.series = series;
    }
    if series_index.is_some() {
        enriched_metadata.series_index = series_index;
    }
    let ghost goal = enriched_by(metadata@, candidate@, multiple, mode);
    assert(views(patches@) =~= goal.report.patches);
    let applied = any_patch(&patches, true);
    let status = if ambiguous || any_patch(&patches, false) {
        EnrichmentStatus::NeedsConfirmation
    } else {
        EnrichmentStatus::Found
    };
    let report = EnrichmentReport { status, patches, applied, warnings, errors: Vec::new() };
    proof {
        assert(report@.warnings =~= goal.report.warnings);
        assert(report@.errors =~= Seq::empty());
        assert(views(candidates@)[0] == candidate@);
    }
    EnrichmentOutcome { metadata: enriched_metadata, report }
}

/// Asks a provider about a book and takes from the answer what can be relied on.
///
/// What the provider answers is its own affair; it is asked with all that the
/// book says of itself, and its answer is used as [`enriched`] says.
pub fn enrich_metadata<P: MetadataProvider + ?Sized>(
    metadata: &NormalizedMetadata,
    provider: &P,
    mode: EnrichmentMode,
) -> (outcome: EnrichmentOutcome)
    ensures
        exists|request: LookupRequest, looked_up: Result<Vec<EnrichmentCandidate>, ProviderError>|
            request@ == RequestModel::about(metadata@) && #[trigger] call_ensures(
                P::lookup,
                (provider, &request),
                looked_up,
            ) && outcome@ == enriched(metadata@, answer(looked_up), mode),
{
    let request = LookupRequest::from(metadata);
    let looked_up = provider.lookup(&request);
    assert(call_ensures(P::lookup, (provider, &request), looked_up));
    enrich_from_lookup(metadata, looked_up, mode)
}

/// Nothing of a book changes where changes are only proposed.
pub proof fn proposing_changes_nothing(
    book: BookModel,
    looked_up: Result<Seq<CandidateModel>, ProviderErrorModel>,
)
    ensures
        enriched(book, looked_up, EnrichmentMode::ProposeOnly).metadata == book,
        !enriched(book, looked_up, EnrichmentMode::ProposeOnly).report.applied,
{
}

/// Where the answer is ambiguous, rests on a subject heading alone, or does not
/// fit the book's title, authors and identifiers, nothing of the book changes; an
/// ambiguous answer is put to the reader, with a warning.
pub proof fn doubtful_answers_change_nothing(
    book: BookModel,
    candidates: Seq<CandidateModel>,
    mode: EnrichmentMode,
)
    requires
        candidates.len() > 0,
        !is_reliable(candidates[0], candidates.len() > 1),
    ensures
        enriched(book, Ok(candidates), mode).metadata == book,
        !enriched(book, Ok(candidates), mode).report.applied,
        candidates.len() > 1 || candidates[0].evidence.ambiguous ==> enriched(
            book,
            Ok(candidates),
            mode,
        ).report.status == EnrichmentStatus::NeedsConfirmation && enriched(
            book,
            Ok(candidates),
            mode,
        ).report.warnings[0] == "ambiguous_enrichment_match"@,
{
}

/// A title that a book has is kept, and so are its authors where the first of
/// them has a name; what no provider is asked to know is kept in any case.
pub proof fn existing_title_and_authors_are_kept(
    book: BookModel,
    looked_up: Result<Seq<CandidateModel>, ProviderErrorModel>,
    mode: EnrichmentMode,
)
    ensures
        ({
            let after = enriched(book, looked_up, mode).metadata;
            &&& holds_something(book.title) ==> after.title == book.title
            &&& holds_something(first_of(book.authors)) ==> after.authors == book.authors
            &&& after.language == book.language
            &&& after.identifiers == book.identifiers
            &&& after.warnings == book.warnings
        }),
{
}

/// A patch is applied only where its value is of high confidence, and a value of
/// the book is replaced only in the series and the place in it.
pub proof fn applied_patches_are_reliable(
    book: BookModel,
    looked_up: Result<Seq<CandidateModel>, ProviderErrorModel>,
    mode: EnrichmentMode,
)
    ensures
        ({
            let patches = enriched(book, looked_up, mode).report.patches;
            forall|i: int|
                0 <= i < patches.len() && (#[trigger] patches[i]).applied ==> {
                    &&& mode == EnrichmentMode::AutoApplyHighConfidence
                    &&& patches[i].confidence == Confidence::High
                    &&& patches[i].old_value != Some(patches[i].new_value)
                    &&& !holds_something(patches[i].old_value) || patches[i].field
                        == MetadataField::Series || patches[i].field == MetadataField::SeriesIndex
                }
        }),
{
}

/// The report says that something was applied exactly where the metadata differ
/// from what the book says of itself.
pub proof fn applied_means_changed(
    book: BookModel,
    looked_up: Result<Seq<CandidateModel>, ProviderErrorModel>,
    mode: EnrichmentMode,
)
    ensures
        enriched(book, looked_up, mode).report.applied <==> enriched(
            book,
            looked_up,
            mode,
        ).metadata != book,
{
    if looked_up is Ok && looked_up->Ok_0.len() > 0 {
        let candidates = looked_up->Ok_0;
        let candidate = candidates[0];
        let reliable = is_reliable(candidate, candidates.len() > 1);
        let title = title_patch(book, candidate, reliable, mode);
        let author = author_patch(book, candidate, reliable, mode);
        let series = series_patch(book, candidate, reliable, mode);
        let index = series_index_patch(book, candidate, reliable, mode);
        let patches = as_seq(title) + as_seq(author) + as_seq(series) + as_seq(index);
        let after = enriched(book, looked_up, mode).metadata;
        if taken(title) is Some {
            assert(patches[0] == title->0);
        }
        if taken(author) is Some {
            assert(patches[as_seq(title).len() as int] == author->0);
            assert(after.authors[0] == author->0.new_value);
        }
        if taken(series) is Some {
            assert(patches[as_seq(title).len() as int + as_seq(author).len()] == series->0);
        }
        if taken(index) is Some {
            assert(patches[as_seq(title).len() as int + as_seq(author).len() + as_seq(series).len()]
                == index->0);
        }
    }
}

/// Where the only candidate is unambiguous, fits the book's title, authors and
/// identifier and does not rest on a subject heading, and changes may be applied,
/// what it knows with high confidence becomes what the book says: the series and
/// the place in it whatever the book said before, the title and the first author
/// where the book names none. What it knows less well, or not at all, changes
/// nothing.
pub proof fn reliable_answers_are_applied(book: BookModel, candidates: Seq<CandidateModel>)
    requires
        candidates.len() == 1,
        !candidates[0].evidence.ambiguous,
        candidates[0].evidence.title_author_match,
        candidates[0].evidence.identifier_match,
        !candidates[0].evidence.subject_only_series,
    ensures
        ({
            let candidate = candidates[0];
            let after = enriched(
                book,
                Ok(candidates),
                EnrichmentMode::AutoApplyHighConfidence,
            ).metadata;
            &&& after.series == (if candidate.series is Some && candidate.series->0.confidence
                == Confidence::High {
                Some(candidate.series->0.value)
            } else {
                book.series
            })
            &&& after.series_index == (if candidate.series_index is Some
                && candidate.series_index->0.confidence == Confidence::High {
                Some(candidate.series_index->0.value)
            } else {
                book.series_index
            })
            &&& after.title == (if candidate.title is Some && candidate.title->0.confidence
                == Confidence::High && (book.title is None || is_blank(book.title->0)) {
                Some(candidate.title->0.value)
            } else {
                book.title
            })
            &&& after.authors == (if candidate.authors.len() > 0 && candidate.authors[0].confidence
                == Confidence::High && (book.authors.len() == 0 || (is_blank(book.authors[0])
                && book.authors[0] != candidate.authors[0].value)) {
                seq![candidate.authors[0].value]
            } else {
                book.authors
            })
            &&& after.language == book.language
            &&& after.identifiers == book.identifiers
            &&& after.warnings == book.warnings
        }),
{
}

/// One doubt is enough to leave a book as it is: a second candidate, an ambiguous
/// match, a title or an author that does not fit, an identifier that was not
/// matched, a series known from a subject heading only. So is the wish to see
/// proposals only.
pub proof fn one_doubt_is_enough(
    book: BookModel,
    candidates: Seq<CandidateModel>,
    mode: EnrichmentMode,
)
    requires
        candidates.len() > 0,
        ({
            ||| candidates.len() > 1
            ||| candidates[0].evidence.ambiguous
            ||| !candidates[0].evidence.title_author_match
            ||| !candidates[0].evidence.identifier_match
            ||| candidates[0].evidence.subject_only_series
            ||| mode == EnrichmentMode::ProposeOnly
        }),
    ensures
        enriched(book, Ok(candidates), mode).metadata == book,
        !enriched(book, Ok(candidates), mode).report.applied,
        forall|i: int|
            0 <= i < enriched(book, Ok(candidates), mode).report.patches.len() ==> !(
            #[trigger] enriched(book, Ok(candidates), mode).report.patches[i]).applied,
{
}

/// Whether a report proposes to make `value` what the book says in a field.
pub open spec fn proposes(
    report: ReportModel,
    field: MetadataField,
    old_value: Option<Seq<char>>,
    value: ValueModel,
) -> bool {
    exists|i: int|
        0 <= i < report.patches.len() && (#[trigger] report.patches[i]).field == field
            && report.patches[i].old_value == old_value && report.patches[i].new_value
            == value.value && report.patches[i].confidence == value.confidence
            && report.patches[i].provenance == value.provenance
}

/// Every value of the first candidate that differs from what the book says is
/// proposed, with what the book says, how sure the value is and where it is from;
/// nothing else is proposed.
pub proof fn every_difference_is_proposed(
    book: BookModel,
    candidates: Seq<CandidateModel>,
    mode: EnrichmentMode,
)
    requires
        candidates.len() > 0,
    ensures
        ({
            let candidate = candidates[0];
            let report = enriched(book, Ok(candidates), mode).report;
            let author = if book.authors.len() > 0 {
                Some(book.authors[0])
            } else {
                None
            };
            let title_differs = candidate.title is Some && book.title != Some(
                candidate.title->0.value,
            );
            let author_differs = candidate.authors.len() > 0 && author != Some(
                candidate.authors[0].value,
            );
            let series_differs = candidate.series is Some && book.series != Some(
                candidate.series->0.value,
            );
            let index_differs = candidate.series_index is Some && book.series_index != Some(
                candidate.series_index->0.value,
            );
            &&& title_differs ==> proposes(
                report,
                MetadataField::Title,
                book.title,
                candidate.title->0,
            )
            &&& author_differs ==> proposes(
                report,
                MetadataField::Author,
                author,
                candidate.authors[0],
            )
            &&& series_differs ==> proposes(
                report,
                MetadataField::Series,
                book.series,
                candidate.series->0,
            )
            &&& index_differs ==> proposes(
                report,
                MetadataField::SeriesIndex,
                book.series_index,
                candidate.series_index->0,
            )
            &&& report.patches.len() == (if title_differs {
                1int
            } else {
                0
            }) + (if author_differs {
                1int
            } else {
                0
            }) + (if series_differs {
                1int
            } else {
                0
            }) + (if index_differs {
                1int
            } else {
                0
            })
        }),
{
    let candidate = candidates[0];
    let reliable = is_reliable(candidate, candidates.len() > 1);
    patches_have_their_places(
        title_patch(book, candidate, reliable, mode),
        author_patch(book, candidate, reliable, mode),
        series_patch(book, candidate, reliable, mode),
        series_index_patch(book, candidate, reliable, mode),
    );
}

proof fn patches_have_their_places(
    title: Option<PatchModel>,
    author: Option<PatchModel>,
    series: Option<PatchModel>,
    index: Option<PatchModel>,
)
    ensures
        ({
            let patches = as_seq(title) + as_seq(author) + as_seq(series) + as_seq(index);
            let second = as_seq(title).len() as int;
            let third = second + as_seq(author).len();
            let fourth = third + as_seq(series).len();
            &&& patches.len() == fourth + as_seq(index).len()
            &&& title is Some ==> patches[0] == title->0
            &&& author is Some ==> patches[second] == author->0
            &&& series is Some ==> patches[third] == series->0
            &&& index is Some ==> patches[fourth] == index->0
            &&& (exists|i: int| 0 <= i < patches.len() && !(#[trigger] patches[i]).applied) <==> {
                ||| title is Some && !title->0.applied
                ||| author is Some && !author->0.applied
                ||| series is Some && !series->0.applied
                ||| index is Some && !index->0.applied
            }
        }),
{
    let patches = as_seq(title) + as_seq(author) + as_seq(series) + as_seq(index);
    let second = as_seq(title).len() as int;
    let third = second + as_seq(author).len();
    let fourth = third + as_seq(series).len();
    if title is Some {
        assert(patches[0] == title->0);
    }
    if author is Some {
        assert(patches[second] == author->0);
    }
    if series is Some {
        assert(patches[third] == series->0);
    }
    if index is Some {
        assert(patches[fourth] == index->0);
    }
}

/// What a patch that was applied sets is what the book says afterwards; its reason
/// says whether it was applied, waits because the book says something already, or
/// waits for confirmation alone.
pub proof fn patches_say_what_became_of_them(
    book: BookModel,
    looked_up: Result<Seq<CandidateModel>, ProviderErrorModel>,
    mode: EnrichmentMode,
    i: int,
)
    requires
        0 <= i < enriched(book, looked_up, mode).report.patches.len(),
    ensures
        ({
            let after = enriched(book, looked_up, mode).metadata;
            let patch = enriched(book, looked_up, mode).report.patches[i];
            &&& patch.applied ==> {
                &&& patch.field == MetadataField::Title ==> after.title == Some(patch.new_value)
                &&& patch.field == MetadataField::Author ==> after.authors == seq![patch.new_value]
                &&& patch.field == MetadataField::Series ==> after.series == Some(patch.new_value)
                &&& patch.field == MetadataField::SeriesIndex ==> after.series_index == Some(
                    patch.new_value,
                )
                &&& patch.reason == "high-confidence enrichment auto-applied"@
            }
            &&& !patch.applied && patch.old_value is Some && !is_blank(patch.old_value->0)
                ==> patch.reason == "existing metadata preserved pending confirmation"@
            &&& !patch.applied && (patch.old_value is None || is_blank(patch.old_value->0))
                ==> patch.reason == "proposed for confirmation"@
        }),
{
}

/// A lookup that failed is reported as such, with its error, and one that found
/// nothing as no match. Else the answer counts as found where it is unambiguous and
/// the book says afterwards all that the first candidate knows; where anything of
/// it is left to decide, it needs confirmation.
pub proof fn the_status_tells_the_outcome(
    book: BookModel,
    looked_up: Result<Seq<CandidateModel>, ProviderErrorModel>,
    mode: EnrichmentMode,
)
    ensures
        ({
            let outcome = enriched(book, looked_up, mode);
            let report = outcome.report;
            let after = outcome.metadata;
            match looked_up {
                Err(error) => {
                    &&& report.status == EnrichmentStatus::LookupFailed
                    &&& report.errors == seq![error]
                    &&& report.patches.len() == 0
                    &&& report.warnings.len() == 0
                    &&& !report.applied
                    &&& after == book
                },
                Ok(candidates) => if candidates.len() == 0 {
                    &&& report.status == EnrichmentStatus::NoMatch
                    &&& report.errors.len() == 0
                    &&& report.patches.len() == 0
                    &&& report.warnings.len() == 0
                    &&& !report.applied
                    &&& after == book
                } else {
                    let candidate = candidates[0];
                    let ambiguous = candidates.len() > 1 || candidate.evidence.ambiguous;
                    let settled = {
                        &&& candidate.title is Some ==> after.title == Some(
                            candidate.title->0.value,
                        )
                        &&& candidate.authors.len() > 0 ==> after.authors.len() > 0
                            && after.authors[0] == candidate.authors[0].value
                        &&& candidate.series is Some ==> after.series == Some(
                            candidate.series->0.value,
                        )
                        &&& candidate.series_index is Some ==> after.series_index == Some(
                            candidate.series_index->0.value,
                        )
                    };
                    &&& report.errors.len() == 0
                    &&& report.status == EnrichmentStatus::Found <==> !ambiguous && settled
                    &&& report.status == EnrichmentStatus::NeedsConfirmation <==> ambiguous
                        || !settled
                    &&& report.warnings.contains("ambiguous_enrichment_match"@) <==> ambiguous
                    &&& report.warnings.contains("series_from_subject_hint_only"@)
                        <==> candidate.evidence.subject_only_series
                },
            }
        }),
{
    if looked_up is Ok && looked_up->Ok_0.len() > 0 {
        let candidates = looked_up->Ok_0;
        let candidate = candidates[0];
        let report = enriched(book, looked_up, mode).report;
        let reliable = is_reliable(candidate, candidates.len() > 1);
        patches_have_their_places(
            title_patch(book, candidate, reliable, mode),
            author_patch(book, candidate, reliable, mode),
            series_patch(book, candidate, reliable, mode),
            series_index_patch(book, candidate, reliable, mode),
        );
        reveal_strlit("ambiguous_enrichment_match");
        reveal_strlit("series_from_subject_hint_only");
        assert("ambiguous_enrichment_match"@.len() != "series_from_subject_hint_only"@.len());
        if report.warnings.len() > 0 {
            assert(report.warnings.contains(report.warnings[0]));
            assert(report.warnings.contains(report.warnings.last()));
        }
    }
}

/// What is proposed comes in order: the title, the author, the series, the place in
/// it, each of them once at most.
pub proof fn proposals_come_in_order(
    book: BookModel,
    looked_up: Result<Seq<CandidateModel>, ProviderErrorModel>,
    mode: EnrichmentMode,
    i: int,
    j: int,
)
    requires
        0 <= i < j < enriched(book, looked_up, mode).report.patches.len(),
    ensures
        ({
            let patches = enriched(book, looked_up, mode).report.patches;
            match patches[j].field {
                MetadataField::Title => false,
                MetadataField::Author => patches[i].field == MetadataField::Title,
                MetadataField::Series => patches[i].field == MetadataField::Title
                    || patches[i].field == MetadataField::Author,
                MetadataField::SeriesIndex => patches[i].field != MetadataField::SeriesIndex,
            }
        }),
{
}

} // verus!
