//! A normalize run: every book of a Source Library is read, enriched where that
//! is asked for, given a place in the Output Library, and copied there.
//!
//! [`NormalizeRun`] says what is to be done next, and goes on with what came of
//! it.

use vstd::prelude::*;

use crate::copier::{CopyError, CopyOutcome};
use crate::enrichment::merge::{
    answer, enrich_from_lookup, enriched, the_status_tells_the_outcome, EnrichmentReport,
    EnrichmentStatus, FieldPatch, PatchModel, ReportModel,
};
use crate::enrichment::{
    CandidateModel, EnrichmentCandidate, EnrichmentConfig, EnrichmentMode, LookupRequest,
    ProviderError, ProviderErrorModel, RequestModel,
};
use crate::epub_metadata::{
    book_of, metadata_from_package, opened_model, reported_error, BookModel, DocFailure, ErrorKind,
    FailureModel, IdentifierModel, MetadataIdentifier, NormalizedMetadata, PackageMetadata,
    PackageModel,
};
use crate::epub_writer::{EpubWriteError, WriteErrorModel};
use crate::output_path::{
    books_of_a_series_are_numbered, closing_bracket, fit_texts_are_told, is_fit, is_forbidden,
    is_safe_segment, is_separator, names_differ, other_books_go_under_their_author, output_path,
    output_paths_stay_inside, placeholder_text, render_output_path, section_fields, segments,
    segments_are_safe, shows, template_text, Field, MetadataModel, Rendered,
};
use crate::path::{
    folders_overlap_what_is_below, is_name, is_prefix, join_path, joined, joined_paths_lead_below,
    name_parts, names_epub, overlap, path_parts, paths_overlap, sort_paths, sorted, split_path,
    PartModel, Resolution, ResolutionModel,
};
use crate::text::{
    chars_of, clone_text, decimal, decimal_chars, glue, is_blank, is_space, join, join_texts, pair,
    position, push_chars, pushed_view, same_text, split, split_is_not_empty, split_undoes_join,
    string_of, trim_keeps, viewed, views,
};

pub use crate::path::is_epub;

verus! {

/// The template that is used where none is given.
pub const DEFAULT_OUTPUT_PATH_TEMPLATE: &'static str = "{author}/[{series}/{series_index:02} ]{title}.epub";

/// What a run is asked to do.
#[derive(Debug, Clone, PartialEq, Eq)]
pub struct NormalizeConfig {
    pub source_library: String,
    pub output_library: String,
    pub output_path_template: String,
    pub dry_run: bool,
    pub enrichment: Option<EnrichmentConfig>,
}

pub struct ConfigModel {
    pub source_library: Seq<char>,
    pub output_library: Seq<char>,
    pub template: Seq<char>,
    pub dry_run: bool,
    /// How enrichment is used, where it is.
    pub enrichment: Option<EnrichmentMode>,
}

impl View for NormalizeConfig {
    type V = ConfigModel;

    open spec fn view(&self) -> ConfigModel {
        ConfigModel {
            source_library: self.source_library@,
            output_library: self.output_library@,
            template: self.output_path_template@,
            dry_run: self.dry_run,
            enrichment: match self.enrichment {
                Some(enrichment) => Some(enrichment.mode),
                None => None,
            },
        }
    }
}

/// What a run was asked to do, for its report.
#[derive(Debug, Clone, PartialEq, Eq)]
pub struct ReportConfig {
    pub source_library: String,
    pub output_library: String,
    pub template: String,
    pub dry_run: bool,
    pub enrich: bool,
    pub apply_enrichment: bool,
}

/// How many books a run found, planned a place for, copied, skipped and failed
/// on.
#[derive(Debug, Clone, Copy, Default, PartialEq, Eq, Structural)]
pub struct Totals {
    pub scanned: usize,
    pub planned: usize,
    pub copied: usize,
    pub skipped: usize,
    pub errored: usize,
}

/// What came of a book.
#[derive(Debug, Clone, PartialEq, Eq)]
pub struct ReportEntry {
    pub source_path: String,
    pub output_path: Option<String>,
    pub action: EntryAction,
    pub metadata: Option<NormalizedMetadata>,
    pub enrichment: Option<EnrichmentReport>,
    pub warnings: Vec<String>,
    pub error: Option<ReportError>,
}

#[derive(Debug, Clone, PartialEq, Eq)]
pub struct ReportError {
    pub code: String,
    pub message: String,
}

#[derive(Debug, Clone, Copy, PartialEq, Eq, Structural)]
pub enum EntryAction {
    WouldCopy,
    Copied,
    Skipped,
    Error,
}

/// What came of a run.
#[derive(Debug, Clone, PartialEq, Eq)]
pub struct NormalizeReport {
    pub config: ReportConfig,
    pub totals: Totals,
    pub entries: Vec<ReportEntry>,
}

/// Why there was no run, or no report of it.
#[derive(Debug, Clone, PartialEq, Eq)]
pub enum NormalizeError {
    SourceLibraryNotDirectory(String),
    OutputLibraryOverlapsSourceLibrary { source_library: String, output_library: String },
    Scan { path: String, message: String },
    ReportWrite { path: String, message: String },
}

pub struct ErrorModel {
    pub code: Seq<char>,
    pub message: Seq<char>,
}

pub struct EntryReport {
    pub source_path: Seq<char>,
    pub output_path: Option<Seq<char>>,
    pub action: EntryAction,
    pub metadata: Option<BookModel>,
    pub enrichment: Option<ReportModel>,
    pub warnings: Seq<Seq<char>>,
    pub error: Option<ErrorModel>,
}

impl View for ReportError {
    type V = ErrorModel;

    open spec fn view(&self) -> ErrorModel {
        ErrorModel { code: self.code@, message: self.message@ }
    }
}

impl View for ReportEntry {
    type V = EntryReport;

    open spec fn view(&self) -> EntryReport {
        EntryReport {
            source_path: self.source_path@,
            output_path: viewed(self.output_path),
            action: self.action,
            metadata: viewed(self.metadata),
            enrichment: viewed(self.enrichment),
            warnings: views(self.warnings@),
            error: viewed(self.error),
        }
    }
}

impl NormalizeError {
    pub open spec fn text(self) -> Seq<char> {
        match self {
            NormalizeError::SourceLibraryNotDirectory(path)
                => "Source Library is not a directory: "@ + path@,
            NormalizeError::OutputLibraryOverlapsSourceLibrary { source_library, output_library }
                => "Output Library must not overlap Source Library for a real normalize run: "@
                + output_library@ + " overlaps "@ + source_library@,
            NormalizeError::Scan { path, message } => "failed to scan "@ + path@ + ": "@ + message@,
            NormalizeError::ReportWrite { path, message } => "failed to write report "@ + path@
                + ": "@ + message@,
        }
    }

    /// What the error says to a reader.
    pub fn message(&self) -> (message: String)
        ensures
            message@ == self.text(),
    {
        match self {
            NormalizeError::SourceLibraryNotDirectory(path) => pair(
                "Source Library is not a directory: ",
                path.as_str(),
            ),
            NormalizeError::OutputLibraryOverlapsSourceLibrary { source_library, output_library } => {
                let start = glue(
                    "Output Library must not overlap Source Library for a real normalize run: ",
                    output_library.as_str(),
                    " overlaps ",
                );
                pair(start.as_str(), source_library.as_str())
            },
            NormalizeError::Scan { path, message } => {
                let start = glue("failed to scan ", path.as_str(), ": ");
                pair(start.as_str(), message.as_str())
            },
            NormalizeError::ReportWrite { path, message } => {
                let start = glue("failed to write report ", path.as_str(), ": ");
                pair(start.as_str(), message.as_str())
            },
        }
    }
}

/// The identifier that a path is named by: the book's own, else the first.
pub open spec fn path_identifier(identifiers: Seq<IdentifierModel>) -> Option<Seq<char>> {
    match own_identifier(identifiers) {
        Some(value) => Some(value),
        None => if identifiers.len() > 0 {
            Some(identifiers[0].value)
        } else {
            None
        },
    }
}

pub open spec fn own_identifier(identifiers: Seq<IdentifierModel>) -> Option<Seq<char>>
    decreases identifiers.len(),
{
    if identifiers.len() == 0 {
        None
    } else if identifiers[0].is_unique {
        Some(identifiers[0].value)
    } else {
        own_identifier(identifiers.drop_first())
    }
}

/// What a template can say of a book.
pub open spec fn path_metadata(book: BookModel) -> MetadataModel {
    let first = if book.authors.len() > 0 {
        Some(book.authors[0])
    } else {
        None
    };
    MetadataModel {
        title: book.title,
        author: first,
        authors: if book.authors.len() > 0 {
            Some(join(book.authors, ", "@))
        } else {
            None
        },
        author_sort: first,
        series: book.series,
        series_index: book.series_index,
        language: book.language,
        identifier: path_identifier(book.identifiers),
    }
}

fn own_identifier_value(identifiers: &Vec<MetadataIdentifier>) -> (value: Option<String>)
    ensures
        viewed(value) == own_identifier(views(identifiers@)),
{
    let ghost model = views(identifiers@);
    let mut i: usize = 0;
    assert(model.skip(0) =~= model);
    while i < identifiers.len()
        invariant
            i <= identifiers.len(),
            model == views(identifiers@),
            own_identifier(model) == own_identifier(model.skip(i as int)),
        decreases identifiers.len() - i,
    {
        proof {
            assert(model.skip(i as int)[0] == identifiers@[i as int]@);
            assert(model.skip(i as int).drop_first() =~= model.skip(i + 1));
        }
        if identifiers[i].is_unique {
            return Some(identifiers[i].value.clone());
        }
        i += 1;
    }
    None
}

fn output_path_metadata(metadata: &NormalizedMetadata) -> (out:
    crate::output_path::NormalizedMetadata)
    ensures
        out@ == path_metadata(metadata@),
{
    let mut author: Option<String> = None;
    let mut author_sort: Option<String> = None;
    let mut authors: Option<String> = None;
    if metadata.authors.len() > 0 {
        author = Some(metadata.authors[0].clone());
        author_sort = Some(metadata.authors[0].clone());
        authors = Some(join_texts(&metadata.authors, ", "));
    }
    let mut identifier = own_identifier_value(&metadata.identifiers);
    if identifier.is_none() && metadata.identifiers.len() > 0 {
        identifier = Some(metadata.identifiers[0].value.clone());
    }
    crate::output_path::NormalizedMetadata {
        title: clone_text(&metadata.title),
        author,
        authors,
        author_sort,
        series: clone_text(&metadata.series),
        series_index: clone_text(&metadata.series_index),
        language: clone_text(&metadata.language),
        identifier,
    }
}

/// A book that is to be copied, and what its entry in the report will say.
#[derive(Debug, Clone, PartialEq, Eq)]
pub struct CopyJob {
    pub source_path: String,
    pub target_path: String,
    pub output_path: String,
    pub metadata: NormalizedMetadata,
    pub enrichment: Option<EnrichmentReport>,
    pub patches: Vec<FieldPatch>,
    pub warnings: Vec<String>,
}

pub struct JobModel {
    pub source_path: Seq<char>,
    pub target_path: Seq<char>,
    pub output_path: Seq<char>,
    pub metadata: BookModel,
    pub enrichment: Option<ReportModel>,
    pub patches: Seq<PatchModel>,
    pub warnings: Seq<Seq<char>>,
}

impl View for CopyJob {
    type V = JobModel;

    open spec fn view(&self) -> JobModel {
        JobModel {
            source_path: self.source_path@,
            target_path: self.target_path@,
            output_path: self.output_path@,
            metadata: self.metadata@,
            enrichment: viewed(self.enrichment),
            patches: views(self.patches@),
            warnings: views(self.warnings@),
        }
    }
}

/// What is to be done with a book: nothing more, or a copy.
pub enum Plan {
    Report { entry: ReportEntry },
    Copy { job: CopyJob },
}

pub enum PlanModel {
    Report { entry: EntryReport },
    Copy { job: JobModel },
}

impl View for Plan {
    type V = PlanModel;

    open spec fn view(&self) -> PlanModel {
        match self {
            Plan::Report { entry } => PlanModel::Report { entry: entry@ },
            Plan::Copy { job } => PlanModel::Copy { job: job@ },
        }
    }
}

/// The entry of a book that was left out because something stands in its place.
pub open spec fn skipped(job: JobModel, code: Seq<char>, message: Seq<char>) -> EntryReport {
    EntryReport {
        source_path: job.source_path,
        output_path: Some(job.output_path),
        action: EntryAction::Skipped,
        metadata: Some(job.metadata),
        enrichment: job.enrichment,
        warnings: job.warnings,
        error: Some(ErrorModel { code, message: message + ": "@ + job.output_path }),
    }
}

/// The entry of a book that has its place in the Output Library, or would have.
pub open spec fn placed(job: JobModel, action: EntryAction) -> EntryReport {
    EntryReport {
        source_path: job.source_path,
        output_path: Some(job.output_path),
        action,
        metadata: Some(job.metadata),
        enrichment: job.enrichment,
        warnings: job.warnings,
        error: None,
    }
}

/// The entry of a book that could not be copied.
pub open spec fn not_copied(job: JobModel, code: Seq<char>, message: Seq<char>) -> EntryReport {
    EntryReport {
        source_path: job.source_path,
        output_path: Some(job.output_path),
        action: EntryAction::Error,
        metadata: Some(job.metadata),
        enrichment: job.enrichment,
        warnings: job.warnings,
        error: Some(ErrorModel { code, message }),
    }
}

/// The entry of a book for which no place was found.
pub open spec fn not_placed(
    source_path: Seq<char>,
    metadata: Option<BookModel>,
    enrichment: Option<ReportModel>,
    warnings: Seq<Seq<char>>,
    code: Seq<char>,
    message: Seq<char>,
) -> EntryReport {
    EntryReport {
        source_path,
        output_path: None,
        action: EntryAction::Error,
        metadata,
        enrichment,
        warnings,
        error: Some(ErrorModel { code, message }),
    }
}

/// The answer to a lookup, where one was made.
pub open spec fn lookup_answer(
    looked_up: Option<Result<Vec<EnrichmentCandidate>, ProviderError>>,
) -> Option<Result<Seq<CandidateModel>, ProviderErrorModel>> {
    match looked_up {
        Some(found) => Some(answer(found)),
        None => None,
    }
}

/// What is known of a book once it was looked up, or was not to be.
pub struct KnownBook {
    pub metadata: BookModel,
    pub enrichment: Option<ReportModel>,
    pub patches: Seq<PatchModel>,
    pub warnings: Seq<Seq<char>>,
}

pub open spec fn known_book(
    config: ConfigModel,
    book: BookModel,
    looked_up: Option<Result<Seq<CandidateModel>, ProviderErrorModel>>,
) -> KnownBook {
    let warnings = book.missing_required() + book.warnings;
    match (config.enrichment, looked_up) {
        (Some(mode), Some(found)) => {
            let outcome = enriched(book, found, mode);
            KnownBook {
                metadata: outcome.metadata,
                enrichment: Some(outcome.report),
                patches: outcome.report.patches.filter(|patch: PatchModel| patch.applied),
                warnings: warnings + outcome.report.warnings,
            }
        },
        _ => KnownBook { metadata: book, enrichment: None, patches: Seq::empty(), warnings },
    }
}

pub open spec fn lookup_failed(known: KnownBook) -> bool {
    known.enrichment is Some && known.enrichment->0.status == EnrichmentStatus::LookupFailed
}

/// What is to be done with a book, and the places that are taken then.
pub open spec fn plan_for(
    source_path: Seq<char>,
    config: ConfigModel,
    book: BookModel,
    looked_up: Option<Result<Seq<CandidateModel>, ProviderErrorModel>>,
    planned: Seq<Seq<char>>,
) -> (PlanModel, Seq<Seq<char>>) {
    let known = known_book(config, book, looked_up);
    if !config.dry_run && lookup_failed(known) {
        (
            PlanModel::Report {
                entry: not_placed(
                    source_path,
                    Some(book),
                    known.enrichment,
                    known.warnings,
                    "enrichment_lookup_failed"@,
                    "metadata enrichment lookup failed; no Cleaned EPUB was written"@,
                ),
            },
            planned,
        )
    } else {
        match output_path(config.template, path_metadata(known.metadata)) {
            Err(message) => (
                PlanModel::Report {
                    entry: not_placed(
                        source_path,
                        Some(known.metadata),
                        known.enrichment,
                        known.warnings,
                        "path_render_error"@,
                        message,
                    ),
                },
                planned,
            ),
            Ok(rendered) => {
                let job = JobModel {
                    source_path,
                    target_path: joined(config.output_library, rendered.text),
                    output_path: rendered.text,
                    metadata: known.metadata,
                    enrichment: known.enrichment,
                    patches: known.patches,
                    warnings: known.warnings + rendered.warnings,
                };
                if planned.contains(rendered.text) {
                    (
                        PlanModel::Report {
                            entry: skipped(
                                job,
                                "run_collision"@,
                                "multiple source EPUBs render to the same output path"@,
                            ),
                        },
                        planned,
                    )
                } else if config.dry_run {
                    (
                        PlanModel::Report { entry: placed(job, EntryAction::WouldCopy) },
                        planned.push(rendered.text),
                    )
                } else {
                    (PlanModel::Copy { job }, planned.push(rendered.text))
                }
            },
        }
    }
}

/// What came of a copy: of a plain one, or of one with patches.
#[derive(Debug, PartialEq, Eq)]
pub enum CopyResult {
    Plain(Result<CopyOutcome, CopyError>),
    Patched(Result<(), EpubWriteError>),
}

pub enum CopyResultModel {
    Plain(Result<CopyOutcome, Seq<char>>),
    /// The error, where there was one.
    Patched(Option<WriteErrorModel>),
}

impl View for CopyResult {
    type V = CopyResultModel;

    open spec fn view(&self) -> CopyResultModel {
        match self {
            CopyResult::Plain(result) => CopyResultModel::Plain(
                match result {
                    Ok(outcome) => Ok(*outcome),
                    Err(error) => Err(error@),
                },
            ),
            CopyResult::Patched(result) => CopyResultModel::Patched(
                match result {
                    Ok(_) => None,
                    Err(error) => Some(error@),
                },
            ),
        }
    }
}

/// The entry of a book that was to be copied.
pub open spec fn entry_of_copy(job: JobModel, result: CopyResultModel) -> EntryReport {
    match result {
        CopyResultModel::Plain(Ok(CopyOutcome::Copied)) => placed(job, EntryAction::Copied),
        CopyResultModel::Plain(Ok(CopyOutcome::OutputExists)) => skipped(
            job,
            "output_exists"@,
            "output path already exists"@,
        ),
        CopyResultModel::Plain(Err(message)) => not_copied(job, "copy_error"@, message),
        CopyResultModel::Patched(None) => placed(job, EntryAction::Copied),
        CopyResultModel::Patched(Some(error)) => if error is OutputExists {
            skipped(job, "output_exists"@, "output path already exists"@)
        } else {
            not_copied(job, "metadata_write_error"@, error.text())
        },
    }
}

impl CopyJob {
    /// Whether the copy is one with patches.
    pub fn is_patched(&self) -> (yes: bool)
        ensures
            yes == (self@.patches.len() > 0),
    {
        self.patches.len() > 0
    }
}

fn report_error(code: &str, message: String) -> (error: Option<ReportError>)
    ensures
        viewed(error) == Some(ErrorModel { code: code@, message: message@ }),
{
    Some(ReportError { code: code.to_owned(), message })
}

fn skipped_entry(job: CopyJob, code: &str, message: &str) -> (entry: ReportEntry)
    ensures
        entry@ == skipped(job@, code@, message@),
{
    let text = glue(message, ": ", job.output_path.as_str());
    ReportEntry {
        source_path: job.source_path,
        output_path: Some(job.output_path),
        action: EntryAction::Skipped,
        metadata: Some(job.metadata),
        enrichment: job.enrichment,
        warnings: job.warnings,
        error: report_error(code, text),
    }
}

fn placed_entry(job: CopyJob, action: EntryAction) -> (entry: ReportEntry)
    ensures
        entry@ == placed(job@, action),
{
    ReportEntry {
        source_path: job.source_path,
        output_path: Some(job.output_path),
        action,
        metadata: Some(job.metadata),
        enrichment: job.enrichment,
        warnings: job.warnings,
        error: None,
    }
}

fn failed_entry(job: CopyJob, code: &str, message: String) -> (entry: ReportEntry)
    ensures
        entry@ == not_copied(job@, code@, message@),
{
    ReportEntry {
        source_path: job.source_path,
        output_path: Some(job.output_path),
        action: EntryAction::Error,
        metadata: Some(job.metadata),
        enrichment: job.enrichment,
        warnings: job.warnings,
        error: report_error(code, message),
    }
}

/// The entry of a book that was to be copied.
pub fn copy_entry(job: CopyJob, result: CopyResult) -> (entry: ReportEntry)
    ensures
        entry@ == entry_of_copy(job@, result@),
{
    match result {
        CopyResult::Plain(Ok(CopyOutcome::Copied)) => placed_entry(job, EntryAction::Copied),
        CopyResult::Plain(Ok(CopyOutcome::OutputExists)) => skipped_entry(
            job,
            "output_exists",
            "output path already exists",
        ),
        CopyResult::Plain(Err(error)) => failed_entry(job, "copy_error", error.message()),
        CopyResult::Patched(Ok(())) => placed_entry(job, EntryAction::Copied),
        CopyResult::Patched(Err(EpubWriteError::OutputExists)) => skipped_entry(
            job,
            "output_exists",
            "output path already exists",
        ),
        CopyResult::Patched(Err(error)) => failed_entry(
            job,
            "metadata_write_error",
            error.message(),
        ),
    }
}

fn append_texts(texts: &mut Vec<String>, more: &Vec<String>)
    ensures
        views(final(texts)@) == views(old(texts)@) + views(more@),
{
    let ghost before = views(texts@);
    let ghost model = views(more@);
    let mut i: usize = 0;
    assert(before + model.take(0) =~= before);
    while i < more.len()
        invariant
            i <= more.len(),
            model == views(more@),
            views(texts@) == before + model.take(i as int),
        decreases more.len() - i,
    {
        let text = more[i].clone();
        proof {
            pushed_view(texts@, text);
            assert((before + model.take(i as int)).push(text@) =~= before + model.take(i + 1));
        }
        texts.push(text);
        i += 1;
    }
    assert(model.take(i as int) =~= model);
}

fn applied_patches(patches: &Vec<FieldPatch>) -> (applied: Vec<FieldPatch>)
    ensures
        views(applied@) == views(patches@).filter(|patch: PatchModel| patch.applied),
{
    let ghost model = views(patches@);
    let ghost keep = |patch: PatchModel| patch.applied;
    let mut applied: Vec<FieldPatch> = Vec::new();
    let mut i: usize = 0;
    proof {
        reveal(Seq::filter);
        assert(views(applied@) =~= model.take(0).filter(keep));
    }
    while i < patches.len()
        invariant
            i <= patches.len(),
            model == views(patches@),
            keep == (|patch: PatchModel| patch.applied),
            views(applied@) == model.take(i as int).filter(keep),
        decreases patches.len() - i,
    {
        proof {
            reveal(Seq::filter);
            assert(model.take(i + 1).drop_last() =~= model.take(i as int));
            assert(model.take(i + 1).last() == patches@[i as int]@);
        }
        if patches[i].applied {
            let patch = patches[i].clone();
            proof {
                pushed_view(applied@, patch);
            }
            applied.push(patch);
        }
        i += 1;
    }
    assert(model.take(i as int) =~= model);
    applied
}

fn contains_text(texts: &Vec<String>, text: &str) -> (yes: bool)
    ensures
        yes == views(texts@).contains(text@),
{
    let mut i: usize = 0;
    while i < texts.len()
        invariant
            i <= texts.len(),
            forall|j: int| 0 <= j < i ==> #[trigger] views(texts@)[j] != text@,
        decreases texts.len() - i,
    {
        if same_text(texts[i].as_str(), text) {
            assert(views(texts@)[i as int] == text@);
            return true;
        }
        i += 1;
    }
    false
}

/// Plans what is to be done with a book that was read, and looked up where that
/// was asked for. Places that are taken are in `planned`.
pub fn build_entry(
    source_path: String,
    config: &NormalizeConfig,
    metadata: NormalizedMetadata,
    looked_up: Option<Result<Vec<EnrichmentCandidate>, ProviderError>>,
    planned: &mut Vec<String>,
) -> (plan: Plan)
    ensures
        (plan@, views(final(planned)@)) == plan_for(
            source_path@,
            config@,
            metadata@,
            lookup_answer(looked_up),
            views(old(planned)@),
        ),
{
    let ghost model = metadata@;
    let ghost known = known_book(config@, model, lookup_answer(looked_up));
    let mut warnings = metadata.missing_required_warnings();
    append_texts(&mut warnings, &metadata.warnings);
    let mut effective = metadata.clone();
    let mut enrichment: Option<EnrichmentReport> = None;
    let mut patches: Vec<FieldPatch> = Vec::new();
    assert(views(patches@) =~= Seq::empty());
    match (&config.enrichment, looked_up) {
        (Some(asked_for), Some(found)) => {
            let outcome = enrich_from_lookup(&metadata, found, asked_for.mode);
            append_texts(&mut warnings, &outcome.report.warnings);
            patches = applied_patches(&outcome.report.patches);
            effective = outcome.metadata;
            enrichment = Some(outcome.report);
        },
        _ => {},
    }
    assert(effective@ == known.metadata);
    assert(viewed(enrichment) == known.enrichment);
    assert(views(patches@) == known.patches);
    assert(views(warnings@) == known.warnings);
    if !config.dry_run {
        let failed = match &enrichment {
            Some(report) => report.status == EnrichmentStatus::LookupFailed,
            None => false,
        };
        if failed {
            return Plan::Report {
                entry: ReportEntry {
                    source_path,
                    output_path: None,
                    action: EntryAction::Error,
                    metadata: Some(metadata),
                    enrichment,
                    warnings,
                    error: report_error(
                        "enrichment_lookup_failed",
                        "metadata enrichment lookup failed; no Cleaned EPUB was written".to_owned(),
                    ),
                },
            };
        }
    }
    let for_path = output_path_metadata(&effective);
    match render_output_path(config.output_path_template.as_str(), &for_path) {
        Err(error) => Plan::Report {
            entry: ReportEntry {
                source_path,
                output_path: None,
                action: EntryAction::Error,
                metadata: Some(effective),
                enrichment,
                warnings,
                error: report_error("path_render_error", error.message()),
            },
        },
        Ok(rendered) => {
            append_texts(&mut warnings, &rendered.warnings);
            let taken = contains_text(planned, rendered.relative_path.as_str());
            let job = CopyJob {
                source_path,
                target_path: join_path(
                    config.output_library.as_str(),
                    rendered.relative_path.as_str(),
                ),
                output_path: rendered.relative_path.clone(),
                metadata: effective,
                enrichment,
                patches,
                warnings,
            };
            if taken {
                return Plan::Report {
                    entry: skipped_entry(
                        job,
                        "run_collision",
                        "multiple source EPUBs render to the same output path",
                    ),
                };
            }
            proof {
                pushed_view(planned@, rendered.relative_path);
            }
            planned.push(rendered.relative_path);
            if config.dry_run {
                Plan::Report { entry: placed_entry(job, EntryAction::WouldCopy) }
            } else {
                Plan::Copy { job }
            }
        },
    }
}

/// Something that a walk through a Source Library came upon.
#[derive(Debug, Clone, PartialEq, Eq)]
pub struct WalkedEntry {
    pub path: String,
    pub is_file: bool,
}

/// The EPUB files that a walk came upon, in its order, or why it failed first.
pub open spec fn walked_epubs(walked: Seq<Result<WalkedEntry, String>>) -> Result<
    Seq<Seq<char>>,
    Seq<char>,
>
    decreases walked.len(),
{
    if walked.len() == 0 {
        Ok(Seq::empty())
    } else {
        match walked_epubs(walked.drop_last()) {
            Err(message) => Err(message),
            Ok(before) => match walked.last() {
                Err(message) => Err(message@),
                Ok(entry) => if entry.is_file && names_epub(entry.path@) {
                    Ok(before.push(entry.path@))
                } else {
                    Ok(before)
                },
            },
        }
    }
}

proof fn walk_failure_stays(walked: Seq<Result<WalkedEntry, String>>, n: int)
    requires
        0 <= n <= walked.len(),
        walked_epubs(walked.take(n)) is Err,
    ensures
        walked_epubs(walked) == walked_epubs(walked.take(n)),
    decreases walked.len() - n,
{
    if n < walked.len() {
        assert(walked.take(n + 1).drop_last() =~= walked.take(n));
        walk_failure_stays(walked, n + 1);
    } else {
        assert(walked.take(n) =~= walked);
    }
}

/// The EPUB files of a Source Library in order, given what a walk through it came
/// upon. The first failure of the walk fails the scan.
pub fn scan_epub_paths(source_library: &str, walked: Vec<Result<WalkedEntry, String>>) -> (out:
    Result<Vec<String>, NormalizeError>)
    ensures
        match walked_epubs(walked@) {
            Ok(paths) => out is Ok && views(out->Ok_0@) == sorted(paths),
            Err(message) => out is Err && out->Err_0 is Scan && out->Err_0->Scan_path@
                == source_library@ && out->Err_0->Scan_message@ == message,
        },
{
    let mut paths: Vec<String> = Vec::new();
    let mut i: usize = 0;
    assert(views(paths@) =~= Seq::empty());
    while i < walked.len()
        invariant
            i <= walked.len(),
            walked_epubs(walked@.take(i as int)) == Ok::<Seq<Seq<char>>, Seq<char>>(views(paths@)),
        decreases walked.len() - i,
    {
        assert(walked@.take(i + 1).drop_last() =~= walked@.take(i as int));
        match &walked[i] {
            Err(message) => {
                proof {
                    walk_failure_stays(walked@, i + 1);
                }
                return Err(
                    NormalizeError::Scan {
                        path: source_library.to_owned(),
                        message: message.clone(),
                    },
                );
            },
            Ok(entry) => {
                if entry.is_file && is_epub(entry.path.as_str()) {
                    let path = entry.path.clone();
                    proof {
                        pushed_view(paths@, path);
                    }
                    paths.push(path);
                }
            },
        }
        i += 1;
    }
    assert(walked@.take(i as int) =~= walked@);
    Ok(sort_paths(paths))
}

/// What has been found out about the two libraries before a run.
#[derive(Debug, PartialEq, Eq)]
pub struct LibrarySurvey {
    /// Whether the Source Library is a directory.
    pub source_is_directory: bool,
    /// The canonical path of the Source Library, where it could be found out.
    pub source_canonical: Option<String>,
    /// Where the Output Library lies.
    pub output: Resolution,
    /// What a walk through the Source Library came upon.
    pub walked: Vec<Result<WalkedEntry, String>>,
}

/// One of the libraries lies in the other, as far as their places are known.
pub open spec fn libraries_overlap(source_canonical: Option<Seq<char>>, output: ResolutionModel) -> bool {
    match (source_canonical, output) {
        (Some(source), ResolutionModel::Resolved { parts }) => overlap(path_parts(source), parts),
        _ => false,
    }
}

fn output_library_overlaps_source_library(
    source_canonical: Option<&String>,
    output: &Resolution,
) -> (yes: bool)
    ensures
        yes == libraries_overlap(viewed(source_canonical), output@),
{
    match (source_canonical, output) {
        (Some(source), Resolution::Resolved { parts }) => paths_overlap(
            &split_path(source.as_str()),
            parts,
        ),
        _ => false,
    }
}

/// What is to be done next in a run.
#[derive(Debug, PartialEq, Eq)]
pub enum RunStep {
    /// Open the next book and read its package document.
    Read,
    /// Look the book up.
    Lookup { metadata: NormalizedMetadata },
    /// Copy the book.
    Copy { job: CopyJob },
    /// Nothing: every book has its entry.
    Finished,
}

pub enum RunStepModel {
    Read,
    Lookup { metadata: BookModel },
    Copy { job: JobModel },
    Finished,
}

impl View for RunStep {
    type V = RunStepModel;

    open spec fn view(&self) -> RunStepModel {
        match self {
            RunStep::Read => RunStepModel::Read,
            RunStep::Lookup { metadata } => RunStepModel::Lookup { metadata: metadata@ },
            RunStep::Copy { job } => RunStepModel::Copy { job: job@ },
            RunStep::Finished => RunStepModel::Finished,
        }
    }
}

pub struct RunModel {
    pub config: ConfigModel,
    /// The books, by their paths, in the order of the report.
    pub sources: Seq<Seq<char>>,
    /// The places in the Output Library that are taken.
    pub planned: Seq<Seq<char>>,
    pub entries: Seq<EntryReport>,
    pub step: RunStepModel,
}

impl RunModel {
    pub open spec fn first(config: ConfigModel, sources: Seq<Seq<char>>) -> RunModel {
        RunModel {
            config,
            sources,
            planned: Seq::empty(),
            entries: Seq::empty(),
            step: RunModel::between(sources, 0),
        }
    }

    /// The step when this many books have their entries.
    pub open spec fn between(sources: Seq<Seq<char>>, done: nat) -> RunStepModel {
        if done < sources.len() {
            RunStepModel::Read
        } else {
            RunStepModel::Finished
        }
    }

    /// The run with one more entry.
    pub open spec fn with_entry(self, entry: EntryReport, planned: Seq<Seq<char>>) -> RunModel {
        RunModel {
            planned,
            entries: self.entries.push(entry),
            step: RunModel::between(self.sources, self.entries.len() + 1),
            ..self
        }
    }

    /// The path of the book that the run is at.
    pub open spec fn source(self) -> Seq<char> {
        self.sources[self.entries.len() as int]
    }

    /// The run once the book that it is at is planned for.
    pub open spec fn planned_on(
        self,
        book: BookModel,
        looked_up: Option<Result<Seq<CandidateModel>, ProviderErrorModel>>,
    ) -> RunModel {
        let (plan, planned) = plan_for(self.source(), self.config, book, looked_up, self.planned);
        match plan {
            PlanModel::Report { entry } => self.with_entry(entry, planned),
            PlanModel::Copy { job } => RunModel {
                planned,
                step: RunStepModel::Copy { job },
                ..self
            },
        }
    }

    /// The run once the next book was opened.
    pub open spec fn after_read(self, opened: Result<PackageModel, FailureModel>) -> RunModel {
        if !(self.step is Read) {
            self
        } else {
            match opened {
                Err(failure) => {
                    let error = reported_error(failure);
                    self.with_entry(
                        not_placed(
                            self.source(),
                            None,
                            None,
                            Seq::empty(),
                            error.code(),
                            error.message(),
                        ),
                        self.planned,
                    )
                },
                Ok(package) => if self.config.enrichment is Some {
                    RunModel { step: RunStepModel::Lookup { metadata: book_of(package) }, ..self }
                } else {
                    self.planned_on(book_of(package), None)
                },
            }
        }
    }

    /// The run once the book was looked up.
    pub open spec fn after_lookup(
        self,
        looked_up: Result<Seq<CandidateModel>, ProviderErrorModel>,
    ) -> RunModel {
        match self.step {
            RunStepModel::Lookup { metadata } => self.planned_on(metadata, Some(looked_up)),
            _ => self,
        }
    }

    /// The run once the book was copied, or could not be.
    pub open spec fn after_copy(self, result: CopyResultModel) -> RunModel {
        match self.step {
            RunStepModel::Copy { job } => self.with_entry(entry_of_copy(job, result), self.planned),
            _ => self,
        }
    }

    /// Every book has one entry, in order; no two books have the same place; a dry
    /// run has copied no book, and a real run has none that would be copied. The
    /// places that are taken are those of the entries, and an entry is a collision
    /// exactly where an earlier one has its place; its book is left out. Where
    /// enrichment is not asked for, no book is looked up and no entry has any.
    pub open spec fn sound(self) -> bool {
        &&& self.entries.len() <= self.sources.len()
        &&& self.step is Finished <==> self.entries.len() == self.sources.len()
        &&& forall|i: int|
            0 <= i < self.entries.len() ==> (#[trigger] self.entries[i]).source_path
                == self.sources[i]
        &&& forall|i: int|
            0 <= i < self.entries.len() && has_place(#[trigger] self.entries[i])
                ==> self.entries[i].output_path is Some && self.planned.contains(
                self.entries[i].output_path->0,
            )
        &&& forall|i: int, j: int|
            0 <= i < j < self.entries.len() && has_place(#[trigger] self.entries[i]) && has_place(
                #[trigger] self.entries[j],
            ) ==> self.entries[i].output_path != self.entries[j].output_path
        &&& forall|i: int|
            0 <= i < self.entries.len() ==> (#[trigger] self.entries[i]).action
                != if self.config.dry_run {
                EntryAction::Copied
            } else {
                EntryAction::WouldCopy
            }
        &&& forall|path: Seq<char>| #[trigger]
            self.planned.contains(path) <==> path_given(
                self.entries,
                Some(path),
                self.entries.len() as int,
            ) || self.is_copied_to(path)
        &&& forall|i: int|
            0 <= i < self.entries.len() ==> (is_collision(#[trigger] self.entries[i])
                <==> self.entries[i].output_path is Some && path_given(
                self.entries,
                self.entries[i].output_path,
                i,
            ))
        &&& forall|i: int|
            0 <= i < self.entries.len() && is_collision(#[trigger] self.entries[i])
                ==> self.entries[i].action == EntryAction::Skipped
        &&& self.config.enrichment is None ==> forall|i: int|
            0 <= i < self.entries.len() ==> (#[trigger] self.entries[i]).enrichment is None
        &&& match self.step {
            RunStepModel::Copy { job } => {
                &&& !self.config.dry_run
                &&& job.source_path == self.source()
                &&& !path_given(self.entries, Some(job.output_path), self.entries.len() as int)
                &&& self.config.enrichment is None ==> job.enrichment is None
            },
            RunStepModel::Lookup { .. } => self.config.enrichment is Some,
            _ => true,
        }
    }

    /// A book is about to be copied to this place.
    pub open spec fn is_copied_to(self, path: Seq<char>) -> bool {
        match self.step {
            RunStepModel::Copy { job } => job.output_path == path,
            _ => false,
        }
    }
}

/// One of the first `n` entries has this place.
pub open spec fn path_given(entries: Seq<EntryReport>, path: Option<Seq<char>>, n: int) -> bool {
    exists|j: int| 0 <= j < n && (#[trigger] entries[j]).output_path == path
}

/// The entry of a book that was left out because an earlier one has its place.
pub open spec fn is_collision(entry: EntryReport) -> bool {
    entry.error is Some && entry.error->0.code == "run_collision"@
}

/// A book that has its place in the Output Library, or would have.
pub open spec fn has_place(entry: EntryReport) -> bool {
    entry.action == EntryAction::WouldCopy || entry.action == EntryAction::Copied
}

proof fn entries_keep_sound(run: RunModel, entry: EntryReport, planned: Seq<Seq<char>>)
    requires
        run.sound(),
        !(run.step is Finished),
        entry.source_path == run.source(),
        entry.action != if run.config.dry_run {
            EntryAction::Copied
        } else {
            EntryAction::WouldCopy
        },
        has_place(entry) ==> entry.output_path is Some && !path_given(
            run.entries,
            entry.output_path,
            run.entries.len() as int,
        ),
        forall|path: Seq<char>| #[trigger]
            planned.contains(path) <==> path_given(
                run.entries,
                Some(path),
                run.entries.len() as int,
            ) || entry.output_path == Some(path),
        is_collision(entry) <==> entry.output_path is Some && path_given(
            run.entries,
            entry.output_path,
            run.entries.len() as int,
        ),
        is_collision(entry) ==> entry.action == EntryAction::Skipped,
        run.config.enrichment is None ==> entry.enrichment is None,
    ensures
        run.with_entry(entry, planned).sound(),
{
    let after = run.with_entry(entry, planned);
    let n = run.entries.len() as int;
    assert forall|i: int| 0 <= i < n implies #[trigger] after.entries[i] == run.entries[i] by {}
    assert(after.entries[n] == entry);
    assert forall|path: Option<Seq<char>>, k: int| 0 <= k <= n implies #[trigger] path_given(
        after.entries,
        path,
        k,
    ) == path_given(run.entries, path, k) by {
        if path_given(run.entries, path, k) {
            let j = choose|j: int| 0 <= j < k && (#[trigger] run.entries[j]).output_path == path;
            assert(after.entries[j].output_path == path);
        }
        if path_given(after.entries, path, k) {
            let j = choose|j: int| 0 <= j < k && (#[trigger] after.entries[j]).output_path == path;
            assert(run.entries[j].output_path == path);
        }
    }
    assert forall|path: Option<Seq<char>>| #[trigger] path_given(after.entries, path, n + 1) == (
    path_given(run.entries, path, n) || entry.output_path == path) by {
        if path_given(after.entries, path, n + 1) {
            let j = choose|j: int|
                0 <= j < n + 1 && (#[trigger] after.entries[j]).output_path == path;
            if j < n {
                assert(run.entries[j].output_path == path);
            }
        }
        if path_given(run.entries, path, n) {
            let j = choose|j: int| 0 <= j < n && (#[trigger] run.entries[j]).output_path == path;
            assert(after.entries[j].output_path == path);
        }
        if entry.output_path == path {
            assert(after.entries[n].output_path == path);
        }
    }
    assert forall|i: int| 0 <= i < after.entries.len() && has_place(#[trigger] after.entries[i]) implies
        after.entries[i].output_path is Some && after.planned.contains(
        after.entries[i].output_path->0,
    ) by {
        if i < n {
            assert(run.entries[i].output_path is Some);
        }
        let path = after.entries[i].output_path->0;
        assert(after.entries[i].output_path == Some(path));
        assert(path_given(after.entries, Some(path), n + 1));
        assert(planned.contains(path));
    }
    assert forall|i: int, j: int|
        0 <= i < j < after.entries.len() && has_place(#[trigger] after.entries[i]) && has_place(
            #[trigger] after.entries[j],
        ) implies after.entries[i].output_path != after.entries[j].output_path by {
        if j == n && after.entries[i].output_path == entry.output_path {
            assert(run.entries[i].output_path == entry.output_path);
            assert(path_given(run.entries, entry.output_path, n));
        }
    }
    assert forall|i: int| 0 <= i < after.entries.len() implies (is_collision(
        #[trigger] after.entries[i],
    ) <==> after.entries[i].output_path is Some && path_given(
        after.entries,
        after.entries[i].output_path,
        i,
    )) by {
        if i < n {
            assert(is_collision(run.entries[i]) <==> run.entries[i].output_path is Some
                && path_given(run.entries, run.entries[i].output_path, i));
        }
    }
    assert forall|path: Seq<char>| #[trigger] after.planned.contains(path) <==> path_given(
        after.entries,
        Some(path),
        after.entries.len() as int,
    ) || after.is_copied_to(path) by {}
}

proof fn codes_differ()
    ensures
        "run_collision"@ != "output_exists"@,
        "run_collision"@ != "copy_error"@,
        "run_collision"@ != "metadata_write_error"@,
        "run_collision"@ != "enrichment_lookup_failed"@,
        "run_collision"@ != "path_render_error"@,
        forall|error: ErrorKind| "run_collision"@ != #[trigger] error.code(),
{
    reveal_strlit("run_collision");
    reveal_strlit("output_exists");
    reveal_strlit("copy_error");
    reveal_strlit("metadata_write_error");
    reveal_strlit("enrichment_lookup_failed");
    reveal_strlit("path_render_error");
    reveal_strlit("unreadable_epub");
    reveal_strlit("missing_container_xml");
    reveal_strlit("malformed_container_xml");
    reveal_strlit("missing_rootfile");
    reveal_strlit("missing_package_document");
    reveal_strlit("malformed_package_document");
    assert("run_collision"@.len() == 13);
    assert("run_collision"@[0] == 'r');
    assert("output_exists"@[0] == 'o');
    assert("copy_error"@.len() == 10);
    assert("metadata_write_error"@.len() == 20);
    assert("enrichment_lookup_failed"@.len() == 24);
    assert("path_render_error"@.len() == 17);
    assert("unreadable_epub"@.len() == 15);
    assert("missing_container_xml"@.len() == 21);
    assert("malformed_container_xml"@.len() == 23);
    assert("missing_rootfile"@.len() == 16);
    assert("missing_package_document"@.len() == 24);
    assert("malformed_package_document"@.len() == 26);
}

proof fn planning_keeps_sound(
    run: RunModel,
    book: BookModel,
    looked_up: Option<Result<Seq<CandidateModel>, ProviderErrorModel>>,
)
    requires
        run.sound(),
        run.step is Read || run.step is Lookup,
    ensures
        run.planned_on(book, looked_up).sound(),
{
    codes_differ();
    let (plan, planned) = plan_for(run.source(), run.config, book, looked_up, run.planned);
    let pushed = planned.len() > run.planned.len();
    assert forall|path: Seq<char>| #[trigger] planned.contains(path) <==> run.planned.contains(path)
        || (pushed && path == planned.last()) by {
        if pushed {
            if run.planned.contains(path) {
                let i = choose|i: int| 0 <= i < run.planned.len() && run.planned[i] == path;
                assert(planned[i] == path);
            }
            if path == planned.last() {
                assert(planned[planned.len() - 1] == path);
            }
            if planned.contains(path) {
                let i = choose|i: int| 0 <= i < planned.len() && planned[i] == path;
                if i < run.planned.len() {
                    assert(run.planned[i] == path);
                }
            }
        }
    }
    match plan {
        PlanModel::Report { entry } => {
            entries_keep_sound(run, entry, planned);
        },
        PlanModel::Copy { job } => {
            let after = run.planned_on(book, looked_up);
            assert(after.entries == run.entries);
            assert(!run.planned.contains(job.output_path));
            assert forall|path: Seq<char>| #[trigger] after.planned.contains(path) <==> path_given(
                after.entries,
                Some(path),
                after.entries.len() as int,
            ) || after.is_copied_to(path) by {}
            assert forall|i: int| 0 <= i < after.entries.len() && has_place(
                #[trigger] after.entries[i],
            ) implies after.entries[i].output_path is Some && after.planned.contains(
                after.entries[i].output_path->0,
            ) by {
                assert(run.planned.contains(run.entries[i].output_path->0));
            }
        },
    }
}

/// A run is sound when it starts.
pub proof fn runs_start_sound(config: ConfigModel, sources: Seq<Seq<char>>)
    ensures
        RunModel::first(config, sources).sound(),
{
}

/// A run stays sound, whatever comes of its steps.
pub proof fn runs_stay_sound(
    run: RunModel,
    opened: Result<PackageModel, FailureModel>,
    looked_up: Result<Seq<CandidateModel>, ProviderErrorModel>,
    result: CopyResultModel,
)
    requires
        run.sound(),
    ensures
        run.after_read(opened).sound(),
        run.after_lookup(looked_up).sound(),
        run.after_copy(result).sound(),
{
    codes_differ();
    if run.step is Read {
        match opened {
            Err(failure) => {
                let error = reported_error(failure);
                let entry = not_placed(
                    run.source(),
                    None,
                    None,
                    Seq::empty(),
                    error.code(),
                    error.message(),
                );
                entries_keep_sound(run, entry, run.planned);
            },
            Ok(package) => {
                if run.config.enrichment is None {
                    planning_keeps_sound(run, book_of(package), None);
                }
            },
        }
    }
    match run.step {
        RunStepModel::Lookup { metadata } => {
            planning_keeps_sound(run, metadata, Some(looked_up));
        },
        _ => {},
    }
    match run.step {
        RunStepModel::Copy { job } => {
            entries_keep_sound(run, entry_of_copy(job, result), run.planned);
        },
        _ => {},
    }
}

/// A normalize run.
#[derive(Debug, PartialEq, Eq)]
pub struct NormalizeRun {
    config: NormalizeConfig,
    sources: Vec<String>,
    planned: Vec<String>,
    entries: Vec<ReportEntry>,
    step: RunStep,
}

impl View for NormalizeRun {
    type V = RunModel;

    closed spec fn view(&self) -> RunModel {
        RunModel {
            config: self.config@,
            sources: views(self.sources@),
            planned: views(self.planned@),
            entries: views(self.entries@),
            step: self.step@,
        }
    }
}

impl NormalizeRun {
    #[verifier::type_invariant]
    closed spec fn is_sound(self) -> bool {
        self@.sound()
    }

    fn start(config: NormalizeConfig, sources: Vec<String>) -> (run: NormalizeRun)
        ensures
            run@ == RunModel::first(config@, views(sources@)),
    {
        let step = if sources.len() > 0 {
            RunStep::Read
        } else {
            RunStep::Finished
        };
        let planned: Vec<String> = Vec::new();
        let entries: Vec<ReportEntry> = Vec::new();
        proof {
            assert(views(planned@) =~= Seq::empty());
            assert(views(entries@) =~= Seq::empty());
            runs_start_sound(config@, views(sources@));
        }
        NormalizeRun { config, sources, planned, entries, step }
    }

    /// What is to be done next.
    pub fn step(&self) -> (step: &RunStep)
        ensures
            step@ == self@.step,
    {
        &self.step
    }

    /// The path of the book that the run is at, if there is one left.
    pub fn source(&self) -> (source: Option<&String>)
        ensures
            match source {
                Some(path) => !(self@.step is Finished) && path@ == self@.source(),
                None => self@.step is Finished,
            },
    {
        proof {
            use_type_invariant(self);
        }
        if self.entries.len() < self.sources.len() {
            Some(&self.sources[self.entries.len()])
        } else {
            None
        }
    }

    /// The request to look a book up with.
    pub fn lookup_request(&self) -> (request: Option<LookupRequest>)
        ensures
            viewed(request) == match self@.step {
                RunStepModel::Lookup { metadata } => Some(RequestModel::about(metadata)),
                _ => None,
            },
    {
        match &self.step {
            RunStep::Lookup { metadata } => Some(LookupRequest::from(metadata)),
            _ => None,
        }
    }

    /// Goes on with the book that was opened. Where no book was to be opened,
    /// nothing changes.
    pub fn after_read(self, opened: Result<PackageMetadata, DocFailure>) -> (run: NormalizeRun)
        ensures
            run@ == self@.after_read(opened_model(opened)),
    {
        proof {
            use_type_invariant(&self);
            let nothing: Result<Seq<CandidateModel>, ProviderErrorModel> = Ok(Seq::empty());
            runs_stay_sound(
                self@,
                opened_model(opened),
                nothing,
                CopyResultModel::Patched(None),
            );
        }
        let is_read = match &self.step {
            RunStep::Read => true,
            _ => false,
        };
        if !is_read {
            return self;
        }
        let NormalizeRun { config, sources, planned, entries, step } = self;
        let source_path = sources[entries.len()].clone();
        match metadata_from_package(opened) {
            Err(error) => {
                let entry = ReportEntry {
                    source_path,
                    output_path: None,
                    action: EntryAction::Error,
                    metadata: None,
                    enrichment: None,
                    warnings: Vec::new(),
                    error: report_error(error.code(), error.message()),
                };
                assert(entry@.warnings =~= Seq::empty());
                let plan = Plan::Report { entry };
                NormalizeRun::go_on(config, sources, planned, entries, plan, Ghost(self@))
            },
            Ok(metadata) => {
                if config.enrichment.is_some() {
                    return NormalizeRun {
                        config,
                        sources,
                        planned,
                        entries,
                        step: RunStep::Lookup { metadata },
                    };
                }
                let mut planned = planned;
                let plan = build_entry(source_path, &config, metadata, None, &mut planned);
                NormalizeRun::go_on(config, sources, planned, entries, plan, Ghost(self@))
            },
        }
    }

    /// The run with a plan for the book that it is at.
    fn go_on(
        config: NormalizeConfig,
        sources: Vec<String>,
        planned: Vec<String>,
        entries: Vec<ReportEntry>,
        plan: Plan,
        Ghost(before): Ghost<RunModel>,
    ) -> (run: NormalizeRun)
        requires
            before.config == config@,
            before.sources == views(sources@),
            before.entries == views(entries@),
            entries@.len() < sources@.len(),
            match plan@ {
                PlanModel::Report { entry } => before.with_entry(entry, views(planned@)).sound(),
                PlanModel::Copy { job } => (RunModel {
                    planned: views(planned@),
                    step: RunStepModel::Copy { job },
                    ..before
                }).sound(),
            },
        ensures
            match plan@ {
                PlanModel::Report { entry } => run@ == before.with_entry(entry, views(planned@)),
                PlanModel::Copy { job } => run@ == (RunModel {
                    planned: views(planned@),
                    step: RunStepModel::Copy { job },
                    ..before
                }),
            },
    {
        match plan {
            Plan::Report { entry } => {
                let mut entries = entries;
                proof {
                    pushed_view(entries@, entry);
                }
                entries.push(entry);
                let step = if entries.len() < sources.len() {
                    RunStep::Read
                } else {
                    RunStep::Finished
                };
                NormalizeRun { config, sources, planned, entries, step }
            },
            Plan::Copy { job } => NormalizeRun {
                config,
                sources,
                planned,
                entries,
                step: RunStep::Copy { job },
            },
        }
    }

    /// Goes on with the answer of the provider. Where no book was to be looked
    /// up, nothing changes.
    pub fn after_lookup(self, looked_up: Result<Vec<EnrichmentCandidate>, ProviderError>) -> (run:
        NormalizeRun)
        ensures
            run@ == self@.after_lookup(answer(looked_up)),
    {
        proof {
            use_type_invariant(&self);
            runs_stay_sound(
                self@,
                Err(FailureModel::InvalidEpub),
                answer(looked_up),
                CopyResultModel::Patched(None),
            );
        }
        let NormalizeRun { config, sources, planned, entries, step } = self;
        match step {
            RunStep::Lookup { metadata } => {
                let mut planned = planned;
                let source_path = sources[entries.len()].clone();
                let plan = build_entry(
                    source_path,
                    &config,
                    metadata,
                    Some(looked_up),
                    &mut planned,
                );
                NormalizeRun::go_on(config, sources, planned, entries, plan, Ghost(self@))
            },
            step => NormalizeRun { config, sources, planned, entries, step },
        }
    }

    /// Goes on with what came of the copy. Where no book was to be copied,
    /// nothing changes.
    pub fn after_copy(self, result: CopyResult) -> (run: NormalizeRun)
        ensures
            run@ == self@.after_copy(result@),
    {
        proof {
            use_type_invariant(&self);
            let nothing: Result<Seq<CandidateModel>, ProviderErrorModel> = Ok(Seq::empty());
            runs_stay_sound(self@, Err(FailureModel::InvalidEpub), nothing, result@);
        }
        let NormalizeRun { config, sources, planned, entries, step } = self;
        match step {
            RunStep::Copy { job } => {
                let plan = Plan::Report { entry: copy_entry(job, result) };
                NormalizeRun::go_on(config, sources, planned, entries, plan, Ghost(self@))
            },
            step => NormalizeRun { config, sources, planned, entries, step },
        }
    }
}

/// Starts a run, given what has been found out about the two libraries.
///
/// There is none where the Source Library is not a directory, where books would
/// be copied and one library lies in the other, or where the walk through the
/// Source Library failed.
pub fn normalize(config: NormalizeConfig, survey: LibrarySurvey) -> (run: Result<
    NormalizeRun,
    NormalizeError,
>)
    ensures
        if !survey.source_is_directory {
            run is Err && run->Err_0 is SourceLibraryNotDirectory
                && run->Err_0->SourceLibraryNotDirectory_0@ == config@.source_library
        } else if !config@.dry_run && libraries_overlap(
            viewed(survey.source_canonical),
            survey.output@,
        ) {
            run is Err && run->Err_0 is OutputLibraryOverlapsSourceLibrary
                && run->Err_0->OutputLibraryOverlapsSourceLibrary_source_library@
                == config@.source_library
                && run->Err_0->OutputLibraryOverlapsSourceLibrary_output_library@
                == config@.output_library
        } else {
            match walked_epubs(survey.walked@) {
                Ok(paths) => run is Ok && run->Ok_0@ == RunModel::first(config@, sorted(paths)),
                Err(message) => run is Err && run->Err_0 is Scan && run->Err_0->Scan_path@
                    == config@.source_library && run->Err_0->Scan_message@ == message,
            }
        },
{
    if !survey.source_is_directory {
        return Err(NormalizeError::SourceLibraryNotDirectory(config.source_library));
    }
    if !config.dry_run && output_library_overlaps_source_library(
        survey.source_canonical.as_ref(),
        &survey.output,
    ) {
        return Err(
            NormalizeError::OutputLibraryOverlapsSourceLibrary {
                source_library: config.source_library,
                output_library: config.output_library,
            },
        );
    }
    match scan_epub_paths(config.source_library.as_str(), survey.walked) {
        Err(error) => Err(error),
        Ok(sources) => Ok(NormalizeRun::start(config, sources)),
    }
}

/// How many of the entries `f` holds of.
pub open spec fn how_many(entries: Seq<EntryReport>, f: spec_fn(EntryReport) -> bool) -> nat
    decreases entries.len(),
{
    if entries.len() == 0 {
        0
    } else {
        how_many(entries.drop_last(), f) + if f(entries.last()) {
            1nat
        } else {
            0
        }
    }
}

/// A book for which a place was found.
pub open spec fn is_planned(entry: EntryReport) -> bool {
    entry.output_path is Some && entry.metadata is Some
}

/// The totals of these entries.
pub open spec fn are_totals_of(totals: Totals, entries: Seq<EntryReport>) -> bool {
    &&& totals.scanned == entries.len()
    &&& totals.planned == how_many(entries, |entry: EntryReport| is_planned(entry))
    &&& totals.copied == how_many(
        entries,
        |entry: EntryReport| entry.action == EntryAction::Copied,
    )
    &&& totals.skipped == how_many(
        entries,
        |entry: EntryReport| entry.action == EntryAction::Skipped,
    )
    &&& totals.errored == how_many(
        entries,
        |entry: EntryReport| entry.action == EntryAction::Error,
    )
}

/// The totals of entries.
pub fn totals_for(entries: &[ReportEntry]) -> (totals: Totals)
    ensures
        are_totals_of(totals, views(entries@)),
{
    let ghost model = views(entries@);
    let mut planned: usize = 0;
    let mut copied: usize = 0;
    let mut skipped: usize = 0;
    let mut errored: usize = 0;
    let mut i: usize = 0;
    while i < entries.len()
        invariant
            i <= entries.len(),
            model == views(entries@),
            planned <= i,
            copied <= i,
            skipped <= i,
            errored <= i,
            are_totals_of(
                Totals { scanned: i, planned, copied, skipped, errored },
                model.take(i as int),
            ),
        decreases entries.len() - i,
    {
        let entry = &entries[i];
        proof {
            assert(model.take(i + 1).drop_last() =~= model.take(i as int));
            assert(model.take(i + 1).last() == entry@);
        }
        if entry.output_path.is_some() && entry.metadata.is_some() {
            planned += 1;
        }
        match entry.action {
            EntryAction::Copied => {
                copied += 1;
            },
            EntryAction::Skipped => {
                skipped += 1;
            },
            EntryAction::Error => {
                errored += 1;
            },
            EntryAction::WouldCopy => {},
        }
        i += 1;
    }
    assert(model.take(i as int) =~= model);
    Totals { scanned: entries.len(), planned, copied, skipped, errored }
}

impl NormalizeRun {
    /// The report of the run, as far as it has come.
    pub fn report(self) -> (report: NormalizeReport)
        ensures
            self@.sound(),
            views(report.entries@) == self@.entries,
            are_totals_of(report.totals, self@.entries),
            report.config.source_library@ == self@.config.source_library,
            report.config.output_library@ == self@.config.output_library,
            report.config.template@ == self@.config.template,
            report.config.dry_run == self@.config.dry_run,
            report.config.enrich == (self@.config.enrichment is Some),
            report.config.apply_enrichment == (self@.config.enrichment == Some(
                EnrichmentMode::AutoApplyHighConfidence,
            )),
    {
        proof {
            use_type_invariant(&self);
        }
        let NormalizeRun { config, sources, planned, entries, step } = self;
        let totals = totals_for(entries.as_slice());
        let enrich = config.enrichment.is_some();
        let apply_enrichment = match &config.enrichment {
            Some(enrichment) => enrichment.mode == EnrichmentMode::AutoApplyHighConfidence,
            None => false,
        };
        NormalizeReport {
            config: ReportConfig {
                source_library: config.source_library,
                output_library: config.output_library,
                template: config.output_path_template,
                dry_run: config.dry_run,
                enrich,
                apply_enrichment,
            },
            totals,
            entries,
        }
    }
}

/// The line of the summary about the books of a run.
pub open spec fn totals_text(totals: Totals) -> Seq<char> {
    "normalize summary: scanned="@ + decimal(totals.scanned as nat) + " planned="@ + decimal(
        totals.planned as nat,
    ) + " copied="@ + decimal(totals.copied as nat) + " skipped="@ + decimal(
        totals.skipped as nat,
    ) + " errored="@ + decimal(totals.errored as nat)
}

/// The line of the summary about a book that would be copied.
pub open spec fn would_copy_text(entry: EntryReport) -> Seq<char> {
    if entry.action == EntryAction::WouldCopy && entry.output_path is Some {
        "\nwould copy: "@ + entry.source_path + " -> "@ + entry.output_path->0
    } else {
        Seq::empty()
    }
}

pub open spec fn would_copy_texts(entries: Seq<EntryReport>) -> Seq<char>
    decreases entries.len(),
{
    if entries.len() == 0 {
        Seq::empty()
    } else {
        would_copy_texts(entries.drop_last()) + would_copy_text(entries.last())
    }
}

/// The summary of a report for a reader: the totals, and after a dry run what
/// would be copied.
pub open spec fn summary_text(report: NormalizeReport) -> Seq<char> {
    totals_text(report.totals) + if report.config.dry_run {
        would_copy_texts(views(report.entries@))
    } else {
        Seq::empty()
    }
}

fn push_count(text: &mut Vec<char>, label: &str, count: usize)
    ensures
        final(text)@ == old(text)@ + label@ + decimal(count as nat),
{
    push_chars(text, chars_of(label).as_slice());
    push_chars(text, decimal_chars(count as u64).as_slice());
}

/// The summary of a report for a reader.
pub fn human_summary(report: &NormalizeReport) -> (summary: String)
    ensures
        summary@ == summary_text(*report),
{
    let mut text = chars_of("normalize summary: scanned=");
    push_chars(&mut text, decimal_chars(report.totals.scanned as u64).as_slice());
    push_count(&mut text, " planned=", report.totals.planned);
    push_count(&mut text, " copied=", report.totals.copied);
    push_count(&mut text, " skipped=", report.totals.skipped);
    push_count(&mut text, " errored=", report.totals.errored);
    assert(text@ == totals_text(report.totals));
    if report.config.dry_run {
        let ghost start = text@;
        let ghost model = views(report.entries@);
        let mut i: usize = 0;
        assert(start + would_copy_texts(model.take(0)) =~= start);
        while i < report.entries.len()
            invariant
                i <= report.entries.len(),
                model == views(report.entries@),
                text@ == start + would_copy_texts(model.take(i as int)),
            decreases report.entries.len() - i,
        {
            let entry = &report.entries[i];
            proof {
                assert(model.take(i + 1).drop_last() =~= model.take(i as int));
                assert(model.take(i + 1).last() == entry@);
                let done = would_copy_texts(model.take(i as int));
                assert(start + (done + would_copy_text(entry@)) =~= start + done + would_copy_text(
                    entry@,
                ));
            }
            let would_copy = match entry.action {
                EntryAction::WouldCopy => true,
                _ => false,
            };
            if would_copy {
                match &entry.output_path {
                    Some(output_path) => {
                        let line = glue("\nwould copy: ", entry.source_path.as_str(), " -> ");
                        let whole = pair(line.as_str(), output_path.as_str());
                        push_chars(&mut text, chars_of(whole.as_str()).as_slice());
                    },
                    None => {},
                }
            }
            i += 1;
        }
        assert(model.take(i as int) =~= model);
    } else {
        assert(text@ + Seq::<char>::empty() =~= text@);
    }
    string_of(text.as_slice())
}

/// Every book of a report is one that would be copied, that was copied, that was
/// skipped, or that failed.
pub proof fn totals_add_up(totals: Totals, entries: Seq<EntryReport>)
    requires
        are_totals_of(totals, entries),
    ensures
        totals.scanned == totals.copied + totals.skipped + totals.errored + how_many(
            entries,
            |entry: EntryReport| entry.action == EntryAction::WouldCopy,
        ),
        totals.planned <= totals.scanned,
{
    actions_add_up(entries);
}

proof fn actions_add_up(entries: Seq<EntryReport>)
    ensures
        entries.len() == how_many(
            entries,
            |entry: EntryReport| entry.action == EntryAction::Copied,
        ) + how_many(entries, |entry: EntryReport| entry.action == EntryAction::Skipped) + how_many(
            entries,
            |entry: EntryReport| entry.action == EntryAction::Error,
        ) + how_many(entries, |entry: EntryReport| entry.action == EntryAction::WouldCopy),
        how_many(entries, |entry: EntryReport| is_planned(entry)) <= entries.len(),
    decreases entries.len(),
{
    if entries.len() > 0 {
        actions_add_up(entries.drop_last());
    }
}

proof fn counts_add_up(
    a: Seq<EntryReport>,
    b: Seq<EntryReport>,
    f: spec_fn(EntryReport) -> bool,
)
    ensures
        how_many(a + b, f) == how_many(a, f) + how_many(b, f),
    decreases b.len(),
{
    if b.len() > 0 {
        counts_add_up(a, b.drop_last(), f);
        assert((a + b).drop_last() =~= a + b.drop_last());
        assert((a + b).last() == b.last());
    } else {
        assert(a + b =~= a);
    }
}

/// The totals of two lists of entries put together are the sums of their totals.
pub proof fn totals_of_both_are_sums(
    a: Seq<EntryReport>,
    b: Seq<EntryReport>,
    first: Totals,
    second: Totals,
    both: Totals,
)
    requires
        are_totals_of(first, a),
        are_totals_of(second, b),
        are_totals_of(both, a + b),
    ensures
        both.scanned == first.scanned + second.scanned,
        both.planned == first.planned + second.planned,
        both.copied == first.copied + second.copied,
        both.skipped == first.skipped + second.skipped,
        both.errored == first.errored + second.errored,
{
    counts_add_up(a, b, |entry: EntryReport| is_planned(entry));
    counts_add_up(a, b, |entry: EntryReport| entry.action == EntryAction::Copied);
    counts_add_up(a, b, |entry: EntryReport| entry.action == EntryAction::Skipped);
    counts_add_up(a, b, |entry: EntryReport| entry.action == EntryAction::Error);
}

/// A book is left out as a collision exactly where an earlier book of the run has
/// its place; where enrichment was not asked for, no book has been enriched, and none
/// is looked up.
pub proof fn collisions_are_with_earlier_books(run: RunModel, index: int)
    requires
        run.sound(),
        0 <= index < run.entries.len(),
    ensures
        is_collision(run.entries[index]) <==> run.entries[index].output_path is Some && exists|
            j: int,
        |
            0 <= j < index && (#[trigger] run.entries[j]).output_path
                == run.entries[index].output_path,
        is_collision(run.entries[index]) ==> run.entries[index].action == EntryAction::Skipped,
        run.config.enrichment is None ==> run.entries[index].enrichment is None,
        run.config.enrichment is None ==> !(run.step is Lookup),
{
}

/// A dry run never asks for a copy.
pub proof fn dry_runs_copy_nothing(run: RunModel)
    requires
        run.sound(),
        run.config.dry_run,
    ensures
        !(run.step is Copy),
        forall|i: int|
            0 <= i < run.entries.len() ==> (#[trigger] run.entries[i]).action != EntryAction::Copied,
{
}

/// Where books are copied, one that could not be looked up is not: its entry is
/// an error, with what the book says of itself.
pub proof fn failed_lookups_copy_nothing(run: RunModel, error: ProviderErrorModel)
    requires
        run.sound(),
        run.step is Lookup,
        !run.config.dry_run,
    ensures
        ({
            let after = run.after_lookup(Err(error));
            &&& !(after.step is Copy)
            &&& after.planned == run.planned
            &&& after.entries.len() == run.entries.len() + 1
            &&& after.entries.last().action == EntryAction::Error
            &&& after.entries.last().output_path is None
            &&& after.entries.last().error->0.code == "enrichment_lookup_failed"@
            &&& after.entries.last().error->0.message
                == "metadata enrichment lookup failed; no Cleaned EPUB was written"@
            &&& after.entries.last().metadata == Some(run.step->Lookup_metadata)
            &&& after.entries.last().warnings == run.step->Lookup_metadata.missing_required()
                + run.step->Lookup_metadata.warnings
        }),
{
    let book = run.step->Lookup_metadata;
    let warnings = book.missing_required() + book.warnings;
    assert(warnings + Seq::<Seq<char>>::empty() =~= warnings);
}

/// A book is copied to a place inside the Output Library: the path of its target
/// leads from there through names alone.
pub proof fn targets_lie_in_the_output_library(
    source_path: Seq<char>,
    config: ConfigModel,
    book: BookModel,
    looked_up: Option<Result<Seq<CandidateModel>, ProviderErrorModel>>,
    planned: Seq<Seq<char>>,
)
    requires
        plan_for(source_path, config, book, looked_up, planned).0 is Copy,
    ensures
        ({
            let job = plan_for(source_path, config, book, looked_up, planned).0->Copy_job;
            let names = split(job.output_path, |c: char| c == '/');
            &&& names.len() > 0
            &&& path_parts(job.target_path) == path_parts(config.output_library) + name_parts(names)
        }),
{
    let known = known_book(config, book, looked_up);
    let metadata = path_metadata(known.metadata);
    output_paths_stay_inside(config.template, metadata);
    let rendered = template_text(config.template, metadata, false)->Ok_0.text;
    let names = segments(rendered);
    reveal_strlit("/");
    reveal_strlit(".");
    reveal_strlit("..");
    assert("/"@ =~= seq!['/']);
    assert("."@ =~= seq!['.']);
    assert(".."@ =~= seq!['.', '.']);
    assert forall|i: int| 0 <= i < names.len() implies is_name(#[trigger] names[i]) by {
        segments_are_safe(split(rendered, |c: char| is_separator(c))[i]);
        assert(is_safe_segment(names[i]));
        assert forall|j: int| 0 <= j < names[i].len() implies names[i][j] != '/' && names[i][j]
            != ':' && names[i][j] != '\\' by {
            assert(!is_forbidden(names[i][j]));
        }
        assert(!is_prefix(names[i])) by {
            if names[i].len() > 1 {
                assert(!is_forbidden(names[i][0]) && !is_forbidden(names[i][1]));
            }
        }
    }
    assert forall|i: int, j: int|
        0 <= i < names.len() && 0 <= j < names[i].len() implies names[i][j] != '/' by {
        assert(is_name(names[i]));
    }
    split_is_not_empty(rendered, |c: char| is_separator(c));
    split_undoes_join(names, '/');
    joined_paths_lead_below(config.output_library, names);
}

/// How many steps a run can still take.
pub open spec fn run_steps_left(run: RunModel) -> int {
    3 * (run.sources.len() - run.entries.len()) - match run.step {
        RunStepModel::Lookup { .. } => 1int,
        RunStepModel::Copy { .. } => 2,
        _ => 0,
    }
}

/// A run comes to an end: every step that is done leaves fewer to do.
pub proof fn runs_come_to_an_end(
    run: RunModel,
    opened: Result<PackageModel, FailureModel>,
    looked_up: Result<Seq<CandidateModel>, ProviderErrorModel>,
    result: CopyResultModel,
)
    requires
        run.sound(),
    ensures
        run_steps_left(run) >= 0,
        run.step is Read ==> run_steps_left(run.after_read(opened)) < run_steps_left(run),
        run.step is Lookup ==> run_steps_left(run.after_lookup(looked_up)) < run_steps_left(run),
        run.step is Copy ==> run_steps_left(run.after_copy(result)) < run_steps_left(run),
        run.step is Finished <==> run_steps_left(run) == 0,
{
}

proof fn field_names_differ()
    ensures
        Field::named("author"@) == Some(Field::Author),
        Field::named("series"@) == Some(Field::Series),
        Field::named("series_index"@) == Some(Field::SeriesIndex),
        Field::named("title"@) == Some(Field::Title),
{
    reveal_strlit("title");
    reveal_strlit("author");
    reveal_strlit("authors");
    reveal_strlit("author_sort");
    reveal_strlit("series");
    reveal_strlit("series_index");
    assert("title"@.len() == 5);
    assert("author"@.len() == 6);
    assert("authors"@.len() == 7);
    assert("author_sort"@.len() == 11);
    assert("series"@.len() == 6);
    assert("series_index"@.len() == 12);
    assert("author"@[0] == 'a');
    assert("series"@[0] == 's');
}

/// A template that starts with a placeholder has a text where the placeholder and
/// what follows it have one.
proof fn placeholder_first(template: Seq<char>, end: int, metadata: MetadataModel, optional: bool)
    requires
        0 < end < template.len(),
        template[0] == '{',
        position(template, |c: char| c == '}', 0) == end,
        placeholder_text(template.subrange(1, end), metadata, optional) is Ok,
        template_text(template.skip(end + 1), metadata, optional) is Ok,
    ensures
        template_text(template, metadata, optional) is Ok,
{
    assert(position(template, |c: char| c == '[' || c == '{', 0) == 0);
    assert(template.skip(0) =~= template);
}

proof fn title_end_renders(metadata: MetadataModel)
    ensures
        template_text("{title}.epub"@, metadata, false) is Ok,
{
    reveal_strlit("{title}.epub");
    reveal_strlit("title");
    let t = "{title}.epub"@;
    assert(position(t, |c: char| c == '}', 0) == 6) by {
        reveal_with_fuel(position, 8);
    }
    let input = t.subrange(1, 6);
    assert(input =~= "title"@);
    assert(position(input, |c: char| c == ':', 0) == 5) by {
        reveal_with_fuel(position, 7);
    }
    assert(input.take(5) =~= "title"@);
    field_names_differ();
    let rest = t.skip(7);
    assert(position(rest, |c: char| c == '[' || c == '{', 0) == 5) by {
        reveal_with_fuel(position, 7);
    }
    placeholder_first(t, 6, metadata, false);
}

proof fn series_section_renders(metadata: MetadataModel)
    ensures
        section_fields("{series}/{series_index:02} "@) == Ok::<Seq<Field>, Seq<char>>(
            seq![Field::Series, Field::SeriesIndex],
        ),
        Field::Series.has_value(metadata) && Field::SeriesIndex.has_value(metadata)
            ==> template_text("{series}/{series_index:02} "@, metadata, true) is Ok,
{
    reveal_strlit("{series}/{series_index:02} ");
    reveal_strlit("series");
    reveal_strlit("series_index");
    reveal_strlit("02");
    field_names_differ();
    let t = "{series}/{series_index:02} "@;
    let open = |c: char| c == '{';
    let close = |c: char| c == '}';
    let colon = |c: char| c == ':';
    let marks = |c: char| c == '[' || c == '{';
    let first = t.subrange(1, 7);
    assert(first =~= "series"@);
    assert(position(first, colon, 0) == 6) by {
        reveal_with_fuel(position, 8);
    }
    assert(first.take(6) =~= "series"@);
    assert(position(t, close, 0) == 7) by {
        reveal_with_fuel(position, 9);
    }
    let rest = t.skip(8);
    assert(rest[0] == '/' && rest[1] == '{');
    assert(position(rest, open, 0) == 1 && position(rest, marks, 0) == 1) by {
        reveal_with_fuel(position, 3);
    }
    let tail = rest.skip(1);
    assert(position(tail, close, 0) == 16) by {
        reveal_with_fuel(position, 18);
    }
    let second = tail.subrange(1, 16);
    assert(position(second, colon, 0) == 12) by {
        reveal_with_fuel(position, 14);
    }
    assert(second.take(12) =~= "series_index"@);
    assert(second.skip(13) =~= "02"@);
    let end = tail.skip(17);
    assert(end.len() == 1 && end[0] == ' ');
    assert(position(end, open, 0) == 1 && position(end, marks, 0) == 1) by {
        reveal_with_fuel(position, 3);
    }
    assert(section_fields(end) == Ok::<Seq<Field>, Seq<char>>(Seq::empty()));
    assert(section_fields(rest) == Ok::<Seq<Field>, Seq<char>>(seq![Field::SeriesIndex])) by {
        assert(seq![Field::SeriesIndex] + Seq::<Field>::empty() =~= seq![Field::SeriesIndex]);
    }
    assert(t.skip(0) =~= t);
    assert(position(t, open, 0) == 0);
    assert(seq![Field::Series] + seq![Field::SeriesIndex] =~= seq![
        Field::Series,
        Field::SeriesIndex,
    ]);
    if Field::Series.has_value(metadata) && Field::SeriesIndex.has_value(metadata) {
        assert(template_text(end, metadata, true) is Ok);
        assert(placeholder_text(second, metadata, true) is Ok);
        assert(template_text(rest, metadata, true) is Ok);
        assert(placeholder_text(first, metadata, true) is Ok);
        placeholder_first(t, 7, metadata, true);
    }
}

/// The default template has an output path for every book.
pub proof fn default_template_fits_every_book(metadata: MetadataModel)
    ensures
        output_path(DEFAULT_OUTPUT_PATH_TEMPLATE@, metadata) is Ok,
{
    reveal_strlit("{author}/[{series}/{series_index:02} ]{title}.epub");
    reveal_strlit("{series}/{series_index:02} ");
    reveal_strlit("{title}.epub");
    reveal_strlit("author");
    field_names_differ();
    let t = "{author}/[{series}/{series_index:02} ]{title}.epub"@;
    let first = t.subrange(1, 7);
    assert(position(t, |c: char| c == '}', 0) == 7) by {
        reveal_with_fuel(position, 9);
    }
    assert(first =~= "author"@);
    assert(position(first, |c: char| c == ':', 0) == 6) by {
        reveal_with_fuel(position, 8);
    }
    assert(first.take(6) =~= "author"@);
    let rest = t.skip(8);
    assert(rest[0] == '/' && rest[1] == '[');
    assert(position(rest, |c: char| c == '[' || c == '{', 0) == 1) by {
        reveal_with_fuel(position, 3);
    }
    let tail = rest.skip(1);
    assert(closing_bracket(tail, 0, 0) == Some(28int)) by {
        reveal_with_fuel(closing_bracket, 30);
    }
    assert(tail.subrange(1, 28) =~= "{series}/{series_index:02} "@);
    assert(tail.skip(29) =~= "{title}.epub"@);
    title_end_renders(metadata);
    series_section_renders(metadata);
    let fields = seq![Field::Series, Field::SeriesIndex];
    if shows(fields, metadata) {
        assert(fields[0].has_value(metadata));
        assert(fields[1].has_value(metadata));
    }
    assert(template_text(rest, metadata, false) is Ok);
    placeholder_first(t, 7, metadata, false);
}

/// What a template can say of a book: its title, its first author, by name and for
/// sorting, all of its authors with commas between them, its series and the place in
/// it, its language, and its own identifier, or its first where none is called its
/// own.
pub open spec fn speaks_of(metadata: MetadataModel, book: BookModel) -> bool {
    &&& metadata.title == book.title
    &&& book.authors.len() == 0 ==> metadata.author is None && metadata.author_sort is None
        && metadata.authors is None
    &&& book.authors.len() > 0 ==> metadata.author == Some(book.authors[0]) && metadata.author_sort
        == Some(book.authors[0]) && metadata.authors == Some(join(book.authors, ", "@))
    &&& metadata.series == book.series
    &&& metadata.series_index == book.series_index
    &&& metadata.language == book.language
    &&& book.identifiers.len() == 0 ==> metadata.identifier is None
    &&& book.identifiers.len() > 0 && (forall|i: int|
        0 <= i < book.identifiers.len() ==> !(#[trigger] book.identifiers[i]).is_unique)
        ==> metadata.identifier == Some(book.identifiers[0].value)
    &&& forall|i: int|
        0 <= i < book.identifiers.len() && (#[trigger] book.identifiers[i]).is_unique && (forall|
            j: int,
        |
            0 <= j < i ==> !(#[trigger] book.identifiers[j]).is_unique) ==> metadata.identifier
            == Some(book.identifiers[i].value)
}

proof fn own_identifiers_are_found(identifiers: Seq<IdentifierModel>)
    ensures
        (forall|i: int|
            0 <= i < identifiers.len() ==> !(#[trigger] identifiers[i]).is_unique)
            ==> own_identifier(identifiers) is None,
        forall|i: int|
            0 <= i < identifiers.len() && (#[trigger] identifiers[i]).is_unique && (forall|j: int|
                0 <= j < i ==> !(#[trigger] identifiers[j]).is_unique) ==> own_identifier(
                identifiers,
            ) == Some(identifiers[i].value),
    decreases identifiers.len(),
{
    if identifiers.len() > 0 && !identifiers[0].is_unique {
        let rest = identifiers.drop_first();
        own_identifiers_are_found(rest);
        if forall|i: int| 0 <= i < identifiers.len() ==> !(#[trigger] identifiers[i]).is_unique {
            assert forall|i: int| 0 <= i < rest.len() implies !(#[trigger] rest[i]).is_unique by {
                assert(rest[i] == identifiers[i + 1]);
            }
        }
        assert forall|i: int|
            0 <= i < identifiers.len() && (#[trigger] identifiers[i]).is_unique && (forall|j: int|
                0 <= j < i ==> !(#[trigger] identifiers[j]).is_unique) implies own_identifier(
            identifiers,
        ) == Some(identifiers[i].value) by {
            assert(rest[i - 1] == identifiers[i]);
            assert forall|j: int| 0 <= j < i - 1 implies !(#[trigger] rest[j]).is_unique by {
                assert(rest[j] == identifiers[j + 1]);
            }
        }
    }
}

/// What a template is told of a book is what the book says, field by field.
pub proof fn templates_are_told_what_a_book_says(book: BookModel)
    ensures
        speaks_of(path_metadata(book), book),
        forall|metadata: MetadataModel| #[trigger]
            speaks_of(metadata, book) ==> metadata == path_metadata(book),
{
    own_identifiers_are_found(book.identifiers);
    assert forall|metadata: MetadataModel| #[trigger] speaks_of(metadata, book) implies metadata
        == path_metadata(book) by {
        if exists|i: int| 0 <= i < book.identifiers.len() && (
        #[trigger] book.identifiers[i]).is_unique {
            let i = some_own_identifier(book.identifiers);
            assert(book.identifiers[i].is_unique);
        }
    }
}

proof fn some_own_identifier(identifiers: Seq<IdentifierModel>) -> (place: int)
    requires
        exists|i: int| 0 <= i < identifiers.len() && (#[trigger] identifiers[i]).is_unique,
    ensures
        0 <= place < identifiers.len(),
        identifiers[place].is_unique,
        forall|j: int| 0 <= j < place ==> !(#[trigger] identifiers[j]).is_unique,
    decreases identifiers.len(),
{
    if identifiers[0].is_unique {
        0
    } else {
        let rest = identifiers.drop_first();
        let i = choose|i: int| 0 <= i < identifiers.len() && (#[trigger] identifiers[i]).is_unique;
        assert(rest[i - 1].is_unique);
        let place = some_own_identifier(rest);
        assert forall|j: int| 0 <= j < place + 1 implies !(#[trigger] identifiers[j]).is_unique by {
            if j > 0 {
                assert(identifiers[j] == rest[j - 1]);
            }
        }
        place + 1
    }
}

/// A dry run plans what a real run does: where the lookup, if there is one, did not
/// fail, a book that a real run copies is one that a dry run would copy, to the same
/// place, with the same metadata, enrichment and warnings; what a real run reports
/// at once, a dry run reports in the same words. Both take the same places.
pub proof fn dry_runs_plan_what_real_runs_do(
    source_path: Seq<char>,
    config: ConfigModel,
    book: BookModel,
    looked_up: Option<Result<Seq<CandidateModel>, ProviderErrorModel>>,
    planned: Seq<Seq<char>>,
)
    requires
        config.enrichment is None || !(looked_up matches Some(Err(_))),
    ensures
        ({
            let dry = plan_for(
                source_path,
                ConfigModel { dry_run: true, ..config },
                book,
                looked_up,
                planned,
            );
            let earnest = plan_for(
                source_path,
                ConfigModel { dry_run: false, ..config },
                book,
                looked_up,
                planned,
            );
            &&& dry.1 == earnest.1
            &&& match (earnest.0, dry.0) {
                (PlanModel::Copy { job }, PlanModel::Report { entry }) => {
                    &&& entry.action == EntryAction::WouldCopy
                    &&& entry.source_path == job.source_path
                    &&& entry.output_path == Some(job.output_path)
                    &&& entry.metadata == Some(job.metadata)
                    &&& entry.enrichment == job.enrichment
                    &&& entry.warnings == job.warnings
                    &&& entry.error is None
                },
                (PlanModel::Report { entry: told }, PlanModel::Report { entry }) => {
                    &&& entry == told
                    &&& entry.error is Some
                },
                _ => false,
            }
        }),
{
    if config.enrichment is Some && looked_up is Some {
        the_status_tells_the_outcome(book, looked_up->0, config.enrichment->0);
    }
}

/// A plan, dry or real, goes by the enrichment that the configured mode gives: its
/// report, its metadata, and, where the book is to be copied, the patches that were
/// applied, all of them and no others. Without enrichment it goes by what the book
/// says.
pub proof fn plans_go_by_the_configured_mode(
    source_path: Seq<char>,
    config: ConfigModel,
    book: BookModel,
    looked_up: Option<Result<Seq<CandidateModel>, ProviderErrorModel>>,
    planned: Seq<Seq<char>>,
)
    ensures
        ({
            let plan = plan_for(source_path, config, book, looked_up, planned).0;
            let (metadata, enrichment) = match plan {
                PlanModel::Report { entry } => (entry.metadata, entry.enrichment),
                PlanModel::Copy { job } => (Some(job.metadata), job.enrichment),
            };
            match (config.enrichment, looked_up) {
                (Some(mode), Some(found)) => {
                    let answered = enriched(book, found, mode);
                    &&& enrichment == Some(answered.report)
                    &&& metadata == Some(answered.metadata)
                    &&& plan is Copy ==> forall|patch: PatchModel| #[trigger]
                        plan->job.patches.contains(patch) <==> patch.applied
                            && answered.report.patches.contains(patch)
                },
                _ => {
                    &&& enrichment is None
                    &&& metadata == Some(book)
                    &&& plan is Copy ==> plan->job.patches.len() == 0
                },
            }
        }),
{
    if config.enrichment is Some && looked_up is Some {
        let answered = enriched(book, looked_up->0, config.enrichment->0);
        the_status_tells_the_outcome(book, looked_up->0, config.enrichment->0);
        let keep = |patch: PatchModel| patch.applied;
        assert forall|patch: PatchModel| #[trigger]
            answered.report.patches.filter(keep).contains(patch) <==> patch.applied
                && answered.report.patches.contains(patch) by {
            kept_patches(answered.report.patches, patch);
        }
    }
}

proof fn kept_patches(patches: Seq<PatchModel>, patch: PatchModel)
    ensures
        patches.filter(|patch: PatchModel| patch.applied).contains(patch) <==> patch.applied
            && patches.contains(patch),
    decreases patches.len(),
{
    reveal(Seq::filter);
    let keep = |patch: PatchModel| patch.applied;
    if patches.len() > 0 {
        let rest = patches.drop_last();
        kept_patches(rest, patch);
        if patches.contains(patch) {
            let i = choose|i: int| 0 <= i < patches.len() && patches[i] == patch;
            if i < rest.len() {
                assert(rest[i] == patch);
            }
        }
        if rest.contains(patch) {
            let i = choose|i: int| 0 <= i < rest.len() && rest[i] == patch;
            assert(patches[i] == patch);
        }
        if patches.last() == patch {
            assert(patches[patches.len() - 1] == patch);
        }
        if rest.filter(keep).contains(patch) {
            let i = choose|i: int| 0 <= i < rest.filter(keep).len() && rest.filter(keep)[i] == patch;
            assert(patches.filter(keep)[i] == patch);
        }
        if keep(patches.last()) {
            assert(patches.filter(keep).last() == patches.last());
            assert(patches.filter(keep)[patches.filter(keep).len() - 1] == patches.last());
            if patches.filter(keep).contains(patch) && patch != patches.last() {
                let i = choose|i: int|
                    0 <= i < patches.filter(keep).len() && patches.filter(keep)[i] == patch;
                assert(rest.filter(keep)[i] == patch);
            }
        }
    }
}

/// A book goes where the template puts what is known of it. Where the template has
/// no place for it, that is its error; where another book has the place already, it
/// is left out; else the place is taken, and the book is copied, or would be.
pub proof fn books_go_where_the_template_puts_them(
    source_path: Seq<char>,
    config: ConfigModel,
    book: BookModel,
    looked_up: Option<Result<Seq<CandidateModel>, ProviderErrorModel>>,
    planned: Seq<Seq<char>>,
    metadata: MetadataModel,
)
    requires
        config.dry_run || config.enrichment is None || !(looked_up matches Some(Err(_))),
        speaks_of(
            metadata,
            match (config.enrichment, looked_up) {
                (Some(mode), Some(found)) => enriched(book, found, mode).metadata,
                _ => book,
            },
        ),
    ensures
        ({
            let (plan, after) = plan_for(source_path, config, book, looked_up, planned);
            let noted = book.missing_required() + book.warnings + match (
                config.enrichment,
                looked_up,
            ) {
                (Some(mode), Some(found)) => enriched(book, found, mode).report.warnings,
                _ => Seq::empty(),
            };
            match output_path(config.template, metadata) {
                Err(message) => match plan {
                    PlanModel::Report { entry } => {
                        &&& after == planned
                        &&& entry.source_path == source_path
                        &&& entry.output_path is None
                        &&& entry.action == EntryAction::Error
                        &&& entry.error == Some(
                            ErrorModel { code: "path_render_error"@, message },
                        )
                        &&& entry.warnings == noted
                    },
                    PlanModel::Copy { .. } => false,
                },
                Ok(rendered) => if planned.contains(rendered.text) {
                    match plan {
                        PlanModel::Report { entry } => {
                            &&& after == planned
                            &&& entry.source_path == source_path
                            &&& entry.output_path == Some(rendered.text)
                            &&& entry.action == EntryAction::Skipped
                            &&& entry.error == Some(
                                ErrorModel {
                                    code: "run_collision"@,
                                    message:
                                        "multiple source EPUBs render to the same output path"@
                                        + ": "@ + rendered.text,
                                },
                            )
                            &&& entry.warnings == noted + rendered.warnings
                        },
                        PlanModel::Copy { .. } => false,
                    }
                } else {
                    &&& after == planned.push(rendered.text)
                    &&& match plan {
                        PlanModel::Report { entry } => {
                            &&& config.dry_run
                            &&& entry.source_path == source_path
                            &&& entry.output_path == Some(rendered.text)
                            &&& entry.action == EntryAction::WouldCopy
                            &&& entry.error is None
                            &&& entry.warnings == noted + rendered.warnings
                        },
                        PlanModel::Copy { job } => {
                            &&& !config.dry_run
                            &&& job.source_path == source_path
                            &&& job.output_path == rendered.text
                            &&& job.warnings == noted + rendered.warnings
                        },
                    }
                },
            }
        }),
{
    let known = match (config.enrichment, looked_up) {
        (Some(mode), Some(found)) => enriched(book, found, mode).metadata,
        _ => book,
    };
    templates_are_told_what_a_book_says(known);
    if config.enrichment is Some && looked_up is Some {
        the_status_tells_the_outcome(book, looked_up->0, config.enrichment->0);
    } else {
        let warnings = book.missing_required() + book.warnings;
        assert(warnings + Seq::<Seq<char>>::empty() =~= warnings);
    }
}

/// A lookup that failed does not keep a dry run from planning: the book is planned
/// as it is, and the failure is reported with it.
pub proof fn dry_runs_plan_despite_failed_lookups(
    source_path: Seq<char>,
    config: ConfigModel,
    book: BookModel,
    error: ProviderErrorModel,
    planned: Seq<Seq<char>>,
)
    requires
        config.dry_run,
        config.enrichment is Some,
    ensures
        ({
            let plan = plan_for(source_path, config, book, Some(Err(error)), planned);
            let plain = plan_for(
                source_path,
                ConfigModel { enrichment: None, ..config },
                book,
                None,
                planned,
            );
            &&& plan.1 == plain.1
            &&& match (plan.0, plain.0) {
                (PlanModel::Report { entry }, PlanModel::Report { entry: without }) => {
                    &&& entry.output_path == without.output_path
                    &&& entry.action == without.action
                    &&& entry.metadata == without.metadata
                    &&& entry.warnings == without.warnings
                    &&& entry.error == without.error
                    &&& entry.enrichment is Some
                    &&& entry.enrichment->0.status == EnrichmentStatus::LookupFailed
                    &&& entry.enrichment->0.errors == seq![error]
                },
                _ => false,
            }
        }),
{
    let warnings = book.missing_required() + book.warnings;
    assert(warnings + Seq::<Seq<char>>::empty() =~= warnings);
}

/// What came of a copy is what its entry says: copied, left out because something
/// stands in its place, or failed, as a copy or as a change of metadata, with the
/// reason. All else of the entry is as it was planned.
pub proof fn entries_say_what_came_of_a_copy(job: JobModel, result: CopyResultModel)
    ensures
        ({
            let entry = entry_of_copy(job, result);
            let exists_already = Some(
                ErrorModel {
                    code: "output_exists"@,
                    message: "output path already exists"@ + ": "@ + job.output_path,
                },
            );
            &&& entry.source_path == job.source_path
            &&& entry.output_path == Some(job.output_path)
            &&& entry.metadata == Some(job.metadata)
            &&& entry.enrichment == job.enrichment
            &&& entry.warnings == job.warnings
            &&& match result {
                CopyResultModel::Plain(Ok(CopyOutcome::Copied)) => entry.action
                    == EntryAction::Copied && entry.error is None,
                CopyResultModel::Patched(None) => entry.action == EntryAction::Copied
                    && entry.error is None,
                CopyResultModel::Plain(Ok(CopyOutcome::OutputExists)) => entry.action
                    == EntryAction::Skipped && entry.error == exists_already,
                CopyResultModel::Patched(Some(WriteErrorModel::OutputExists)) => entry.action
                    == EntryAction::Skipped && entry.error == exists_already,
                CopyResultModel::Plain(Err(message)) => entry.action == EntryAction::Error
                    && entry.error == Some(ErrorModel { code: "copy_error"@, message }),
                CopyResultModel::Patched(Some(error)) => entry.action == EntryAction::Error
                    && entry.error == Some(
                    ErrorModel { code: "metadata_write_error"@, message: error.text() },
                ),
            }
        }),
{
}

/// A book that could not be opened has an error for an entry, named after what went
/// wrong, and the run goes on to the next one. One that could is looked up, with what
/// it says of itself, where enrichment is asked for, and is planned for at once where
/// it is not.
pub proof fn books_are_read_then_looked_up_then_planned(
    run: RunModel,
    package: PackageModel,
    failure: FailureModel,
)
    requires
        run.step is Read,
    ensures
        ({
            let failed = run.after_read(Err(failure));
            let entry = failed.entries.last();
            &&& failed.entries.drop_last() == run.entries
            &&& failed.planned == run.planned
            &&& entry.source_path == run.sources[run.entries.len() as int]
            &&& entry.output_path is None
            &&& entry.metadata is None
            &&& entry.enrichment is None
            &&& entry.action == EntryAction::Error
            &&& entry.warnings.len() == 0
            &&& failure is Io ==> entry.error->0.code == "unreadable_epub"@
            &&& failure is Xml ==> entry.error->0.code == "malformed_package_document"@
            &&& failure is InvalidEpub ==> entry.error->0.code == "malformed_package_document"@
            &&& failed.step is Finished <==> run.sources.len() <= run.entries.len() + 1
            &&& !(failed.step is Finished) ==> failed.step is Read
        }),
        ({
            let read = run.after_read(Ok(package));
            let plan = plan_for(
                run.sources[run.entries.len() as int],
                run.config,
                book_of(package),
                None,
                run.planned,
            );
            if run.config.enrichment is Some {
                &&& read.step == (RunStepModel::Lookup { metadata: book_of(package) })
                &&& read.entries == run.entries
                &&& read.planned == run.planned
            } else {
                &&& read.planned == plan.1
                &&& match plan.0 {
                    PlanModel::Copy { job } => read.step == (RunStepModel::Copy { job })
                        && read.entries == run.entries,
                    PlanModel::Report { entry } => read.entries == run.entries.push(entry),
                }
            }
        }),
{
    let failed = run.after_read(Err(failure));
    assert(failed.entries.drop_last() =~= run.entries);
}

/// A book that was looked up is planned for with the answer, and one that was copied
/// has its entry; then the run goes on to the next one.
pub proof fn answers_and_copies_lead_on(
    run: RunModel,
    looked_up: Result<Seq<CandidateModel>, ProviderErrorModel>,
    result: CopyResultModel,
)
    ensures
        run.step matches RunStepModel::Lookup { metadata } ==> {
            let after = run.after_lookup(looked_up);
            let plan = plan_for(
                run.sources[run.entries.len() as int],
                run.config,
                metadata,
                Some(looked_up),
                run.planned,
            );
            &&& after.planned == plan.1
            &&& match plan.0 {
                PlanModel::Copy { job } => after.step == (RunStepModel::Copy { job })
                    && after.entries == run.entries,
                PlanModel::Report { entry } => after.entries == run.entries.push(entry),
            }
        },
        run.step matches RunStepModel::Copy { job } ==> {
            let after = run.after_copy(result);
            &&& after.entries == run.entries.push(entry_of_copy(job, result))
            &&& after.planned == run.planned
            &&& after.step is Finished <==> run.sources.len() <= run.entries.len() + 1
        },
{
}

/// One more entry is one more book scanned. It counts as planned where it has a place
/// and metadata, and as copied, skipped or failed by its action; one that would be
/// copied counts as none of these. No entries have no totals.
pub proof fn totals_count_entry_by_entry(
    entries: Seq<EntryReport>,
    entry: EntryReport,
    before: Totals,
    after: Totals,
)
    requires
        are_totals_of(before, entries),
        are_totals_of(after, entries.push(entry)),
    ensures
        entries.len() == 0 ==> before == (Totals {
            scanned: 0,
            planned: 0,
            copied: 0,
            skipped: 0,
            errored: 0,
        }),
        after.scanned == before.scanned + 1,
        after.planned == before.planned + (if entry.output_path is Some && entry.metadata is Some {
            1int
        } else {
            0
        }),
        after.copied == before.copied + (if entry.action == EntryAction::Copied {
            1int
        } else {
            0
        }),
        after.skipped == before.skipped + (if entry.action == EntryAction::Skipped {
            1int
        } else {
            0
        }),
        after.errored == before.errored + (if entry.action == EntryAction::Error {
            1int
        } else {
            0
        }),
{
    assert(entries.push(entry).drop_last() =~= entries);
}

/// Each file that a walk comes upon and that is named like an EPUB is one of the
/// books, in the order of the walk; folders and other files are not. The first
/// failure of a walk fails the scan, whatever comes behind it.
pub proof fn walks_find_the_epubs(
    walked: Seq<Result<WalkedEntry, String>>,
    next: Result<WalkedEntry, String>,
)
    ensures
        walked.len() == 0 ==> walked_epubs(walked) == Ok::<Seq<Seq<char>>, Seq<char>>(Seq::empty()),
        match walked_epubs(walked) {
            Err(message) => walked_epubs(walked.push(next)) == Err::<Seq<Seq<char>>, Seq<char>>(
                message,
            ),
            Ok(found) => match next {
                Err(message) => walked_epubs(walked.push(next)) == Err::<
                    Seq<Seq<char>>,
                    Seq<char>,
                >(message@),
                Ok(entry) => walked_epubs(walked.push(next)) == Ok::<Seq<Seq<char>>, Seq<char>>(
                    if entry.is_file && names_epub(entry.path@) {
                        found.push(entry.path@)
                    } else {
                        found
                    },
                ),
            },
        },
{
    assert(walked.push(next).drop_last() =~= walked);
}

/// A book of a series goes, where no template is given, into a folder of its series
/// in a folder of its first author, under its number and its title.
pub proof fn books_of_a_series_are_numbered_by_default(
    book: BookModel,
    author: Seq<char>,
    series: Seq<char>,
    zeros: Seq<char>,
    digits: Seq<char>,
    title: Seq<char>,
)
    requires
        book.authors.len() > 0 && book.authors[0] == author,
        book.series == Some(series),
        book.series_index == Some(zeros + digits),
        book.title == Some(title),
        is_fit(author) && author.len() <= 180,
        is_fit(series) && series.len() <= 180,
        is_fit(title),
        zeros.len() + digits.len() > 0,
        forall|i: int| 0 <= i < zeros.len() ==> #[trigger] zeros[i] == '0',
        forall|i: int| 0 <= i < digits.len() ==> '0' <= #[trigger] digits[i] <= '9',
        digits.len() > 0 ==> digits[0] != '0',
        digits.len() + title.len() <= 172,
    ensures
        ({
            let number = if digits.len() == 0 {
                "00"@
            } else if digits.len() == 1 {
                seq!['0', digits[0]]
            } else {
                digits
            };
            output_path(DEFAULT_OUTPUT_PATH_TEMPLATE@, path_metadata(book)) == Ok::<
                Rendered,
                Seq<char>,
            >(
                Rendered {
                    text: author + seq!['/'] + series + seq!['/'] + (number + seq![' '] + (title
                        + ".epub"@)),
                    warnings: Seq::empty(),
                },
            )
        }),
{
    let metadata = path_metadata(book);
    names_differ();
    fit_texts_are_told(author);
    fit_texts_are_told(series);
    fit_texts_are_told(title);
    let index = zeros + digits;
    assert forall|i: int| 0 <= i < index.len() implies '0' <= #[trigger] index[i] <= '9' by {
        if i < zeros.len() {
            assert(index[i] == zeros[i]);
        } else {
            assert(index[i] == digits[i - zeros.len()]);
        }
    }
    assert('0' <= index[0] <= '9' && '0' <= index[index.len() - 1] <= '9');
    trim_keeps(index, |c: char| is_space(c));
    books_of_a_series_are_numbered(metadata, author, series, zeros, digits, title);
}

/// A book without a series, or without a place in it, goes, where no template is
/// given, into a folder of its first author, under its title.
pub proof fn other_books_go_under_their_author_by_default(
    book: BookModel,
    author: Seq<char>,
    title: Seq<char>,
)
    requires
        book.authors.len() > 0 && book.authors[0] == author,
        book.title == Some(title),
        book.series is None || is_blank(book.series->0) || book.series_index is None || is_blank(
            book.series_index->0,
        ),
        is_fit(author) && author.len() <= 180,
        is_fit(title) && title.len() <= 175,
    ensures
        output_path(DEFAULT_OUTPUT_PATH_TEMPLATE@, path_metadata(book)) == Ok::<
            Rendered,
            Seq<char>,
        >(
            Rendered {
                text: author + seq!['/'] + (title + ".epub"@),
                warnings: Seq::empty(),
            },
        ),
{
    names_differ();
    fit_texts_are_told(author);
    fit_texts_are_told(title);
    other_books_go_under_their_author(path_metadata(book), author, title);
}

/// The summary of a run gives its totals, and after a dry run one line more for each
/// book that would be copied, with where it is and where it would go.
pub proof fn summaries_tell_what_would_be_copied(entries: Seq<EntryReport>, entry: EntryReport)
    ensures
        would_copy_texts(Seq::empty()) == Seq::<char>::empty(),
        would_copy_texts(entries.push(entry)) == would_copy_texts(entries) + (if entry.action
            == EntryAction::WouldCopy && entry.output_path is Some {
            "\nwould copy: "@ + entry.source_path + " -> "@ + entry.output_path->0
        } else {
            Seq::empty()
        }),
{
    assert(entries.push(entry).drop_last() =~= entries);
}

/// What kept a run from starting, or its report from being written, is told with the
/// path that it is about.
pub proof fn run_errors_are_told_apart(error: NormalizeError)
    ensures
        match error {
            NormalizeError::SourceLibraryNotDirectory(path) => error.text()
                == "Source Library is not a directory: "@ + path@,
            NormalizeError::OutputLibraryOverlapsSourceLibrary { source_library, output_library }
                => error.text()
                == "Output Library must not overlap Source Library for a real normalize run: "@
                + output_library@ + " overlaps "@ + source_library@,
            NormalizeError::Scan { path, message } => error.text() == "failed to scan "@ + path@
                + ": "@ + message@,
            NormalizeError::ReportWrite { path, message } => error.text()
                == "failed to write report "@ + path@ + ": "@ + message@,
        },
{
}

/// Libraries overlap where both places are known and one of them is the other or a
/// folder above it, part by part; a place that is not known overlaps nothing.
pub proof fn libraries_overlap_where_one_holds_the_other(
    source: Seq<char>,
    parts: Seq<PartModel>,
    below: Seq<PartModel>,
)
    ensures
        libraries_overlap(
            Some(source),
            ResolutionModel::Resolved { parts: path_parts(source) + below },
        ),
        path_parts(source) == parts + below ==> libraries_overlap(
            Some(source),
            ResolutionModel::Resolved { parts },
        ),
        (exists|i: int|
            0 <= i < parts.len() && i < path_parts(source).len() && #[trigger] parts[i]
                != path_parts(source)[i]) ==> !libraries_overlap(
            Some(source),
            ResolutionModel::Resolved { parts },
        ),
        !libraries_overlap(None, ResolutionModel::Resolved { parts }),
        !libraries_overlap(Some(source), ResolutionModel::Failed),
{
    let place = path_parts(source);
    folders_overlap_what_is_below(place, below);
    folders_overlap_what_is_below(parts, below);
    if exists|i: int| 0 <= i < parts.len() && i < place.len() && #[trigger] parts[i] != place[i] {
        let i = choose|i: int|
            0 <= i < parts.len() && i < place.len() && #[trigger] parts[i] != place[i];
        if place.is_prefix_of(parts) {
            assert(parts.subrange(0, place.len() as int)[i] == parts[i]);
        }
        if parts.is_prefix_of(place) {
            assert(place.subrange(0, parts.len() as int)[i] == place[i]);
        }
    }
}

} // verus!
