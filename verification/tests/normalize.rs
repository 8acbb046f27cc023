use std::collections::BTreeMap;
use std::io::{Cursor, Write};

use epub_mgr::copier::{CopyEvent, CopyStep, EpubCopy, IoFailure, IoFailureKind};
use epub_mgr::enrichment::merge::EnrichmentStatus;
use epub_mgr::enrichment::{
    CandidateEvidence, Confidence, EnrichmentCandidate, EnrichmentConfig, EnrichmentMode,
    LookupRequest, MetadataProvider, Provenance, ProvenancedValue, ProviderError,
};
use epub_mgr::epub_metadata::{read_embedded_metadata, DocFailure, PackageMetadata};
use epub_mgr::epub_writer::{
    EpubWriteError, OpenedBook, PatchedCopy, PatchedCopyEvent,
};
use epub_mgr::normalize::{
    human_summary, normalize, totals_for, CopyJob, CopyResult, EntryAction, LibrarySurvey, NormalizeConfig,
    NormalizeError, NormalizeReport, ReportConfig, ReportEntry, RunStep, Totals, WalkedEntry,
    DEFAULT_OUTPUT_PATH_TEMPLATE,
};
use epub_mgr::package::open_package;
use epub_mgr::path::{normalize_path_lexically, Resolution};
use zip::write::SimpleFileOptions;
use zip::{CompressionMethod, ZipWriter};

const SOURCE: &str = "/data/source-library";
const OUTPUT: &str = "/data/output-library";

struct FakeProvider(Vec<EnrichmentCandidate>);

impl MetadataProvider for FakeProvider {
    fn lookup(&self, _request: &LookupRequest) -> Result<Vec<EnrichmentCandidate>, ProviderError> {
        Ok(self.0.clone())
    }
}

struct FailingProvider;

impl MetadataProvider for FailingProvider {
    fn lookup(&self, _request: &LookupRequest) -> Result<Vec<EnrichmentCandidate>, ProviderError> {
        Err(ProviderError::new("Open Library", "network unavailable"))
    }
}

/// Files by their paths. A folder exists where a file lies below it.
struct Disk(BTreeMap<String, Vec<u8>>);

impl Disk {
    fn new(files: &[(&str, Vec<u8>)]) -> Disk {
        Disk(
            files
                .iter()
                .map(|(path, bytes)| (path.to_string(), bytes.clone()))
                .collect(),
        )
    }

    fn holds(&self, path: &str) -> bool {
        let below = format!("{}/", path.trim_end_matches('/'));
        self.0.contains_key(path) || self.0.keys().any(|file| file.starts_with(&below))
    }

    fn survey(&self, config: &NormalizeConfig) -> LibrarySurvey {
        let below = format!("{}/", config.source_library);
        let mut output = Resolution::start(normalize_path_lexically(&config.output_library, "/"));
        while let Some(path) = output.path() {
            output = match output {
                Resolution::Probe { .. } => {
                    let found = self.holds(&path);
                    output.after_probe(Some(found))
                }
                other => other.after_canonicalize(Some(path)),
            };
        }
        LibrarySurvey {
            source_is_directory: self.holds(&config.source_library),
            source_canonical: Some(config.source_library.clone()),
            output,
            walked: self
                .0
                .keys()
                .rev()
                .filter(|path| path.starts_with(&below))
                .map(|path| {
                    Ok(WalkedEntry {
                        path: path.clone(),
                        is_file: true,
                    })
                })
                .collect(),
        }
    }

    fn copy(&mut self, job: &CopyJob) -> CopyResult {
        if job.is_patched() {
            CopyResult::Patched(self.copy_patched(job))
        } else {
            let (parent, name) = job.target_path.rsplit_once('/').expect("target");
            let mut copy = EpubCopy::start(
                job.source_path.clone(),
                job.target_path.clone(),
                Some(parent.to_string()),
                Some(name.to_string()),
                1,
            );
            let mut next_id: u64 = 0;
            loop {
                let event = match copy.step() {
                    CopyStep::Finished { result } => return CopyResult::Plain(result.clone()),
                    CopyStep::CheckTarget | CopyStep::CheckTargetAgain => {
                        CopyEvent::Exists(Ok(self.holds(&job.target_path)))
                    }
                    CopyStep::TakeTempId { .. } => {
                        next_id += 1;
                        CopyEvent::TempId(next_id)
                    }
                    CopyStep::CreateTemp { temp, .. } => {
                        self.0.insert(temp.clone(), Vec::new());
                        CopyEvent::Did(Ok(()))
                    }
                    CopyStep::CopyBytes { temp } => {
                        let bytes = self.0[&job.source_path].clone();
                        self.0.insert(temp.clone(), bytes);
                        CopyEvent::Did(Ok(()))
                    }
                    CopyStep::Place { temp } => {
                        if self.holds(&job.target_path) {
                            CopyEvent::Did(Err(IoFailure {
                                kind: IoFailureKind::AlreadyExists,
                                message: "exists".to_string(),
                            }))
                        } else {
                            let bytes = self.0.remove(temp).expect("temporary file");
                            self.0.insert(job.target_path.clone(), bytes);
                            CopyEvent::Did(Ok(()))
                        }
                    }
                    CopyStep::DropTemp { temp } | CopyStep::CleanUp { temp, .. } => {
                        self.0.remove(temp);
                        CopyEvent::Did(Ok(()))
                    }
                    _ => CopyEvent::Did(Ok(())),
                };
                copy = copy.advance(event);
            }
        }
    }

    fn copy_patched(&mut self, job: &CopyJob) -> Result<(), EpubWriteError> {
        let temp = format!("{}.tmp", job.target_path);
        let mut book: Option<OpenedBook> = None;
        let mut step = PatchedCopy::start();
        loop {
            let event = match &step {
                PatchedCopy::Finished { result } => return result.clone(),
                PatchedCopy::CheckTarget => {
                    PatchedCopyEvent::Exists(Ok(self.holds(&job.target_path)))
                }
                PatchedCopy::CheckTemp => PatchedCopyEvent::Exists(Ok(self.holds(&temp))),
                PatchedCopy::OpenBook => PatchedCopyEvent::Book(
                    OpenedBook::open(self.0[&job.source_path].clone())
                        .map(|opened| book = Some(opened)),
                ),
                PatchedCopy::CreateTemp => {
                    self.0.insert(temp.clone(), Vec::new());
                    PatchedCopyEvent::Did(Ok(()))
                }
                PatchedCopy::WriteTemp => PatchedCopyEvent::Book(
                    book.take()
                        .expect("opened book")
                        .write(&job.patches)
                        .map(|bytes| {
                            self.0.insert(temp.clone(), bytes);
                        }),
                ),
                PatchedCopy::Place => {
                    let bytes = self.0.remove(&temp).expect("temporary file");
                    self.0.insert(job.target_path.clone(), bytes);
                    PatchedCopyEvent::Did(Ok(()))
                }
                PatchedCopy::CleanUp { .. } | PatchedCopy::RemoveStaleTemp => {
                    self.0.remove(&temp);
                    PatchedCopyEvent::Did(Ok(()))
                }
                PatchedCopy::CreateParent => PatchedCopyEvent::Did(Ok(())),
            };
            step = step.advance(event);
        }
    }

    fn run(
        &mut self,
        config: NormalizeConfig,
        provider: Option<&dyn MetadataProvider>,
    ) -> Result<NormalizeReport, NormalizeError> {
        let survey = self.survey(&config);
        let mut run = normalize(config, survey)?;
        loop {
            match run.step() {
                RunStep::Finished => return Ok(run.report()),
                RunStep::Read => {
                    let source = run.source().expect("source").clone();
                    run = run.after_read(open(self.0[&source].clone()));
                }
                RunStep::Lookup { .. } => {
                    let request = run.lookup_request().expect("request");
                    let looked_up = provider.expect("provider").lookup(&request);
                    run = run.after_lookup(looked_up);
                }
                RunStep::Copy { job } => {
                    let result = self.copy(&job.clone());
                    run = run.after_copy(result);
                }
            }
        }
    }
}

fn config(template: &str, dry_run: bool) -> NormalizeConfig {
    NormalizeConfig {
        source_library: SOURCE.to_string(),
        output_library: OUTPUT.to_string(),
        output_path_template: template.to_string(),
        dry_run,
        enrichment: None,
    }
}

fn source(name: &str) -> String {
    format!("{SOURCE}/{name}")
}

fn open(bytes: Vec<u8>) -> Result<PackageMetadata, DocFailure> {
    open_package(bytes).expect("book can be opened")
}

fn high_confidence_value(value: &str) -> ProvenancedValue<String> {
    ProvenancedValue {
        value: value.to_string(),
        confidence: Confidence::High,
        provenance: Provenance {
            source: "Wikidata".to_string(),
            record_id: "Q2136877".to_string(),
            url: "https://www.wikidata.org/wiki/Q2136877".to_string(),
        },
    }
}

fn stormlight() -> EnrichmentCandidate {
    EnrichmentCandidate {
        series: Some(high_confidence_value("The Stormlight Archive")),
        series_index: Some(high_confidence_value("1")),
        evidence: CandidateEvidence {
            identifier_match: true,
            title_author_match: true,
            structured_series: true,
            ..Default::default()
        },
        ..Default::default()
    }
}

fn error_code(entry: &ReportEntry) -> Option<&str> {
    entry.error.as_ref().map(|error| error.code.as_str())
}

fn dry_run_single_epub_report(opf: &str) -> NormalizeReport {
    let mut disk = Disk::new(&[(&source("book.epub"), epub_with_opf(opf))]);
    disk.run(config(DEFAULT_OUTPUT_PATH_TEMPLATE, true), None)
        .expect("dry-run report")
}

fn complete_opf(title: &str) -> String {
    format!(
        r#"<?xml version="1.0"?>
            <package xmlns:dc="http://purl.org/dc/elements/1.1/">
              <metadata>
                <dc:title>{title}</dc:title>
                <dc:creator>Test Author</dc:creator>
                <dc:language>en</dc:language>
              </metadata>
            </package>"#
    )
}

fn epub_with_opf(opf: &str) -> Vec<u8> {
    let mut zip = ZipWriter::new(Cursor::new(Vec::new()));
    let options = SimpleFileOptions::default().compression_method(CompressionMethod::Stored);

    zip.start_file("META-INF/container.xml", options)
        .expect("start container");
    zip.write_all(
        br#"<?xml version="1.0"?>
            <container version="1.0" xmlns="urn:oasis:names:tc:opendocument:xmlns:container">
              <rootfiles>
                <rootfile full-path="OPS/content.opf" media-type="application/oebps-package+xml"/>
              </rootfiles>
            </container>"#,
    )
    .expect("write container");
    zip.start_file("OPS/content.opf", options)
        .expect("start OPF");
    zip.write_all(valid_test_opf(opf).as_bytes())
        .expect("write OPF");
    zip.start_file("OPS/chapter.xhtml", options)
        .expect("start chapter");
    zip.write_all(b"<html><body>Chapter</body></html>")
        .expect("write chapter");
    zip.finish().expect("finish EPUB").into_inner()
}

fn valid_test_opf(opf: &str) -> String {
    let opf = add_opf_namespace(opf);
    add_minimal_reading_order(&opf)
}

fn add_opf_namespace(opf: &str) -> String {
    let Some(package_start) = opf.find("<package") else {
        return opf.to_string();
    };
    let Some(relative_tag_end) = opf[package_start..].find('>') else {
        return opf.to_string();
    };
    let tag_end = package_start + relative_tag_end;
    let package_tag = &opf[package_start..tag_end];
    let mut declarations = String::new();
    if !package_tag.contains("xmlns=\"") {
        declarations.push_str(" xmlns=\"http://www.idpf.org/2007/opf\"");
    }
    if !package_tag.contains("xmlns:opf=\"") {
        declarations.push_str(" xmlns:opf=\"http://www.idpf.org/2007/opf\"");
    }
    format!("{}{}{}", &opf[..tag_end], declarations, &opf[tag_end..])
}

fn add_minimal_reading_order(opf: &str) -> String {
    let additions = r#"
              <manifest>
                <item id="chapter" href="chapter.xhtml" media-type="application/xhtml+xml"/>
              </manifest>
              <spine>
                <itemref idref="chapter"/>
              </spine>
        "#;
    opf.replacen("</package>", &format!("{additions}</package>"), 1)
}

#[test]
fn dry_run_scans_nested_epubs_without_creating_output_library() {
    let mut disk = Disk::new(&[
        (&source("book.epub"), epub_with_opf(&complete_opf("Book One"))),
        (
            &source("nested/other.EPUB"),
            epub_with_opf(&complete_opf("Book Two")),
        ),
        (&source("nested/notes.txt"), b"not epub".to_vec()),
    ]);
    let report = disk
        .run(config(DEFAULT_OUTPUT_PATH_TEMPLATE, true), None)
        .expect("dry-run report");

    assert!(
        !disk.holds(OUTPUT),
        "dry-run must not create Output Library"
    );
    assert_eq!(report.totals.scanned, 2);
    assert_eq!(report.totals.planned, 2);
    assert_eq!(report.totals.copied, 0);
    assert_eq!(report.totals.skipped, 0);
    assert_eq!(report.totals.errored, 0);
    assert_eq!(report.entries.len(), 2);
    assert!(report
        .entries
        .iter()
        .all(|entry| entry.action == EntryAction::WouldCopy
            && entry.output_path.is_some()
            && entry.metadata.is_some()
            && entry.warnings.is_empty()
            && entry.error.is_none()));
    assert_eq!(
        report
            .entries
            .iter()
            .map(|entry| entry.source_path.clone())
            .collect::<Vec<_>>(),
        vec![source("book.epub"), source("nested/other.EPUB")]
    );
}

#[test]
fn dry_run_enrichment_reports_proposed_series_without_writing_output_library() {
    let mut disk = Disk::new(&[(
        &source("book.epub"),
        epub_with_opf(&complete_opf("The Way of Kings")),
    )]);
    let mut config = config(DEFAULT_OUTPUT_PATH_TEMPLATE, true);
    config.enrichment = Some(EnrichmentConfig {
        mode: EnrichmentMode::ProposeOnly,
    });

    let report = disk
        .run(config, Some(&FakeProvider(vec![stormlight()])))
        .expect("dry-run report");

    assert!(!disk.holds(OUTPUT));
    assert_eq!(report.config.enrich, true);
    assert_eq!(report.config.apply_enrichment, false);
    assert_eq!(report.entries[0].action, EntryAction::WouldCopy);
    let enrichment = report.entries[0]
        .enrichment
        .as_ref()
        .expect("enrichment report");
    assert!(!enrichment.applied);
    assert_eq!(enrichment.patches.len(), 2);
    assert_eq!(
        report.entries[0]
            .metadata
            .as_ref()
            .and_then(|metadata| metadata.series.as_deref()),
        None
    );
}

#[test]
fn real_run_auto_applies_high_confidence_series_to_cleaned_epub_path_and_metadata() {
    let mut disk = Disk::new(&[(
        &source("book.epub"),
        epub_with_opf(&complete_opf("The Way of Kings")),
    )]);
    let mut config = config(DEFAULT_OUTPUT_PATH_TEMPLATE, false);
    config.enrichment = Some(EnrichmentConfig {
        mode: EnrichmentMode::AutoApplyHighConfidence,
    });

    let report = disk
        .run(config, Some(&FakeProvider(vec![stormlight()])))
        .expect("real run report");

    assert_eq!(report.entries[0].action, EntryAction::Copied);
    assert_eq!(
        report.entries[0].output_path.as_deref(),
        Some("Test Author/The Stormlight Archive/01 The Way of Kings.epub")
    );
    assert!(report.config.apply_enrichment);
    let cleaned_epub = format!("{OUTPUT}/{}", report.entries[0].output_path.as_ref().unwrap());
    let updated = read_embedded_metadata(disk.0[&cleaned_epub].clone())
        .expect("book can be opened")
        .expect("updated metadata readable");
    assert_eq!(updated.series.as_deref(), Some("The Stormlight Archive"));
    assert_eq!(updated.series_index.as_deref(), Some("1"));
}

#[test]
fn real_run_enrichment_lookup_failure_does_not_write_output() {
    let mut disk = Disk::new(&[(&source("book.epub"), epub_with_opf(&complete_opf("Book")))]);
    let mut config = config(DEFAULT_OUTPUT_PATH_TEMPLATE, false);
    config.enrichment = Some(EnrichmentConfig {
        mode: EnrichmentMode::AutoApplyHighConfidence,
    });

    let report = disk
        .run(config, Some(&FailingProvider))
        .expect("real run report");

    assert_eq!(report.entries[0].action, EntryAction::Error);
    assert_eq!(
        error_code(&report.entries[0]),
        Some("enrichment_lookup_failed")
    );
    assert!(!disk.holds(OUTPUT));
    assert_eq!(report.totals.copied, 0);
}

#[test]
fn dry_run_goes_on_where_the_lookup_failed() {
    let mut disk = Disk::new(&[(&source("book.epub"), epub_with_opf(&complete_opf("Book")))]);
    let mut config = config(DEFAULT_OUTPUT_PATH_TEMPLATE, true);
    config.enrichment = Some(EnrichmentConfig {
        mode: EnrichmentMode::AutoApplyHighConfidence,
    });

    let report = disk
        .run(config, Some(&FailingProvider))
        .expect("dry-run report");

    assert_eq!(report.entries[0].action, EntryAction::WouldCopy);
    let enrichment = report.entries[0].enrichment.as_ref().expect("enrichment");
    assert_eq!(enrichment.status, EnrichmentStatus::LookupFailed);
}

#[test]
fn dry_run_reports_run_collisions_without_creating_output_library() {
    let mut disk = Disk::new(&[
        (
            &source("first.epub"),
            epub_with_opf(&complete_opf("Same Book")),
        ),
        (
            &source("second.epub"),
            epub_with_opf(&complete_opf("Same Book")),
        ),
    ]);
    let report = disk
        .run(config("{author}/{title}.epub", true), None)
        .expect("dry-run report");

    assert!(
        !disk.holds(OUTPUT),
        "dry-run must not create Output Library"
    );
    assert_eq!(report.entries[0].action, EntryAction::WouldCopy);
    assert_eq!(report.entries[1].action, EntryAction::Skipped);
    assert_eq!(error_code(&report.entries[1]), Some("run_collision"));
    assert_eq!(
        report.entries[1].error.as_ref().unwrap().message,
        "multiple source EPUBs render to the same output path: Test Author/Same Book.epub"
    );
}

#[test]
fn source_library_must_be_a_directory() {
    let missing = "/data/missing".to_string();
    let mut disk = Disk::new(&[]);

    let error = disk
        .run(
            NormalizeConfig {
                source_library: missing.clone(),
                output_library: "/data/output".to_string(),
                output_path_template: DEFAULT_OUTPUT_PATH_TEMPLATE.to_string(),
                dry_run: true,
                enrichment: None,
            },
            None,
        )
        .expect_err("missing Source Library should fail");

    assert_eq!(
        error.message(),
        "Source Library is not a directory: /data/missing"
    );
    assert!(matches!(
        error,
        NormalizeError::SourceLibraryNotDirectory(path) if path == missing
    ));
}

#[test]
fn real_run_copies_cleaned_epub_byte_for_byte_and_creates_parent_directories() {
    let original_bytes = epub_with_opf(&complete_opf("Copied Book"));
    let mut disk = Disk::new(&[(&source("book.epub"), original_bytes.clone())]);

    let report = disk
        .run(config("{author}/{title}.epub", false), None)
        .expect("real-run report");

    assert_eq!(
        disk.0[&format!("{OUTPUT}/Test Author/Copied Book.epub")],
        original_bytes
    );
    assert_eq!(disk.0.len(), 2);
    assert!(!report.config.dry_run);
    assert_eq!(report.totals.scanned, 1);
    assert_eq!(report.totals.planned, 1);
    assert_eq!(report.totals.copied, 1);
    assert_eq!(report.totals.skipped, 0);
    assert_eq!(report.totals.errored, 0);
    assert_eq!(report.entries[0].action, EntryAction::Copied);
    assert_eq!(
        report.entries[0].output_path.as_deref(),
        Some("Test Author/Copied Book.epub")
    );
    assert!(report.entries[0].error.is_none());
}

#[test]
fn real_run_skips_existing_output_without_overwriting() {
    let output_path = format!("{OUTPUT}/Test Author/Existing Book.epub");
    let mut disk = Disk::new(&[
        (
            &source("book.epub"),
            epub_with_opf(&complete_opf("Existing Book")),
        ),
        (&output_path, b"existing output must survive".to_vec()),
    ]);

    let report = disk
        .run(config("{author}/{title}.epub", false), None)
        .expect("real-run report");

    assert_eq!(disk.0[&output_path], b"existing output must survive");
    assert_eq!(report.totals.scanned, 1);
    assert_eq!(report.totals.planned, 1);
    assert_eq!(report.totals.copied, 0);
    assert_eq!(report.totals.skipped, 1);
    assert_eq!(report.totals.errored, 0);
    assert_eq!(report.entries[0].action, EntryAction::Skipped);
    let error = report.entries[0].error.as_ref().expect("skip error");
    assert_eq!(error.code, "output_exists");
}

#[test]
fn real_run_skips_existing_output_of_a_patched_copy() {
    let output_path =
        format!("{OUTPUT}/Test Author/The Stormlight Archive/01 The Way of Kings.epub");
    let mut disk = Disk::new(&[
        (
            &source("book.epub"),
            epub_with_opf(&complete_opf("The Way of Kings")),
        ),
        (&output_path, b"existing output must survive".to_vec()),
    ]);
    let mut config = config(DEFAULT_OUTPUT_PATH_TEMPLATE, false);
    config.enrichment = Some(EnrichmentConfig {
        mode: EnrichmentMode::AutoApplyHighConfidence,
    });

    let report = disk
        .run(config, Some(&FakeProvider(vec![stormlight()])))
        .expect("real-run report");

    assert_eq!(disk.0[&output_path], b"existing output must survive");
    assert_eq!(report.entries[0].action, EntryAction::Skipped);
    assert_eq!(error_code(&report.entries[0]), Some("output_exists"));
}

#[test]
fn real_run_report_distinguishes_copied_skipped_and_errored_entries() {
    let existing_output = format!("{OUTPUT}/Test Author/Existing Book.epub");
    let mut disk = Disk::new(&[
        (
            &source("copy.epub"),
            epub_with_opf(&complete_opf("Copied Book")),
        ),
        (
            &source("existing.epub"),
            epub_with_opf(&complete_opf("Existing Book")),
        ),
        (
            &source("malformed.epub"),
            epub_with_opf("<package><metadata><dc:title>Broken"),
        ),
        (&existing_output, b"already here".to_vec()),
    ]);

    let report = disk
        .run(config("{author}/{title}.epub", false), None)
        .expect("real-run report should hold per-file errors");

    assert_eq!(report.totals.scanned, 3);
    assert_eq!(report.totals.planned, 2);
    assert_eq!(report.totals.copied, 1);
    assert_eq!(report.totals.skipped, 1);
    assert_eq!(report.totals.errored, 1);
    assert_eq!(report.entries[0].action, EntryAction::Copied);
    assert_eq!(report.entries[1].action, EntryAction::Skipped);
    assert_eq!(error_code(&report.entries[1]), Some("output_exists"));
    assert_eq!(report.entries[2].action, EntryAction::Error);
    assert_eq!(
        error_code(&report.entries[2]),
        Some("malformed_package_document")
    );
}

#[test]
fn real_run_rejects_overlapping_output_library_to_protect_source_library() {
    let mut disk = Disk::new(&[(&source("book.epub"), epub_with_opf(&complete_opf("Book")))]);
    let output_library = source("output-library");
    let mut config = config(DEFAULT_OUTPUT_PATH_TEMPLATE, false);
    config.output_library = output_library.clone();

    let error = disk
        .run(config, None)
        .expect_err("real run must not modify Source Library");

    assert_eq!(
        error.message(),
        "Output Library must not overlap Source Library for a real normalize run: /data/source-library/output-library overlaps /data/source-library"
    );
    assert!(matches!(
        error,
        NormalizeError::OutputLibraryOverlapsSourceLibrary {
            source_library: reported_source,
            output_library: reported_output,
        } if reported_source == SOURCE && reported_output == output_library
    ));
    assert!(
        !disk.holds(&output_library),
        "rejected real run must not create Output Library inside Source Library"
    );
}

#[test]
fn real_run_rejects_output_library_that_contains_source_library() {
    let mut disk = Disk::new(&[(&source("book.epub"), epub_with_opf(&complete_opf("Book")))]);
    let mut config = config(DEFAULT_OUTPUT_PATH_TEMPLATE, false);
    config.output_library = "/data".to_string();

    let error = disk
        .run(config, None)
        .expect_err("real run must reject overlapping libraries");

    assert!(matches!(
        error,
        NormalizeError::OutputLibraryOverlapsSourceLibrary {
            source_library: reported_source,
            output_library: reported_output,
        } if reported_source == SOURCE && reported_output == "/data"
    ));
}

#[test]
fn real_run_rejects_parent_components_that_would_place_output_library_inside_source_library() {
    let mut disk = Disk::new(&[(&source("book.epub"), epub_with_opf(&complete_opf("Book")))]);
    let mut config = config(DEFAULT_OUTPUT_PATH_TEMPLATE, false);
    config.output_library = "/data/missing-parent/../source-library/output-library".to_string();

    let error = disk
        .run(config, None)
        .expect_err("real run must reject normalized overlap");

    assert!(matches!(
        error,
        NormalizeError::OutputLibraryOverlapsSourceLibrary { .. }
    ));
    assert!(
        !disk.holds(&source("output-library")),
        "rejected real run must not create Output Library through parent components"
    );
}

#[test]
fn dry_run_may_plan_for_overlapping_libraries() {
    let mut disk = Disk::new(&[(&source("book.epub"), epub_with_opf(&complete_opf("Book")))]);
    let mut config = config(DEFAULT_OUTPUT_PATH_TEMPLATE, true);
    config.output_library = source("output-library");
    let report = disk.run(config, None).expect("dry-run report");
    assert_eq!(report.totals.planned, 1);
}

#[test]
fn dry_run_extracts_embedded_package_metadata_into_report_entries() {
    let report = dry_run_single_epub_report(
        r##"<?xml version="1.0"?>
            <package xmlns:dc="http://purl.org/dc/elements/1.1/" unique-identifier="book-id">
              <metadata>
                <dc:title>Extracted Title</dc:title>
                <dc:creator opf:role="aut">Author One</dc:creator>
                <dc:creator opf:role="edt">Editor One</dc:creator>
                <dc:creator>Author Two</dc:creator>
                <dc:language>en-US</dc:language>
                <dc:identifier id="book-id" opf:scheme="uuid">urn:uuid:abc</dc:identifier>
                <dc:identifier>isbn:9780000000000</dc:identifier>
              </metadata>
            </package>"##,
    );

    assert_eq!(report.totals.planned, 1);
    assert_eq!(report.totals.errored, 0);
    let metadata = report.entries[0].metadata.as_ref().expect("metadata");
    assert_eq!(metadata.title.as_deref(), Some("Extracted Title"));
    assert_eq!(metadata.authors, vec!["Author One", "Author Two"]);
    assert_eq!(metadata.language.as_deref(), Some("en-US"));
    assert_eq!(metadata.identifiers.len(), 2);
    assert!(metadata.identifiers[0].is_unique);
    assert_eq!(
        report.entries[0].output_path.as_deref(),
        Some("Author One/Extracted Title.epub")
    );
}

#[test]
fn dry_run_uses_embedded_series_metadata_in_default_planned_path() {
    let report = dry_run_single_epub_report(
        r##"<?xml version="1.0"?>
            <package xmlns:dc="http://purl.org/dc/elements/1.1/">
              <metadata>
                <dc:title>Series Title</dc:title>
                <dc:creator>Series Author</dc:creator>
                <dc:language>en</dc:language>
                <meta property="belongs-to-collection" id="series-id">Planned Series</meta>
                <meta property="collection-type" refines="#series-id">series</meta>
                <meta property="group-position" refines="#series-id">1</meta>
              </metadata>
            </package>"##,
    );

    assert_eq!(report.totals.planned, 1);
    assert_eq!(report.totals.errored, 0);
    assert_eq!(
        report.entries[0].output_path.as_deref(),
        Some("Series Author/Planned Series/01 Series Title.epub")
    );
    let metadata = report.entries[0].metadata.as_ref().expect("metadata");
    assert_eq!(metadata.series.as_deref(), Some("Planned Series"));
    assert_eq!(metadata.series_index.as_deref(), Some("1"));
    assert!(report.entries[0].warnings.is_empty());
}

#[test]
fn dry_run_uses_calibre_series_metadata_in_default_planned_path_when_epub3_is_absent() {
    let report = dry_run_single_epub_report(
        r#"<?xml version="1.0"?>
            <package xmlns:dc="http://purl.org/dc/elements/1.1/">
              <metadata>
                <dc:title>Fallback Title</dc:title>
                <dc:creator>Fallback Author</dc:creator>
                <dc:language>en</dc:language>
                <meta name="calibre:series" content="Calibre Cycle"/>
                <meta name="calibre:series_index" content="2"/>
              </metadata>
            </package>"#,
    );

    assert_eq!(
        report.entries[0].output_path.as_deref(),
        Some("Fallback Author/Calibre Cycle/02 Fallback Title.epub")
    );
    assert!(report.entries[0].warnings.is_empty());
    let metadata = report.entries[0].metadata.as_ref().expect("metadata");
    assert_eq!(metadata.series.as_deref(), Some("Calibre Cycle"));
    assert_eq!(metadata.series_index.as_deref(), Some("2"));
}

#[test]
fn dry_run_includes_series_warnings_in_report_entries() {
    let report = dry_run_single_epub_report(
        r##"<?xml version="1.0"?>
            <package xmlns:dc="http://purl.org/dc/elements/1.1/">
              <metadata>
                <dc:title>Conflict Title</dc:title>
                <dc:creator>Conflict Author</dc:creator>
                <dc:language>en</dc:language>
                <meta property="belongs-to-collection" id="series-id">EPUB Series</meta>
                <meta property="collection-type" refines="#series-id">series</meta>
                <meta property="group-position" refines="#series-id">7</meta>
                <meta name="calibre:series" content="Calibre Series"/>
                <meta name="calibre:series_index" content="8"/>
              </metadata>
            </package>"##,
    );

    assert_eq!(report.entries[0].warnings, vec!["series_conflict"]);
    let metadata = report.entries[0].metadata.as_ref().expect("metadata");
    assert_eq!(metadata.series.as_deref(), Some("EPUB Series"));
    assert_eq!(metadata.series_index.as_deref(), Some("7"));
}

#[test]
fn dry_run_warns_and_chooses_first_supported_series_for_planned_path() {
    let report = dry_run_single_epub_report(
        r##"<?xml version="1.0"?>
            <package xmlns:dc="http://purl.org/dc/elements/1.1/">
              <metadata>
                <dc:title>Ambiguous Title</dc:title>
                <dc:creator>Ambiguous Author</dc:creator>
                <dc:language>en</dc:language>
                <meta property="belongs-to-collection" id="first">First Cycle</meta>
                <meta property="collection-type" refines="#first">series</meta>
                <meta property="group-position" refines="#first">3</meta>
                <meta property="belongs-to-collection" id="second">Second Cycle</meta>
                <meta property="collection-type" refines="#second">series</meta>
                <meta property="group-position" refines="#second">4</meta>
              </metadata>
            </package>"##,
    );

    assert_eq!(
        report.entries[0].output_path.as_deref(),
        Some("Ambiguous Author/First Cycle/03 Ambiguous Title.epub")
    );
    assert_eq!(report.entries[0].warnings, vec!["ambiguous_series"]);
    let metadata = report.entries[0].metadata.as_ref().expect("metadata");
    assert_eq!(metadata.series.as_deref(), Some("First Cycle"));
    assert_eq!(metadata.series_index.as_deref(), Some("3"));
}

#[test]
fn dry_run_warns_when_required_metadata_is_missing() {
    let report = dry_run_single_epub_report(
        r#"<package xmlns:dc="http://purl.org/dc/elements/1.1/">
              <metadata>
                <dc:identifier>urn:uuid:missing</dc:identifier>
              </metadata>
            </package>"#,
    );

    assert_eq!(report.totals.planned, 1);
    assert_eq!(report.totals.errored, 0);
    assert_eq!(report.entries[0].action, EntryAction::WouldCopy);
    assert_eq!(
        report.entries[0].warnings,
        vec![
            "missing_title",
            "missing_author",
            "missing_language",
            "missing author; using fallback Unknown Author",
            "missing title; using fallback Unknown Title"
        ]
    );
}

#[test]
fn dry_run_warns_when_only_non_dublin_core_metadata_exists() {
    let report = dry_run_single_epub_report(
        r#"<package xmlns:custom="urn:not-dc">
              <metadata>
                <custom:title>Wrong Title</custom:title>
                <custom:creator>Wrong Author</custom:creator>
                <custom:language>xx</custom:language>
                <custom:identifier>wrong-id</custom:identifier>
              </metadata>
            </package>"#,
    );

    assert_eq!(report.totals.planned, 1);
    assert_eq!(report.totals.errored, 0);
    let metadata = report.entries[0].metadata.as_ref().expect("metadata");
    assert_eq!(metadata.title, None);
    assert_eq!(metadata.authors, Vec::<String>::new());
    assert_eq!(metadata.language, None);
    assert_eq!(metadata.identifiers, Vec::new());
    assert_eq!(
        report.entries[0].warnings,
        vec![
            "missing_title",
            "missing_author",
            "missing_language",
            "missing author; using fallback Unknown Author",
            "missing title; using fallback Unknown Title"
        ]
    );
}

#[test]
fn malformed_epub_metadata_is_reported_per_file() {
    let report = dry_run_single_epub_report("<package><metadata><dc:title>Broken");

    assert_eq!(report.totals.scanned, 1);
    assert_eq!(report.totals.planned, 0);
    assert_eq!(report.totals.errored, 1);
    assert_eq!(report.entries[0].action, EntryAction::Error);
    assert_eq!(report.entries[0].metadata, None);
    let error = report.entries[0].error.as_ref().expect("entry error");
    assert_eq!(error.code, "malformed_package_document");
}

#[test]
fn unreadable_epub_is_reported_per_file() {
    let mut disk = Disk::new(&[(&source("book.epub"), b"not a zip".to_vec())]);
    let report = disk
        .run(config(DEFAULT_OUTPUT_PATH_TEMPLATE, true), None)
        .expect("dry-run report should continue");

    assert_eq!(report.totals.scanned, 1);
    assert_eq!(report.totals.planned, 0);
    assert_eq!(report.totals.errored, 1);
    assert_eq!(report.entries[0].action, EntryAction::Error);
    let error = report.entries[0].error.as_ref().expect("entry error");
    assert_eq!(error.code, "unreadable_epub");
}

#[test]
fn dry_run_reports_path_render_errors_per_file() {
    let mut disk = Disk::new(&[(&source("book.epub"), epub_with_opf(&complete_opf("Book")))]);
    let report = disk
        .run(config("{series}/{title}.epub", true), None)
        .expect("dry-run report");

    assert_eq!(report.totals.scanned, 1);
    assert_eq!(report.totals.planned, 0);
    assert_eq!(report.totals.errored, 1);
    assert_eq!(report.entries[0].source_path, source("book.epub"));
    assert_eq!(report.entries[0].output_path, None);
    assert_eq!(report.entries[0].action, EntryAction::Error);
    assert_eq!(error_code(&report.entries[0]), Some("path_render_error"));
    assert_eq!(
        report.entries[0]
            .error
            .as_ref()
            .map(|error| error.message.as_str()),
        Some("missing required metadata field series for Output Path Template")
    );
}

#[test]
fn paths_are_named_by_authors_and_the_books_own_identifier() {
    let mut disk = Disk::new(&[(
        &source("book.epub"),
        epub_with_opf(
            r##"<?xml version="1.0"?>
            <package xmlns:dc="http://purl.org/dc/elements/1.1/" unique-identifier="book-id">
              <metadata>
                <dc:title>T</dc:title>
                <dc:creator>A</dc:creator>
                <dc:creator>B</dc:creator>
                <dc:language>en</dc:language>
                <dc:identifier>first</dc:identifier>
                <dc:identifier id="book-id">own</dc:identifier>
              </metadata>
            </package>"##,
        ),
    )]);
    let report = disk
        .run(
            config("{authors}/{author_sort}/{language}/{identifier}", true),
            None,
        )
        .expect("dry-run report");
    assert_eq!(
        report.entries[0].output_path.as_deref(),
        Some("A, B/A/en/own")
    );
}

#[test]
fn failed_patched_copies_are_reported() {
    let mut disk = Disk::new(&[(
        &source("book.epub"),
        epub_with_opf(&complete_opf("The Way of Kings")),
    )]);
    let mut config = config(DEFAULT_OUTPUT_PATH_TEMPLATE, false);
    config.enrichment = Some(EnrichmentConfig {
        mode: EnrichmentMode::AutoApplyHighConfidence,
    });
    let survey = disk.survey(&config);
    let run = normalize(config, survey)
        .expect("run")
        .after_read(open(disk.0[&source("book.epub")].clone()))
        .after_lookup(Ok(vec![stormlight()]));
    assert!(matches!(run.step(), RunStep::Copy { job } if job.is_patched()));
    let report = run
        .after_copy(CopyResult::Patched(Err(EpubWriteError::MissingContainer)))
        .report();
    assert_eq!(
        error_code(&report.entries[0]),
        Some("metadata_write_error")
    );
    assert_eq!(
        report.entries[0].error.as_ref().unwrap().message,
        "missing META-INF/container.xml"
    );
    assert_eq!(report.totals.planned, 1);
    assert_eq!(report.totals.errored, 1);
    disk.0.clear();
}

#[test]
fn empty_libraries_make_empty_reports() {
    let mut disk = Disk::new(&[(&source("notes.txt"), Vec::new())]);
    let report = disk
        .run(config(DEFAULT_OUTPUT_PATH_TEMPLATE, false), None)
        .expect("report");
    assert_eq!(report.totals, Totals::default());
    assert!(report.entries.is_empty());
}

#[test]
fn human_summary_includes_required_counts() {
    let report = NormalizeReport {
        config: ReportConfig {
            source_library: "source".to_string(),
            output_library: "output".to_string(),
            template: DEFAULT_OUTPUT_PATH_TEMPLATE.to_string(),
            dry_run: true,
            enrich: false,
            apply_enrichment: false,
        },
        totals: Totals {
            scanned: 3,
            planned: 2,
            copied: 0,
            skipped: 1,
            errored: 0,
        },
        entries: Vec::new(),
    };

    assert_eq!(
        human_summary(&report),
        "normalize summary: scanned=3 planned=2 copied=0 skipped=1 errored=0"
    );
}

#[test]
fn human_summary_includes_dry_run_output_paths_for_validation() {
    let report = NormalizeReport {
        config: ReportConfig {
            source_library: "source".to_string(),
            output_library: "output".to_string(),
            template: "{author}/[{series}/{series_index:02} ]{title}.epub".to_string(),
            dry_run: true,
            enrich: false,
            apply_enrichment: false,
        },
        totals: Totals {
            scanned: 1,
            planned: 1,
            copied: 0,
            skipped: 0,
            errored: 0,
        },
        entries: vec![ReportEntry {
            source_path: "source/book.epub".to_string(),
            output_path: Some("Author/Series/01 Title.epub".to_string()),
            action: EntryAction::WouldCopy,
            metadata: None,
            enrichment: None,
            warnings: Vec::new(),
            error: None,
        }],
    };

    assert_eq!(
        human_summary(&report),
        "normalize summary: scanned=1 planned=1 copied=0 skipped=0 errored=0\nwould copy: source/book.epub -> Author/Series/01 Title.epub"
    );
}

#[test]
fn report_write_errors_name_the_report() {
    let error = NormalizeError::ReportWrite {
        path: "r.json".to_string(),
        message: "denied".to_string(),
    };
    assert_eq!(error.message(), "failed to write report r.json: denied");
}

#[test]
fn totals_of_lists_add_up() {
    let mut disk = Disk::new(&[
        (&source("a.epub"), epub_with_opf(&complete_opf("Same"))),
        (&source("b.epub"), epub_with_opf(&complete_opf("Same"))),
        (&source("c.epub"), b"not a zip".to_vec()),
    ]);
    let report = disk
        .run(config("{title}.epub", false), None)
        .expect("report");
    let first = totals_for(&report.entries[..1]);
    let second = totals_for(&report.entries[1..]);
    assert_eq!(first.scanned + second.scanned, report.totals.scanned);
    assert_eq!(first.planned + second.planned, report.totals.planned);
    assert_eq!(first.copied + second.copied, report.totals.copied);
    assert_eq!(first.skipped + second.skipped, report.totals.skipped);
    assert_eq!(first.errored + second.errored, report.totals.errored);
    assert_eq!(report.totals.planned, 2);
    assert_eq!(error_code(&report.entries[1]), Some("run_collision"));
    assert!(report.entries.iter().all(|entry| entry.enrichment.is_none()));
}
