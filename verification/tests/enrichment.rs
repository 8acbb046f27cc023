use epub_mgr::enrichment::merge::{
    candidate_can_auto_apply, enrich_from_lookup, enrich_metadata, EnrichmentStatus, MetadataField,
};
use epub_mgr::enrichment::{
    isbn_from_identifiers, CandidateEvidence, Confidence, EnrichmentCandidate, EnrichmentMode,
    LookupRequest, MetadataProvider, Provenance, ProvenancedValue, ProviderError,
};
use epub_mgr::epub_metadata::{MetadataIdentifier, NormalizedMetadata};

struct FakeProvider(Vec<EnrichmentCandidate>);

impl MetadataProvider for FakeProvider {
    fn lookup(&self, _request: &LookupRequest) -> Result<Vec<EnrichmentCandidate>, ProviderError> {
        Ok(self.0.clone())
    }
}

fn value(value: &str) -> ProvenancedValue<String> {
    ProvenancedValue {
        value: value.to_string(),
        confidence: Confidence::High,
        provenance: Provenance {
            source: "Wikidata".to_string(),
            record_id: "Q2136877".to_string(),
            url: "https://www.wikidata.org/wiki/Q2136877".to_string(),
        },
    }
}

fn reliable() -> CandidateEvidence {
    CandidateEvidence {
        identifier_match: true,
        title_author_match: true,
        structured_series: true,
        ..Default::default()
    }
}

fn identifier(value: &str, scheme: Option<&str>) -> MetadataIdentifier {
    MetadataIdentifier {
        value: value.to_string(),
        scheme: scheme.map(str::to_string),
        is_unique: false,
    }
}

fn isbn(value: &str, scheme: Option<&str>) -> Option<String> {
    isbn_from_identifiers(&[identifier(value, scheme)])
}

#[test]
fn auto_applies_missing_structured_series_from_identifier_match() {
    let metadata = NormalizedMetadata {
        title: Some("The Way of Kings".to_string()),
        authors: vec!["Brandon Sanderson".to_string()],
        identifiers: vec![MetadataIdentifier {
            value: "9780765365279".to_string(),
            scheme: Some("isbn".to_string()),
            is_unique: true,
        }],
        ..Default::default()
    };
    let candidate = EnrichmentCandidate {
        series: Some(value("The Stormlight Archive")),
        series_index: Some(value("1")),
        evidence: CandidateEvidence {
            identifier_match: true,
            title_author_match: true,
            structured_series: true,
            ..Default::default()
        },
        ..Default::default()
    };

    let outcome = enrich_metadata(
        &metadata,
        &FakeProvider(vec![candidate]),
        EnrichmentMode::AutoApplyHighConfidence,
    );

    assert_eq!(
        outcome.metadata.series.as_deref(),
        Some("The Stormlight Archive")
    );
    assert_eq!(outcome.metadata.series_index.as_deref(), Some("1"));
    assert!(outcome.report.applied);
}

#[test]
fn subject_only_series_hint_is_not_auto_applied() {
    let metadata = NormalizedMetadata {
        title: Some("The Way of Kings".to_string()),
        authors: vec!["Brandon Sanderson".to_string()],
        ..Default::default()
    };
    let mut proposed = value("Stormlight Archive");
    proposed.confidence = Confidence::Low;
    let candidate = EnrichmentCandidate {
        series: Some(proposed),
        evidence: CandidateEvidence {
            title_author_match: true,
            subject_only_series: true,
            ..Default::default()
        },
        ..Default::default()
    };

    let outcome = enrich_metadata(
        &metadata,
        &FakeProvider(vec![candidate]),
        EnrichmentMode::AutoApplyHighConfidence,
    );

    assert_eq!(outcome.metadata.series, None);
    assert_eq!(outcome.report.patches[0].field, MetadataField::Series);
    assert!(!outcome.report.patches[0].applied);
    assert_eq!(outcome.report.patches[0].confidence, Confidence::Low);
}

#[test]
fn ambiguous_enrichment_candidates_are_not_auto_applied() {
    let metadata = NormalizedMetadata {
        title: Some("Shared Title".to_string()),
        authors: vec!["Author".to_string()],
        ..Default::default()
    };
    let candidate = EnrichmentCandidate {
        series: Some(value("Series One")),
        evidence: CandidateEvidence {
            identifier_match: true,
            title_author_match: true,
            structured_series: true,
            ..Default::default()
        },
        ..Default::default()
    };
    let other = EnrichmentCandidate {
        series: Some(value("Series Two")),
        evidence: CandidateEvidence {
            identifier_match: true,
            title_author_match: true,
            structured_series: true,
            ..Default::default()
        },
        ..Default::default()
    };

    let outcome = enrich_metadata(
        &metadata,
        &FakeProvider(vec![candidate, other]),
        EnrichmentMode::AutoApplyHighConfidence,
    );

    assert_eq!(outcome.metadata.series, None);
    assert!(!outcome.report.applied);
    assert!(outcome
        .report
        .warnings
        .contains(&"ambiguous_enrichment_match".to_string()));
}

#[test]
fn a_provider_can_be_a_trait_object() {
    let provider: &dyn MetadataProvider = &FakeProvider(Vec::new());
    let outcome = enrich_metadata(
        &NormalizedMetadata::default(),
        provider,
        EnrichmentMode::ProposeOnly,
    );
    assert_eq!(outcome.report.status, EnrichmentStatus::NoMatch);
    assert_eq!(outcome.metadata, NormalizedMetadata::default());
}

#[test]
fn a_failed_lookup_is_reported() {
    let metadata = NormalizedMetadata {
        title: Some("Book".to_string()),
        ..Default::default()
    };
    let error = ProviderError::new("Open Library", "network unavailable");
    assert_eq!(
        error.message_text(),
        "Open Library lookup failed: network unavailable"
    );
    let outcome = enrich_from_lookup(&metadata, Err(error), EnrichmentMode::ProposeOnly);
    assert_eq!(outcome.metadata, metadata);
    assert_eq!(outcome.report.status, EnrichmentStatus::LookupFailed);
    assert_eq!(outcome.report.errors[0].source, "Open Library");
    assert_eq!(outcome.report.errors[0].message, "network unavailable");
    assert!(outcome.report.patches.is_empty());
}

#[test]
fn existing_titles_and_authors_wait_for_confirmation() {
    let metadata = NormalizedMetadata {
        title: Some("Old Title".to_string()),
        authors: vec!["Old Author".to_string()],
        series: Some("Old Series".to_string()),
        ..Default::default()
    };
    let candidate = EnrichmentCandidate {
        title: Some(value("New Title")),
        authors: vec![value("New Author")],
        series: Some(value("New Series")),
        series_index: Some(value("2")),
        evidence: reliable(),
    };
    let outcome = enrich_from_lookup(
        &metadata,
        Ok(vec![candidate]),
        EnrichmentMode::AutoApplyHighConfidence,
    );
    assert_eq!(outcome.metadata.title.as_deref(), Some("Old Title"));
    assert_eq!(outcome.metadata.authors, vec!["Old Author"]);
    assert_eq!(outcome.metadata.series.as_deref(), Some("New Series"));
    assert_eq!(outcome.metadata.series_index.as_deref(), Some("2"));
    assert_eq!(outcome.report.status, EnrichmentStatus::NeedsConfirmation);
    let reasons: Vec<&str> = outcome
        .report
        .patches
        .iter()
        .map(|patch| patch.reason.as_str())
        .collect();
    assert_eq!(
        reasons,
        vec![
            "existing metadata preserved pending confirmation",
            "existing metadata preserved pending confirmation",
            "high-confidence enrichment auto-applied",
            "high-confidence enrichment auto-applied",
        ]
    );
}

#[test]
fn missing_titles_and_authors_are_filled_in() {
    let metadata = NormalizedMetadata {
        title: Some("  ".to_string()),
        ..Default::default()
    };
    let candidate = EnrichmentCandidate {
        title: Some(value("Title")),
        authors: vec![value("First"), value("Second")],
        evidence: reliable(),
        ..Default::default()
    };
    let outcome = enrich_from_lookup(
        &metadata,
        Ok(vec![candidate]),
        EnrichmentMode::AutoApplyHighConfidence,
    );
    assert_eq!(outcome.metadata.title.as_deref(), Some("Title"));
    assert_eq!(outcome.metadata.authors, vec!["First"]);
    assert_eq!(outcome.report.status, EnrichmentStatus::Found);
    assert!(outcome.report.applied);
}

#[test]
fn proposals_change_nothing_and_equal_values_make_no_patch() {
    let metadata = NormalizedMetadata {
        title: Some("Same".to_string()),
        ..Default::default()
    };
    let candidate = EnrichmentCandidate {
        title: Some(value("Same")),
        series: Some(value("Series")),
        evidence: reliable(),
        ..Default::default()
    };
    let outcome = enrich_from_lookup(
        &metadata,
        Ok(vec![candidate]),
        EnrichmentMode::ProposeOnly,
    );
    assert_eq!(outcome.metadata, metadata);
    assert!(!outcome.report.applied);
    assert_eq!(outcome.report.patches.len(), 1);
    assert_eq!(outcome.report.patches[0].reason, "proposed for confirmation");
    assert_eq!(outcome.report.patches[0].old_value, None);
}

#[test]
fn subject_hints_are_warned_of() {
    let candidate = EnrichmentCandidate {
        evidence: CandidateEvidence {
            subject_only_series: true,
            ambiguous: true,
            ..Default::default()
        },
        ..Default::default()
    };
    let outcome = enrich_from_lookup(
        &NormalizedMetadata::default(),
        Ok(vec![candidate]),
        EnrichmentMode::ProposeOnly,
    );
    assert_eq!(
        outcome.report.warnings,
        vec!["ambiguous_enrichment_match", "series_from_subject_hint_only"]
    );
}

#[test]
fn isbns_are_found_by_scheme_prefix_or_digits() {
    assert_eq!(
        isbn("urn:isbn:978-0-7653-6527-9", None).as_deref(),
        Some("9780765365279")
    );
    assert_eq!(isbn(" isbn:0306406152 ", None).as_deref(), Some("0306406152"));
    assert_eq!(isbn("080442957X", Some("ISBN")).as_deref(), Some("080442957X"));
    assert_eq!(isbn("080442957x", Some("isbn")).as_deref(), Some("080442957x"));
    assert_eq!(isbn("979 1 2345 67890", None).as_deref(), Some("9791234567890"));
    assert_eq!(isbn("isbn:isbn:0306406152", None).as_deref(), Some("0306406152"));
    assert_eq!(isbn("0306406152", None), None);
    assert_eq!(isbn("0306406152", Some("uuid")), None);
    assert_eq!(isbn("978030640615", Some("isbn")), None);
    assert_eq!(isbn("X306406152", Some("isbn")), None);
    assert_eq!(isbn("urn:uuid:123", None), None);
    assert_eq!(
        isbn_from_identifiers(&[
            identifier("urn:uuid:1", None),
            identifier("9780765365279", None),
            identifier("9780000000000", None),
        ])
        .as_deref(),
        Some("9780765365279")
    );
    assert_eq!(isbn_from_identifiers(&[]), None);
}

#[test]
fn requests_carry_what_a_book_says() {
    let metadata = NormalizedMetadata {
        title: Some("Title".to_string()),
        authors: vec!["A".to_string(), "B".to_string()],
        language: Some("en".to_string()),
        identifiers: vec![identifier("x", Some("y"))],
        series: Some("Series".to_string()),
        ..Default::default()
    };
    assert_eq!(
        LookupRequest::from(&metadata),
        LookupRequest {
            title: metadata.title.clone(),
            authors: metadata.authors.clone(),
            identifiers: metadata.identifiers.clone(),
            language: metadata.language.clone(),
        }
    );
}

#[test]
fn candidates_without_an_identifier_wait_for_confirmation() {
    let supported = EnrichmentCandidate {
        series: Some(value("Series")),
        evidence: reliable(),
        ..Default::default()
    };
    assert!(candidate_can_auto_apply(&supported, false));
    assert!(!candidate_can_auto_apply(&supported, true));
    let mut unsupported = supported.clone();
    unsupported.evidence.identifier_match = false;
    assert!(!candidate_can_auto_apply(&unsupported, false));
    let outcome = enrich_from_lookup(
        &NormalizedMetadata::default(),
        Ok(vec![unsupported]),
        EnrichmentMode::AutoApplyHighConfidence,
    );
    assert_eq!(outcome.metadata.series, None);
    assert_eq!(outcome.report.status, EnrichmentStatus::NeedsConfirmation);
    let mut unstructured = supported;
    unstructured.evidence.structured_series = false;
    assert!(candidate_can_auto_apply(&unstructured, false));
}
