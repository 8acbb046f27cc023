use epub_mgr::enrichment::providers::http::{Fetch, ResponseCache, USER_AGENT};
use epub_mgr::enrichment::providers::open_library::{
    add_work_data, candidate_matches_request, candidates_from_search, EditionResponse,
    OpenLibraryLookup, SearchDoc, SearchResponse, WorkIdentifiers, WorkRef, WorkResponse,
};
use epub_mgr::enrichment::providers::wikidata::{
    extract_series_from_entities, Claim, DataValue, Entity, EntityData, Label, Snak,
    WikidataLookup, WikidataSeries,
};
use epub_mgr::enrichment::providers::ChainedLookup;
use epub_mgr::enrichment::{
    Confidence, EnrichmentCandidate, LookupRequest, Provenance, ProvenancedValue, ProviderError,
};
use epub_mgr::epub_metadata::MetadataIdentifier;

fn texts(values: &[&str]) -> Vec<String> {
    values.iter().map(|value| value.to_string()).collect()
}

fn way_of_kings() -> SearchDoc {
    SearchDoc {
        key: "/works/OL15358691W".to_string(),
        title: Some("The Way of Kings".to_string()),
        author_name: texts(&["Brandon Sanderson"]),
        subject: texts(&["Fantasy", "series:Stormlight Archive"]),
        ..SearchDoc::default()
    }
}

fn found(doc: SearchDoc) -> SearchResponse {
    SearchResponse {
        num_found: 1,
        docs: vec![doc],
    }
}

fn isbn_request() -> LookupRequest {
    LookupRequest {
        title: Some("The Way of Kings".to_string()),
        authors: texts(&["Brandon Sanderson"]),
        identifiers: vec![MetadataIdentifier {
            value: "9780765365279".to_string(),
            scheme: None,
            is_unique: true,
        }],
        language: None,
    }
}

fn title_request(title: &str, author: &str) -> LookupRequest {
    LookupRequest {
        title: Some(title.to_string()),
        authors: texts(&[author]),
        identifiers: Vec::new(),
        language: None,
    }
}

fn edition(works: &[&str]) -> EditionResponse {
    EditionResponse {
        key: "/books/OL1M".to_string(),
        title: Some("The Way of Kings".to_string()),
        works: works
            .iter()
            .map(|key| WorkRef {
                key: key.to_string(),
            })
            .collect(),
    }
}

fn work(wikidata: &[&str], subjects: &[&str]) -> WorkResponse {
    WorkResponse {
        identifiers: WorkIdentifiers {
            wikidata: texts(wikidata),
        },
        subjects: texts(subjects),
    }
}

fn candidates(lookup: OpenLibraryLookup) -> Vec<EnrichmentCandidate> {
    match lookup {
        OpenLibraryLookup::Finished { result } => result.expect("candidates"),
        other => panic!("not finished: {other:?}"),
    }
}

fn failure(lookup: OpenLibraryLookup) -> ProviderError {
    match lookup {
        OpenLibraryLookup::Finished { result } => result.expect_err("failure"),
        other => panic!("not finished: {other:?}"),
    }
}

fn snak(value: DataValue) -> Snak {
    Snak {
        datavalue: Some(value),
    }
}

fn label(value: &str) -> (String, Label) {
    (
        "en".to_string(),
        Label {
            value: value.to_string(),
        },
    )
}

fn series_claim(id: &str, ordinal: Option<&str>) -> Claim {
    Claim {
        mainsnak: snak(DataValue::Object(vec![(
            "id".to_string(),
            Some(id.to_string()),
        )])),
        qualifiers: ordinal.map(|place| {
            vec![(
                "P1545".to_string(),
                vec![snak(DataValue::Text(place.to_string()))],
            )]
        }),
    }
}

fn stormlight() -> EntityData {
    EntityData {
        entities: vec![
            (
                "Q2136877".to_string(),
                Entity {
                    labels: vec![label("The Way of Kings")],
                    claims: vec![(
                        "P179".to_string(),
                        vec![series_claim("Q7766706", Some("1"))],
                    )],
                },
            ),
            (
                "Q7766706".to_string(),
                Entity {
                    labels: vec![label("The Stormlight Archive")],
                    claims: Vec::new(),
                },
            ),
        ],
    }
}

#[test]
fn title_author_search_requires_exact_normalized_match_for_auto_apply_evidence() {
    let response = SearchResponse {
        num_found: 1,
        docs: vec![SearchDoc {
            key: "/works/OL1W".to_string(),
            title: Some("Different Book".to_string()),
            author_name: texts(&["Other Author"]),
            series_name: texts(&["Some Series"]),
            series_position: texts(&["1"]),
            ..SearchDoc::default()
        }],
    };
    let mut candidates = candidates_from_search(response, false);
    for candidate in &mut candidates {
        candidate.evidence.title_author_match =
            candidate_matches_request(candidate, "The Way of Kings", "Brandon Sanderson");
    }

    assert!(!candidates[0].evidence.title_author_match);
}

#[test]
fn parses_isbn_search_fixture_for_way_of_kings() {
    let response = SearchResponse {
        num_found: 1,
        docs: vec![SearchDoc {
            key: "/works/OL15358691W".to_string(),
            title: Some("The Way of Kings".to_string()),
            author_name: texts(&["Brandon Sanderson"]),
            subject: texts(&["Fantasy", "series:Stormlight Archive"]),
            ..SearchDoc::default()
        }],
    };

    let candidates = candidates_from_search(response, true);

    assert_eq!(
        candidates[0].title.as_ref().unwrap().value,
        "The Way of Kings"
    );
    assert_eq!(candidates[0].authors[0].value, "Brandon Sanderson");
    assert_eq!(
        candidates[0].series.as_ref().unwrap().value,
        "Stormlight Archive"
    );
    assert!(candidates[0].evidence.subject_only_series);
}

#[test]
fn extracts_wikidata_series_and_ordinal() {
    let data = stormlight();

    assert_eq!(
        extract_series_from_entities(&data, "Q2136877"),
        Some(("The Stormlight Archive".to_string(), Some("1".to_string())))
    );
}

#[test]
fn candidates_say_where_they_come_from_and_how_sure_they_are() {
    let mut doc = way_of_kings();
    doc.series_name = texts(&["The Stormlight Archive", "Other"]);
    doc.series_position = texts(&["1", "9"]);
    let by_isbn = candidates_from_search(found(doc.clone()), true);
    let title = by_isbn[0].title.as_ref().unwrap();
    assert_eq!(title.confidence, Confidence::High);
    assert_eq!(title.provenance.source, "Open Library");
    assert_eq!(title.provenance.record_id, "/works/OL15358691W");
    assert_eq!(
        title.provenance.url,
        "https://openlibrary.org/works/OL15358691W"
    );
    assert_eq!(
        by_isbn[0].series.as_ref().unwrap().value,
        "The Stormlight Archive"
    );
    assert_eq!(by_isbn[0].series_index.as_ref().unwrap().value, "1");
    assert!(by_isbn[0].evidence.structured_series);
    assert!(!by_isbn[0].evidence.subject_only_series);
    assert!(!by_isbn[0].evidence.ambiguous);

    let by_title = candidates_from_search(
        SearchResponse {
            num_found: 2,
            docs: vec![doc],
        },
        false,
    );
    assert_eq!(
        by_title[0].title.as_ref().unwrap().confidence,
        Confidence::Medium
    );
    assert!(by_title[0].evidence.ambiguous);
    assert!(!by_title[0].evidence.identifier_match);
}

#[test]
fn subject_hints_are_low_confidence() {
    let mut doc = way_of_kings();
    doc.subject = texts(&["xseries:No", "series:  Cosmere  ", "series:Other"]);
    let candidates = candidates_from_search(found(doc), true);
    let series = candidates[0].series.as_ref().unwrap();
    assert_eq!(series.value, "Cosmere");
    assert_eq!(series.confidence, Confidence::Low);
}

#[test]
fn titles_and_authors_match_in_letters_and_numbers() {
    let candidates = candidates_from_search(found(way_of_kings()), false);
    assert!(candidate_matches_request(
        &candidates[0],
        "the way-of kings!",
        "BRANDON SANDERSON"
    ));
    assert!(!candidate_matches_request(
        &candidates[0],
        "The Way of King",
        "Brandon Sanderson"
    ));
    let mut accented = way_of_kings();
    accented.title = Some("Émile İ".to_string());
    let candidates = candidates_from_search(found(accented), false);
    assert!(candidate_matches_request(
        &candidates[0],
        "éMILE İ",
        "brandon sanderson"
    ));
    let mut anonymous = way_of_kings();
    anonymous.author_name = Vec::new();
    let candidates = candidates_from_search(found(anonymous), false);
    assert!(!candidate_matches_request(
        &candidates[0],
        "The Way of Kings",
        "Brandon Sanderson"
    ));
}

#[test]
fn works_add_wikidata_and_subject_hints() {
    let mut doc = way_of_kings();
    doc.subject = Vec::new();
    let candidate = candidates_from_search(found(doc), true).remove(0);
    let added = add_work_data(
        candidate,
        &work(&["Q2136877"], &["series: Stormlight "]),
        "/works/OL1W",
        "/books/OL1M",
    );
    assert_eq!(
        added.title.as_ref().unwrap().provenance.record_id,
        "/books/OL1M|/works/OL1W|Q2136877"
    );
    let series = added.series.as_ref().unwrap();
    assert_eq!(series.value, "Stormlight");
    assert_eq!(series.provenance.record_id, "/works/OL1W");
    assert!(added.evidence.subject_only_series);
    assert_eq!(added.evidence_wikidata_id().as_deref(), Some("Q2136877"));
}

#[test]
fn isbn_lookups_fetch_edition_search_and_work() {
    let lookup = OpenLibraryLookup::start(&isbn_request());
    assert_eq!(
        lookup.url().as_deref(),
        Some("https://openlibrary.org/isbn/9780765365279.json")
    );
    let lookup = lookup.after_edition(Ok(edition(&["/works/OL1W", "/works/OL2W"])));
    assert_eq!(
        lookup.url().as_deref(),
        Some("https://openlibrary.org/search.json?isbn=9780765365279&fields=key,title,author_name,series_name,series_position,subject&limit=3")
    );
    let lookup = lookup.after_search(Ok(found(way_of_kings())));
    assert_eq!(
        lookup.url().as_deref(),
        Some("https://openlibrary.org/works/OL1W.json")
    );
    let lookup = lookup.after_work(Ok(work(&["Q1"], &[])));
    assert_eq!(lookup.url(), None);
    let candidates = candidates(lookup);
    assert_eq!(candidates.len(), 1);
    assert_eq!(
        candidates[0].title.as_ref().unwrap().provenance.record_id,
        "/books/OL1M|/works/OL1W|Q1"
    );
}

#[test]
fn editions_speak_for_books_that_the_search_misses() {
    let empty = SearchResponse {
        num_found: 0,
        docs: Vec::new(),
    };
    let lookup = OpenLibraryLookup::start(&isbn_request())
        .after_edition(Ok(edition(&[])))
        .after_search(Ok(empty));
    let candidates = candidates(lookup);
    assert_eq!(candidates.len(), 1);
    let title = candidates[0].title.as_ref().unwrap();
    assert_eq!(title.value, "The Way of Kings");
    assert_eq!(title.provenance.url, "https://openlibrary.org/books/OL1M");
    assert!(candidates[0].evidence.identifier_match);
    assert!(candidates[0].authors.is_empty());
}

#[test]
fn failed_works_are_done_without() {
    let lookup = OpenLibraryLookup::start(&isbn_request())
        .after_edition(Ok(edition(&["/works/OL1W"])))
        .after_search(Ok(found(way_of_kings())))
        .after_work(Err(ProviderError::new("Open Library", "gone")));
    assert_eq!(candidates(lookup).len(), 1);
}

#[test]
fn failed_editions_and_searches_fail_the_lookup() {
    let error = ProviderError::new("Open Library", "gone");
    assert_eq!(
        failure(OpenLibraryLookup::start(&isbn_request()).after_edition(Err(error.clone()))),
        error
    );
    assert_eq!(
        failure(
            OpenLibraryLookup::start(&isbn_request())
                .after_edition(Ok(edition(&[])))
                .after_search(Err(error.clone()))
        ),
        error
    );
    assert_eq!(
        failure(OpenLibraryLookup::start(&title_request("a", "b")).after_search(Err(error.clone()))),
        error
    );
}

#[test]
fn title_lookups_encode_what_they_ask_for() {
    let lookup = OpenLibraryLookup::start(&title_request("Tête & 1/2~", "O'Neil-x_y.z"));
    assert_eq!(
        lookup.url().as_deref(),
        Some("https://openlibrary.org/search.json?title=T%C3%AAte%20%26%201%2F2~&author=O%27Neil-x_y.z&fields=key,title,author_name,series_name,series_position,subject&limit=5")
    );
    let fitting = OpenLibraryLookup::start(&title_request("the way of kings", "brandon sanderson"))
        .after_search(Ok(found(way_of_kings())));
    assert!(candidates(fitting)[0].evidence.title_author_match);
    let other = OpenLibraryLookup::start(&title_request("Words of Radiance", "brandon sanderson"))
        .after_search(Ok(found(way_of_kings())));
    assert!(!candidates(other)[0].evidence.title_author_match);
}

#[test]
fn books_without_title_or_author_are_not_looked_up() {
    let mut request = title_request("a", "b");
    request.title = None;
    assert!(candidates(OpenLibraryLookup::start(&request)).is_empty());
    let mut request = title_request("a", "b");
    request.authors = Vec::new();
    assert!(candidates(OpenLibraryLookup::start(&request)).is_empty());
}

#[test]
fn wikidata_lookups_fetch_the_book_and_its_series() {
    let lookup = WikidataLookup::start("Q2136877".to_string());
    assert_eq!(
        lookup.url().as_deref(),
        Some("https://www.wikidata.org/wiki/Special:EntityData/Q2136877.json")
    );
    let lookup = lookup.advance(Ok(stormlight()));
    assert_eq!(
        lookup.url().as_deref(),
        Some("https://www.wikidata.org/wiki/Special:EntityData/Q7766706.json")
    );
    let lookup = lookup.advance(Ok(stormlight()));
    assert_eq!(lookup.url(), None);
    match lookup {
        WikidataLookup::Finished { result } => {
            let series = result.expect("answer").expect("series");
            assert_eq!(series.series.value, "The Stormlight Archive");
            assert_eq!(
                series.series.provenance,
                Provenance {
                    source: "Wikidata".to_string(),
                    record_id: "Q2136877".to_string(),
                    url: "https://www.wikidata.org/wiki/Q2136877".to_string(),
                }
            );
            assert_eq!(series.series_index.expect("place").value, "1");
        }
        other => panic!("not finished: {other:?}"),
    }
}

#[test]
fn entities_without_a_series_have_none() {
    let none = WikidataLookup::Finished { result: Ok(None) };
    assert_eq!(
        WikidataLookup::start("Q7766706".to_string()).advance(Ok(stormlight())),
        none
    );
    assert_eq!(
        WikidataLookup::start("Q0".to_string()).advance(Ok(stormlight())),
        none
    );
    let mut data = stormlight();
    data.entities[0].1.claims[0].1[0].mainsnak = snak(DataValue::Text("x".to_string()));
    assert_eq!(extract_series_from_entities(&data, "Q2136877"), None);
    data.entities[0].1.claims[0].1[0].mainsnak = snak(DataValue::Other);
    assert_eq!(extract_series_from_entities(&data, "Q2136877"), None);
    data.entities[0].1.claims[0].1[0].mainsnak = Snak { datavalue: None };
    assert_eq!(extract_series_from_entities(&data, "Q2136877"), None);
    data.entities[0].1.claims[0].1.clear();
    assert_eq!(extract_series_from_entities(&data, "Q2136877"), None);
    let error = ProviderError::new("Wikidata", "gone");
    assert_eq!(
        WikidataLookup::start("Q0".to_string()).advance(Err(error.clone())),
        WikidataLookup::Finished { result: Err(error) }
    );
}

#[test]
fn series_without_a_label_go_by_their_identifier() {
    let mut data = stormlight();
    data.entities.truncate(1);
    data.entities[0].1.claims[0].1[0] = series_claim("Q7766706", None);
    assert_eq!(
        extract_series_from_entities(&data, "Q2136877"),
        Some(("Q7766706".to_string(), None))
    );
}

#[test]
fn candidates_take_over_what_wikidata_states() {
    let mut candidate = candidates_from_search(found(way_of_kings()), true).remove(0);
    let before = candidate.clone();
    assert_eq!(candidate.evidence_wikidata_id(), None);
    candidate.take_wikidata_series(Ok(None));
    assert_eq!(candidate, before);
    candidate.take_wikidata_series(Err(ProviderError::new("Wikidata", "gone")));
    assert_eq!(candidate, before);
    let series = ProvenancedValue {
        value: "The Stormlight Archive".to_string(),
        confidence: Confidence::High,
        provenance: Provenance {
            source: "Wikidata".to_string(),
            record_id: "x|Q2136877".to_string(),
            url: String::new(),
        },
    };
    candidate.take_wikidata_series(Ok(Some(WikidataSeries {
        series: series.clone(),
        series_index: None,
    })));
    assert_eq!(candidate.series, Some(series));
    assert_eq!(candidate.series_index, None);
    assert!(candidate.evidence.structured_series);
    assert!(!candidate.evidence.subject_only_series);
    assert_eq!(candidate.evidence_wikidata_id().as_deref(), Some("Q2136877"));
}

#[test]
fn documents_are_kept_by_their_urls() {
    let mut cache = ResponseCache::default();
    assert_eq!(cache.get("a"), None);
    cache.insert("a", "1".to_string());
    cache.insert("b", "2".to_string());
    cache.insert("a", "3".to_string());
    assert_eq!(cache.get("a").map(String::as_str), Some("3"));
    assert_eq!(cache.get("b").map(String::as_str), Some("2"));
    assert_eq!(cache.get("c"), None);
    assert!(USER_AGENT.starts_with("epub-mgr/"));
}

#[test]
fn chains_ask_wikidata_about_what_open_library_found() {
    let chain = ChainedLookup::start(&isbn_request());
    assert_eq!(
        chain.url().as_deref(),
        Some("https://openlibrary.org/isbn/9780765365279.json")
    );
    let chain = chain
        .after_edition(Ok(edition(&["/works/OL1W"])))
        .after_search(Ok(found(way_of_kings())))
        .after_work(Ok(work(&["Q2136877"], &[])));
    assert_eq!(
        chain.url().as_deref(),
        Some("https://www.wikidata.org/wiki/Special:EntityData/Q2136877.json")
    );
    let chain = chain.after_entity(Ok(stormlight()));
    assert_eq!(
        chain.url().as_deref(),
        Some("https://www.wikidata.org/wiki/Special:EntityData/Q7766706.json")
    );
    match chain.after_entity(Ok(stormlight())) {
        ChainedLookup::Finished { result } => {
            let candidates = result.expect("candidates");
            assert_eq!(
                candidates[0].series.as_ref().unwrap().value,
                "The Stormlight Archive"
            );
            assert_eq!(candidates[0].series_index.as_ref().unwrap().value, "1");
            assert!(candidates[0].evidence.structured_series);
        }
        other => panic!("not finished: {other:?}"),
    }
}

#[test]
fn chains_go_on_where_wikidata_fails() {
    let chain = ChainedLookup::start(&isbn_request())
        .after_edition(Ok(edition(&["/works/OL1W"])))
        .after_search(Ok(SearchResponse {
            num_found: 2,
            docs: vec![way_of_kings(), way_of_kings()],
        }))
        .after_work(Ok(work(&["Q2136877"], &[])))
        .after_entity(Err(ProviderError::new("Wikidata", "gone")));
    assert!(matches!(chain, ChainedLookup::Wikidata { index: 1, .. }));
    match chain.after_entity(Err(ProviderError::new("Wikidata", "gone"))) {
        ChainedLookup::Finished { result } => {
            let candidates = result.expect("candidates");
            assert_eq!(candidates.len(), 2);
            assert!(candidates[1].evidence.subject_only_series);
        }
        other => panic!("not finished: {other:?}"),
    }
}

#[test]
fn chains_end_where_open_library_fails_or_names_no_entity() {
    let error = ProviderError::new("Open Library", "gone");
    assert_eq!(
        ChainedLookup::start(&isbn_request()).after_edition(Err(error.clone())),
        ChainedLookup::Finished { result: Err(error) }
    );
    let chain = ChainedLookup::start(&title_request("The Way of Kings", "Brandon Sanderson"))
        .after_search(Ok(found(way_of_kings())));
    assert!(matches!(chain, ChainedLookup::Finished { result: Ok(_) }));
}

#[test]
fn documents_are_fetched_once() {
    let mut cache = ResponseCache::default();
    assert_eq!(cache.plan("u"), Fetch::Send);
    assert_eq!(
        cache.receive("u", "Open Library", Err("gone".to_string())),
        Err(ProviderError::new("Open Library", "gone"))
    );
    assert_eq!(cache.plan("u"), Fetch::Send);
    assert_eq!(
        cache.receive("u", "Open Library", Ok("{}".to_string())),
        Ok("{}".to_string())
    );
    assert_eq!(
        cache.plan("u"),
        Fetch::Cached {
            document: "{}".to_string()
        }
    );
    assert_eq!(cache.plan("v"), Fetch::Send);
}
