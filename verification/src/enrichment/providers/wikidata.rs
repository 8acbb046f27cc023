//! What Wikidata knows of a book's series.
//!
//! [`WikidataLookup`] says which entity is to be fetched next, and goes on with
//! what came of it.

use vstd::prelude::*;

use crate::enrichment::merge::first_of;
use crate::enrichment::{
    Confidence, Provenance, ProvenanceModel, ProvenancedValue, ProviderError, ProviderErrorModel,
    ValueModel,
};
use crate::pairs::{
    find_under, is_missing, stands_first, the_first_copy_of_a_key_counts, under,
};
use crate::text::{clone_text, glue, pair, viewed};

verus! {

/// The entities of a document, each under its own identifier.
#[derive(Debug, Clone, PartialEq, Eq)]
pub struct EntityData {
    pub entities: Vec<(String, Entity)>,
}

/// An entity: its labels by language, and its claims by property.
#[derive(Debug, Clone, PartialEq, Eq)]
pub struct Entity {
    pub labels: Vec<(String, Label)>,
    pub claims: Vec<(String, Vec<Claim>)>,
}

#[derive(Debug, Clone, PartialEq, Eq)]
pub struct Label {
    pub value: String,
}

/// What is claimed of an entity, with qualifiers by property.
#[derive(Debug, Clone, PartialEq, Eq)]
pub struct Claim {
    pub mainsnak: Snak,
    pub qualifiers: Option<Vec<(String, Vec<Snak>)>>,
}

#[derive(Debug, Clone, PartialEq, Eq)]
pub struct Snak {
    pub datavalue: Option<DataValue>,
}

/// A value: a text, an object with those of its members that are texts, or
/// something else.
#[derive(Debug, Clone, PartialEq, Eq)]
pub enum DataValue {
    Text(String),
    Object(Vec<(String, Option<String>)>),
    Other,
}

/// A series that a book belongs to, and its place in it.
#[derive(Debug, Clone, PartialEq, Eq)]
pub struct WikidataSeries {
    pub series: ProvenancedValue<String>,
    pub series_index: Option<ProvenancedValue<String>>,
}

pub struct SeriesRecord {
    pub series: ValueModel,
    pub series_index: Option<ValueModel>,
}

impl View for WikidataSeries {
    type V = SeriesRecord;

    open spec fn view(&self) -> SeriesRecord {
        SeriesRecord { series: self.series@, series_index: viewed(self.series_index) }
    }
}

/// The first claim that an entity is part of a series (property P179).
pub open spec fn series_claim(data: EntityData, qid: Seq<char>) -> Option<Claim> {
    match under(data.entities@, qid) {
        None => None,
        Some(entity) => match under(entity.claims@, "P179"@) {
            None => None,
            Some(claims) => first_of(claims@),
        },
    }
}

/// The entity that a claim is about.
pub open spec fn claimed_entity(claim: Claim) -> Option<Seq<char>> {
    match claim.mainsnak.datavalue {
        Some(DataValue::Object(members)) => match under(members@, "id"@) {
            Some(id) => viewed(id),
            None => None,
        },
        _ => None,
    }
}

pub open spec fn snak_text(snak: Snak) -> Option<Seq<char>> {
    match snak.datavalue {
        Some(DataValue::Text(text)) => Some(text@),
        _ => None,
    }
}

/// The place in a series that qualifies a claim (property P1545).
pub open spec fn claimed_ordinal(claim: Claim) -> Option<Seq<char>> {
    match claim.qualifiers {
        None => None,
        Some(qualifiers) => match under(qualifiers@, "P1545"@) {
            None => None,
            Some(snaks) => match first_of(snaks@) {
                None => None,
                Some(snak) => snak_text(snak),
            },
        },
    }
}

/// The English label of an entity, or its identifier where it has none.
pub open spec fn label_of(data: EntityData, id: Seq<char>) -> Seq<char> {
    match under(data.entities@, id) {
        None => id,
        Some(entity) => match under(entity.labels@, "en"@) {
            None => id,
            Some(label) => label.value@,
        },
    }
}

/// The series of an entity, by its identifier, and the place in it.
pub open spec fn claimed_series(data: EntityData, qid: Seq<char>) -> Option<
    (Seq<char>, Option<Seq<char>>),
> {
    match series_claim(data, qid) {
        None => None,
        Some(claim) => match claimed_entity(claim) {
            None => None,
            Some(id) => Some((id, claimed_ordinal(claim))),
        },
    }
}

fn find_series_claim<'a>(data: &'a EntityData, qid: &str) -> (claim: Option<&'a Claim>)
    ensures
        match claim {
            Some(inner) => series_claim(*data, qid@) == Some(*inner),
            None => series_claim(*data, qid@) is None,
        },
{
    match find_under(&data.entities, qid) {
        None => None,
        Some(entity) => match find_under(&entity.claims, "P179") {
            None => None,
            Some(claims) => if claims.len() > 0 {
                Some(&claims[0])
            } else {
                None
            },
        },
    }
}

fn claim_entity_id(claim: &Claim) -> (id: Option<String>)
    ensures
        viewed(id) == claimed_entity(*claim),
{
    match &claim.mainsnak.datavalue {
        Some(DataValue::Object(members)) => match find_under(members, "id") {
            Some(id) => clone_text(id),
            None => None,
        },
        _ => None,
    }
}

fn claim_string_value(snak: &Snak) -> (text: Option<String>)
    ensures
        viewed(text) == snak_text(*snak),
{
    match &snak.datavalue {
        Some(DataValue::Text(text)) => Some(text.clone()),
        _ => None,
    }
}

fn claim_ordinal(claim: &Claim) -> (ordinal: Option<String>)
    ensures
        viewed(ordinal) == claimed_ordinal(*claim),
{
    match &claim.qualifiers {
        None => None,
        Some(qualifiers) => match find_under(qualifiers, "P1545") {
            None => None,
            Some(snaks) => if snaks.len() > 0 {
                claim_string_value(&snaks[0])
            } else {
                None
            },
        },
    }
}

fn series_reference(data: &EntityData, qid: &str) -> (found: Option<(String, Option<String>)>)
    ensures
        match found {
            Some((id, ordinal)) => claimed_series(*data, qid@) == Some((id@, viewed(ordinal))),
            None => claimed_series(*data, qid@) is None,
        },
{
    match find_series_claim(data, qid) {
        None => None,
        Some(claim) => match claim_entity_id(claim) {
            None => None,
            Some(id) => Some((id, claim_ordinal(claim))),
        },
    }
}

fn entity_label(data: &EntityData, id: &str) -> (label: String)
    ensures
        label@ == label_of(*data, id@),
{
    match find_under(&data.entities, id) {
        None => id.to_owned(),
        Some(entity) => match find_under(&entity.labels, "en") {
            None => id.to_owned(),
            Some(label) => label.value.clone(),
        },
    }
}

/// The label of the series that an entity is part of, and the place in it, where
/// one document holds both entities.
pub fn extract_series_from_entities(data: &EntityData, qid: &str) -> (found: Option<
    (String, Option<String>),
>)
    ensures
        match claimed_series(*data, qid@) {
            Some((id, ordinal)) => found is Some && ({
                let (label, place) = found->0;
                label@ == label_of(*data, id) && viewed(place) == ordinal
            }),
            None => found is None,
        },
{
    match series_reference(data, qid) {
        None => None,
        Some((id, ordinal)) => Some((entity_label(data, id.as_str()), ordinal)),
    }
}

/// What is to be fetched next to find a book's series.
#[derive(Debug, PartialEq, Eq)]
pub enum WikidataLookup {
    /// The entity of the book.
    Book { qid: String },
    /// The entity of the series.
    Series { qid: String, series_id: String, ordinal: Option<String> },
    /// Nothing: this is what came of it.
    Finished { result: Result<Option<WikidataSeries>, ProviderError> },
}

pub enum WikidataModel {
    Book { qid: Seq<char> },
    Series { qid: Seq<char>, series_id: Seq<char>, ordinal: Option<Seq<char>> },
    Finished { result: Result<Option<SeriesRecord>, ProviderErrorModel> },
}

/// What came of a lookup, in plain values.
pub open spec fn series_answer(result: Result<Option<WikidataSeries>, ProviderError>) -> Result<
    Option<SeriesRecord>,
    ProviderErrorModel,
> {
    match result {
        Ok(found) => Ok(viewed(found)),
        Err(error) => Err(error@),
    }
}

impl View for WikidataLookup {
    type V = WikidataModel;

    open spec fn view(&self) -> WikidataModel {
        match self {
            WikidataLookup::Book { qid } => WikidataModel::Book { qid: qid@ },
            WikidataLookup::Series { qid, series_id, ordinal } => WikidataModel::Series {
                qid: qid@,
                series_id: series_id@,
                ordinal: viewed(*ordinal),
            },
            WikidataLookup::Finished { result } => WikidataModel::Finished {
                result: series_answer(*result),
            },
        }
    }
}

/// Where Wikidata's record of an entity is found.
pub open spec fn entity_record(qid: Seq<char>) -> ProvenanceModel {
    ProvenanceModel {
        source: "Wikidata"@,
        record_id: qid,
        url: "https://www.wikidata.org/wiki/"@ + qid,
    }
}

impl WikidataModel {
    /// Where the entity that is to be fetched next is found.
    pub open spec fn url(self) -> Option<Seq<char>> {
        match self {
            WikidataModel::Book { qid } => Some(
                "https://www.wikidata.org/wiki/Special:EntityData/"@ + qid + ".json"@,
            ),
            WikidataModel::Series { series_id, .. } => Some(
                "https://www.wikidata.org/wiki/Special:EntityData/"@ + series_id + ".json"@,
            ),
            WikidataModel::Finished { .. } => None,
        }
    }

    /// What follows from the document of the entity that was to be fetched.
    pub open spec fn next(self, outcome: Result<EntityData, ProviderErrorModel>) -> WikidataModel {
        match (self, outcome) {
            (WikidataModel::Finished { result }, _) => WikidataModel::Finished { result },
            (_, Err(error)) => WikidataModel::Finished { result: Err(error) },
            (WikidataModel::Book { qid }, Ok(data)) => match claimed_series(data, qid) {
                None => WikidataModel::Finished { result: Ok(None) },
                Some((series_id, ordinal)) => WikidataModel::Series { qid, series_id, ordinal },
            },
            (
                WikidataModel::Series { qid, series_id, ordinal },
                Ok(data),
            ) => WikidataModel::Finished {
                result: Ok(
                    Some(
                        SeriesRecord {
                            series: ValueModel {
                                value: label_of(data, series_id),
                                confidence: Confidence::High,
                                provenance: entity_record(qid),
                            },
                            series_index: match ordinal {
                                Some(place) => Some(
                                    ValueModel {
                                        value: place,
                                        confidence: Confidence::High,
                                        provenance: entity_record(qid),
                                    },
                                ),
                                None => None,
                            },
                        },
                    ),
                ),
            },
        }
    }
}

impl WikidataLookup {
    /// Starts to look for the series of a book, given its entity.
    pub fn start(qid: String) -> (lookup: WikidataLookup)
        ensures
            lookup@ == (WikidataModel::Book { qid: qid@ }),
    {
        WikidataLookup::Book { qid }
    }

    /// Where the entity that is to be fetched next is found.
    pub fn url(&self) -> (url: Option<String>)
        ensures
            viewed(url) == self@.url(),
    {
        match self {
            WikidataLookup::Book { qid } => Some(
                glue(
                    "https://www.wikidata.org/wiki/Special:EntityData/",
                    qid.as_str(),
                    ".json",
                ),
            ),
            WikidataLookup::Series { series_id, .. } => Some(
                glue(
                    "https://www.wikidata.org/wiki/Special:EntityData/",
                    series_id.as_str(),
                    ".json",
                ),
            ),
            WikidataLookup::Finished { .. } => None,
        }
    }

    /// Goes on with the document of the entity that was to be fetched.
    pub fn advance(self, outcome: Result<EntityData, ProviderError>) -> (after: WikidataLookup)
        ensures
            after@ == self@.next(
                match outcome {
                    Ok(data) => Ok(data),
                    Err(error) => Err(error@),
                },
            ),
    {
        match (self, outcome) {
            (WikidataLookup::Finished { result }, _) => WikidataLookup::Finished { result },
            (_, Err(error)) => WikidataLookup::Finished { result: Err(error) },
            (WikidataLookup::Book { qid }, Ok(data)) => match series_reference(
                &data,
                qid.as_str(),
            ) {
                None => WikidataLookup::Finished { result: Ok(None) },
                Some((series_id, ordinal)) => WikidataLookup::Series { qid, series_id, ordinal },
            },
            (WikidataLookup::Series { qid, series_id, ordinal }, Ok(data)) => {
                let url = pair("https://www.wikidata.org/wiki/", qid.as_str());
                let provenance = Provenance {
                    source: "Wikidata".to_owned(),
                    record_id: qid,
                    url,
                };
                let series = ProvenancedValue {
                    value: entity_label(&data, series_id.as_str()),
                    confidence: Confidence::High,
                    provenance: provenance.clone(),
                };
                let series_index = match ordinal {
                    Some(value) => Some(
                        ProvenancedValue { value, confidence: Confidence::High, provenance },
                    ),
                    None => None,
                };
                WikidataLookup::Finished { result: Ok(Some(WikidataSeries { series, series_index })) }
            },
        }
    }
}

/// Where one document holds both the book and its series, the lookup that reads
/// it twice finds what is read from it at once.
pub proof fn lookups_find_what_a_document_says(data: EntityData, qid: Seq<char>)
    ensures
        ({
            let first = (WikidataModel::Book { qid }).next(Ok(data));
            let last = first.next(Ok(data));
            match claimed_series(data, qid) {
                None => first == (WikidataModel::Finished { result: Ok(None) }),
                Some((id, ordinal)) => match last {
                    WikidataModel::Finished { result: Ok(Some(found)) } => {
                        &&& found.series.value == label_of(data, id)
                        &&& ordinal is None <==> found.series_index is None
                        &&& ordinal is Some ==> found.series_index->0.value == ordinal->0
                    },
                    _ => false,
                },
            }
        }),
{
}

/// A lookup is done after two documents at most.
pub proof fn two_documents_are_enough(
    qid: Seq<char>,
    first: Result<EntityData, ProviderErrorModel>,
    second: Result<EntityData, ProviderErrorModel>,
)
    ensures
        (WikidataModel::Book { qid }).next(first).next(second) is Finished,
{
}

/// A series is named by its label under "en", whatever other labels stand before
/// or after it, and by its identifier where it has no such label or the document
/// does not hold it. Name and place are of high confidence, and said of the book.
pub proof fn series_are_named_in_english(
    qid: Seq<char>,
    series_id: Seq<char>,
    ordinal: Option<Seq<char>>,
    data: EntityData,
    entity: int,
)
    requires
        stands_first(data.entities@, series_id, entity) || is_missing(data.entities@, series_id),
    ensures
        ({
            let labels = data.entities@[entity].1.labels@;
            let named = |name: Seq<char>|
                {
                    &&& label_of(data, series_id) == name
                    &&& match (WikidataModel::Series { qid, series_id, ordinal }).next(Ok(data)) {
                        WikidataModel::Finished { result: Ok(Some(found)) } => {
                            &&& found.series.value == name
                            &&& found.series.confidence == Confidence::High
                            &&& found.series.provenance.source == "Wikidata"@
                            &&& found.series.provenance.record_id == qid
                            &&& found.series.provenance.url == "https://www.wikidata.org/wiki/"@
                                + qid
                            &&& ordinal is None ==> found.series_index is None
                            &&& ordinal is Some ==> found.series_index is Some
                                && found.series_index->0.value == ordinal->0
                                && found.series_index->0.confidence == Confidence::High
                                && found.series_index->0.provenance == found.series.provenance
                        },
                        _ => false,
                    }
                };
            &&& is_missing(data.entities@, series_id) ==> named(series_id)
            &&& stands_first(data.entities@, series_id, entity) && is_missing(labels, "en"@)
                ==> named(series_id)
            &&& stands_first(data.entities@, series_id, entity) ==> forall|label: int| #[trigger]
                stands_first(labels, "en"@, label) ==> named(labels[label].1.value@)
        }),
{
    the_first_copy_of_a_key_counts(data.entities@, series_id);
    the_first_copy_of_a_key_counts(data.entities@[entity].1.labels@, "en"@);
}

/// The series of a book is what its first claim of "part of the series" names by
/// an "id"; the place in it is the text of the claim's first "series ordinal".
pub proof fn the_first_series_claim_counts(
    data: EntityData,
    qid: Seq<char>,
    entity: int,
    claims: int,
    member: int,
)
    requires
        stands_first(data.entities@, qid, entity),
        stands_first(data.entities@[entity].1.claims@, "P179"@, claims),
        data.entities@[entity].1.claims@[claims].1@.len() > 0,
        ({
            let claim = data.entities@[entity].1.claims@[claims].1@[0];
            claim.mainsnak.datavalue matches Some(DataValue::Object(members)) && stands_first(
                members@,
                "id"@,
                member,
            ) && members@[member].1 is Some
        }),
    ensures
        ({
            let claim = data.entities@[entity].1.claims@[claims].1@[0];
            let series_id = claim.mainsnak.datavalue->0->Object_0@[member].1->0@;
            let first = (WikidataModel::Book { qid }).next(Ok(data));
            let placed = |ordinal: Option<Seq<char>>|
                {
                    &&& claimed_series(data, qid) == Some((series_id, ordinal))
                    &&& first == (WikidataModel::Series { qid, series_id, ordinal })
                };
            match claim.qualifiers {
                None => placed(None),
                Some(qualifiers) => {
                    &&& is_missing(qualifiers@, "P1545"@) ==> placed(None)
                    &&& forall|place: int| #[trigger]
                        stands_first(qualifiers@, "P1545"@, place) ==> placed(
                            if qualifiers@[place].1@.len() > 0 {
                                match qualifiers@[place].1@[0].datavalue {
                                    Some(DataValue::Text(text)) => Some(text@),
                                    _ => None,
                                }
                            } else {
                                None
                            },
                        )
                },
            }
        }),
{
    the_first_copy_of_a_key_counts(data.entities@, qid);
    the_first_copy_of_a_key_counts(data.entities@[entity].1.claims@, "P179"@);
    let claim = data.entities@[entity].1.claims@[claims].1@[0];
    the_first_copy_of_a_key_counts(claim.mainsnak.datavalue->0->Object_0@, "id"@);
    if claim.qualifiers is Some {
        the_first_copy_of_a_key_counts(claim.qualifiers->0@, "P1545"@);
    }
}

/// A book has no series where the document does not hold it, makes no claim of
/// "part of the series" about it, or names no entity by an "id" in the first such
/// claim; the lookup is then done.
pub proof fn books_without_a_series_claim_have_no_series(
    data: EntityData,
    qid: Seq<char>,
    entity: int,
    claims: int,
)
    requires
        ({
            let list = data.entities@[entity].1.claims@;
            ||| is_missing(data.entities@, qid)
            ||| stands_first(data.entities@, qid, entity) && is_missing(list, "P179"@)
            ||| stands_first(data.entities@, qid, entity) && stands_first(list, "P179"@, claims)
                && (list[claims].1@.len() == 0
                || match list[claims].1@[0].mainsnak.datavalue {
                Some(DataValue::Object(members)) => is_missing(members@, "id"@),
                _ => true,
            })
        }),
    ensures
        claimed_series(data, qid) is None,
        (WikidataModel::Book { qid }).next(Ok(data)) == (WikidataModel::Finished {
            result: Ok(None),
        }),
{
    let list = data.entities@[entity].1.claims@;
    the_first_copy_of_a_key_counts(data.entities@, qid);
    the_first_copy_of_a_key_counts(list, "P179"@);
    match list[claims].1@[0].mainsnak.datavalue {
        Some(DataValue::Object(members)) => {
            the_first_copy_of_a_key_counts(members@, "id"@);
        },
        _ => {},
    }
}

/// An entity's document is found by its identifier, the book's first and then the
/// series'. A document that could not be fetched ends the lookup with the error.
pub proof fn entities_are_fetched_by_their_identifiers(
    qid: Seq<char>,
    series_id: Seq<char>,
    ordinal: Option<Seq<char>>,
    error: ProviderErrorModel,
)
    ensures
        ({
            let book = WikidataModel::Book { qid };
            let series = WikidataModel::Series { qid, series_id, ordinal };
            let place = "https://www.wikidata.org/wiki/Special:EntityData/"@;
            let failed = WikidataModel::Finished { result: Err(error) };
            &&& book.url() == Some(place + qid + ".json"@)
            &&& series.url() == Some(place + series_id + ".json"@)
            &&& book.next(Err(error)) == failed
            &&& series.next(Err(error)) == failed
            &&& failed.url() is None
        }),
{
}

} // verus!
