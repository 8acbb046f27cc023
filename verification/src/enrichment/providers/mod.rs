//! The providers that are asked about a book: Open Library first, and Wikidata
//! about the series of what was found.

use vstd::prelude::*;

use crate::enrichment::merge::answer;
use crate::enrichment::{
    CandidateEvidence, CandidateModel, EnrichmentCandidate, LookupRequest, ProviderError,
    ProviderErrorModel, ValueModel,
};
use crate::text::{
    chars_of, position, position_bounds, split, split_chars, string_of, viewed, views,
};
use self::open_library::{
    fetched, EditionModel, EditionResponse, LookupModel, OpenLibraryLookup, SearchModel,
    SearchResponse, WorkModel, WorkResponse,
};
use self::wikidata::{
    series_answer, EntityData, SeriesRecord, WikidataLookup, WikidataModel, WikidataSeries,
};

pub mod http;
pub mod open_library;
pub mod wikidata;

verus! {

/// The first of the texts that starts with a Q, as the names of Wikidata's
/// entities do.
pub open spec fn first_entity(parts: Seq<Seq<char>>) -> Option<Seq<char>>
    decreases parts.len(),
{
    if parts.len() == 0 {
        None
    } else if parts[0].len() > 0 && parts[0][0] == 'Q' {
        Some(parts[0])
    } else {
        first_entity(parts.drop_first())
    }
}

/// The Wikidata entity in a record's identifier, whose parts are separated by
/// bars.
pub open spec fn entity_in(value: Option<ValueModel>) -> Option<Seq<char>> {
    match value {
        Some(inner) => first_entity(split(inner.provenance.record_id, |c: char| c == '|')),
        None => None,
    }
}

/// The Wikidata entity that a candidate speaks of, by its title or its series.
pub open spec fn candidate_entity(candidate: CandidateModel) -> Option<Seq<char>> {
    if entity_in(candidate.title) is Some {
        entity_in(candidate.title)
    } else {
        entity_in(candidate.series)
    }
}

/// A candidate with the series that Wikidata states, if it states one.
pub open spec fn with_series(
    candidate: CandidateModel,
    found: Result<Option<SeriesRecord>, ProviderErrorModel>,
) -> CandidateModel {
    match found {
        Ok(Some(record)) => CandidateModel {
            series: Some(record.series),
            series_index: record.series_index,
            evidence: CandidateEvidence {
                structured_series: true,
                subject_only_series: false,
                ..candidate.evidence
            },
            ..candidate
        },
        _ => candidate,
    }
}

fn entity_in_record(record_id: &str) -> (entity: Option<String>)
    ensures
        viewed(entity) == first_entity(split(record_id@, |c: char| c == '|')),
{
    let chars = chars_of(record_id);
    let parts = split_chars(chars.as_slice(), '|');
    let ghost model = views(parts@);
    let mut i: usize = 0;
    assert(model.skip(0) =~= model);
    while i < parts.len()
        invariant
            i <= parts.len(),
            model == views(parts@),
            model == split(record_id@, |c: char| c == '|'),
            first_entity(model) == first_entity(model.skip(i as int)),
        decreases parts.len() - i,
    {
        proof {
            assert(model.skip(i as int)[0] == parts@[i as int]@);
            assert(model.skip(i as int).drop_first() =~= model.skip(i + 1));
        }
        if parts[i].len() > 0 && parts[i][0] == 'Q' {
            return Some(string_of(parts[i].as_slice()));
        }
        i += 1;
    }
    None
}

impl EnrichmentCandidate {
    /// The Wikidata entity that the candidate speaks of.
    pub fn evidence_wikidata_id(&self) -> (entity: Option<String>)
        ensures
            viewed(entity) == candidate_entity(self@),
    {
        match &self.title {
            Some(title) => {
                let entity = entity_in_record(title.provenance.record_id.as_str());
                if entity.is_some() {
                    return entity;
                }
            },
            None => {},
        }
        match &self.series {
            Some(series) => entity_in_record(series.provenance.record_id.as_str()),
            None => None,
        }
    }

    /// Takes over the series that Wikidata states, if it states one.
    pub fn take_wikidata_series(&mut self, found: Result<Option<WikidataSeries>, ProviderError>)
        ensures
            final(self)@ == with_series(old(self)@, series_answer(found)),
    {
        match found {
            Ok(Some(record)) => {
                self.series = Some(record.series);
                self.series_index = record.series_index;
                self.evidence.structured_series = true;
                self.evidence.subject_only_series = false;
            },
            _ => {},
        }
    }
}

/// A series that Wikidata does not state leaves the candidate as it is.
pub proof fn silence_changes_nothing(candidate: CandidateModel, error: ProviderErrorModel)
    ensures
        with_series(candidate, Ok(None)) == candidate,
        with_series(candidate, Err(error)) == candidate,
{
}

/// What is to be fetched next to look a book up: what Open Library knows of it,
/// and then, for each candidate that names an entity of Wikidata, the series of
/// that.
#[derive(Debug, PartialEq, Eq)]
pub enum ChainedLookup {
    OpenLibrary { lookup: OpenLibraryLookup },
    Wikidata { candidates: Vec<EnrichmentCandidate>, index: usize, lookup: WikidataLookup },
    /// Nothing: this is what came of it.
    Finished { result: Result<Vec<EnrichmentCandidate>, ProviderError> },
}

pub enum ChainModel {
    OpenLibrary { lookup: LookupModel },
    Wikidata { candidates: Seq<CandidateModel>, index: int, lookup: WikidataModel },
    Finished { result: Result<Seq<CandidateModel>, ProviderErrorModel> },
}

impl View for ChainedLookup {
    type V = ChainModel;

    open spec fn view(&self) -> ChainModel {
        match self {
            ChainedLookup::OpenLibrary { lookup } => ChainModel::OpenLibrary { lookup: lookup@ },
            ChainedLookup::Wikidata { candidates, index, lookup } => ChainModel::Wikidata {
                candidates: views(candidates@),
                index: *index as int,
                lookup: lookup@,
            },
            ChainedLookup::Finished { result } => ChainModel::Finished { result: answer(*result) },
        }
    }
}

impl ChainModel {
    /// Where the document that is to be fetched next is found.
    pub open spec fn url(self) -> Option<Seq<char>> {
        match self {
            ChainModel::OpenLibrary { lookup } => lookup.url(),
            ChainModel::Wikidata { lookup, .. } => lookup.url(),
            ChainModel::Finished { .. } => None,
        }
    }

    /// Goes on with the first of the candidates, `from` or later, that names an
    /// entity.
    pub open spec fn chained(candidates: Seq<CandidateModel>, from: int) -> ChainModel
        decreases candidates.len() - from,
    {
        if from < 0 || from >= candidates.len() {
            ChainModel::Finished { result: Ok(candidates) }
        } else {
            match candidate_entity(candidates[from]) {
                Some(qid) => ChainModel::Wikidata {
                    candidates,
                    index: from,
                    lookup: WikidataModel::Book { qid },
                },
                None => ChainModel::chained(candidates, from + 1),
            }
        }
    }

    /// What follows once Open Library has gone on like this.
    pub open spec fn after_open_library(lookup: LookupModel) -> ChainModel {
        match lookup {
            LookupModel::Finished { result } => match result {
                Ok(candidates) => ChainModel::chained(candidates, 0),
                Err(error) => ChainModel::Finished { result: Err(error) },
            },
            other => ChainModel::OpenLibrary { lookup: other },
        }
    }

    /// What follows once Wikidata has gone on like this.
    pub open spec fn after_wikidata(
        candidates: Seq<CandidateModel>,
        index: int,
        lookup: WikidataModel,
    ) -> ChainModel {
        match lookup {
            WikidataModel::Finished { result } => if 0 <= index < candidates.len() {
                ChainModel::chained(
                    candidates.update(index, with_series(candidates[index], result)),
                    index + 1,
                )
            } else {
                ChainModel::Finished { result: Ok(candidates) }
            },
            other => ChainModel::Wikidata { candidates, index, lookup: other },
        }
    }

    pub open spec fn after_edition(self, outcome: Result<EditionModel, ProviderErrorModel>) -> ChainModel {
        match self {
            ChainModel::OpenLibrary { lookup } => ChainModel::after_open_library(
                lookup.after_edition(outcome),
            ),
            other => other,
        }
    }

    pub open spec fn after_search(self, outcome: Result<SearchModel, ProviderErrorModel>) -> ChainModel {
        match self {
            ChainModel::OpenLibrary { lookup } => ChainModel::after_open_library(
                lookup.after_search(outcome),
            ),
            other => other,
        }
    }

    pub open spec fn after_work(self, outcome: Result<WorkModel, ProviderErrorModel>) -> ChainModel {
        match self {
            ChainModel::OpenLibrary { lookup } => ChainModel::after_open_library(
                lookup.after_work(outcome),
            ),
            other => other,
        }
    }

    pub open spec fn after_entity(self, outcome: Result<EntityData, ProviderErrorModel>) -> ChainModel {
        match self {
            ChainModel::Wikidata { candidates, index, lookup } => ChainModel::after_wikidata(
                candidates,
                index,
                lookup.next(outcome),
            ),
            other => other,
        }
    }
}

impl ChainedLookup {
    /// Starts to look a book up.
    pub fn start(request: &LookupRequest) -> (chain: ChainedLookup)
        ensures
            chain@ == ChainModel::after_open_library(LookupModel::first(request@)),
    {
        ChainedLookup::from_open_library(OpenLibraryLookup::start(request))
    }

    /// Where the document that is to be fetched next is found.
    pub fn url(&self) -> (url: Option<String>)
        ensures
            viewed(url) == self@.url(),
    {
        match self {
            ChainedLookup::OpenLibrary { lookup } => lookup.url(),
            ChainedLookup::Wikidata { lookup, .. } => lookup.url(),
            ChainedLookup::Finished { .. } => None,
        }
    }

    fn from_open_library(lookup: OpenLibraryLookup) -> (chain: ChainedLookup)
        ensures
            chain@ == ChainModel::after_open_library(lookup@),
    {
        match lookup {
            OpenLibraryLookup::Finished { result } => match result {
                Ok(candidates) => ChainedLookup::chained(candidates, 0),
                Err(error) => ChainedLookup::Finished { result: Err(error) },
            },
            other => ChainedLookup::OpenLibrary { lookup: other },
        }
    }

    fn chained(candidates: Vec<EnrichmentCandidate>, from: usize) -> (chain: ChainedLookup)
        ensures
            chain@ == ChainModel::chained(views(candidates@), from as int),
    {
        let ghost model = views(candidates@);
        let mut index: usize = from;
        while index < candidates.len()
            invariant
                model == views(candidates@),
                ChainModel::chained(model, from as int) == ChainModel::chained(model, index as int),
            decreases candidates.len() - index,
        {
            assert(model[index as int] == candidates@[index as int]@);
            match candidates[index].evidence_wikidata_id() {
                Some(qid) => {
                    return ChainedLookup::Wikidata {
                        candidates,
                        index,
                        lookup: WikidataLookup::start(qid),
                    };
                },
                None => {
                    index += 1;
                },
            }
        }
        ChainedLookup::Finished { result: Ok(candidates) }
    }

    /// Goes on with the edition that was to be fetched.
    pub fn after_edition(self, outcome: Result<EditionResponse, ProviderError>) -> (chain:
        ChainedLookup)
        ensures
            chain@ == self@.after_edition(fetched(outcome)),
    {
        match self {
            ChainedLookup::OpenLibrary { lookup } => ChainedLookup::from_open_library(
                lookup.after_edition(outcome),
            ),
            other => other,
        }
    }

    /// Goes on with the answer to the search that was to be made.
    pub fn after_search(self, outcome: Result<SearchResponse, ProviderError>) -> (chain:
        ChainedLookup)
        ensures
            chain@ == self@.after_search(fetched(outcome)),
    {
        match self {
            ChainedLookup::OpenLibrary { lookup } => ChainedLookup::from_open_library(
                lookup.after_search(outcome),
            ),
            other => other,
        }
    }

    /// Goes on with the work that was to be fetched.
    pub fn after_work(self, outcome: Result<WorkResponse, ProviderError>) -> (chain: ChainedLookup)
        ensures
            chain@ == self@.after_work(fetched(outcome)),
    {
        match self {
            ChainedLookup::OpenLibrary { lookup } => ChainedLookup::from_open_library(
                lookup.after_work(outcome),
            ),
            other => other,
        }
    }

    /// Goes on with the document of the entity that was to be fetched.
    pub fn after_entity(self, outcome: Result<EntityData, ProviderError>) -> (chain: ChainedLookup)
        ensures
            chain@ == self@.after_entity(
                match outcome {
                    Ok(data) => Ok(data),
                    Err(error) => Err(error@),
                },
            ),
    {
        match self {
            ChainedLookup::Wikidata { candidates, index, lookup } => match lookup.advance(outcome) {
                WikidataLookup::Finished { result } => {
                    let ghost model = views(candidates@);
                    let mut candidates = candidates;
                    if index < candidates.len() {
                        let ghost before = candidates@;
                        candidates[index].take_wikidata_series(result);
                        proof {
                            assert(model[index as int] == before[index as int]@);
                            assert(views(candidates@) =~= model.update(
                                index as int,
                                with_series(model[index as int], series_answer(result)),
                            ));
                        }
                        ChainedLookup::chained(candidates, index + 1)
                    } else {
                        ChainedLookup::Finished { result: Ok(candidates) }
                    }
                },
                other => ChainedLookup::Wikidata { candidates, index, lookup: other },
            },
            other => other,
        }
    }
}

/// Wikidata neither adds candidates nor takes any away, and it changes no title and
/// no author.
pub proof fn wikidata_keeps_candidates(
    candidates: Seq<CandidateModel>,
    index: int,
    found: Result<Option<SeriesRecord>, ProviderErrorModel>,
)
    requires
        0 <= index < candidates.len(),
    ensures
        ({
            let after = candidates.update(index, with_series(candidates[index], found));
            &&& after.len() == candidates.len()
            &&& forall|i: int|
                0 <= i < after.len() ==> (#[trigger] after[i]).title == candidates[i].title
                    && after[i].authors == candidates[i].authors
        }),
{
}

/// Whether a part of a record's identifier, between bars, stands between two places
/// and starts with a Q.
pub open spec fn is_entity_part(record_id: Seq<char>, from: int, to: int) -> bool {
    &&& 0 <= from < to <= record_id.len()
    &&& from > 0 ==> record_id[from - 1] == '|'
    &&& to < record_id.len() ==> record_id[to] == '|'
    &&& forall|i: int| from <= i < to ==> record_id[i] != '|'
    &&& record_id[from] == 'Q'
}

proof fn entities_are_parts(record_id: Seq<char>)
    ensures
        match first_entity(split(record_id, |c: char| c == '|')) {
            Some(entity) => exists|from: int, to: int| #[trigger]
                is_entity_part(record_id, from, to) && record_id.subrange(from, to) == entity
                    && forall|a: int, b: int| #[trigger]
                    is_entity_part(record_id, a, b) ==> from <= a,
            None => forall|from: int, to: int| !#[trigger] is_entity_part(record_id, from, to),
        },
    decreases record_id.len(),
{
    let bar = |c: char| c == '|';
    position_bounds(record_id, bar, 0);
    let at = position(record_id, bar, 0);
    let first = record_id.take(at);
    if at < record_id.len() {
        let rest = record_id.skip(at + 1);
        entities_are_parts(rest);
        let parts = split(record_id, bar);
        assert(parts == seq![first] + split(rest, bar));
        assert(parts.drop_first() =~= split(rest, bar));
        assert forall|a: int, b: int| #[trigger] is_entity_part(record_id, a, b) implies a == 0 && b
            == at || is_entity_part(rest, a - at - 1, b - at - 1) by {
            if a == 0 {
                if b > at {
                    assert(record_id[at] != '|');
                }
            } else {
                assert(a > at) by {
                    if a <= at {
                        assert(!bar(record_id[a - 1]));
                    }
                }
                let (x, y) = (a - at - 1, b - at - 1);
                if x > 0 {
                    assert(rest[x - 1] == record_id[a - 1]);
                }
                if y < rest.len() {
                    assert(rest[y] == record_id[b]);
                }
                assert forall|i: int| x <= i < y implies rest[i] != '|' by {
                    assert(rest[i] == record_id[i + at + 1]);
                }
                assert(rest[x] == record_id[a]);
            }
        }
        if first.len() > 0 && first[0] == 'Q' {
            assert(is_entity_part(record_id, 0, at));
            assert(record_id.subrange(0, at) =~= first);
        } else {
            assert forall|b: int| !#[trigger] is_entity_part(record_id, 0, b) by {
                if is_entity_part(record_id, 0, b) {
                    assert(b == at);
                    assert(first[0] == record_id[0]);
                }
            }
            if first_entity(split(rest, bar)) is Some {
                let entity = first_entity(split(rest, bar))->0;
                let (from, to) = choose|from: int, to: int| #[trigger]
                    is_entity_part(rest, from, to) && rest.subrange(from, to) == entity && forall|
                        a: int,
                        b: int,
                    | #[trigger]
                        is_entity_part(rest, a, b) ==> from <= a;
                let (x, y) = (from + at + 1, to + at + 1);
                assert(is_entity_part(record_id, x, y)) by {
                    if from > 0 {
                        assert(rest[from - 1] == record_id[x - 1]);
                    }
                    if to < rest.len() {
                        assert(rest[to] == record_id[y]);
                    }
                    assert forall|i: int| x <= i < y implies record_id[i] != '|' by {
                        assert(rest[i - at - 1] == record_id[i]);
                    }
                    assert(rest[from] == record_id[x]);
                }
                assert(record_id.subrange(x, y) =~= entity);
            }
        }
    } else {
        let parts = split(record_id, bar);
        assert(parts == seq![record_id]);
        assert(parts.drop_first() =~= Seq::empty());
        assert(first_entity(parts.drop_first()) is None);
        assert forall|a: int, b: int| #[trigger] is_entity_part(record_id, a, b) implies a == 0 && b
            == record_id.len() by {
            if a > 0 {
                assert(!bar(record_id[a - 1]));
            }
            if b < record_id.len() {
                assert(!bar(record_id[b]));
            }
        }
        if record_id.len() > 0 && record_id[0] == 'Q' {
            assert(is_entity_part(record_id, 0, record_id.len() as int));
            assert(record_id.subrange(0, record_id.len() as int) =~= record_id);
        }
    }
}

/// The entity that a candidate names at Wikidata is the first part, between bars,
/// that starts with a Q in the record of its title, and else in that of its series.
pub proof fn entities_stand_between_bars(candidate: CandidateModel, from: int, to: int)
    ensures
        candidate.title is Some && is_entity_part(
            candidate.title->0.provenance.record_id,
            from,
            to,
        ) && (forall|a: int, b: int| #[trigger]
            is_entity_part(candidate.title->0.provenance.record_id, a, b) ==> from <= a)
            ==> candidate_entity(candidate) == Some(
            candidate.title->0.provenance.record_id.subrange(from, to),
        ),
        (candidate.title is None || forall|a: int, b: int|
            !#[trigger] is_entity_part(candidate.title->0.provenance.record_id, a, b))
            && candidate.series is Some && is_entity_part(
            candidate.series->0.provenance.record_id,
            from,
            to,
        ) && (forall|a: int, b: int| #[trigger]
            is_entity_part(candidate.series->0.provenance.record_id, a, b) ==> from <= a)
            ==> candidate_entity(candidate) == Some(
            candidate.series->0.provenance.record_id.subrange(from, to),
        ),
        (candidate.title is None || forall|a: int, b: int|
            !#[trigger] is_entity_part(candidate.title->0.provenance.record_id, a, b)) && (
        candidate.series is None || forall|a: int, b: int|
            !#[trigger] is_entity_part(candidate.series->0.provenance.record_id, a, b))
            ==> candidate_entity(candidate) is None,
{
    if candidate.title is Some {
        let record_id = candidate.title->0.provenance.record_id;
        entities_are_parts(record_id);
        same_parts(record_id);
    }
    if candidate.series is Some {
        let record_id = candidate.series->0.provenance.record_id;
        entities_are_parts(record_id);
        same_parts(record_id);
    }
}

proof fn same_parts(record_id: Seq<char>)
    ensures
        forall|a: int, b: int, c: int, d: int| #[trigger]
            is_entity_part(record_id, a, b) && #[trigger] is_entity_part(record_id, c, d) && a == c
                ==> b == d,
{
    assert forall|a: int, b: int, c: int, d: int| #[trigger]
        is_entity_part(record_id, a, b) && #[trigger] is_entity_part(record_id, c, d) && a
            == c implies b == d by {
        if b < d {
            assert(record_id[b] != '|');
        }
        if d < b {
            assert(record_id[d] != '|');
        }
    }
}

/// What Wikidata states of a series takes the place of what a candidate knew of it,
/// and counts as a series that is stated and no mere hint; the rest of the candidate
/// stays.
pub proof fn stated_series_take_the_place_of_hints(
    candidate: CandidateModel,
    record: SeriesRecord,
)
    ensures
        ({
            let after = with_series(candidate, Ok(Some(record)));
            &&& after.series == Some(record.series)
            &&& after.series_index == record.series_index
            &&& after.evidence.structured_series
            &&& !after.evidence.subject_only_series
            &&& after.evidence.identifier_match == candidate.evidence.identifier_match
            &&& after.evidence.title_author_match == candidate.evidence.title_author_match
            &&& after.evidence.ambiguous == candidate.evidence.ambiguous
            &&& after.title == candidate.title
            &&& after.authors == candidate.authors
        }),
{
}

proof fn chains_go_to_the_next_entity(candidates: Seq<CandidateModel>, from: int, to: int)
    requires
        0 <= from <= to <= candidates.len(),
        forall|i: int| from <= i < to ==> candidate_entity(#[trigger] candidates[i]) is None,
    ensures
        to == candidates.len() ==> ChainModel::chained(candidates, from) == (ChainModel::Finished {
            result: Ok(candidates),
        }),
        to < candidates.len() && candidate_entity(candidates[to]) is Some ==> ChainModel::chained(
            candidates,
            from,
        ) == (ChainModel::Wikidata {
            candidates,
            index: to,
            lookup: WikidataModel::Book { qid: candidate_entity(candidates[to])->0 },
        }),
    decreases to - from,
{
    if from < to {
        assert(candidate_entity(candidates[from]) is None);
        chains_go_to_the_next_entity(candidates, from + 1, to);
    }
}

/// Once Open Library is done, Wikidata is asked about the first candidate that names
/// an entity, and once it has answered, about the next one; where none is left, the
/// lookup is done, with all of the candidates. What Wikidata says of an entity goes
/// to the candidate that named it. Where Open Library failed, the lookup has.
pub proof fn every_candidate_with_an_entity_is_asked_about(
    candidates: Seq<CandidateModel>,
    index: int,
    found: Result<Option<SeriesRecord>, ProviderErrorModel>,
    next: int,
    error: ProviderErrorModel,
)
    requires
        -1 <= index < candidates.len(),
        index < next <= candidates.len(),
        forall|i: int| index < i < next ==> candidate_entity(#[trigger] candidates[i]) is None,
    ensures
        ({
            let after = if index < 0 {
                ChainModel::after_open_library(LookupModel::Finished { result: Ok(candidates) })
            } else {
                ChainModel::after_wikidata(
                    candidates,
                    index,
                    WikidataModel::Finished { result: found },
                )
            };
            let known = if index < 0 {
                candidates
            } else {
                candidates.update(index, with_series(candidates[index], found))
            };
            &&& next == candidates.len() ==> after == (ChainModel::Finished { result: Ok(known) })
            &&& next < candidates.len() && candidate_entity(candidates[next]) is Some ==> after == (
            ChainModel::Wikidata {
                candidates: known,
                index: next,
                lookup: WikidataModel::Book { qid: candidate_entity(candidates[next])->0 },
            })
        }),
        ChainModel::after_open_library(LookupModel::Finished { result: Err(error) }) == (
        ChainModel::Finished { result: Err(error) }),
{
    let known = if index < 0 {
        candidates
    } else {
        candidates.update(index, with_series(candidates[index], found))
    };
    assert forall|i: int| index + 1 <= i < next implies candidate_entity(#[trigger] known[i])
        is None by {
        assert(known[i] == candidates[i]);
    }
    if next < candidates.len() {
        assert(known[next] == candidates[next]);
    }
    chains_go_to_the_next_entity(known, index + 1, next);
}

} // verus!
