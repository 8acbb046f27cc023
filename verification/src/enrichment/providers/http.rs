//! Documents that were fetched from a provider once are not fetched again.

use vstd::prelude::*;

use crate::enrichment::{ProviderError, ProviderErrorModel};
use crate::pairs::{find_under, place_of, under, under_after_push, under_after_update, under_others};

verus! {

/// How the program names itself to a provider.
pub const USER_AGENT: &'static str = "epub-mgr/0.1 metadata enrichment (https://github.com/EdenEast/epub-mgr)";

/// The documents that were fetched, by their URLs.
#[derive(Debug, Clone, PartialEq, Eq)]
pub struct ResponseCache {
    documents: Vec<(String, String)>,
}

impl View for ResponseCache {
    type V = Map<Seq<char>, Seq<char>>;

    closed spec fn view(&self) -> Map<Seq<char>, Seq<char>> {
        Map::new(
            |url: Seq<char>| under(self.documents@, url) is Some,
            |url: Seq<char>| under(self.documents@, url)->0@,
        )
    }
}

impl Default for ResponseCache {
    fn default() -> (cache: Self)
        ensures
            cache@ == Map::<Seq<char>, Seq<char>>::empty(),
    {
        let cache = ResponseCache { documents: Vec::new() };
        assert(cache@ =~= Map::empty());
        cache
    }
}

impl ResponseCache {
    /// The document of a URL, if it was fetched.
    pub fn get(&self, url: &str) -> (document: Option<&String>)
        ensures
            match document {
                Some(text) => self@.contains_key(url@) && text@ == self@[url@],
                None => !self@.contains_key(url@),
            },
    {
        find_under(&self.documents, url)
    }

    /// Notes the document of a URL.
    pub fn insert(&mut self, url: &str, document: String)
        ensures
            final(self)@ == old(self)@.insert(url@, document@),
    {
        let ghost before = self.documents@;
        let ghost model = self@;
        let place = place_of(&self.documents, url);
        proof {
            under_others(before, url@, place as int);
        }
        let pair = (url.to_owned(), document);
        if place < self.documents.len() {
            proof {
                let after = before.update(place as int, pair);
                under_others(after, url@, place as int);
                assert forall|key: Seq<char>| key != url@ implies #[trigger] under(after, key)
                    == under(before, key) by {
                    under_after_update(before, place as int, pair, key);
                }
            }
            self.documents.set(place, pair);
        } else {
            proof {
                assert forall|key: Seq<char>| #[trigger]
                    under(before.push(pair), key) == if key == url@ {
                        Some(document)
                    } else {
                        under(before, key)
                    } by {
                    under_after_push(before, pair, key);
                }
            }
            self.documents.push(pair);
        }
        assert(self@ =~= model.insert(url@, document@));
    }
}

/// How a document is come by.
#[derive(Debug, Clone, PartialEq, Eq)]
pub enum Fetch {
    /// It was fetched before.
    Cached { document: String },
    /// It is to be fetched.
    Send,
}

impl ResponseCache {
    /// How the document of a URL is come by: one that was fetched is not fetched
    /// again.
    pub fn plan(&self, url: &str) -> (fetch: Fetch)
        ensures
            match fetch {
                Fetch::Cached { document } => self@.contains_key(url@) && document@ == self@[url@],
                Fetch::Send => !self@.contains_key(url@),
            },
    {
        match self.get(url) {
            Some(document) => Fetch::Cached { document: document.clone() },
            None => Fetch::Send,
        }
    }

    /// Takes in what came of fetching a document: one that came is kept, and a
    /// failure is the provider's.
    pub fn receive(&mut self, url: &str, source: &str, outcome: Result<String, String>) -> (out:
        Result<String, ProviderError>)
        ensures
            match outcome {
                Ok(document) => out is Ok && out->Ok_0@ == document@ && final(self)@ == old(
                    self,
                )@.insert(url@, document@),
                Err(message) => out is Err && out->Err_0@ == (ProviderErrorModel {
                    source: source@,
                    message: message@,
                }) && final(self)@ == old(self)@,
            },
    {
        match outcome {
            Ok(document) => {
                self.insert(url, document.clone());
                Ok(document)
            },
            Err(message) => Err(ProviderError::new(source, message.as_str())),
        }
    }
}

/// A document that came is found again under its URL, and under no other.
pub proof fn documents_are_found_again(
    cache: Map<Seq<char>, Seq<char>>,
    url: Seq<char>,
    document: Seq<char>,
    other: Seq<char>,
)
    ensures
        cache.insert(url, document).contains_key(url),
        cache.insert(url, document)[url] == document,
        other != url ==> cache.insert(url, document).contains_key(other) == cache.contains_key(
            other,
        ) && (cache.contains_key(other) ==> cache.insert(url, document)[other] == cache[other]),
{
}

} // verus!
