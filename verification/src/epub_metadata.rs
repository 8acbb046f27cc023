//! The metadata that a book carries in its package document, brought into one
//! form.

use vstd::prelude::*;
use vstd::slice::slice_subrange;

use crate::package::{can_open, open_package, package_of};
use crate::text::{
    chars_of, clone_text, clone_texts, contains, contains_chars, find_bounds, glue, is_blank,
    is_blank_text, is_space, is_space_char, pair, position, position_bounds, pushed_view,
    same_but_case, same_but_case_chars, same_text, split, splitting_finds_what_stands_between,
    stands_at, stands_between, trim, trim_chars, trim_keeps, trim_range, trimmed, viewed, views,
};

verus! {

/// A refinement of a metadata item, such as the role of a creator.
#[derive(Debug, Clone, PartialEq, Eq)]
pub struct MetadataRefinement {
    pub property: String,
    pub value: String,
}

pub struct RefinementModel {
    pub property: Seq<char>,
    pub value: Seq<char>,
}

impl View for MetadataRefinement {
    type V = RefinementModel;

    open spec fn view(&self) -> RefinementModel {
        RefinementModel { property: self.property@, value: self.value@ }
    }
}

/// An item of a package document's metadata, in the order of the document.
#[derive(Debug, Clone, PartialEq, Eq)]
pub struct MetadataItem {
    pub property: String,
    pub value: String,
    pub refined: Vec<MetadataRefinement>,
}

pub struct ItemModel {
    pub property: Seq<char>,
    pub value: Seq<char>,
    pub refined: Seq<RefinementModel>,
}

impl View for MetadataItem {
    type V = ItemModel;

    open spec fn view(&self) -> ItemModel {
        ItemModel { property: self.property@, value: self.value@, refined: views(self.refined@) }
    }
}

/// The metadata of a package document, and the identifier that it calls the
/// book's own.
#[derive(Debug, Clone, PartialEq, Eq)]
pub struct PackageMetadata {
    pub items: Vec<MetadataItem>,
    pub unique_identifier: Option<String>,
}

pub struct PackageModel {
    pub items: Seq<ItemModel>,
    pub unique_identifier: Option<Seq<char>>,
}

impl View for PackageMetadata {
    type V = PackageModel;

    open spec fn view(&self) -> PackageModel {
        PackageModel {
            items: views(self.items@),
            unique_identifier: viewed(self.unique_identifier),
        }
    }
}

/// Why a package document could not be read.
#[derive(Debug, Clone, PartialEq, Eq)]
pub enum DocFailure {
    Io(String),
    Archive(String),
    Xml(String),
    InvalidEpub,
}

pub enum FailureModel {
    Io(Seq<char>),
    Archive(Seq<char>),
    Xml(Seq<char>),
    InvalidEpub,
}

impl View for DocFailure {
    type V = FailureModel;

    open spec fn view(&self) -> FailureModel {
        match self {
            DocFailure::Io(message) => FailureModel::Io(message@),
            DocFailure::Archive(message) => FailureModel::Archive(message@),
            DocFailure::Xml(message) => FailureModel::Xml(message@),
            DocFailure::InvalidEpub => FailureModel::InvalidEpub,
        }
    }
}

/// A package document that was opened, or why it was not, in plain values.
pub open spec fn opened_model(opened: Result<PackageMetadata, DocFailure>) -> Result<
    PackageModel,
    FailureModel,
> {
    match opened {
        Ok(package) => Ok(package@),
        Err(failure) => Err(failure@),
    }
}

#[derive(Debug, PartialEq, Eq)]
pub struct MetadataIdentifier {
    pub value: String,
    pub scheme: Option<String>,
    pub is_unique: bool,
}

pub struct IdentifierModel {
    pub value: Seq<char>,
    pub scheme: Option<Seq<char>>,
    pub is_unique: bool,
}

impl View for MetadataIdentifier {
    type V = IdentifierModel;

    open spec fn view(&self) -> IdentifierModel {
        IdentifierModel {
            value: self.value@,
            scheme: viewed(self.scheme),
            is_unique: self.is_unique,
        }
    }
}

impl Clone for MetadataIdentifier {
    fn clone(&self) -> (copy: Self)
        ensures
            copy@ == self@,
    {
        MetadataIdentifier {
            value: self.value.clone(),
            scheme: clone_text(&self.scheme),
            is_unique: self.is_unique,
        }
    }
}

/// What a book says of itself.
#[derive(Debug, PartialEq, Eq)]
pub struct NormalizedMetadata {
    pub title: Option<String>,
    pub authors: Vec<String>,
    pub language: Option<String>,
    pub identifiers: Vec<MetadataIdentifier>,
    pub series: Option<String>,
    pub series_index: Option<String>,
    pub warnings: Vec<String>,
}

pub struct BookModel {
    pub title: Option<Seq<char>>,
    pub authors: Seq<Seq<char>>,
    pub language: Option<Seq<char>>,
    pub identifiers: Seq<IdentifierModel>,
    pub series: Option<Seq<char>>,
    pub series_index: Option<Seq<char>>,
    pub warnings: Seq<Seq<char>>,
}

impl View for NormalizedMetadata {
    type V = BookModel;

    open spec fn view(&self) -> BookModel {
        BookModel {
            title: viewed(self.title),
            authors: views(self.authors@),
            language: viewed(self.language),
            identifiers: views(self.identifiers@),
            series: viewed(self.series),
            series_index: viewed(self.series_index),
            warnings: views(self.warnings@),
        }
    }
}

/// Copies a list of identifiers.
pub fn clone_identifiers(identifiers: &Vec<MetadataIdentifier>) -> (copy: Vec<MetadataIdentifier>)
    ensures
        views(copy@) == views(identifiers@),
{
    let mut copy: Vec<MetadataIdentifier> = Vec::new();
    let mut i: usize = 0;
    while i < identifiers.len()
        invariant
            i <= identifiers.len(),
            views(copy@) == views(identifiers@).take(i as int),
        decreases identifiers.len() - i,
    {
        let ghost before = copy@;
        let identifier = identifiers[i].clone();
        copy.push(identifier);
        proof {
            pushed_view(before, identifier);
            assert(views(identifiers@).take(i as int).push(identifier@) =~= views(
                identifiers@,
            ).take(i + 1));
        }
        i += 1;
    }
    assert(views(identifiers@).take(i as int) =~= views(identifiers@));
    copy
}

impl Clone for NormalizedMetadata {
    fn clone(&self) -> (copy: Self)
        ensures
            copy@ == self@,
    {
        NormalizedMetadata {
            title: clone_text(&self.title),
            authors: clone_texts(&self.authors),
            language: clone_text(&self.language),
            identifiers: clone_identifiers(&self.identifiers),
            series: clone_text(&self.series),
            series_index: clone_text(&self.series_index),
            warnings: clone_texts(&self.warnings),
        }
    }
}

impl BookModel {
    /// A book that says nothing of itself.
    pub open spec fn empty() -> BookModel {
        BookModel {
            title: None,
            authors: Seq::empty(),
            language: None,
            identifiers: Seq::empty(),
            series: None,
            series_index: None,
            warnings: Seq::empty(),
        }
    }

    /// The warnings for what every book should say of itself.
    pub open spec fn missing_required(self) -> Seq<Seq<char>> {
        let title = if self.title is None {
            seq!["missing_title"@]
        } else {
            Seq::empty()
        };
        let author = if self.authors.len() == 0 {
            seq!["missing_author"@]
        } else {
            Seq::empty()
        };
        let language = if self.language is None {
            seq!["missing_language"@]
        } else {
            Seq::empty()
        };
        title + author + language
    }
}

impl Default for NormalizedMetadata {
    fn default() -> (empty: Self)
        ensures
            empty@ == BookModel::empty(),
    {
        let empty = NormalizedMetadata {
            title: None,
            authors: Vec::new(),
            language: None,
            identifiers: Vec::new(),
            series: None,
            series_index: None,
            warnings: Vec::new(),
        };
        proof {
            assert(empty@.authors =~= Seq::empty());
            assert(empty@.identifiers =~= Seq::empty());
            assert(empty@.warnings =~= Seq::empty());
        }
        empty
    }
}

impl NormalizedMetadata {
    pub fn missing_required_warnings(&self) -> (warnings: Vec<String>)
        ensures
            views(warnings@) == self@.missing_required(),
    {
        let mut warnings: Vec<String> = Vec::new();
        if self.title.is_none() {
            warnings.push("missing_title".to_owned());
        }
        if self.authors.len() == 0 {
            warnings.push("missing_author".to_owned());
        }
        if self.language.is_none() {
            warnings.push("missing_language".to_owned());
        }
        assert(views(warnings@) =~= self@.missing_required());
        warnings
    }
}

#[derive(Debug, Clone, PartialEq, Eq)]
pub enum EpubMetadataError {
    UnreadableEpub { message: String },
    MissingContainer,
    MalformedContainer { message: String },
    MissingRootfile,
    MissingPackageDocument { path: String },
    MalformedPackageDocument { path: String, message: String },
}

pub enum ErrorKind {
    UnreadableEpub { message: Seq<char> },
    MissingContainer,
    MalformedContainer { message: Seq<char> },
    MissingRootfile,
    MissingPackageDocument { path: Seq<char> },
    MalformedPackageDocument { path: Seq<char>, message: Seq<char> },
}

impl View for EpubMetadataError {
    type V = ErrorKind;

    open spec fn view(&self) -> ErrorKind {
        match self {
            EpubMetadataError::UnreadableEpub { message } => ErrorKind::UnreadableEpub {
                message: message@,
            },
            EpubMetadataError::MissingContainer => ErrorKind::MissingContainer,
            EpubMetadataError::MalformedContainer { message } => ErrorKind::MalformedContainer {
                message: message@,
            },
            EpubMetadataError::MissingRootfile => ErrorKind::MissingRootfile,
            EpubMetadataError::MissingPackageDocument { path } => ErrorKind::MissingPackageDocument {
                path: path@,
            },
            EpubMetadataError::MalformedPackageDocument { path, message }
                => ErrorKind::MalformedPackageDocument { path: path@, message: message@ },
        }
    }
}

impl ErrorKind {
    pub open spec fn code(self) -> Seq<char> {
        match self {
            ErrorKind::UnreadableEpub { .. } => "unreadable_epub"@,
            ErrorKind::MissingContainer => "missing_container_xml"@,
            ErrorKind::MalformedContainer { .. } => "malformed_container_xml"@,
            ErrorKind::MissingRootfile => "missing_rootfile"@,
            ErrorKind::MissingPackageDocument { .. } => "missing_package_document"@,
            ErrorKind::MalformedPackageDocument { .. } => "malformed_package_document"@,
        }
    }

    pub open spec fn message(self) -> Seq<char> {
        match self {
            ErrorKind::UnreadableEpub { message } => "unreadable EPUB: "@ + message,
            ErrorKind::MissingContainer => "missing META-INF/container.xml"@,
            ErrorKind::MalformedContainer { message } => "malformed META-INF/container.xml: "@
                + message,
            ErrorKind::MissingRootfile => "META-INF/container.xml has no rootfile full-path"@,
            ErrorKind::MissingPackageDocument { path } => "package document not found at "@ + path,
            ErrorKind::MalformedPackageDocument { path, message } => "malformed package document "@
                + path + ": "@ + message,
        }
    }
}

impl EpubMetadataError {
    /// The error's name in reports.
    pub fn code(&self) -> (code: &'static str)
        ensures
            code@ == self@.code(),
    {
        match self {
            EpubMetadataError::UnreadableEpub { .. } => "unreadable_epub",
            EpubMetadataError::MissingContainer => "missing_container_xml",
            EpubMetadataError::MalformedContainer { .. } => "malformed_container_xml",
            EpubMetadataError::MissingRootfile => "missing_rootfile",
            EpubMetadataError::MissingPackageDocument { .. } => "missing_package_document",
            EpubMetadataError::MalformedPackageDocument { .. } => "malformed_package_document",
        }
    }

    /// What the error says to a reader.
    pub fn message(&self) -> (message: String)
        ensures
            message@ == self@.message(),
    {
        match self {
            EpubMetadataError::UnreadableEpub { message } => pair(
                "unreadable EPUB: ",
                message.as_str(),
            ),
            EpubMetadataError::MissingContainer => "missing META-INF/container.xml".to_owned(),
            EpubMetadataError::MalformedContainer { message } => pair(
                "malformed META-INF/container.xml: ",
                message.as_str(),
            ),
            EpubMetadataError::MissingRootfile
                => "META-INF/container.xml has no rootfile full-path".to_owned(),
            EpubMetadataError::MissingPackageDocument { path } => pair(
                "package document not found at ",
                path.as_str(),
            ),
            EpubMetadataError::MalformedPackageDocument { path, message } => {
                let start = glue("malformed package document ", path.as_str(), ": ");
                pair(start.as_str(), message.as_str())
            },
        }
    }
}

/// The first item of a property.
pub open spec fn first_item(items: Seq<ItemModel>, property: Seq<char>) -> Option<ItemModel>
    decreases items.len(),
{
    if items.len() == 0 {
        None
    } else if items[0].property == property {
        Some(items[0])
    } else {
        first_item(items.drop_first(), property)
    }
}

/// The first refinement of a property.
pub open spec fn first_refinement(refined: Seq<RefinementModel>, property: Seq<char>) -> Option<
    Seq<char>,
>
    decreases refined.len(),
{
    if refined.len() == 0 {
        None
    } else if refined[0].property == property {
        Some(refined[0].value)
    } else {
        first_refinement(refined.drop_first(), property)
    }
}

/// A text without white space at its ends, where anything is left of it.
pub open spec fn meaningful(value: Seq<char>) -> Option<Seq<char>> {
    if is_blank(value) {
        None
    } else {
        Some(trim(value))
    }
}

/// The value of the first item of a property, where it is not blank.
pub open spec fn first_value(items: Seq<ItemModel>, property: Seq<char>) -> Option<Seq<char>> {
    match first_item(items, property) {
        Some(item) => meaningful(item.value),
        None => None,
    }
}

/// The parts of a text between white space.
pub open spec fn words(value: Seq<char>) -> Seq<Seq<char>> {
    split(value, |c: char| is_space(c))
}

/// One of the words in `value` is `word`, in capitals or not.
pub open spec fn has_word(value: Seq<char>, word: Seq<char>) -> bool {
    exists|i: int|
        0 <= i < words(value).len() && same_but_case(#[trigger] words(value)[i], word)
}

/// A creator is an author where it has no role, or one that names authors.
pub open spec fn counts_as_author(item: ItemModel) -> bool {
    ||| forall|i: int| 0 <= i < item.refined.len() ==> (#[trigger] item.refined[i]).property != "role"@
    ||| exists|i: int|
        0 <= i < item.refined.len() && (#[trigger] item.refined[i]).property == "role"@ && has_word(
            item.refined[i].value,
            "aut"@,
        )
}

pub open spec fn is_author_item(item: ItemModel) -> bool {
    item.property == "creator"@ && counts_as_author(item) && !is_blank(item.value)
}

/// The authors of a book, in the order of its package document.
pub open spec fn authors_of(items: Seq<ItemModel>) -> Seq<Seq<char>> {
    items.filter(|item: ItemModel| is_author_item(item)).map_values(
        |item: ItemModel| trim(item.value),
    )
}

pub open spec fn is_identifier_item(item: ItemModel) -> bool {
    item.property == "identifier"@ && !is_blank(item.value)
}

pub open spec fn identifier_of(item: ItemModel, unique: Option<Seq<char>>) -> IdentifierModel {
    IdentifierModel {
        value: trim(item.value),
        scheme: first_refinement(item.refined, "scheme"@),
        is_unique: unique == Some(trim(item.value)),
    }
}

/// The identifiers of a book, in the order of its package document.
pub open spec fn identifiers_of(package: PackageModel) -> Seq<IdentifierModel> {
    package.items.filter(|item: ItemModel| is_identifier_item(item)).map_values(
        |item: ItemModel| identifier_of(item, package.unique_identifier),
    )
}

/// A series and the book's place in it.
pub struct SeriesModel {
    pub series: Seq<char>,
    pub series_index: Option<Seq<char>>,
}

/// An EPUB 3 collection that is a series.
pub open spec fn is_series_item(item: ItemModel) -> bool {
    &&& item.property == "belongs-to-collection"@
    &&& first_refinement(item.refined, "collection-type"@) is Some
    &&& same_but_case(trim(first_refinement(item.refined, "collection-type"@)->0), "series"@)
    &&& !is_blank(item.value)
}

pub open spec fn series_of_item(item: ItemModel) -> SeriesModel {
    SeriesModel {
        series: trim(item.value),
        series_index: match first_refinement(item.refined, "group-position"@) {
            Some(position) => meaningful(position),
            None => None,
        },
    }
}

/// The series that EPUB 3 collections name.
pub open spec fn collection_series(items: Seq<ItemModel>) -> Seq<SeriesModel> {
    items.filter(|item: ItemModel| is_series_item(item)).map_values(
        |item: ItemModel| series_of_item(item),
    )
}

/// The series that Calibre has noted.
pub open spec fn calibre_series(items: Seq<ItemModel>) -> Option<SeriesModel> {
    match first_value(items, "calibre:series"@) {
        Some(series) => Some(
            SeriesModel { series, series_index: first_value(items, "calibre:series_index"@) },
        ),
        None => None,
    }
}

pub open spec fn series_conflict(a: SeriesModel, b: SeriesModel) -> bool {
    a.series != b.series || (a.series_index is Some && b.series_index is Some && a.series_index
        != b.series_index)
}

/// The series of a book: the first EPUB 3 collection that is one, else what
/// Calibre has noted.
pub open spec fn chosen_series(items: Seq<ItemModel>) -> Option<SeriesModel> {
    if collection_series(items).len() > 0 {
        Some(collection_series(items)[0])
    } else {
        calibre_series(items)
    }
}

/// What is doubtful about the choice of the series.
pub open spec fn series_warnings(items: Seq<ItemModel>) -> Seq<Seq<char>> {
    let found = collection_series(items);
    let ambiguous = if found.len() > 1 {
        seq!["ambiguous_series"@]
    } else {
        Seq::empty()
    };
    let conflict = if found.len() > 0 && calibre_series(items) is Some && series_conflict(
        found[0],
        calibre_series(items)->0,
    ) {
        seq!["series_conflict"@]
    } else {
        Seq::empty()
    };
    ambiguous + conflict
}

/// What a book says of itself in its package document.
pub open spec fn book_of(package: PackageModel) -> BookModel {
    let series = chosen_series(package.items);
    BookModel {
        title: first_value(package.items, "title"@),
        authors: authors_of(package.items),
        language: first_value(package.items, "language"@),
        identifiers: identifiers_of(package),
        series: match series {
            Some(s) => Some(s.series),
            None => None,
        },
        series_index: match series {
            Some(s) => s.series_index,
            None => None,
        },
        warnings: series_warnings(package.items),
    }
}

proof fn filtered_push<A, B>(
    items: Seq<A>,
    item: A,
    keep: spec_fn(A) -> bool,
    to: spec_fn(A) -> B,
)
    ensures
        items.push(item).filter(keep).map_values(to) == if keep(item) {
            items.filter(keep).map_values(to).push(to(item))
        } else {
            items.filter(keep).map_values(to)
        },
{
    reveal(Seq::filter);
    assert(items.push(item).drop_last() =~= items);
    if keep(item) {
        assert(items.filter(keep).push(item).map_values(to) =~= items.filter(keep).map_values(
            to,
        ).push(to(item)));
    }
}

proof fn first_item_after(items: Seq<ItemModel>, property: Seq<char>, n: int)
    requires
        0 <= n <= items.len(),
        forall|i: int| 0 <= i < n ==> (#[trigger] items[i]).property != property,
    ensures
        n == items.len() ==> first_item(items, property) is None,
        n < items.len() && items[n].property == property ==> first_item(items, property) == Some(
            items[n],
        ),
    decreases items.len(),
{
    if n > 0 {
        assert forall|i: int| 0 <= i < n - 1 implies (
        #[trigger] items.drop_first()[i]).property != property by {
            assert(items.drop_first()[i] == items[i + 1]);
        }
        assert(items[0].property != property);
        first_item_after(items.drop_first(), property, n - 1);
    }
}

proof fn first_refinement_after(refined: Seq<RefinementModel>, property: Seq<char>, n: int)
    requires
        0 <= n <= refined.len(),
        forall|i: int| 0 <= i < n ==> (#[trigger] refined[i]).property != property,
    ensures
        n == refined.len() ==> first_refinement(refined, property) is None,
        n < refined.len() && refined[n].property == property ==> first_refinement(refined, property)
            == Some(refined[n].value),
    decreases refined.len(),
{
    if n > 0 {
        assert forall|i: int| 0 <= i < n - 1 implies (
        #[trigger] refined.drop_first()[i]).property != property by {
            assert(refined.drop_first()[i] == refined[i + 1]);
        }
        assert(refined[0].property != property);
        first_refinement_after(refined.drop_first(), property, n - 1);
    }
}

impl MetadataItem {
    /// The value of the first refinement of a property.
    fn refinement(&self, property: &str) -> (value: Option<&String>)
        ensures
            match value {
                Some(s) => first_refinement(self@.refined, property@) == Some(s@),
                None => first_refinement(self@.refined, property@) is None,
            },
    {
        let mut i: usize = 0;
        while i < self.refined.len()
            invariant
                i <= self.refined.len(),
                forall|j: int| 0 <= j < i ==> (#[trigger] self@.refined[j]).property != property@,
            decreases self.refined.len() - i,
        {
            if same_text(self.refined[i].property.as_str(), property) {
                proof {
                    first_refinement_after(self@.refined, property@, i as int);
                }
                return Some(&self.refined[i].value);
            }
            i += 1;
        }
        proof {
            first_refinement_after(self@.refined, property@, i as int);
        }
        None
    }
}

fn meaningful_text(value: &str) -> (out: Option<String>)
    ensures
        viewed(out) == meaningful(value@),
{
    if is_blank_text(value) {
        None
    } else {
        Some(trimmed(value))
    }
}

fn first_metadata_value(items: &Vec<MetadataItem>, property: &str) -> (value: Option<String>)
    ensures
        viewed(value) == first_value(views(items@), property@),
{
    let mut i: usize = 0;
    while i < items.len()
        invariant
            i <= items.len(),
            forall|j: int| 0 <= j < i ==> (#[trigger] views(items@)[j]).property != property@,
        decreases items.len() - i,
    {
        if same_text(items[i].property.as_str(), property) {
            proof {
                first_item_after(views(items@), property@, i as int);
            }
            return meaningful_text(items[i].value.as_str());
        }
        i += 1;
    }
    proof {
        first_item_after(views(items@), property@, i as int);
    }
    None
}

fn names_word(value: &str, word: &str) -> (yes: bool)
    ensures
        yes == has_word(value@, word@),
{
    let chars = chars_of(value);
    let wanted = chars_of(word);
    let ghost space = |c: char| is_space(c);
    let ghost mut done: Seq<Seq<char>> = Seq::empty();
    let mut start: usize = 0;
    let mut i: usize = 0;
    assert(value@.skip(0) =~= value@);
    assert(done + words(value@) =~= words(value@));
    while i < chars.len()
        invariant
            chars@ == value@,
            wanted@ == word@,
            space == (|c: char| is_space(c)),
            start <= i <= chars.len(),
            forall|j: int| start <= j < i ==> !is_space(chars@[j]),
            words(value@) == done + words(value@.skip(start as int)),
            forall|j: int| 0 <= j < done.len() ==> !same_but_case(#[trigger] done[j], word@),
        decreases chars.len() - i,
    {
        if is_space_char(chars[i]) {
            let part = slice_subrange(chars.as_slice(), start, i);
            proof {
                let rest = value@.skip(start as int);
                position_bounds(rest, space, 0);
                assert(rest[i - start] == chars@[i as int]);
                assert(position(rest, space, 0) == i - start);
                assert(rest.take(i - start) =~= part@);
                assert(rest.skip(i - start + 1) =~= value@.skip(i + 1));
                assert(done + words(rest) =~= done.push(part@) + words(value@.skip(i + 1)));
                assert(words(value@)[done.len() as int] == part@);
                done = done.push(part@);
            }
            if same_but_case_chars(part, wanted.as_slice()) {
                return true;
            }
            start = i + 1;
        }
        i += 1;
    }
    let part = slice_subrange(chars.as_slice(), start, chars.len());
    proof {
        let rest = value@.skip(start as int);
        position_bounds(rest, space, 0);
        assert(rest =~= part@);
        assert(words(rest) =~= seq![part@]);
        assert(words(value@)[done.len() as int] == part@);
        assert forall|j: int| 0 <= j < done.len() implies words(value@)[j] == done[j] by {}
    }
    same_but_case_chars(part, wanted.as_slice())
}

fn is_author(item: &MetadataItem) -> (yes: bool)
    ensures
        yes == counts_as_author(item@),
{
    let mut has_role = false;
    let mut i: usize = 0;
    while i < item.refined.len()
        invariant
            i <= item.refined.len(),
            has_role == (exists|j: int|
                0 <= j < i && (#[trigger] item@.refined[j]).property == "role"@),
            forall|j: int|
                0 <= j < i && (#[trigger] item@.refined[j]).property == "role"@ ==> !has_word(
                    item@.refined[j].value,
                    "aut"@,
                ),
        decreases item.refined.len() - i,
    {
        assert(item@.refined[i as int] == item.refined@[i as int]@);
        if same_text(item.refined[i].property.as_str(), "role") {
            has_role = true;
            if names_word(item.refined[i].value.as_str(), "aut") {
                return true;
            }
        }
        i += 1;
    }
    !has_role
}

/// A series and the book's place in it.
struct SeriesValue {
    series: String,
    series_index: Option<String>,
}

impl View for SeriesValue {
    type V = SeriesModel;

    closed spec fn view(&self) -> SeriesModel {
        SeriesModel { series: self.series@, series_index: viewed(self.series_index) }
    }
}

/// The series that a book was found to belong to, and what is doubtful about it.
struct SeriesSelection {
    series: Option<String>,
    series_index: Option<String>,
    warnings: Vec<String>,
}

fn series_values_conflict(epub3: &SeriesValue, calibre: &SeriesValue) -> (yes: bool)
    ensures
        yes == series_conflict(epub3@, calibre@),
{
    if !same_text(epub3.series.as_str(), calibre.series.as_str()) {
        return true;
    }
    match (&epub3.series_index, &calibre.series_index) {
        (Some(epub3_index), Some(calibre_index)) => !same_text(
            epub3_index.as_str(),
            calibre_index.as_str(),
        ),
        _ => false,
    }
}

/// Adds a warning that is not among the others yet.
fn push_warning_once(warnings: &mut Vec<String>, warning: &str)
    ensures
        views(final(warnings)@) == if views(old(warnings)@).contains(warning@) {
            views(old(warnings)@)
        } else {
            views(old(warnings)@).push(warning@)
        },
{
    let ghost before = warnings@;
    let mut i: usize = 0;
    while i < warnings.len()
        invariant
            i <= warnings.len(),
            warnings@ == before,
            forall|j: int| 0 <= j < i ==> #[trigger] views(before)[j] != warning@,
        decreases warnings.len() - i,
    {
        if same_text(warnings[i].as_str(), warning) {
            assert(views(before)[i as int] == warning@);
            return ;
        }
        i += 1;
    }
    let last = warning.to_owned();
    proof {
        pushed_view(before, last);
        assert(!views(before).contains(warning@));
    }
    warnings.push(last);
}

/// The series that an item names, if it is a collection that is one.
fn series_from_item(item: &MetadataItem) -> (found: Option<SeriesValue>)
    ensures
        match found {
            Some(value) => is_series_item(item@) && value@ == series_of_item(item@),
            None => !is_series_item(item@),
        },
{
    if !same_text(item.property.as_str(), "belongs-to-collection") {
        return None;
    }
    match item.refinement("collection-type") {
        None => return None,
        Some(kind) => {
            let kind_chars = chars_of(kind.as_str());
            let wanted = chars_of("series");
            if !same_but_case_chars(trim_chars(kind_chars.as_slice()), wanted.as_slice()) {
                return None;
            }
        },
    }
    match meaningful_text(item.value.as_str()) {
        None => None,
        Some(series) => {
            let series_index = match item.refinement("group-position") {
                None => None,
                Some(position) => meaningful_text(position.as_str()),
            };
            Some(SeriesValue { series, series_index })
        },
    }
}

fn select_series(items: &Vec<MetadataItem>) -> (selection: SeriesSelection)
    ensures
        viewed(selection.series) == match chosen_series(views(items@)) {
            Some(s) => Some(s.series),
            None => None,
        },
        viewed(selection.series_index) == match chosen_series(views(items@)) {
            Some(s) => s.series_index,
            None => None,
        },
        views(selection.warnings@) == series_warnings(views(items@)),
{
    let ghost model = views(items@);
    let ghost keep = |item: ItemModel| is_series_item(item);
    let ghost to = |item: ItemModel| series_of_item(item);
    let mut found: Vec<SeriesValue> = Vec::new();
    let mut i: usize = 0;
    proof {
        reveal(Seq::filter);
        assert(views(found@) =~= model.take(0).filter(keep).map_values(to));
    }
    while i < items.len()
        invariant
            i <= items.len(),
            model == views(items@),
            keep == (|item: ItemModel| is_series_item(item)),
            to == (|item: ItemModel| series_of_item(item)),
            views(found@) == model.take(i as int).filter(keep).map_values(to),
        decreases items.len() - i,
    {
        proof {
            assert(model.take(i + 1) =~= model.take(i as int).push(model[i as int]));
            filtered_push(model.take(i as int), model[i as int], keep, to);
        }
        match series_from_item(&items[i]) {
            Some(value) => {
                proof {
                    pushed_view(found@, value);
                }
                found.push(value);
            },
            None => {},
        }
        i += 1;
    }
    assert(model.take(i as int) =~= model);
    assert(views(found@) == collection_series(model));
    let calibre: Option<SeriesValue> = match first_metadata_value(items, "calibre:series") {
        Some(series) => Some(
            SeriesValue {
                series,
                series_index: first_metadata_value(items, "calibre:series_index"),
            },
        ),
        None => None,
    };
    assert(viewed(calibre) == calibre_series(model));
    let mut warnings: Vec<String> = Vec::new();
    assert(views(warnings@) =~= Seq::empty());
    if found.len() > 0 {
        let epub3 = &found[0];
        assert(epub3@ == collection_series(model)[0]);
        if found.len() > 1 {
            push_warning_once(&mut warnings, "ambiguous_series");
        }
        let conflict = match &calibre {
            Some(noted) => series_values_conflict(epub3, noted),
            None => false,
        };
        if conflict {
            proof {
                reveal_strlit("ambiguous_series");
                reveal_strlit("series_conflict");
                assert("ambiguous_series"@.len() != "series_conflict"@.len());
            }
            push_warning_once(&mut warnings, "series_conflict");
        }
        assert(views(warnings@) =~= series_warnings(model));
        return SeriesSelection {
            series: Some(epub3.series.clone()),
            series_index: clone_text(&epub3.series_index),
            warnings,
        };
    }
    assert(views(warnings@) =~= series_warnings(model));
    match calibre {
        Some(noted) => SeriesSelection {
            series: Some(noted.series),
            series_index: noted.series_index,
            warnings,
        },
        None => SeriesSelection { series: None, series_index: None, warnings },
    }
}

fn read_authors(items: &Vec<MetadataItem>) -> (authors: Vec<String>)
    ensures
        views(authors@) == authors_of(views(items@)),
{
    let ghost model = views(items@);
    let ghost keep = |item: ItemModel| is_author_item(item);
    let ghost to = |item: ItemModel| trim(item.value);
    let mut authors: Vec<String> = Vec::new();
    let mut i: usize = 0;
    proof {
        reveal(Seq::filter);
        assert(views(authors@) =~= model.take(0).filter(keep).map_values(to));
    }
    while i < items.len()
        invariant
            i <= items.len(),
            model == views(items@),
            keep == (|item: ItemModel| is_author_item(item)),
            to == (|item: ItemModel| trim(item.value)),
            views(authors@) == model.take(i as int).filter(keep).map_values(to),
        decreases items.len() - i,
    {
        let item = &items[i];
        proof {
            assert(model.take(i + 1) =~= model.take(i as int).push(model[i as int]));
            filtered_push(model.take(i as int), model[i as int], keep, to);
        }
        if same_text(item.property.as_str(), "creator") && is_author(item) && !is_blank_text(
            item.value.as_str(),
        ) {
            let author = trimmed(item.value.as_str());
            proof {
                pushed_view(authors@, author);
            }
            authors.push(author);
        }
        i += 1;
    }
    assert(model.take(i as int) =~= model);
    authors
}

fn read_identifiers(package: &PackageMetadata) -> (identifiers: Vec<MetadataIdentifier>)
    ensures
        views(identifiers@) == identifiers_of(package@),
{
    let ghost model = package@.items;
    let ghost unique = package@.unique_identifier;
    let ghost keep = |item: ItemModel| is_identifier_item(item);
    let ghost to = |item: ItemModel| identifier_of(item, unique);
    let mut identifiers: Vec<MetadataIdentifier> = Vec::new();
    let mut i: usize = 0;
    proof {
        reveal(Seq::filter);
        assert(views(identifiers@) =~= model.take(0).filter(keep).map_values(to));
    }
    while i < package.items.len()
        invariant
            i <= package.items.len(),
            model == package@.items,
            unique == package@.unique_identifier,
            keep == (|item: ItemModel| is_identifier_item(item)),
            to == (|item: ItemModel| identifier_of(item, unique)),
            views(identifiers@) == model.take(i as int).filter(keep).map_values(to),
        decreases package.items.len() - i,
    {
        let item = &package.items[i];
        proof {
            assert(model.take(i + 1) =~= model.take(i as int).push(model[i as int]));
            filtered_push(model.take(i as int), model[i as int], keep, to);
        }
        if same_text(item.property.as_str(), "identifier") && !is_blank_text(item.value.as_str()) {
            let value = trimmed(item.value.as_str());
            let scheme = match item.refinement("scheme") {
                Some(scheme) => Some(scheme.clone()),
                None => None,
            };
            let is_unique = match &package.unique_identifier {
                Some(id) => same_text(id.as_str(), value.as_str()),
                None => false,
            };
            let identifier = MetadataIdentifier { value, scheme, is_unique };
            proof {
                pushed_view(identifiers@, identifier);
            }
            identifiers.push(identifier);
        }
        i += 1;
    }
    assert(model.take(i as int) =~= model);
    identifiers
}

/// What a book says of itself in its package document.
pub fn normalize_doc_metadata(package: &PackageMetadata) -> (metadata: NormalizedMetadata)
    ensures
        metadata@ == book_of(package@),
{
    let selection = select_series(&package.items);
    NormalizedMetadata {
        title: first_metadata_value(&package.items, "title"),
        authors: read_authors(&package.items),
        language: first_metadata_value(&package.items, "language"),
        identifiers: read_identifiers(package),
        series: selection.series,
        series_index: selection.series_index,
        warnings: selection.warnings,
    }
}

/// The error that a failure to read a package document is reported as.
pub open spec fn reported_error(failure: FailureModel) -> ErrorKind {
    match failure {
        FailureModel::Io(message) => ErrorKind::UnreadableEpub { message },
        FailureModel::Archive(message) => if contains(message, "META-INF/container.xml"@) {
            ErrorKind::MissingContainer
        } else {
            ErrorKind::UnreadableEpub { message }
        },
        FailureModel::Xml(message) => ErrorKind::MalformedPackageDocument {
            path: "package document"@,
            message,
        },
        FailureModel::InvalidEpub => ErrorKind::MalformedPackageDocument {
            path: "package document"@,
            message: "invalid EPUB package document"@,
        },
    }
}

pub fn map_epub_error(failure: DocFailure) -> (error: EpubMetadataError)
    ensures
        error@ == reported_error(failure@),
{
    match failure {
        DocFailure::Io(message) => EpubMetadataError::UnreadableEpub { message },
        DocFailure::Archive(message) => {
            if contains_chars(
                chars_of(message.as_str()).as_slice(),
                chars_of("META-INF/container.xml").as_slice(),
            ) {
                EpubMetadataError::MissingContainer
            } else {
                EpubMetadataError::UnreadableEpub { message }
            }
        },
        DocFailure::Xml(message) => EpubMetadataError::MalformedPackageDocument {
            path: "package document".to_owned(),
            message,
        },
        DocFailure::InvalidEpub => EpubMetadataError::MalformedPackageDocument {
            path: "package document".to_owned(),
            message: "invalid EPUB package document".to_owned(),
        },
    }
}

/// What a book says of itself, or why that is not known, given what opening its
/// package document came to.
pub open spec fn metadata_of(opened: Result<PackageModel, FailureModel>) -> Result<
    BookModel,
    ErrorKind,
> {
    match opened {
        Ok(package) => Ok(book_of(package)),
        Err(failure) => Err(reported_error(failure)),
    }
}

/// The metadata that was read, or why it was not, in plain values.
pub open spec fn read_model(read: Result<NormalizedMetadata, EpubMetadataError>) -> Result<
    BookModel,
    ErrorKind,
> {
    match read {
        Ok(metadata) => Ok(metadata@),
        Err(error) => Err(error@),
    }
}

/// What a book says of itself, given what opening its package document came to.
pub fn metadata_from_package(opened: Result<PackageMetadata, DocFailure>) -> (read: Result<
    NormalizedMetadata,
    EpubMetadataError,
>)
    ensures
        read_model(read) == metadata_of(opened_model(opened)),
{
    match opened {
        Ok(package) => Ok(normalize_doc_metadata(&package)),
        Err(failure) => Err(map_epub_error(failure)),
    }
}

/// What a book says of itself, read from the bytes of its file. Nothing is read
/// where the book's container document does not plainly name a file: see
/// [`can_open`].
pub fn read_embedded_metadata(epub: Vec<u8>) -> (read: Option<
    Result<NormalizedMetadata, EpubMetadataError>,
>)
    ensures
        match read {
            Some(outcome) => can_open(epub@) && read_model(outcome) == metadata_of(
                package_of(epub@),
            ),
            None => !can_open(epub@),
        },
{
    match open_package(epub) {
        Some(opened) => Some(metadata_from_package(opened)),
        None => None,
    }
}

/// What a book says of itself, as far as it says anything, is never blank, and a
/// place in a series comes with the series.
pub proof fn what_is_read_is_meaningful(package: PackageModel)
    ensures
        ({
            let book = book_of(package);
            &&& book.title is Some ==> !is_blank(book.title->0)
            &&& book.language is Some ==> !is_blank(book.language->0)
            &&& book.series is Some ==> !is_blank(book.series->0)
            &&& book.series_index is Some ==> book.series is Some && !is_blank(book.series_index->0)
            &&& forall|i: int| 0 <= i < book.authors.len() ==> !is_blank(#[trigger] book.authors[i])
            &&& forall|i: int|
                0 <= i < book.identifiers.len() ==> !is_blank((#[trigger] book.identifiers[i]).value)
        }),
{
    let items = package.items;
    assert forall|s: Seq<char>| !is_blank(s) implies !is_blank(#[trigger] trim(s)) by {
        trim_twice(s);
    }
    let authors = items.filter(|item: ItemModel| is_author_item(item));
    assert forall|i: int| 0 <= i < authors.len() implies is_author_item(#[trigger] authors[i]) by {
        items.lemma_filter_pred(|item: ItemModel| is_author_item(item), i);
    }
    let ids = items.filter(|item: ItemModel| is_identifier_item(item));
    assert forall|i: int| 0 <= i < ids.len() implies is_identifier_item(#[trigger] ids[i]) by {
        items.lemma_filter_pred(|item: ItemModel| is_identifier_item(item), i);
    }
    let series = items.filter(|item: ItemModel| is_series_item(item));
    if series.len() > 0 {
        items.lemma_filter_pred(|item: ItemModel| is_series_item(item), 0);
    }
}

proof fn trim_twice(s: Seq<char>)
    ensures
        trim(trim(s)) == trim(s),
{
    trim_range(s, |c: char| is_space(c));
    trim_keeps(trim(s), |c: char| is_space(c));
}

/// Where EPUB 3 collections name a series, what Calibre has noted changes neither
/// the series nor the book's place in it.
pub proof fn collections_come_before_calibre(a: PackageModel, b: PackageModel)
    requires
        collection_series(a.items) == collection_series(b.items),
        collection_series(a.items).len() > 0,
    ensures
        book_of(a).series == book_of(b).series,
        book_of(a).series_index == book_of(b).series_index,
{
}

/// Whether an item of a property stands at a place and none before it.
pub open spec fn is_first_item(items: Seq<ItemModel>, property: Seq<char>, place: int) -> bool {
    &&& 0 <= place < items.len()
    &&& items[place].property == property
    &&& forall|i: int| 0 <= i < place ==> (#[trigger] items[i]).property != property
}

/// Whether a refinement of a property stands at a place and none before it.
pub open spec fn is_first_refinement(
    refined: Seq<RefinementModel>,
    property: Seq<char>,
    place: int,
) -> bool {
    &&& 0 <= place < refined.len()
    &&& refined[place].property == property
    &&& forall|i: int| 0 <= i < place ==> (#[trigger] refined[i]).property != property
}

/// What the first item of a property says, without the white space at its ends;
/// nothing where no item has the property or the first one is blank.
pub open spec fn said_first(items: Seq<ItemModel>, property: Seq<char>) -> Option<Seq<char>> {
    if exists|place: int|
        is_first_item(items, property, place) && !is_blank((#[trigger] items[place]).value) {
        let place = choose|place: int|
            is_first_item(items, property, place) && !is_blank((#[trigger] items[place]).value);
        Some(trim(items[place].value))
    } else {
        None
    }
}

/// Whether an item names a series: a collection with a name, whose first type is
/// "series", in capitals or not.
pub open spec fn names_a_series(item: ItemModel) -> bool {
    &&& item.property == "belongs-to-collection"@
    &&& !is_blank(item.value)
    &&& exists|i: int| #[trigger]
        is_first_refinement(item.refined, "collection-type"@, i) && same_but_case(
            trim(item.refined[i].value),
            "series"@,
        )
}

proof fn some_item_is_first(items: Seq<ItemModel>, property: Seq<char>)
    ensures
        first_item(items, property) is Some ==> exists|place: int|
            is_first_item(items, property, place) && first_item(items, property) == Some(
                #[trigger] items[place],
            ),
    decreases items.len(),
{
    if items.len() > 0 {
        if items[0].property == property {
            assert(is_first_item(items, property, 0));
        } else if first_item(items, property) is Some {
            let rest = items.drop_first();
            some_item_is_first(rest, property);
            let place = choose|place: int|
                is_first_item(rest, property, place) && first_item(rest, property) == Some(
                    #[trigger] rest[place],
                );
            assert forall|i: int| 0 <= i < place + 1 implies (#[trigger] items[i]).property
                != property by {
                if i > 0 {
                    assert(items[i] == rest[i - 1]);
                }
            }
            assert(is_first_item(items, property, place + 1));
            assert(items[place + 1] == rest[place]);
        }
    }
}

proof fn some_refinement_is_first(refined: Seq<RefinementModel>, property: Seq<char>)
    ensures
        first_refinement(refined, property) is Some ==> exists|place: int|
            is_first_refinement(refined, property, place) && first_refinement(refined, property)
                == Some((#[trigger] refined[place]).value),
    decreases refined.len(),
{
    if refined.len() > 0 {
        if refined[0].property == property {
            assert(is_first_refinement(refined, property, 0));
        } else if first_refinement(refined, property) is Some {
            let rest = refined.drop_first();
            some_refinement_is_first(rest, property);
            let place = choose|place: int|
                is_first_refinement(rest, property, place) && first_refinement(rest, property)
                    == Some((#[trigger] rest[place]).value);
            assert forall|i: int| 0 <= i < place + 1 implies (#[trigger] refined[i]).property
                != property by {
                if i > 0 {
                    assert(refined[i] == rest[i - 1]);
                }
            }
            assert(is_first_refinement(refined, property, place + 1));
            assert(refined[place + 1] == rest[place]);
        }
    }
}

proof fn the_first_item_says_it(items: Seq<ItemModel>, property: Seq<char>)
    ensures
        first_value(items, property) == said_first(items, property),
{
    some_item_is_first(items, property);
    assert forall|place: int| #[trigger] is_first_item(items, property, place) implies first_item(
        items,
        property,
    ) == Some(items[place]) by {
        first_item_after(items, property, place);
    }
    if first_value(items, property) is Some {
        let place = choose|place: int|
            is_first_item(items, property, place) && first_item(items, property) == Some(
                #[trigger] items[place],
            );
        assert(!is_blank(items[place].value));
    }
}

proof fn series_items_name_series(item: ItemModel)
    ensures
        is_series_item(item) <==> names_a_series(item),
{
    some_refinement_is_first(item.refined, "collection-type"@);
    assert forall|i: int| #[trigger] is_first_refinement(item.refined, "collection-type"@, i)
        implies first_refinement(item.refined, "collection-type"@) == Some(
        item.refined[i].value,
    ) by {
        first_refinement_after(item.refined, "collection-type"@, i);
    }
    if is_series_item(item) {
        let i = choose|i: int|
            is_first_refinement(item.refined, "collection-type"@, i) && first_refinement(
                item.refined,
                "collection-type"@,
            ) == Some((#[trigger] item.refined[i]).value);
        assert(is_first_refinement(item.refined, "collection-type"@, i));
    }
}

proof fn filter_of_none<A>(items: Seq<A>, keep: spec_fn(A) -> bool)
    requires
        forall|i: int| 0 <= i < items.len() ==> !keep(#[trigger] items[i]),
    ensures
        items.filter(keep).len() == 0,
    decreases items.len(),
{
    reveal(Seq::filter);
    if items.len() > 0 {
        assert(!keep(items.last()));
        assert forall|i: int| 0 <= i < items.drop_last().len() implies !keep(
            #[trigger] items.drop_last()[i],
        ) by {
            assert(items.drop_last()[i] == items[i]);
        }
        filter_of_none(items.drop_last(), keep);
    }
}

proof fn filter_starts_with<A>(items: Seq<A>, keep: spec_fn(A) -> bool, place: int)
    requires
        0 <= place < items.len(),
        keep(items[place]),
        forall|i: int| 0 <= i < place ==> !keep(#[trigger] items[i]),
    ensures
        items.filter(keep).len() > 0,
        items.filter(keep)[0] == items[place],
        (exists|i: int| place < i < items.len() && keep(#[trigger] items[i])) <==> items.filter(
            keep,
        ).len() > 1,
    decreases items.len(),
{
    reveal(Seq::filter);
    let rest = items.drop_last();
    if place == items.len() - 1 {
        assert forall|i: int| 0 <= i < rest.len() implies !keep(#[trigger] rest[i]) by {
            assert(rest[i] == items[i]);
        }
        filter_of_none(rest, keep);
    } else {
        assert forall|i: int| 0 <= i < place implies !keep(#[trigger] rest[i]) by {
            assert(rest[i] == items[i]);
        }
        filter_starts_with(rest, keep, place);
        if keep(items.last()) {
            assert(keep(items[items.len() - 1]));
        } else if exists|i: int| place < i < items.len() && keep(#[trigger] items[i]) {
            let i = choose|i: int| place < i < items.len() && keep(#[trigger] items[i]);
            assert(keep(rest[i]));
        }
        if exists|i: int| place < i < rest.len() && keep(#[trigger] rest[i]) {
            let i = choose|i: int| place < i < rest.len() && keep(#[trigger] rest[i]);
            assert(keep(items[i]));
        }
    }
}

/// The title and the language of a book are what the first item of each property
/// says, and nothing where that item is blank, whatever follows it.
pub proof fn the_first_title_and_language_count(package: PackageModel)
    ensures
        book_of(package).title == said_first(package.items, "title"@),
        book_of(package).language == said_first(package.items, "language"@),
{
    the_first_item_says_it(package.items, "title"@);
    the_first_item_says_it(package.items, "language"@);
}

/// Where a collection that is a series stands first among such collections, the
/// book's series is its name and the place in it the whole of its first
/// group-position, both without the white space at their ends alone; a
/// group-position that is blank or missing is none.
pub proof fn the_first_series_collection_is_read_in_full(package: PackageModel, place: int)
    requires
        0 <= place < package.items.len(),
        names_a_series(package.items[place]),
        forall|i: int| 0 <= i < place ==> !names_a_series(#[trigger] package.items[i]),
    ensures
        ({
            let item = package.items[place];
            let book = book_of(package);
            &&& book.series == Some(trim(item.value))
            &&& forall|i: int| #[trigger]
                is_first_refinement(item.refined, "group-position"@, i) ==> book.series_index
                    == if is_blank(item.refined[i].value) {
                    None
                } else {
                    Some(trim(item.refined[i].value))
                }
            &&& (forall|i: int|
                0 <= i < item.refined.len() ==> (#[trigger] item.refined[i]).property
                    != "group-position"@) ==> book.series_index is None
        }),
{
    let item = package.items[place];
    let keep = |item: ItemModel| is_series_item(item);
    assert forall|i: int| 0 <= i < package.items.len() implies keep(#[trigger] package.items[i])
        == names_a_series(package.items[i]) by {
        series_items_name_series(package.items[i]);
    }
    filter_starts_with(package.items, keep, place);
    assert(chosen_series(package.items) == Some(series_of_item(item)));
    assert forall|i: int| #[trigger] is_first_refinement(item.refined, "group-position"@, i)
        implies first_refinement(item.refined, "group-position"@) == Some(item.refined[i].value) by {
        first_refinement_after(item.refined, "group-position"@, i);
    }
    if forall|i: int|
        0 <= i < item.refined.len() ==> (#[trigger] item.refined[i]).property
            != "group-position"@ {
        first_refinement_after(item.refined, "group-position"@, item.refined.len() as int);
    }
}

/// Where no collection is a series, the series and the place in it are what Calibre
/// has noted first, and without a series there is no place in one.
pub proof fn calibre_stands_in_for_collections(package: PackageModel)
    requires
        forall|i: int| 0 <= i < package.items.len() ==> !names_a_series(#[trigger] package.items[i]),
    ensures
        ({
            let book = book_of(package);
            &&& book.series == said_first(package.items, "calibre:series"@)
            &&& book.series_index == if book.series is Some {
                said_first(package.items, "calibre:series_index"@)
            } else {
                None
            }
            &&& book.warnings.len() == 0
        }),
{
    let keep = |item: ItemModel| is_series_item(item);
    assert forall|i: int| 0 <= i < package.items.len() implies !keep(#[trigger] package.items[i]) by {
        series_items_name_series(package.items[i]);
    }
    filter_of_none(package.items, keep);
    the_first_item_says_it(package.items, "calibre:series"@);
    the_first_item_says_it(package.items, "calibre:series_index"@);
}

/// A book's series is ambiguous where more than one collection is a series. It is
/// in conflict where Calibre has noted another series, or another place in it where
/// both name one.
pub proof fn doubtful_series_are_warned_of(package: PackageModel, place: int)
    requires
        0 <= place < package.items.len(),
        names_a_series(package.items[place]),
        forall|i: int| 0 <= i < place ==> !names_a_series(#[trigger] package.items[i]),
    ensures
        ({
            let book = book_of(package);
            let series = said_first(package.items, "calibre:series"@);
            let index = said_first(package.items, "calibre:series_index"@);
            &&& book.warnings.contains("ambiguous_series"@) <==> exists|i: int|
                place < i < package.items.len() && names_a_series(#[trigger] package.items[i])
            &&& book.warnings.contains("series_conflict"@) <==> series is Some && (series
                != book.series || (index is Some && book.series_index is Some && index
                != book.series_index))
        }),
{
    let keep = |item: ItemModel| is_series_item(item);
    assert forall|i: int| 0 <= i < package.items.len() implies keep(#[trigger] package.items[i])
        == names_a_series(package.items[i]) by {
        series_items_name_series(package.items[i]);
    }
    filter_starts_with(package.items, keep, place);
    the_first_item_says_it(package.items, "calibre:series"@);
    the_first_item_says_it(package.items, "calibre:series_index"@);
    reveal_strlit("ambiguous_series");
    reveal_strlit("series_conflict");
    assert("ambiguous_series"@.len() != "series_conflict"@.len());
    let warnings = book_of(package).warnings;
    if warnings.len() > 0 {
        assert(warnings.contains(warnings[0]));
        assert(warnings.contains(warnings.last()));
    }
    if exists|i: int| place < i < package.items.len() && names_a_series(#[trigger] package.items[i]) {
        let i = choose|i: int|
            place < i < package.items.len() && names_a_series(#[trigger] package.items[i]);
        assert(keep(package.items[i]));
    }
    if exists|i: int| place < i < package.items.len() && keep(#[trigger] package.items[i]) {
        let i = choose|i: int|
            place < i < package.items.len() && keep(#[trigger] package.items[i]);
        assert(names_a_series(package.items[i]));
    }
}

/// Whether the text between two places stands between white space and holds none.
pub open spec fn is_word(s: Seq<char>, from: int, to: int) -> bool {
    stands_between(s, |c: char| is_space(c), from, to)
}

/// Whether a role names authors: one of its words is "aut", in capitals or not.
pub open spec fn names_authors(role: Seq<char>) -> bool {
    exists|from: int, to: int| #[trigger]
        is_word(role, from, to) && same_but_case(role.subrange(from, to), "aut"@)
}

proof fn author_roles_hold_the_word(role: Seq<char>)
    ensures
        has_word(role, "aut"@) <==> names_authors(role),
{
    let space = |c: char| is_space(c);
    if has_word(role, "aut"@) {
        let i = choose|i: int|
            0 <= i < words(role).len() && same_but_case(#[trigger] words(role)[i], "aut"@);
        splitting_finds_what_stands_between(role, space, words(role)[i]);
        assert(words(role).contains(words(role)[i]));
        let (from, to) = choose|from: int, to: int| #[trigger]
            stands_between(role, space, from, to) && role.subrange(from, to) == words(role)[i];
        assert(is_word(role, from, to));
    }
    if names_authors(role) {
        let (from, to) = choose|from: int, to: int| #[trigger]
            is_word(role, from, to) && same_but_case(role.subrange(from, to), "aut"@);
        assert(stands_between(role, space, from, to));
        splitting_finds_what_stands_between(role, space, role.subrange(from, to));
        assert(words(role).contains(role.subrange(from, to)));
        let i = choose|i: int|
            0 <= i < words(role).len() && words(role)[i] == role.subrange(from, to);
        assert(same_but_case(words(role)[i], "aut"@));
    }
}

/// One more item at the end of a package document adds an author where it is a
/// creator with a name and either no role or a role that names authors, and
/// changes no author otherwise; a document without items has none.
pub proof fn creators_are_authors_unless_they_have_another_role(
    package: PackageModel,
    item: ItemModel,
)
    ensures
        ({
            let before = book_of(package).authors;
            let after = book_of(
                PackageModel { items: package.items.push(item), ..package },
            ).authors;
            let no_role = forall|i: int|
                0 <= i < item.refined.len() ==> (#[trigger] item.refined[i]).property != "role"@;
            let author_role = exists|i: int|
                0 <= i < item.refined.len() && (#[trigger] item.refined[i]).property == "role"@
                    && names_authors(item.refined[i].value);
            after == if item.property == "creator"@ && !is_blank(item.value) && (no_role
                || author_role) {
                before.push(trim(item.value))
            } else {
                before
            }
        }),
        package.items.len() == 0 ==> book_of(package).authors.len() == 0,
{
    filtered_push(
        package.items,
        item,
        |item: ItemModel| is_author_item(item),
        |item: ItemModel| trim(item.value),
    );
    assert forall|i: int| 0 <= i < item.refined.len() implies has_word(
        (#[trigger] item.refined[i]).value,
        "aut"@,
    ) == names_authors(item.refined[i].value) by {
        author_roles_hold_the_word(item.refined[i].value);
    }
    if package.items.len() == 0 {
        filter_of_none(package.items, |item: ItemModel| is_author_item(item));
    }
}

/// One more item at the end of a package document adds an identifier where it is
/// one and is not blank: its text without the white space at its ends, its first
/// scheme, and whether it is the one that the document calls unique. Any other item
/// changes none; a document without items has none.
pub proof fn identifiers_are_read_in_order(package: PackageModel, item: ItemModel)
    ensures
        ({
            let before = book_of(package).identifiers;
            let after = book_of(
                PackageModel { items: package.items.push(item), ..package },
            ).identifiers;
            if item.property == "identifier"@ && !is_blank(item.value) {
                &&& after.len() == before.len() + 1
                &&& after.drop_last() == before
                &&& after.last().value == trim(item.value)
                &&& after.last().is_unique <==> package.unique_identifier == Some(trim(item.value))
                &&& forall|i: int| #[trigger]
                    is_first_refinement(item.refined, "scheme"@, i) ==> after.last().scheme == Some(
                        item.refined[i].value,
                    )
                &&& (forall|i: int|
                    0 <= i < item.refined.len() ==> (#[trigger] item.refined[i]).property
                        != "scheme"@) ==> after.last().scheme is None
            } else {
                after == before
            }
        }),
        package.items.len() == 0 ==> book_of(package).identifiers.len() == 0,
{
    let to = |item: ItemModel| identifier_of(item, package.unique_identifier);
    let keep = |item: ItemModel| is_identifier_item(item);
    filtered_push(package.items, item, keep, to);
    let longer = PackageModel { items: package.items.push(item), ..package };
    assert(identifiers_of(package) =~= package.items.filter(keep).map_values(to));
    assert(identifiers_of(longer) =~= longer.items.filter(keep).map_values(to));
    if is_identifier_item(item) {
        assert(identifiers_of(longer).drop_last() =~= identifiers_of(package));
    }
    assert forall|i: int| #[trigger] is_first_refinement(item.refined, "scheme"@, i)
        implies first_refinement(item.refined, "scheme"@) == Some(item.refined[i].value) by {
        first_refinement_after(item.refined, "scheme"@, i);
    }
    if forall|i: int|
        0 <= i < item.refined.len() ==> (#[trigger] item.refined[i]).property != "scheme"@ {
        first_refinement_after(item.refined, "scheme"@, item.refined.len() as int);
    }
    if package.items.len() == 0 {
        filter_of_none(package.items, keep);
    }
}

/// A book is warned of exactly where it says nothing of its title, its authors or
/// its language.
pub proof fn what_a_book_should_say_is_missed(book: BookModel)
    ensures
        book.missing_required().contains("missing_title"@) <==> book.title is None,
        book.missing_required().contains("missing_author"@) <==> book.authors.len() == 0,
        book.missing_required().contains("missing_language"@) <==> book.language is None,
        book.missing_required().len() <= 3,
{
    reveal_strlit("missing_title");
    reveal_strlit("missing_author");
    reveal_strlit("missing_language");
    assert("missing_title"@.len() == 13);
    assert("missing_author"@.len() == 14);
    assert("missing_language"@.len() == 16);
    let warnings = book.missing_required();
    if book.title is None {
        assert(warnings[0] == "missing_title"@);
    }
    if book.authors.len() == 0 {
        assert(warnings[if book.title is None {
            1int
        } else {
            0
        }] == "missing_author"@);
    }
    if book.language is None {
        assert(warnings.last() == "missing_language"@);
        assert(warnings[warnings.len() - 1] == "missing_language"@);
    }
}

/// A file that could not be read is reported with what went wrong; an archive
/// without a container document, which its failure names, as that; a package
/// document that is no XML, or none of a book, as malformed.
pub proof fn failures_to_open_are_told_apart(message: Seq<char>)
    ensures
        metadata_of(Err(FailureModel::Io(message))) == Err::<BookModel, ErrorKind>(
            ErrorKind::UnreadableEpub { message },
        ),
        metadata_of(Err(FailureModel::Archive(message))) == Err::<BookModel, ErrorKind>(
            if exists|i: int| #[trigger] stands_at(message, "META-INF/container.xml"@, i) {
                ErrorKind::MissingContainer
            } else {
                ErrorKind::UnreadableEpub { message }
            },
        ),
        metadata_of(Err(FailureModel::Xml(message))) == Err::<BookModel, ErrorKind>(
            ErrorKind::MalformedPackageDocument { path: "package document"@, message },
        ),
        metadata_of(Err(FailureModel::InvalidEpub)) == Err::<BookModel, ErrorKind>(
            ErrorKind::MalformedPackageDocument {
                path: "package document"@,
                message: "invalid EPUB package document"@,
            },
        ),
{
    find_bounds(message, "META-INF/container.xml"@, 0);
}

/// Each error has a name of its own in reports, and words of its own for a reader.
pub proof fn errors_are_named_and_told(path: Seq<char>, message: Seq<char>)
    ensures
        ({
            let unreadable = ErrorKind::UnreadableEpub { message };
            let container = ErrorKind::MalformedContainer { message };
            let missing = ErrorKind::MissingPackageDocument { path };
            let malformed = ErrorKind::MalformedPackageDocument { path, message };
            &&& unreadable.code() == "unreadable_epub"@
            &&& unreadable.message() == "unreadable EPUB: "@ + message
            &&& ErrorKind::MissingContainer.code() == "missing_container_xml"@
            &&& ErrorKind::MissingContainer.message() == "missing META-INF/container.xml"@
            &&& container.code() == "malformed_container_xml"@
            &&& container.message() == "malformed META-INF/container.xml: "@ + message
            &&& ErrorKind::MissingRootfile.code() == "missing_rootfile"@
            &&& ErrorKind::MissingRootfile.message()
                == "META-INF/container.xml has no rootfile full-path"@
            &&& missing.code() == "missing_package_document"@
            &&& missing.message() == "package document not found at "@ + path
            &&& malformed.code() == "malformed_package_document"@
            &&& malformed.message() == "malformed package document "@ + path + ": "@ + message
        }),
{
}

} // verus!
