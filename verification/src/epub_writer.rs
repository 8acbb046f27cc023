//! Writing enriched metadata into a copy of a book.
//!
//! The package document is patched as text, inside its `metadata` element; every
//! other entry of the book's archive is carried over as it is.

use vstd::prelude::*;
use vstd::slice::slice_subrange;
use vstd::utf8::{decode_utf8, encode_utf8, valid_utf8};

use std::io::Cursor;
use zip::ZipArchive;

use crate::archive::{
    add_directory, archive_bytes, archive_len, entry_at, entry_count, entry_model, finish_archive,
    has_clear_end, has_entry_length, holds, is_entry_name, is_intact, is_new_name, is_ordinary_size,
    names_directory, new_archive, open_archive, open_failure, read_entry, read_named, start_file,
    text_from_utf8, text_named, utf8_failure, write_contents, written, ArchivedEntry, EntryModel,
};
use crate::enrichment::merge::{FieldPatch, MetadataField, PatchModel};
use crate::markup::{
    is_balanced, is_inert, position_is,
};
use crate::series_elements::{
    is_inert_or_none, metadata_is_closed_by_a_tag, push_series_elements, series_elements,
    series_elements_are_read, series_elements_close_nothing, telling, written_metas,
    written_metas_are_found, written_metas_stand_alone,
};
use crate::series_metadata::{
    existing_series, existing_series_holds_no_tags, find_existing_series, is_other_markup,
    meaningful_text, metas, metas_of_both, no_element_tells_of_series, no_tag_between,
    other_markup_is_kept, remove_existing_series_metadata, what_is_left_holds_no_tag,
    what_is_left_is_balanced, without_series, SeriesText,
};
use crate::text::{
    chars_of, contains, find, find_bounds, find_from, glue, is_blank, pair, position,
    position_bounds, position_of, push_chars, same_text, stands_at, stands_nowhere, string_of, trim,
    viewed, views,
};

verus! {

/// Why a patched copy could not be written.
#[derive(Debug, Clone, PartialEq, Eq)]
pub enum EpubWriteError {
    OutputExists,
    Io { message: String },
    Zip { message: String },
    MissingContainer,
    MissingRootfile,
    MissingPackageDocument { path: String },
    MalformedPackageDocument { message: String },
}

pub enum WriteErrorModel {
    OutputExists,
    Io { message: Seq<char> },
    Zip { message: Seq<char> },
    MissingContainer,
    MissingRootfile,
    MissingPackageDocument { path: Seq<char> },
    MalformedPackageDocument { message: Seq<char> },
}

impl View for EpubWriteError {
    type V = WriteErrorModel;

    open spec fn view(&self) -> WriteErrorModel {
        match self {
            EpubWriteError::OutputExists => WriteErrorModel::OutputExists,
            EpubWriteError::Io { message } => WriteErrorModel::Io { message: message@ },
            EpubWriteError::Zip { message } => WriteErrorModel::Zip { message: message@ },
            EpubWriteError::MissingContainer => WriteErrorModel::MissingContainer,
            EpubWriteError::MissingRootfile => WriteErrorModel::MissingRootfile,
            EpubWriteError::MissingPackageDocument { path }
                => WriteErrorModel::MissingPackageDocument { path: path@ },
            EpubWriteError::MalformedPackageDocument { message }
                => WriteErrorModel::MalformedPackageDocument { message: message@ },
        }
    }
}

impl WriteErrorModel {
    pub open spec fn text(self) -> Seq<char> {
        match self {
            WriteErrorModel::OutputExists => "output path already exists"@,
            WriteErrorModel::Io { message } => "I/O error: "@ + message,
            WriteErrorModel::Zip { message } => "ZIP error: "@ + message,
            WriteErrorModel::MissingContainer => "missing META-INF/container.xml"@,
            WriteErrorModel::MissingRootfile => "META-INF/container.xml has no rootfile full-path"@,
            WriteErrorModel::MissingPackageDocument { path } => "package document not found at "@
                + path,
            WriteErrorModel::MalformedPackageDocument { message } => "malformed package document: "@
                + message,
        }
    }
}

impl EpubWriteError {
    /// What the error says to a reader.
    pub fn message(&self) -> (message: String)
        ensures
            message@ == self@.text(),
    {
        match self {
            EpubWriteError::OutputExists => "output path already exists".to_owned(),
            EpubWriteError::Io { message } => pair("I/O error: ", message.as_str()),
            EpubWriteError::Zip { message } => pair("ZIP error: ", message.as_str()),
            EpubWriteError::MissingContainer => "missing META-INF/container.xml".to_owned(),
            EpubWriteError::MissingRootfile
                => "META-INF/container.xml has no rootfile full-path".to_owned(),
            EpubWriteError::MissingPackageDocument { path } => pair(
                "package document not found at ",
                path.as_str(),
            ),
            EpubWriteError::MalformedPackageDocument { message } => pair(
                "malformed package document: ",
                message.as_str(),
            ),
        }
    }
}

/// The path of the package document, as a container document gives it.
pub open spec fn rootfile(container: Seq<char>) -> Option<Seq<char>> {
    match find(container, "full-path=\""@, 0) {
        None => None,
        Some(at) => {
            let start = at + "full-path=\""@.len();
            let end = position(container, |c: char| c == '"', start);
            if end < container.len() {
                Some(container.subrange(start, end))
            } else {
                None
            }
        },
    }
}

/// Where the contents of a package document's `metadata` element start and end.
pub open spec fn metadata_range(opf: Seq<char>) -> Result<(int, int), Seq<char>> {
    match find(opf, "<metadata"@, 0) {
        None => Err("missing metadata element"@),
        Some(start) => {
            let open_end = position(opf, |c: char| c == '>', start) + 1;
            if open_end > opf.len() {
                Err("unclosed metadata element"@)
            } else {
                match find(opf, "</metadata>"@, open_end) {
                    None => Err("missing metadata close element"@),
                    Some(close) => Ok((open_end, close)),
                }
            }
        },
    }
}

pub open spec fn escaped_char(c: char) -> Seq<char> {
    if c == '&' {
        "&amp;"@
    } else if c == '<' {
        "&lt;"@
    } else if c == '>' {
        "&gt;"@
    } else if c == '"' {
        "&quot;"@
    } else {
        seq![c]
    }
}

/// A text as it stands in XML.
pub open spec fn escaped(s: Seq<char>) -> Seq<char>
    decreases s.len(),
{
    if s.len() == 0 {
        s
    } else {
        escaped(s.drop_last()) + escaped_char(s.last())
    }
}

pub open spec fn dc_open(name: Seq<char>) -> Seq<char> {
    "<dc:"@ + name
}

pub open spec fn dc_close(name: Seq<char>) -> Seq<char> {
    "</dc:"@ + name + ">"@
}

/// Where the contents of the first Dublin Core element of a name start and end.
pub open spec fn dc_range(metadata: Seq<char>, name: Seq<char>) -> Option<(int, int)> {
    match find(metadata, dc_open(name), 0) {
        None => None,
        Some(start) => {
            let open_end = position(metadata, |c: char| c == '>', start) + 1;
            if open_end > metadata.len() {
                None
            } else {
                match find(metadata, dc_close(name), open_end) {
                    None => None,
                    Some(close) => Some((open_end, close)),
                }
            }
        },
    }
}

/// Metadata in which the first Dublin Core element of a name has the given value;
/// where there is no such element, one is added at the end.
pub open spec fn with_dc(metadata: Seq<char>, name: Seq<char>, value: Seq<char>) -> Seq<char> {
    match dc_range(metadata, name) {
        Some((start, end)) => metadata.take(start) + escaped(value) + metadata.skip(end),
        None => metadata + "\n    <dc:"@ + name + ">"@ + escaped(value) + "</dc:"@ + name + ">"@,
    }
}

/// Metadata with the titles and authors of the patches that are applied.
pub open spec fn with_names(metadata: Seq<char>, patches: Seq<PatchModel>) -> Seq<char>
    decreases patches.len(),
{
    if patches.len() == 0 {
        metadata
    } else {
        let before = with_names(metadata, patches.drop_last());
        let patch = patches.last();
        if patch.applied && patch.field == MetadataField::Title {
            with_dc(before, "title"@, patch.new_value)
        } else if patch.applied && patch.field == MetadataField::Author {
            with_dc(before, "creator"@, patch.new_value)
        } else {
            before
        }
    }
}

/// The value of the first patch of a field that is applied.
pub open spec fn first_applied(patches: Seq<PatchModel>, field: MetadataField) -> Option<Seq<char>>
    decreases patches.len(),
{
    if patches.len() == 0 {
        None
    } else if patches[0].applied && patches[0].field == field {
        Some(patches[0].new_value)
    } else {
        first_applied(patches.drop_first(), field)
    }
}

/// A text of a package document as it stands in double quotes.
pub open spec fn requoted(s: Seq<char>) -> Seq<char>
    decreases s.len(),
{
    if s.len() == 0 {
        s
    } else if s.last() == '"' {
        requoted(s.drop_last()) + "&quot;"@
    } else {
        requoted(s.drop_last()).push(s.last())
    }
}

/// The series that is written: that of a patch, else the one that the metadata
/// name.
pub open spec fn series_to_write(metadata: Seq<char>, patched: Option<Seq<char>>) -> Option<
    Seq<char>,
> {
    match patched {
        Some(series) => Some(escaped(series)),
        None => match existing_series(metadata) {
            Some(existing) => Some(requoted(existing.series)),
            None => None,
        },
    }
}

/// The place in a series that is written: that of a patch, else the one that the
/// metadata give.
pub open spec fn index_to_write(metadata: Seq<char>, patched: Option<Seq<char>>) -> Option<
    Seq<char>,
> {
    match patched {
        Some(index) => Some(escaped(index)),
        None => match existing_series(metadata) {
            Some(existing) => match existing.index {
                Some(index) => Some(requoted(index)),
                None => None,
            },
            None => None,
        },
    }
}

/// The contents of a `metadata` element with the patches that are applied.
pub open spec fn patched_metadata(metadata: Seq<char>, patches: Seq<PatchModel>) -> Seq<char> {
    let named = with_names(metadata, patches);
    let series = first_applied(patches, MetadataField::Series);
    let index = first_applied(patches, MetadataField::SeriesIndex);
    if series is Some || index is Some {
        without_series(named) + series_elements(
            series_to_write(named, series),
            index_to_write(named, index),
        )
    } else {
        named
    }
}

/// A package document with the patches that are applied.
pub open spec fn patched_opf(opf: Seq<char>, patches: Seq<PatchModel>) -> Result<
    Seq<char>,
    WriteErrorModel,
> {
    match metadata_range(opf) {
        Err(message) => Err(WriteErrorModel::MalformedPackageDocument { message }),
        Ok((start, end)) => Ok(
            opf.take(start) + patched_metadata(opf.subrange(start, end), patches) + opf.skip(end),
        ),
    }
}

/// The path of the package document, as a container document gives it.
pub fn rootfile_path(container: &str) -> (path: Option<String>)
    ensures
        viewed(path) == rootfile(container@),
{
    let chars = chars_of(container);
    let marker = chars_of("full-path=\"");
    match find_from(chars.as_slice(), marker.as_slice(), 0) {
        None => None,
        Some(at) => {
            proof {
                find_bounds(container@, marker@, 0);
                position_bounds(container@, |c: char| c == '"', at + marker@.len());
            }
            let start = at + marker.len();
            let end = position_of(chars.as_slice(), '"', start);
            if end < chars.len() {
                Some(string_of(slice_subrange(chars.as_slice(), start, end)))
            } else {
                None
            }
        },
    }
}

/// A text as it stands in XML.
pub fn escape_xml(value: &str) -> (out: String)
    ensures
        out@ == escaped(value@),
{
    string_of(escape_chars(chars_of(value).as_slice()).as_slice())
}

pub fn escape_chars(chars: &[char]) -> (out: Vec<char>)
    ensures
        out@ == escaped(chars@),
{
    let mut out: Vec<char> = Vec::new();
    let mut i: usize = 0;
    while i < chars.len()
        invariant
            i <= chars.len(),
            out@ == escaped(chars@.take(i as int)),
        decreases chars.len() - i,
    {
        let c = chars[i];
        assert(chars@.take(i + 1).drop_last() =~= chars@.take(i as int));
        if c == '&' {
            push_chars(&mut out, chars_of("&amp;").as_slice());
        } else if c == '<' {
            push_chars(&mut out, chars_of("&lt;").as_slice());
        } else if c == '>' {
            push_chars(&mut out, chars_of("&gt;").as_slice());
        } else if c == '"' {
            push_chars(&mut out, chars_of("&quot;").as_slice());
        } else {
            out.push(c);
            assert(out@ =~= escaped(chars@.take(i as int)) + seq![c]);
        }
        i += 1;
    }
    assert(chars@.take(i as int) =~= chars@);
    out
}

fn replace_or_insert_dc(metadata: &Vec<char>, local_name: &str, value: &str) -> (out: Vec<char>)
    ensures
        out@ == with_dc(metadata@, local_name@, value@),
{
    let open = chars_of(pair("<dc:", local_name).as_str());
    let close = chars_of(glue("</dc:", local_name, ">").as_str());
    let new_contents = escape_chars(chars_of(value).as_slice());
    let all = metadata.as_slice();
    let mut out: Vec<char> = Vec::new();
    match find_from(all, open.as_slice(), 0) {
        Some(start) => {
            proof {
                find_bounds(all@, open@, 0);
                position_bounds(all@, |c: char| c == '>', start as int);
            }
            let mark = position_of(all, '>', start);
            if mark < all.len() {
                match find_from(all, close.as_slice(), mark + 1) {
                    Some(close_start) => {
                        proof {
                            find_bounds(all@, close@, mark + 1);
                        }
                        push_chars(&mut out, slice_subrange(all, 0, mark + 1));
                        push_chars(&mut out, new_contents.as_slice());
                        push_chars(&mut out, slice_subrange(all, close_start, all.len()));
                        assert(out@ =~= all@.take(mark + 1) + new_contents@ + all@.skip(
                            close_start as int,
                        ));
                        return out;
                    },
                    None => {},
                }
            }
        },
        None => {},
    }
    let name = chars_of(local_name);
    push_chars(&mut out, all);
    push_chars(&mut out, chars_of("\n    <dc:").as_slice());
    push_chars(&mut out, name.as_slice());
    push_chars(&mut out, chars_of(">").as_slice());
    push_chars(&mut out, new_contents.as_slice());
    push_chars(&mut out, chars_of("</dc:").as_slice());
    push_chars(&mut out, name.as_slice());
    push_chars(&mut out, chars_of(">").as_slice());
    assert(Seq::<char>::empty() + all@ =~= all@);
    out
}

fn requote(value: &Vec<char>) -> (out: Vec<char>)
    ensures
        out@ == requoted(value@),
{
    let mut out: Vec<char> = Vec::new();
    let mut i: usize = 0;
    while i < value.len()
        invariant
            i <= value.len(),
            out@ == requoted(value@.take(i as int)),
        decreases value.len() - i,
    {
        assert(value@.take(i + 1).drop_last() =~= value@.take(i as int));
        if value[i] == '"' {
            push_chars(&mut out, chars_of("&quot;").as_slice());
        } else {
            out.push(value[i]);
        }
        i += 1;
    }
    assert(value@.take(i as int) =~= value@);
    out
}

proof fn first_applied_after(patches: Seq<PatchModel>, field: MetadataField, n: int)
    requires
        0 <= n <= patches.len(),
        forall|i: int|
            0 <= i < n ==> !((#[trigger] patches[i]).applied && patches[i].field == field),
    ensures
        n == patches.len() ==> first_applied(patches, field) is None,
        n < patches.len() && patches[n].applied && patches[n].field == field ==> first_applied(
            patches,
            field,
        ) == Some(patches[n].new_value),
    decreases patches.len(),
{
    if n > 0 {
        assert(!(patches[0].applied && patches[0].field == field));
        assert forall|i: int| 0 <= i < n - 1 implies !((
        #[trigger] patches.drop_first()[i]).applied && patches.drop_first()[i].field == field) by {
            assert(patches.drop_first()[i] == patches[i + 1]);
        }
        first_applied_after(patches.drop_first(), field, n - 1);
    }
}

fn first_applied_value(patches: &[FieldPatch], field: MetadataField) -> (value: Option<&String>)
    ensures
        viewed(value) == first_applied(views(patches@), field),
{
    let mut i: usize = 0;
    while i < patches.len()
        invariant
            i <= patches.len(),
            forall|j: int|
                0 <= j < i ==> !((#[trigger] views(patches@)[j]).applied && views(patches@)[j].field
                    == field),
        decreases patches.len() - i,
    {
        if patches[i].applied && patches[i].field == field {
            proof {
                first_applied_after(views(patches@), field, i as int);
            }
            return Some(&patches[i].new_value);
        }
        i += 1;
    }
    proof {
        first_applied_after(views(patches@), field, i as int);
    }
    None
}

/// Takes the series out of metadata and writes it anew, with the patches that are
/// applied.
fn write_series(metadata: &Vec<char>, series: Option<&String>, index: Option<&String>) -> (out: Vec<
    char,
>)
    ensures
        out@ == without_series(metadata@) + series_elements(
            series_to_write(metadata@, viewed(series)),
            index_to_write(metadata@, viewed(index)),
        ),
{
    let mut name: Option<Vec<char>> = None;
    let mut place: Option<Vec<char>> = None;
    match find_existing_series(metadata.as_slice()) {
        Some(existing) => {
            name = Some(requote(&existing.series));
            match &existing.index {
                Some(inner) => {
                    place = Some(requote(inner));
                },
                None => {},
            }
        },
        None => {},
    }
    match series {
        Some(value) => {
            name = Some(escape_chars(chars_of(value.as_str()).as_slice()));
        },
        None => {},
    }
    match index {
        Some(value) => {
            place = Some(escape_chars(chars_of(value.as_str()).as_slice()));
        },
        None => {},
    }
    let mut out = remove_existing_series_metadata(metadata);
    push_series_elements(&mut out, &name, &place);
    out
}

/// A package document with the patches that are applied.
///
/// It fails where the document has no complete `metadata` element.
pub fn apply_patches_to_opf(opf: &str, patches: &[FieldPatch]) -> (out: Result<
    String,
    EpubWriteError,
>)
    ensures
        match patched_opf(opf@, views(patches@)) {
            Ok(text) => out is Ok && out->Ok_0@ == text,
            Err(error) => out is Err && out->Err_0@ == error,
        },
{
    let chars = chars_of(opf);
    let all = chars.as_slice();
    let start = match find_from(all, chars_of("<metadata").as_slice(), 0) {
        Some(start) => start,
        None => return Err(
            EpubWriteError::MalformedPackageDocument {
                message: "missing metadata element".to_owned(),
            },
        ),
    };
    proof {
        find_bounds(all@, "<metadata"@, 0);
        position_bounds(all@, |c: char| c == '>', start as int);
    }
    let mark = position_of(all, '>', start);
    if mark == all.len() {
        return Err(
            EpubWriteError::MalformedPackageDocument {
                message: "unclosed metadata element".to_owned(),
            },
        );
    }
    let open_end = mark + 1;
    let close = match find_from(all, chars_of("</metadata>").as_slice(), open_end) {
        Some(close) => close,
        None => return Err(
            EpubWriteError::MalformedPackageDocument {
                message: "missing metadata close element".to_owned(),
            },
        ),
    };
    proof {
        find_bounds(all@, "</metadata>"@, open_end as int);
    }
    let ghost model = views(patches@);
    let ghost inner = opf@.subrange(open_end as int, close as int);
    let mut metadata: Vec<char> = Vec::new();
    push_chars(&mut metadata, slice_subrange(all, open_end, close));
    assert(metadata@ =~= inner);
    let mut i: usize = 0;
    while i < patches.len()
        invariant
            i <= patches.len(),
            model == views(patches@),
            metadata@ == with_names(inner, model.take(i as int)),
        decreases patches.len() - i,
    {
        let patch = &patches[i];
        proof {
            assert(model.take(i + 1).drop_last() =~= model.take(i as int));
            assert(model.take(i + 1).last() == patch@);
        }
        if patch.applied {
            match patch.field {
                MetadataField::Title => {
                    metadata = replace_or_insert_dc(&metadata, "title", patch.new_value.as_str());
                },
                MetadataField::Author => {
                    metadata = replace_or_insert_dc(&metadata, "creator", patch.new_value.as_str());
                },
                _ => {},
            }
        }
        i += 1;
    }
    assert(model.take(i as int) =~= model);
    let series = first_applied_value(patches, MetadataField::Series);
    let series_index = first_applied_value(patches, MetadataField::SeriesIndex);
    if series.is_some() || series_index.is_some() {
        metadata = write_series(&metadata, series, series_index);
    }
    let mut updated: Vec<char> = Vec::new();
    push_chars(&mut updated, slice_subrange(all, 0, open_end));
    push_chars(&mut updated, metadata.as_slice());
    push_chars(&mut updated, slice_subrange(all, close, all.len()));
    assert(updated@ =~= opf@.take(open_end as int) + metadata@ + opf@.skip(close as int));
    Ok(string_of(updated.as_slice()))
}

/// The path of the package document in an archive of these bytes, or why it is
/// not known.
pub open spec fn package_path(source: Seq<u8>) -> Result<Seq<char>, WriteErrorModel> {
    match open_failure(source) {
        Some(message) => Err(WriteErrorModel::Zip { message }),
        None => match text_named(source, "META-INF/container.xml"@) {
            None => Err(WriteErrorModel::MissingContainer),
            Some(Err(message)) => Err(WriteErrorModel::Io { message }),
            Some(Ok(container)) => match rootfile(container) {
                None => Err(WriteErrorModel::MissingRootfile),
                Some(path) => Ok(path),
            },
        },
    }
}

/// What an entry of a book's archive becomes in the copy: its name and contents.
pub open spec fn rewritten_entry(
    entry: Result<EntryModel, Seq<char>>,
    opf_path: Seq<char>,
    patches: Seq<PatchModel>,
) -> Result<(Seq<char>, Seq<u8>), WriteErrorModel> {
    match entry {
        Err(message) => Err(WriteErrorModel::Zip { message }),
        Ok(inner) => if names_directory(inner.name) {
            Ok((inner.name, Seq::empty()))
        } else {
            match inner.contents {
                Err(message) => Err(WriteErrorModel::Io { message }),
                Ok(contents) => if inner.name != opf_path {
                    Ok((inner.name, contents))
                } else if !valid_utf8(contents) {
                    Err(
                        WriteErrorModel::MalformedPackageDocument {
                            message: utf8_failure(contents),
                        },
                    )
                } else {
                    match patched_opf(decode_utf8(contents), patches) {
                        Err(error) => Err(error),
                        Ok(text) => Ok((inner.name, encode_utf8(text))),
                    }
                },
            }
        },
    }
}

/// What the first `n` entries of a book's archive become in the copy.
pub open spec fn rewritten(
    source: Seq<u8>,
    opf_path: Seq<char>,
    patches: Seq<PatchModel>,
    n: nat,
) -> Result<Seq<(Seq<char>, Seq<u8>)>, WriteErrorModel>
    decreases n,
{
    if n == 0 {
        Ok(Seq::empty())
    } else {
        match rewritten(source, opf_path, patches, (n - 1) as nat) {
            Err(error) => Err(error),
            Ok(before) => match rewritten_entry(
                entry_at(source, (n - 1) as nat),
                opf_path,
                patches,
            ) {
                Err(error) => Err(error),
                Ok(entry) => Ok(before.push(entry)),
            },
        }
    }
}

/// What the entries of a book's archive become in the copy.
pub open spec fn rewritten_book(source: Seq<u8>, patches: Seq<PatchModel>) -> Result<
    Seq<(Seq<char>, Seq<u8>)>,
    WriteErrorModel,
> {
    match package_path(source) {
        Err(error) => Err(error),
        Ok(path) => rewritten(source, path, patches, entry_count(source)),
    }
}

/// What the first `n` entries of a book's archive become in the copy, up to the
/// first that cannot be carried over.
pub open spec fn carried_over(
    source: Seq<u8>,
    opf_path: Seq<char>,
    patches: Seq<PatchModel>,
    n: nat,
) -> Seq<(Seq<char>, Seq<u8>)>
    decreases n,
{
    match rewritten(source, opf_path, patches, n) {
        Ok(entries) => entries,
        Err(_) => if n == 0 {
            Seq::empty()
        } else {
            carried_over(source, opf_path, patches, (n - 1) as nat)
        },
    }
}

/// What the entries of a book's archive become in the copy, up to the first that
/// cannot be carried over.
pub open spec fn carried_over_book(source: Seq<u8>, patches: Seq<PatchModel>) -> Seq<
    (Seq<char>, Seq<u8>),
> {
    match package_path(source) {
        Err(_) => Seq::empty(),
        Ok(path) => carried_over(source, path, patches, entry_count(source)),
    }
}

pub open spec fn names_differ(entries: Seq<(Seq<char>, Seq<u8>)>) -> bool {
    forall|i: int, j: int|
        0 <= i < j < entries.len() ==> (#[trigger] entries[i]).0 != (#[trigger] entries[j]).0
}

/// The lengths of the entries take four bytes each.
pub open spec fn lengths_fit(entries: Seq<(Seq<char>, Seq<u8>)>) -> bool {
    forall|i: int| 0 <= i < entries.len() ==> has_entry_length((#[trigger] entries[i]).1)
}

/// Entries that an archive can hold: their names differ and are short enough, and
/// their contents are of ordinary size.
pub open spec fn fit_an_archive(entries: Seq<(Seq<char>, Seq<u8>)>) -> bool {
    &&& names_differ(entries)
    &&& forall|i: int|
        0 <= i < entries.len() ==> is_entry_name((#[trigger] entries[i]).0) && is_ordinary_size(
            entries[i].1,
        )
}

/// A copy that was written, or why none was, is what `expected` says.
///
/// Where the entries that are carried over fit an archive, there is a copy exactly
/// where one is expected, and a failure is the expected one; else the archive may
/// fail, too, and it does where the length of an entry takes more than four bytes. A
/// copy can be opened and reads back as the expected entries, unless its end can be
/// taken for that of another archive.
pub open spec fn written_as(
    out: Result<Vec<u8>, EpubWriteError>,
    expected: Result<Seq<(Seq<char>, Seq<u8>)>, WriteErrorModel>,
    carried: Seq<(Seq<char>, Seq<u8>)>,
) -> bool {
    match out {
        Ok(bytes) => {
            &&& expected is Ok
            &&& names_differ(expected->Ok_0)
            &&& lengths_fit(expected->Ok_0)
            &&& has_clear_end(expected->Ok_0, bytes@) ==> open_failure(bytes@) is None && holds(
                bytes@,
                expected->Ok_0,
            )
        },
        Err(error) => {
            ||| expected == Err::<Seq<(Seq<char>, Seq<u8>)>, WriteErrorModel>(error@)
            ||| !fit_an_archive(carried) && (error@ is Zip || error@ is Io)
        },
    }
}

/// An entry of a copy.
#[derive(Debug, Clone, PartialEq, Eq)]
pub struct RewrittenEntry {
    pub name: String,
    pub contents: Vec<u8>,
}

/// What an entry of a book's archive becomes in the copy: the package document is
/// patched, and everything else stays as it is.
pub fn rewrite_entry(
    entry: Result<ArchivedEntry, String>,
    opf_path: &str,
    patches: &[FieldPatch],
) -> (out: Result<RewrittenEntry, EpubWriteError>)
    ensures
        match rewritten_entry(entry_model(entry), opf_path@, views(patches@)) {
            Ok(expected) => out is Ok && out->Ok_0.name@ == expected.0 && out->Ok_0.contents@
                == expected.1,
            Err(error) => out is Err && out->Err_0@ == error,
        },
{
    let entry = match entry {
        Ok(entry) => entry,
        Err(message) => return Err(EpubWriteError::Zip { message }),
    };
    if is_directory_name(entry.name.as_str()) {
        return Ok(RewrittenEntry { name: entry.name, contents: Vec::new() });
    }
    let contents: Vec<u8> = match entry.contents {
        Ok(contents) => contents,
        Err(message) => return Err(EpubWriteError::Io { message }),
    };
    if !same_text(entry.name.as_str(), opf_path) {
        return Ok(RewrittenEntry { name: entry.name, contents });
    }
    let opf = match text_from_utf8(contents) {
        Ok(opf) => opf,
        Err(message) => return Err(EpubWriteError::MalformedPackageDocument { message }),
    };
    match apply_patches_to_opf(opf.as_str(), patches) {
        Ok(patched) => Ok(
            RewrittenEntry { name: entry.name, contents: patched.as_str().as_bytes_vec() },
        ),
        Err(error) => Err(error),
    }
}

fn is_directory_name(name: &str) -> (yes: bool)
    ensures
        yes == names_directory(name@),
{
    let chars = chars_of(name);
    chars.len() > 0 && (chars[chars.len() - 1] == '/' || chars[chars.len() - 1] == '\\')
}

/// A book's archive, opened, with the path of its package document.
pub struct OpenedBook {
    archive: ZipArchive<Cursor<Vec<u8>>>,
    opf_path: String,
}

impl OpenedBook {
    /// The bytes of the book's archive.
    pub closed spec fn source(&self) -> Seq<u8> {
        archive_bytes(self.archive)
    }

    /// The path of the book's package document.
    pub closed spec fn opf_path(&self) -> Seq<char> {
        self.opf_path@
    }

    /// Opens a book's archive and finds its package document.
    pub fn open(source: Vec<u8>) -> (book: Result<OpenedBook, EpubWriteError>)
        ensures
            match package_path(source@) {
                Ok(path) => book is Ok && book->Ok_0.source() == source@ && book->Ok_0.opf_path()
                    == path,
                Err(error) => book is Err && book->Err_0@ == error,
            },
    {
        let mut archive = match open_archive(source) {
            Ok(archive) => archive,
            Err(message) => return Err(EpubWriteError::Zip { message }),
        };
        let container = match read_named(&mut archive, "META-INF/container.xml") {
            None => return Err(EpubWriteError::MissingContainer),
            Some(Err(message)) => return Err(EpubWriteError::Io { message }),
            Some(Ok(container)) => container,
        };
        match rootfile_path(container.as_str()) {
            None => Err(EpubWriteError::MissingRootfile),
            Some(opf_path) => Ok(OpenedBook { archive, opf_path }),
        }
    }

    /// Writes the copy of a book in which the patches are applied.
    pub fn write(self, patches: &[FieldPatch]) -> (out: Result<Vec<u8>, EpubWriteError>)
        ensures
            written_as(
                out,
                rewritten(
                    self.source(),
                    self.opf_path(),
                    views(patches@),
                    entry_count(self.source()),
                ),
                carried_over(
                    self.source(),
                    self.opf_path(),
                    views(patches@),
                    entry_count(self.source()),
                ),
            ),
    {
        let mut archive = self.archive;
        let opf_path = self.opf_path;
        let ghost source = archive_bytes(archive);
        let ghost model = views(patches@);
        let ghost carried = carried_over(source, opf_path@, model, entry_count(source));
        let mut writer = new_archive();
        let count = archive_len(&archive);
        let mut index: usize = 0;
        while index < count
            invariant
                index <= count,
                count == entry_count(source),
                archive_bytes(archive) == source,
                source == self.source(),
                opf_path@ == self.opf_path(),
                model == views(patches@),
                rewritten(source, opf_path@, model, index as nat) == Ok::<
                    Seq<(Seq<char>, Seq<u8>)>,
                    WriteErrorModel,
                >(written(writer)),
                names_differ(written(writer)),
                is_intact(writer),
                lengths_fit(written(writer)),
                carried == carried_over(source, opf_path@, model, entry_count(source)),
            decreases count - index,
        {
            let entry = read_entry(&mut archive, index);
            let ghost before = written(writer);
            let entry = match rewrite_entry(entry, opf_path.as_str(), patches) {
                Ok(entry) => entry,
                Err(error) => {
                    proof {
                        failure_stays(source, opf_path@, model, (index + 1) as nat, count as nat);
                    }
                    return Err(error);
                },
            };
            let ghost now = before.push((entry.name@, entry.contents@));
            proof {
                carried_over_starts_with(
                    source,
                    opf_path@,
                    model,
                    (index + 1) as nat,
                    count as nat,
                );
                assert(before =~= now.subrange(0, before.len() as int));
                fitting_starts_fit(now, carried, before);
                assert(fit_an_archive(now) ==> is_new_name(before, entry.name@)) by {
                    assert(now[before.len() as int] == (entry.name@, entry.contents@));
                    assert forall|i: int| 0 <= i < before.len() implies now[i] == before[i] by {}
                }
                assert(fit_an_archive(now) ==> is_entry_name(entry.name@) && is_ordinary_size(
                    entry.contents@,
                )) by {
                    assert(now[before.len() as int] == (entry.name@, entry.contents@));
                }
                assert(Seq::<u8>::empty() + entry.contents@ =~= entry.contents@);
            }
            if is_directory_name(entry.name.as_str()) {
                match add_directory(&mut writer, entry.name.as_str()) {
                    Ok(()) => {},
                    Err(message) => return Err(EpubWriteError::Zip { message }),
                }
            } else {
                match start_file(&mut writer, entry.name.as_str()) {
                    Ok(()) => {},
                    Err(message) => return Err(EpubWriteError::Zip { message }),
                }
                match write_contents(&mut writer, entry.contents.as_slice()) {
                    Ok(()) => {},
                    Err(message) => return Err(EpubWriteError::Io { message }),
                }
            }
            proof {
                assert(written(writer) =~= now);
                assert(lengths_fit(now)) by {
                    assert forall|i: int| 0 <= i < now.len() implies has_entry_length(
                        (#[trigger] now[i]).1,
                    ) by {
                        if i < before.len() {
                            assert(now[i] == before[i]);
                        }
                    }
                }
            }
            index += 1;
        }
        match finish_archive(writer) {
            Ok(bytes) => Ok(bytes),
            Err(message) => Err(EpubWriteError::Zip { message }),
        }
    }
}

proof fn carried_over_starts_with(
    source: Seq<u8>,
    opf_path: Seq<char>,
    patches: Seq<PatchModel>,
    m: nat,
    n: nat,
)
    requires
        m <= n,
        rewritten(source, opf_path, patches, m) is Ok,
    ensures
        rewritten(source, opf_path, patches, m)->Ok_0.is_prefix_of(
            carried_over(source, opf_path, patches, n),
        ),
    decreases n,
{
    let first = rewritten(source, opf_path, patches, m)->Ok_0;
    if m < n {
        carried_over_starts_with(source, opf_path, patches, m, (n - 1) as nat);
        let before = carried_over(source, opf_path, patches, (n - 1) as nat);
        let after = carried_over(source, opf_path, patches, n);
        if rewritten(source, opf_path, patches, n) is Ok {
            assert(before == rewritten(source, opf_path, patches, (n - 1) as nat)->Ok_0);
            assert(after.drop_last() =~= before);
            assert(first =~= after.subrange(0, first.len() as int)) by {
                assert(first == before.subrange(0, first.len() as int));
                assert(before.subrange(0, first.len() as int) =~= after.subrange(
                    0,
                    first.len() as int,
                ));
            }
        }
    } else {
        assert(first =~= first.subrange(0, first.len() as int));
    }
}

/// The first of entries that fit an archive fit one, too.
proof fn fitting_starts_fit(
    first: Seq<(Seq<char>, Seq<u8>)>,
    entries: Seq<(Seq<char>, Seq<u8>)>,
    before: Seq<(Seq<char>, Seq<u8>)>,
)
    requires
        first.is_prefix_of(entries),
        before.is_prefix_of(first),
    ensures
        fit_an_archive(entries) ==> fit_an_archive(first),
        fit_an_archive(first) ==> fit_an_archive(before),
{
    assert forall|i: int| 0 <= i < first.len() implies #[trigger] first[i] == entries[i] by {
        assert(first[i] == entries.subrange(0, first.len() as int)[i]);
    }
    assert forall|i: int| 0 <= i < before.len() implies #[trigger] before[i] == first[i] by {
        assert(before[i] == first.subrange(0, before.len() as int)[i]);
    }
}

proof fn failure_stays(
    source: Seq<u8>,
    opf_path: Seq<char>,
    patches: Seq<PatchModel>,
    m: nat,
    n: nat,
)
    requires
        m <= n,
        rewritten(source, opf_path, patches, m) is Err,
    ensures
        rewritten(source, opf_path, patches, n) == rewritten(source, opf_path, patches, m),
    decreases n,
{
    if m < n {
        failure_stays(source, opf_path, patches, m, (n - 1) as nat);
    }
}

/// Writes the copy of a book in which the patches are applied, both as bytes.
///
/// Which archives the `zip` crate can read is its own affair. It fails as the book
/// does: without a container document, without a package document that one names,
/// or at the first entry that cannot be carried over.
pub fn rewrite_epub(source: Vec<u8>, patches: &[FieldPatch]) -> (out: Result<
    Vec<u8>,
    EpubWriteError,
>)
    ensures
        written_as(
            out,
            rewritten_book(source@, views(patches@)),
            carried_over_book(source@, views(patches@)),
        ),
        package_path(source@) is Err ==> out is Err && out->Err_0@ == package_path(source@)->Err_0,
        fit_an_archive(carried_over_book(source@, views(patches@))) ==> match rewritten_book(
            source@,
            views(patches@),
        ) {
            Ok(_) => out is Ok,
            Err(error) => out is Err && out->Err_0@ == error,
        },
{
    match OpenedBook::open(source) {
        Ok(book) => book.write(patches),
        Err(error) => Err(error),
    }
}

/// What is to be done next to put a patched copy in its place. It is written to a
/// temporary file beside the target first.
#[derive(Debug, PartialEq, Eq)]
pub enum PatchedCopy {
    /// Find out whether the target exists.
    CheckTarget,
    /// Create the folders that the target lies in.
    CreateParent,
    /// Find out whether the temporary file exists.
    CheckTemp,
    /// Remove the temporary file that an earlier run left behind.
    RemoveStaleTemp,
    /// Read the book and open it.
    OpenBook,
    /// Create the temporary file, which must not exist.
    CreateTemp,
    /// Write the patched copy to the temporary file.
    WriteTemp,
    /// Rename the temporary file to the target.
    Place,
    /// Remove the temporary file, as far as possible, because the copy failed.
    CleanUp { error: EpubWriteError },
    /// Nothing: this is what came of it.
    Finished { result: Result<(), EpubWriteError> },
}

pub enum PatchedCopyModel {
    CheckTarget,
    CreateParent,
    CheckTemp,
    RemoveStaleTemp,
    OpenBook,
    CreateTemp,
    WriteTemp,
    Place,
    CleanUp { error: WriteErrorModel },
    Finished { error: Option<WriteErrorModel> },
}

impl View for PatchedCopy {
    type V = PatchedCopyModel;

    open spec fn view(&self) -> PatchedCopyModel {
        match self {
            PatchedCopy::CheckTarget => PatchedCopyModel::CheckTarget,
            PatchedCopy::CreateParent => PatchedCopyModel::CreateParent,
            PatchedCopy::CheckTemp => PatchedCopyModel::CheckTemp,
            PatchedCopy::RemoveStaleTemp => PatchedCopyModel::RemoveStaleTemp,
            PatchedCopy::OpenBook => PatchedCopyModel::OpenBook,
            PatchedCopy::CreateTemp => PatchedCopyModel::CreateTemp,
            PatchedCopy::WriteTemp => PatchedCopyModel::WriteTemp,
            PatchedCopy::Place => PatchedCopyModel::Place,
            PatchedCopy::CleanUp { error } => PatchedCopyModel::CleanUp { error: error@ },
            PatchedCopy::Finished { result } => PatchedCopyModel::Finished {
                error: match result {
                    Ok(_) => None,
                    Err(error) => Some(error@),
                },
            },
        }
    }
}

/// What came of a step; a failure of the system is given by its text.
#[derive(Debug, PartialEq, Eq)]
pub enum PatchedCopyEvent {
    Exists(Result<bool, String>),
    Did(Result<(), String>),
    /// What came of opening the book, or of writing its copy.
    Book(Result<(), EpubWriteError>),
}

pub enum PatchedCopyEventModel {
    Exists(Result<bool, Seq<char>>),
    /// The text of the failure, where there was one.
    Did(Option<Seq<char>>),
    /// The error, where there was one.
    Book(Option<WriteErrorModel>),
}

impl View for PatchedCopyEvent {
    type V = PatchedCopyEventModel;

    open spec fn view(&self) -> PatchedCopyEventModel {
        match self {
            PatchedCopyEvent::Exists(answer) => PatchedCopyEventModel::Exists(
                match answer {
                    Ok(exists) => Ok(*exists),
                    Err(message) => Err(message@),
                },
            ),
            PatchedCopyEvent::Did(outcome) => PatchedCopyEventModel::Did(
                match outcome {
                    Ok(_) => None,
                    Err(message) => Some(message@),
                },
            ),
            PatchedCopyEvent::Book(outcome) => PatchedCopyEventModel::Book(
                match outcome {
                    Ok(_) => None,
                    Err(error) => Some(error@),
                },
            ),
        }
    }
}

impl PatchedCopyModel {
    /// The event is one that the step can have.
    pub open spec fn awaits(self, event: PatchedCopyEventModel) -> bool {
        match self {
            PatchedCopyModel::CheckTarget => event is Exists,
            PatchedCopyModel::CheckTemp => event is Exists,
            PatchedCopyModel::OpenBook => event is Book,
            PatchedCopyModel::WriteTemp => event is Book,
            PatchedCopyModel::Finished { .. } => false,
            _ => event is Did,
        }
    }

    pub open spec fn failed(message: Seq<char>) -> PatchedCopyModel {
        PatchedCopyModel::Finished { error: Some(WriteErrorModel::Io { message }) }
    }

    /// The step that follows from what came of this one.
    pub open spec fn next(self, event: PatchedCopyEventModel) -> PatchedCopyModel {
        match (self, event) {
            (PatchedCopyModel::CheckTarget, PatchedCopyEventModel::Exists(answer)) => match answer {
                Err(message) => PatchedCopyModel::failed(message),
                Ok(true) => PatchedCopyModel::Finished {
                    error: Some(WriteErrorModel::OutputExists),
                },
                Ok(false) => PatchedCopyModel::CreateParent,
            },
            (PatchedCopyModel::CreateParent, PatchedCopyEventModel::Did(failure)) => match failure {
                Some(message) => PatchedCopyModel::failed(message),
                None => PatchedCopyModel::CheckTemp,
            },
            (PatchedCopyModel::CheckTemp, PatchedCopyEventModel::Exists(answer)) => match answer {
                Err(message) => PatchedCopyModel::failed(message),
                Ok(true) => PatchedCopyModel::RemoveStaleTemp,
                Ok(false) => PatchedCopyModel::OpenBook,
            },
            (
                PatchedCopyModel::RemoveStaleTemp,
                PatchedCopyEventModel::Did(failure),
            ) => match failure {
                Some(message) => PatchedCopyModel::failed(message),
                None => PatchedCopyModel::OpenBook,
            },
            (PatchedCopyModel::OpenBook, PatchedCopyEventModel::Book(failure)) => match failure {
                Some(error) => PatchedCopyModel::CleanUp { error },
                None => PatchedCopyModel::CreateTemp,
            },
            (PatchedCopyModel::CreateTemp, PatchedCopyEventModel::Did(failure)) => match failure {
                Some(message) => PatchedCopyModel::CleanUp {
                    error: WriteErrorModel::Io { message },
                },
                None => PatchedCopyModel::WriteTemp,
            },
            (PatchedCopyModel::WriteTemp, PatchedCopyEventModel::Book(failure)) => match failure {
                Some(error) => PatchedCopyModel::CleanUp { error },
                None => PatchedCopyModel::Place,
            },
            (PatchedCopyModel::Place, PatchedCopyEventModel::Did(failure)) => match failure {
                Some(message) => PatchedCopyModel::CleanUp {
                    error: WriteErrorModel::Io { message },
                },
                None => PatchedCopyModel::Finished { error: None },
            },
            (
                PatchedCopyModel::CleanUp { error },
                PatchedCopyEventModel::Did(_),
            ) => PatchedCopyModel::Finished { error: Some(error) },
            (step, _) => step,
        }
    }
}

impl PatchedCopy {
    /// The first step.
    pub fn start() -> (step: PatchedCopy)
        ensures
            step@ == PatchedCopyModel::CheckTarget,
    {
        PatchedCopy::CheckTarget
    }

    /// The step that follows from what came of this one. An event that the step
    /// cannot have changes nothing.
    pub fn advance(self, event: PatchedCopyEvent) -> (after: PatchedCopy)
        ensures
            after@ == self@.next(event@),
    {
        match (self, event) {
            (PatchedCopy::CheckTarget, PatchedCopyEvent::Exists(answer)) => match answer {
                Err(message) => PatchedCopy::Finished { result: Err(EpubWriteError::Io { message }) },
                Ok(true) => PatchedCopy::Finished { result: Err(EpubWriteError::OutputExists) },
                Ok(false) => PatchedCopy::CreateParent,
            },
            (PatchedCopy::CreateParent, PatchedCopyEvent::Did(outcome)) => match outcome {
                Err(message) => PatchedCopy::Finished { result: Err(EpubWriteError::Io { message }) },
                Ok(()) => PatchedCopy::CheckTemp,
            },
            (PatchedCopy::CheckTemp, PatchedCopyEvent::Exists(answer)) => match answer {
                Err(message) => PatchedCopy::Finished { result: Err(EpubWriteError::Io { message }) },
                Ok(true) => PatchedCopy::RemoveStaleTemp,
                Ok(false) => PatchedCopy::OpenBook,
            },
            (PatchedCopy::RemoveStaleTemp, PatchedCopyEvent::Did(outcome)) => match outcome {
                Err(message) => PatchedCopy::Finished { result: Err(EpubWriteError::Io { message }) },
                Ok(()) => PatchedCopy::OpenBook,
            },
            (PatchedCopy::OpenBook, PatchedCopyEvent::Book(outcome)) => match outcome {
                Err(error) => PatchedCopy::CleanUp { error },
                Ok(()) => PatchedCopy::CreateTemp,
            },
            (PatchedCopy::CreateTemp, PatchedCopyEvent::Did(outcome)) => match outcome {
                Err(message) => PatchedCopy::CleanUp { error: EpubWriteError::Io { message } },
                Ok(()) => PatchedCopy::WriteTemp,
            },
            (PatchedCopy::WriteTemp, PatchedCopyEvent::Book(outcome)) => match outcome {
                Err(error) => PatchedCopy::CleanUp { error },
                Ok(()) => PatchedCopy::Place,
            },
            (PatchedCopy::Place, PatchedCopyEvent::Did(outcome)) => match outcome {
                Err(message) => PatchedCopy::CleanUp { error: EpubWriteError::Io { message } },
                Ok(()) => PatchedCopy::Finished { result: Ok(()) },
            },
            (PatchedCopy::CleanUp { error }, PatchedCopyEvent::Did(_)) => PatchedCopy::Finished {
                result: Err(error),
            },
            (step, _) => step,
        }
    }
}

/// The name of the temporary file for a target of this name.
pub open spec fn temp_output_name(file_name: Option<Seq<char>>) -> Seq<char> {
    (match file_name {
        Some(name) => name,
        None => "epub-mgr-output"@,
    }) + ".tmp"@
}

/// The name of the temporary file beside a target of this name.
pub fn temp_output_file_name(file_name: Option<&str>) -> (name: String)
    ensures
        name@ == temp_output_name(
            match file_name {
                Some(last) => Some(last@),
                None => None,
            },
        ),
{
    match file_name {
        Some(last) => pair(last, ".tmp"),
        None => pair("epub-mgr-output", ".tmp"),
    }
}

/// A target that exists is left alone. The temporary file is created only once the
/// book has been opened, so that a book without a container document, or with one
/// that names no package document, leaves no trace. Success comes only from the
/// rename of a copy that was written; and where anything failed from the opening of
/// the book on, the temporary file is to be removed before the error is given.
pub proof fn patched_copies_are_placed_last(step: PatchedCopyModel, event: PatchedCopyEventModel)
    requires
        step.awaits(event),
    ensures
        step is CheckTarget && event == PatchedCopyEventModel::Exists(Ok(true)) ==> step.next(event)
            == (PatchedCopyModel::Finished { error: Some(WriteErrorModel::OutputExists) }),
        step.next(event) is CreateTemp ==> step is OpenBook && event
            == PatchedCopyEventModel::Book(None),
        step.next(event) is WriteTemp ==> step is CreateTemp && event
            == PatchedCopyEventModel::Did(None),
        step.next(event) is Place ==> step is WriteTemp && event
            == PatchedCopyEventModel::Book(None),
        step.next(event) == (PatchedCopyModel::Finished { error: None }) ==> step is Place && event
            == PatchedCopyEventModel::Did(None),
        step is OpenBook || step is CreateTemp || step is WriteTemp || step is Place ==> step.next(
            event,
        ) is CleanUp || step.next(event) is CreateTemp || step.next(event) is WriteTemp
            || step.next(event) is Place || step.next(event) == (PatchedCopyModel::Finished {
            error: None,
        }),
{
}

/// A book that cannot be opened is the reason that its copy fails with, and no
/// temporary file is created for it.
pub proof fn unopened_books_leave_no_trace(error: WriteErrorModel, removal: Option<Seq<char>>)
    ensures
        PatchedCopyModel::OpenBook.next(PatchedCopyEventModel::Book(Some(error)))
            == (PatchedCopyModel::CleanUp { error }),
        (PatchedCopyModel::CleanUp { error }).next(PatchedCopyEventModel::Did(removal))
            == (PatchedCopyModel::Finished { error: Some(error) }),
{
}

/// A package document to which no patch is applied stays as it is.
pub proof fn unapplied_patches_change_nothing(opf: Seq<char>, patches: Seq<PatchModel>)
    requires
        metadata_range(opf) is Ok,
        forall|i: int| 0 <= i < patches.len() ==> !(#[trigger] patches[i]).applied,
    ensures
        patched_opf(opf, patches) == Ok::<Seq<char>, WriteErrorModel>(opf),
{
    let (start, end) = metadata_range(opf)->Ok_0;
    metadata_range_bounds(opf);
    nothing_is_named(opf.subrange(start, end), patches);
    first_applied_after(patches, MetadataField::Series, patches.len() as int);
    first_applied_after(patches, MetadataField::SeriesIndex, patches.len() as int);
    assert(opf.take(start) + opf.subrange(start, end) + opf.skip(end) =~= opf);
}

proof fn nothing_is_named(metadata: Seq<char>, patches: Seq<PatchModel>)
    requires
        forall|i: int| 0 <= i < patches.len() ==> !(#[trigger] patches[i]).applied,
    ensures
        with_names(metadata, patches) == metadata,
    decreases patches.len(),
{
    if patches.len() > 0 {
        assert(!patches[patches.len() - 1].applied);
        assert forall|i: int| 0 <= i < patches.drop_last().len() implies !(
        #[trigger] patches.drop_last()[i]).applied by {
            assert(!patches[i].applied);
        }
        nothing_is_named(metadata, patches.drop_last());
    }
}

proof fn metadata_range_bounds(opf: Seq<char>)
    requires
        metadata_range(opf) is Ok,
    ensures
        ({
            let (start, end) = metadata_range(opf)->Ok_0;
            0 <= start <= end <= opf.len()
        }),
{
    find_bounds(opf, "<metadata"@, 0);
    let start = find(opf, "<metadata"@, 0)->0;
    position_bounds(opf, |c: char| c == '>', start);
    find_bounds(opf, "</metadata>"@, position(opf, |c: char| c == '>', start) + 1);
}

/// What stands before and after the contents of the `metadata` element is kept.
pub proof fn text_around_metadata_is_kept(opf: Seq<char>, patches: Seq<PatchModel>)
    requires
        metadata_range(opf) is Ok,
    ensures
        ({
            let (start, end) = metadata_range(opf)->Ok_0;
            let patched = patched_opf(opf, patches)->Ok_0;
            &&& patched_opf(opf, patches) is Ok
            &&& patched.take(start) == opf.take(start)
            &&& patched.skip(patched.len() - (opf.len() - end)) == opf.skip(end)
        }),
{
    metadata_range_bounds(opf);
    let (start, end) = metadata_range(opf)->Ok_0;
    let patched = patched_opf(opf, patches)->Ok_0;
    assert(patched.take(start) =~= opf.take(start));
    assert(patched.skip(patched.len() - (opf.len() - end)) =~= opf.skip(end));
}

/// An escaped text holds no character that opens or closes a tag or an
/// attribute.
pub proof fn escaped_text_is_inert(s: Seq<char>)
    ensures
        forall|i: int|
            0 <= i < escaped(s).len() ==> #[trigger] escaped(s)[i] != '<' && escaped(s)[i] != '>'
                && escaped(s)[i] != '"',
    decreases s.len(),
{
    if s.len() > 0 {
        escaped_text_is_inert(s.drop_last());
        reveal_strlit("&amp;");
        reveal_strlit("&lt;");
        reveal_strlit("&gt;");
        reveal_strlit("&quot;");
        let head = escaped(s.drop_last());
        let tail = escaped_char(s.last());
        assert forall|i: int| 0 <= i < escaped(s).len() implies #[trigger] escaped(s)[i] != '<'
            && escaped(s)[i] != '>' && escaped(s)[i] != '"' by {
            if i < head.len() {
                assert(escaped(s)[i] == head[i]);
            } else {
                assert(escaped(s)[i] == tail[i - head.len()]);
            }
        }
    }
}

/// A text with `to` in place of each copy of `code`, from the left.
pub open spec fn replaced(s: Seq<char>, code: Seq<char>, to: char) -> Seq<char>
    decreases s.len(),
{
    if s.len() == 0 {
        s
    } else if code.len() > 0 && stands_at(s, code, 0) {
        seq![to] + replaced(s.skip(code.len() as int), code, to)
    } else {
        seq![s[0]] + replaced(s.skip(1), code, to)
    }
}

/// What stands for a text that was escaped.
pub open spec fn unescaped(s: Seq<char>) -> Seq<char> {
    let quotes = replaced(s, "&quot;"@, '"');
    let greater = replaced(quotes, "&gt;"@, '>');
    let less = replaced(greater, "&lt;"@, '<');
    replaced(less, "&amp;"@, '&')
}

/// The first `n` of the four signs are escaped: the ampersand, the two angle
/// brackets, and the quotation mark.
spec fn partly_escaped_char(c: char, n: int) -> Seq<char> {
    if c == '&' && n >= 1 || c == '<' && n >= 2 || c == '>' && n >= 3 || c == '"' && n >= 4 {
        escaped_char(c)
    } else {
        seq![c]
    }
}

spec fn partly_escaped(s: Seq<char>, n: int) -> Seq<char>
    decreases s.len(),
{
    if s.len() == 0 {
        s
    } else {
        partly_escaped_char(s[0], n) + partly_escaped(s.skip(1), n)
    }
}

proof fn escaped_from_the_left(s: Seq<char>)
    ensures
        escaped(s) == partly_escaped(s, 4),
    decreases s.len(),
{
    if s.len() > 0 {
        escaped_from_the_left(s.drop_last());
        partly_escaped_last(s, 4);
    }
}

proof fn partly_escaped_last(s: Seq<char>, n: int)
    requires
        s.len() > 0,
    ensures
        partly_escaped(s, n) == partly_escaped(s.drop_last(), n) + partly_escaped_char(s.last(), n),
    decreases s.len(),
{
    if s.len() > 1 {
        partly_escaped_last(s.skip(1), n);
        assert(s.skip(1).drop_last() =~= s.drop_last().skip(1));
        let first = partly_escaped_char(s[0], n);
        let middle = partly_escaped(s.drop_last().skip(1), n);
        let end = partly_escaped_char(s.last(), n);
        assert(first + (middle + end) =~= first + middle + end);
    } else {
        assert(s.skip(1) =~= Seq::empty());
        assert(s.drop_last() =~= Seq::empty());
        assert(partly_escaped_char(s[0], n) + Seq::<char>::empty() =~= Seq::<char>::empty()
            + partly_escaped_char(s[0], n));
    }
}

/// A character that does not open the code is passed over.
proof fn passed_over(c: char, rest: Seq<char>, code: Seq<char>, to: char)
    requires
        code.len() > 0,
        code[0] != c,
    ensures
        replaced(seq![c] + rest, code, to) == seq![c] + replaced(rest, code, to),
{
    let s = seq![c] + rest;
    stands_by_chars(s, code, 0);
    if stands_at(s, code, 0) {
        assert(s[0int + 0] == code[0]);
    }
    assert(s.skip(1) =~= rest);
}

/// Another code of the same start is passed over.
proof fn code_passed_over(other: Seq<char>, rest: Seq<char>, code: Seq<char>, to: char)
    requires
        code.len() > 2,
        other.len() > 1,
        code[0] == '&',
        other[1] != code[1],
        forall|i: int| 1 <= i < other.len() ==> #[trigger] other[i] != '&',
    ensures
        replaced(other + rest, code, to) == other + replaced(rest, code, to),
{
    let s = other + rest;
    stands_by_chars(s, code, 0);
    if stands_at(s, code, 0) {
        assert(s[0int + 1] == code[1]);
    }
    tail_passed_over(other, rest, code, to, 1);
    assert(s.skip(1) =~= other.skip(1) + rest);
    assert(seq![other[0]] + (other.skip(1) + replaced(rest, code, to)) =~= other + replaced(
        rest,
        code,
        to,
    ));
}

proof fn tail_passed_over(other: Seq<char>, rest: Seq<char>, code: Seq<char>, to: char, k: int)
    requires
        code.len() > 0,
        code[0] == '&',
        1 <= k <= other.len(),
        forall|i: int| 1 <= i < other.len() ==> #[trigger] other[i] != '&',
    ensures
        replaced(other.skip(k) + rest, code, to) == other.skip(k) + replaced(rest, code, to),
    decreases other.len() - k,
{
    if k < other.len() {
        tail_passed_over(other, rest, code, to, k + 1);
        assert(other.skip(k) + rest =~= seq![other[k]] + (other.skip(k + 1) + rest));
        passed_over(other[k], other.skip(k + 1) + rest, code, to);
        assert(seq![other[k]] + (other.skip(k + 1) + replaced(rest, code, to)) =~= other.skip(k)
            + replaced(rest, code, to));
    } else {
        assert(other.skip(k) + rest =~= rest);
        assert(other.skip(k) + replaced(rest, code, to) =~= replaced(rest, code, to));
    }
}

/// Replacing the code of the last of the signs that are escaped leaves the others.
proof fn one_sign_undone(s: Seq<char>, n: int)
    requires
        1 <= n <= 4,
    ensures
        ({
            let sign = if n == 1 {
                '&'
            } else if n == 2 {
                '<'
            } else if n == 3 {
                '>'
            } else {
                '"'
            };
            replaced(partly_escaped(s, n), escaped_char(sign), sign) == partly_escaped(s, n - 1)
        }),
    decreases s.len(),
{
    reveal_strlit("&amp;");
    reveal_strlit("&lt;");
    reveal_strlit("&gt;");
    reveal_strlit("&quot;");
    if s.len() > 0 {
        one_sign_undone(s.skip(1), n);
        let sign = if n == 1 {
            '&'
        } else if n == 2 {
            '<'
        } else if n == 3 {
            '>'
        } else {
            '"'
        };
        let code = escaped_char(sign);
        let c = s[0];
        let rest = partly_escaped(s.skip(1), n);
        let first = partly_escaped_char(c, n);
        if c == sign {
            let whole = code + rest;
            assert(whole.subrange(0, code.len() as int) =~= code);
            assert(stands_at(whole, code, 0));
            assert(whole.skip(code.len() as int) =~= rest);
        } else if first == escaped_char(c) && first.len() > 1 {
            code_passed_over(first, rest, code, sign);
        } else {
            assert(first =~= seq![c]);
            passed_over(c, rest, code, sign);
        }
    }
}

proof fn nothing_escaped(s: Seq<char>)
    ensures
        partly_escaped(s, 0) == s,
    decreases s.len(),
{
    if s.len() > 0 {
        nothing_escaped(s.skip(1));
        assert(seq![s[0]] + s.skip(1) =~= s);
    }
}

/// Escaping can be undone: the text comes back when the codes are replaced by the
/// signs that they stand for, the ampersand last.
pub proof fn escaping_can_be_undone(s: Seq<char>)
    ensures
        unescaped(escaped(s)) == s,
{
    escaped_from_the_left(s);
    one_sign_undone(s, 4);
    one_sign_undone(s, 3);
    one_sign_undone(s, 2);
    one_sign_undone(s, 1);
    nothing_escaped(s);
}

/// No two texts are escaped to the same.
pub proof fn escaping_keeps_texts_apart(a: Seq<char>, b: Seq<char>)
    requires
        escaped(a) == escaped(b),
    ensures
        a == b,
{
    escaping_can_be_undone(a);
    escaping_can_be_undone(b);
}

/// A name that can stand in a tag.
pub open spec fn is_tag_name(name: Seq<char>) -> bool {
    forall|i: int|
        0 <= i < name.len() ==> #[trigger] name[i] != '<' && name[i] != '>' && name[i] != '\n'
}

proof fn found_at(s: Seq<char>, pattern: Seq<char>, from: int, at: int)
    requires
        0 <= from <= at,
        stands_at(s, pattern, at),
        forall|j: int| from <= j < at ==> !stands_at(s, pattern, j),
    ensures
        find(s, pattern, from) == Some(at),
{
    find_bounds(s, pattern, from);
}

proof fn stands_by_chars(s: Seq<char>, pattern: Seq<char>, at: int)
    requires
        0 <= at,
    ensures
        stands_at(s, pattern, at) <==> at + pattern.len() <= s.len() && forall|i: int|
            0 <= i < pattern.len() ==> s[at + i] == #[trigger] pattern[i],
{
    if at + pattern.len() <= s.len() {
        let part = s.subrange(at, at + pattern.len());
        if forall|i: int| 0 <= i < pattern.len() ==> s[at + i] == #[trigger] pattern[i] {
            assert(part =~= pattern);
        } else {
            let i = choose|i: int| 0 <= i < pattern.len() && s[at + i] != #[trigger] pattern[i];
            assert(part[i] != pattern[i]);
        }
    }
}

/// A title or an author that was written is what stands in the first element of
/// that name, as long as the metadata had none, or had one that was complete.
pub proof fn written_names_read_back(metadata: Seq<char>, name: Seq<char>, value: Seq<char>)
    requires
        is_tag_name(name),
        dc_range(metadata, name) is Some || !contains(metadata, dc_open(name)),
    ensures
        ({
            let after = with_dc(metadata, name, value);
            match dc_range(after, name) {
                Some((start, end)) => after.subrange(start, end) == escaped(value),
                None => false,
            }
        }),
{
    reveal_strlit("<dc:");
    reveal_strlit("</dc:");
    reveal_strlit(">");
    reveal_strlit("\n    <dc:");
    let open = dc_open(name);
    let close = dc_close(name);
    let inner = escaped(value);
    let after = with_dc(metadata, name, value);
    let gt = |c: char| c == '>';
    escaped_text_is_inert(value);
    assert(open[0] == '<');
    assert(close[0] == '<');
    assert forall|i: int| 0 <= i < open.len() implies open[i] != '>' && open[i] != '\n' by {
        if i >= 4 {
            assert(open[i] == name[i - 4]);
        }
    }
    find_bounds(metadata, open, 0);
    let (at, a) = if dc_range(metadata, name) is Some {
        let at = find(metadata, open, 0)->0;
        position_bounds(metadata, gt, at);
        let a = position(metadata, gt, at) + 1;
        find_bounds(metadata, close, a);
        let b = find(metadata, close, a)->0;
        stands_by_chars(metadata, open, at);
        assert(at + open.len() < a) by {
            if a - 1 < at + open.len() {
                assert(metadata[at + (a - 1 - at)] == open[a - 1 - at]);
            }
        }
        assert(after =~= metadata.take(a) + inner + metadata.skip(b));
        assert(forall|i: int| 0 <= i < a ==> after[i] == metadata[i]);
        stands_by_chars(after, open, at);
        assert(stands_at(after, open, at));
        assert forall|j: int| 0 <= j < at implies !stands_at(after, open, j) by {
            stands_by_chars(after, open, j);
            stands_by_chars(metadata, open, j);
            assert(!stands_at(metadata, open, j));
            let i = choose|i: int|
                0 <= i < open.len() && metadata[j + i] != #[trigger] open[i];
            assert(after[j + i] == metadata[j + i]);
        }
        stands_by_chars(metadata, close, b);
        assert forall|i: int| 0 <= i < close.len() implies after[a + inner.len() + i]
            == #[trigger] close[i] by {
            assert(after[a + inner.len() + i] == metadata[b + i]);
        }
        (at, a)
    } else {
        let n = metadata.len() as int;
        let lead = "\n    <dc:"@;
        assert(after =~= metadata + lead + name + ">"@ + inner + close);
        let at = n + 5;
        let a = at + open.len() + 1;
        assert forall|i: int| 0 <= i < open.len() implies after[at + i] == #[trigger] open[i] by {
            if i < 4 {
                assert(after[at + i] == lead[5 + i]);
            } else {
                assert(after[at + i] == name[i - 4]);
            }
        }
        stands_by_chars(after, open, at);
        assert(after[a - 1] == '>');
        assert forall|j: int| 0 <= j < at implies !stands_at(after, open, j) by {
            stands_by_chars(after, open, j);
            stands_by_chars(metadata, open, j);
            assert(!stands_at(metadata, open, j));
            if j + open.len() <= n {
                let i = choose|i: int|
                    0 <= i < open.len() && metadata[j + i] != #[trigger] open[i];
                assert(after[j + i] == metadata[j + i]);
            } else if j <= n {
                assert(after[j + (n - j)] == '\n');
                assert(open[n - j] != '\n');
            } else {
                assert(after[j + 0] == lead[j - n]);
                assert(open[0] == '<');
            }
        }
        assert forall|i: int| 0 <= i < close.len() implies after[a + inner.len() + i]
            == #[trigger] close[i] by {}
        (at, a)
    };
    found_at(after, open, 0, at);
    position_bounds(after, gt, at);
    assert(position(after, gt, at) == a - 1) by {
        stands_by_chars(after, open, at);
        assert forall|i: int| at <= i < a - 1 implies after[i] != '>' by {
            if i < at + open.len() {
                assert(after[at + (i - at)] == open[i - at]);
            }
        }
    }
    stands_by_chars(after, close, a + inner.len());
    assert forall|j: int| a <= j < a + inner.len() implies !stands_at(after, close, j) by {
        stands_by_chars(after, close, j);
        assert(after[j + 0] == inner[j - a]);
        assert(close[0] == '<');
    }
    found_at(after, close, a, a + inner.len());
    assert(after.subrange(a, a + inner.len()) =~= inner);
}

proof fn nothing_contained(s: Seq<char>, pattern: Seq<char>)
    requires
        forall|j: int| 0 <= j ==> !stands_at(s, pattern, j),
    ensures
        !contains(s, pattern),
{
    find_bounds(s, pattern, 0);
}

/// A `metadata` element with other contents still starts where it did, and ends
/// where the contents do, as long as they do not close it themselves.
proof fn metadata_range_moves(opf: Seq<char>, contents: Seq<char>)
    requires
        metadata_range(opf) is Ok,
        !contains(contents, "</metadata>"@),
    ensures
        ({
            let (start, end) = metadata_range(opf)->Ok_0;
            metadata_range(opf.take(start) + contents + opf.skip(end)) == Ok::<
                (int, int),
                Seq<char>,
            >((start, start + contents.len()))
        }),
{
    reveal_strlit("<metadata");
    reveal_strlit("</metadata>");
    metadata_range_bounds(opf);
    let (start, end) = metadata_range(opf)->Ok_0;
    let open = "<metadata"@;
    let close = "</metadata>"@;
    let gt = |c: char| c == '>';
    let after = opf.take(start) + contents + opf.skip(end);
    find_bounds(opf, open, 0);
    let at = find(opf, open, 0)->0;
    position_bounds(opf, gt, at);
    find_bounds(opf, close, start);
    stands_by_chars(opf, open, at);
    assert(at + open.len() < start) by {
        if start - 1 < at + open.len() {
            assert(opf[at + (start - 1 - at)] == open[start - 1 - at]);
        }
    }
    assert(forall|i: int| 0 <= i < start ==> after[i] == opf[i]);
    stands_by_chars(after, open, at);
    assert forall|j: int| 0 <= j < at implies !stands_at(after, open, j) by {
        stands_by_chars(after, open, j);
        stands_by_chars(opf, open, j);
        assert(!stands_at(opf, open, j));
        let i = choose|i: int| 0 <= i < open.len() && opf[j + i] != #[trigger] open[i];
        assert(after[j + i] == opf[j + i]);
    }
    found_at(after, open, 0, at);
    position_bounds(after, gt, at);
    assert(position(after, gt, at) == start - 1);
    let last = start + contents.len();
    stands_by_chars(opf, close, end);
    stands_by_chars(after, close, last);
    assert forall|i: int| 0 <= i < close.len() implies after[last + i] == #[trigger] close[i] by {
        assert(after[last + i] == opf[end + i]);
    }
    assert forall|j: int| start <= j < last implies !stands_at(after, close, j) by {
        stands_by_chars(after, close, j);
        if stands_at(after, close, j) {
            if j + close.len() <= last {
                stands_by_chars(contents, close, j - start);
                assert forall|i: int| 0 <= i < close.len() implies contents[j - start + i]
                    == #[trigger] close[i] by {
                    assert(after[j + i] == close[i]);
                }
                contains_by_place(contents, close, j - start);
            } else {
                assert(after[last] == close[0]) by {
                    assert(after[last + 0] == close[0]);
                }
                assert(after[j + (last - j)] == close[last - j]);
            }
        }
    }
    found_at(after, close, start, last);
}

/// Writing a title or an author does not close the `metadata` element.
proof fn names_do_not_close_metadata(metadata: Seq<char>, name: Seq<char>, value: Seq<char>)
    requires
        is_tag_name(name),
        !contains(metadata, "</metadata>"@),
    ensures
        !contains(with_dc(metadata, name, value), "</metadata>"@),
{
    reveal_strlit("</metadata>");
    reveal_strlit("<dc:");
    reveal_strlit("</dc:");
    reveal_strlit(">");
    reveal_strlit("\n    <dc:");
    let close = "</metadata>"@;
    let inner = escaped(value);
    let after = with_dc(metadata, name, value);
    escaped_text_is_inert(value);
    find_bounds(metadata, close, 0);
    match dc_range(metadata, name) {
        Some((a, b)) => {
            find_bounds(metadata, dc_open(name), 0);
            let at = find(metadata, dc_open(name), 0)->0;
            position_bounds(metadata, |c: char| c == '>', at);
            find_bounds(metadata, dc_close(name), a);
            assert forall|j: int| 0 <= j implies !stands_at(after, close, j) by {
                stands_by_chars(after, close, j);
                if stands_at(after, close, j) {
                    if j + close.len() <= a {
                        stands_by_chars(metadata, close, j);
                        assert forall|i: int| 0 <= i < close.len() implies metadata[j + i]
                            == #[trigger] close[i] by {
                            assert(after[j + i] == close[i]);
                        }
                        assert(stands_at(metadata, close, j));
                    } else if j < a {
                        assert(after[j + (a - 1 - j)] == close[a - 1 - j]);
                        assert(after[a - 1] == metadata[a - 1]);
                    } else if j < a + inner.len() {
                        assert(after[j + 0] == close[0]);
                        assert(after[j] == inner[j - a]);
                    } else {
                        let k = j - a - inner.len() + b;
                        stands_by_chars(metadata, close, k);
                        assert forall|i: int| 0 <= i < close.len() implies metadata[k + i]
                            == #[trigger] close[i] by {
                            assert(after[j + i] == close[i]);
                            assert(after[j + i] == metadata[k + i]);
                        }
                        assert(stands_at(metadata, close, k));
                    }
                }
            }
        },
        None => {
            let n = metadata.len() as int;
            let lead = "\n    <dc:"@;
            let tail = "</dc:"@;
            assert(after =~= metadata + lead + name + ">"@ + inner + tail + name + ">"@);
            assert forall|j: int| 0 <= j implies !stands_at(after, close, j) by {
                stands_by_chars(after, close, j);
                if stands_at(after, close, j) {
                    assert(after[j + 0] == close[0]);
                    assert(after[j + 1] == close[1]);
                    assert(after[j + 2] == close[2]);
                    if j + close.len() <= n {
                        stands_by_chars(metadata, close, j);
                        assert forall|i: int| 0 <= i < close.len() implies metadata[j + i]
                            == #[trigger] close[i] by {
                            assert(after[j + i] == close[i]);
                        }
                        assert(stands_at(metadata, close, j));
                    } else if j <= n {
                        assert(after[j + (n - j)] == close[n - j]);
                        assert(after[n] == lead[0]);
                    } else if j < n + 9 {
                        assert(after[j] == lead[j - n]);
                        assert(j == n + 5);
                        assert(after[n + 6] == lead[6]);
                    } else if j < n + 9 + name.len() {
                        assert(after[j] == name[j - n - 9]);
                    } else if j < n + 10 + name.len() {
                        assert(after[j] == '>');
                    } else if j < n + 10 + name.len() + inner.len() {
                        assert(after[j] == inner[j - n - 10 - name.len()]);
                    } else if j < n + 15 + name.len() + inner.len() {
                        let k = n + 10 + name.len() + inner.len();
                        assert(after[j] == tail[j - k]);
                        assert(j == k);
                        assert(after[k + 2] == tail[2]);
                    } else if j < n + 15 + 2 * name.len() + inner.len() {
                        assert(after[j] == name[j - n - 15 - name.len() - inner.len()]);
                    } else {
                        assert(after[j] == '>');
                    }
                }
            }
        },
    }
    nothing_contained(after, close);
}

/// The tag of the element that a field is written to, where it has one of its own.
pub open spec fn field_tag(field: MetadataField) -> Option<Seq<char>> {
    match field {
        MetadataField::Title => Some("title"@),
        MetadataField::Author => Some("creator"@),
        _ => None,
    }
}

/// A title or an author that was written to a package document is what stands in
/// the first element of that name in its `metadata` element, as long as that had
/// no such element, or had one that was complete.
pub proof fn patched_names_read_back(opf: Seq<char>, patch: PatchModel)
    requires
        patch.applied,
        field_tag(patch.field) is Some,
        match metadata_range(opf) {
            Ok((start, end)) => {
                let metadata = opf.subrange(start, end);
                let tag = field_tag(patch.field)->0;
                dc_range(metadata, tag) is Some || !contains(metadata, dc_open(tag))
            },
            Err(_) => false,
        },
    ensures
        match patched_opf(opf, seq![patch]) {
            Ok(patched) => match metadata_range(patched) {
                Ok((start, end)) => {
                    let metadata = patched.subrange(start, end);
                    match dc_range(metadata, field_tag(patch.field)->0) {
                        Some((first, last)) => metadata.subrange(first, last) == escaped(
                            patch.new_value,
                        ),
                        None => false,
                    }
                },
                Err(_) => false,
            },
            Err(_) => false,
        },
{
    reveal_strlit("title");
    reveal_strlit("creator");
    reveal_strlit("</metadata>");
    let (start, end) = metadata_range(opf)->Ok_0;
    let metadata = opf.subrange(start, end);
    let tag = field_tag(patch.field)->0;
    metadata_range_bounds(opf);
    contents_do_not_close_metadata(opf);
    assert(is_tag_name(tag));
    let named = with_dc(metadata, tag, patch.new_value);
    let patches = seq![patch];
    assert(patches.drop_last() =~= Seq::empty());
    assert(with_names(metadata, patches.drop_last()) == metadata);
    assert(patches.last() == patch);
    assert(with_names(metadata, patches) == named);
    assert(patches.drop_first() =~= Seq::empty());
    first_applied_after(patches, MetadataField::Series, 1);
    first_applied_after(patches, MetadataField::SeriesIndex, 1);
    names_do_not_close_metadata(metadata, tag, patch.new_value);
    metadata_range_moves(opf, named);
    let patched = opf.take(start) + named + opf.skip(end);
    assert(patched.subrange(start, start + named.len()) =~= named);
    written_names_read_back(metadata, tag, patch.new_value);
}

proof fn contains_by_place(s: Seq<char>, pattern: Seq<char>, at: int)
    requires
        0 <= at,
        stands_at(s, pattern, at),
    ensures
        contains(s, pattern),
{
    find_bounds(s, pattern, 0);
}

proof fn requoted_text_is_inert(s: Seq<char>)
    requires
        forall|i: int| 0 <= i < s.len() ==> #[trigger] s[i] != '<',
    ensures
        is_inert(requoted(s)),
    decreases s.len(),
{
    if s.len() > 0 {
        reveal_strlit("&quot;");
        assert forall|i: int| 0 <= i < s.drop_last().len() implies #[trigger] s.drop_last()[i]
            != '<' by {
            assert(s.drop_last()[i] == s[i]);
        }
        requoted_text_is_inert(s.drop_last());
        assert(s[s.len() - 1] != '<');
        let before = requoted(s.drop_last());
        assert forall|i: int| 0 <= i < requoted(s).len() implies #[trigger] requoted(s)[i] != '<'
            && requoted(s)[i] != '"' by {
            if i < before.len() {
                assert(requoted(s)[i] == before[i]);
            }
        }
    }
}

/// What is written of a series can stand in quotes and between tags.
proof fn written_values_are_inert(
    metadata: Seq<char>,
    series: Option<Seq<char>>,
    index: Option<Seq<char>>,
)
    ensures
        is_inert_or_none(series_to_write(metadata, series)),
        is_inert_or_none(index_to_write(metadata, index)),
{
    existing_series_holds_no_tags(metadata);
    match existing_series(metadata) {
        Some(existing) => {
            requoted_text_is_inert(existing.series);
            if existing.index is Some {
                requoted_text_is_inert(existing.index->0);
            }
        },
        None => {},
    }
    if series is Some {
        escaped_text_is_inert(series->0);
    }
    if index is Some {
        escaped_text_is_inert(index->0);
    }
}

/// Where a series or a place in one is written, the elements that are written for it
/// are all that say anything of a series: the collection, that it is a series, the
/// place, and Calibre's two notes, each of them once and with the new value. This
/// asks for metadata in which whatever is opened is closed.
pub proof fn written_series_stand_alone(metadata: Seq<char>, patches: Seq<PatchModel>)
    requires
        first_applied(patches, MetadataField::Series) is Some || first_applied(
            patches,
            MetadataField::SeriesIndex,
        ) is Some,
        is_balanced(with_names(metadata, patches)),
    ensures
        ({
            let named = with_names(metadata, patches);
            let all = metas(patched_metadata(metadata, patches), 0);
            telling(all, all) == written_metas(
                series_to_write(named, first_applied(patches, MetadataField::Series)),
                index_to_write(named, first_applied(patches, MetadataField::SeriesIndex)),
            )
        }),
{
    let named = with_names(metadata, patches);
    let series = series_to_write(named, first_applied(patches, MetadataField::Series));
    let index = index_to_write(named, first_applied(patches, MetadataField::SeriesIndex));
    written_values_are_inert(
        named,
        first_applied(patches, MetadataField::Series),
        first_applied(patches, MetadataField::SeriesIndex),
    );
    series_elements_are_read(series, index);
    what_is_left_is_balanced(named);
    metas_of_both(without_series(named), series_elements(series, index));
    no_element_tells_of_series(named);
    written_metas_stand_alone(metas(without_series(named), 0), series, index);
}

/// A series that is written is the one that is found again, with the place in it.
/// This asks for metadata in which whatever is opened is closed.
pub proof fn written_series_is_found_again(metadata: Seq<char>, patches: Seq<PatchModel>)
    requires
        first_applied(patches, MetadataField::Series) is Some || first_applied(
            patches,
            MetadataField::SeriesIndex,
        ) is Some,
        is_balanced(with_names(metadata, patches)),
    ensures
        ({
            let named = with_names(metadata, patches);
            let series = series_to_write(named, first_applied(patches, MetadataField::Series));
            let index = index_to_write(named, first_applied(patches, MetadataField::SeriesIndex));
            series is Some && !is_blank(series->0) ==> existing_series(
                patched_metadata(metadata, patches),
            ) == Some(SeriesText { series: trim(series->0), index: meaningful_text(index) })
        }),
{
    let named = with_names(metadata, patches);
    let series = series_to_write(named, first_applied(patches, MetadataField::Series));
    let index = index_to_write(named, first_applied(patches, MetadataField::SeriesIndex));
    written_values_are_inert(
        named,
        first_applied(patches, MetadataField::Series),
        first_applied(patches, MetadataField::SeriesIndex),
    );
    series_elements_are_read(series, index);
    what_is_left_is_balanced(named);
    metas_of_both(without_series(named), series_elements(series, index));
    no_element_tells_of_series(named);
    if series is Some && !is_blank(series->0) {
        written_metas_are_found(metas(without_series(named), 0), series->0, index);
    }
}

/// The contents of a `metadata` element do not close it.
proof fn contents_do_not_close_metadata(opf: Seq<char>)
    requires
        metadata_range(opf) is Ok,
    ensures
        ({
            let (start, end) = metadata_range(opf)->Ok_0;
            !contains(opf.subrange(start, end), "</metadata>"@)
        }),
{
    reveal_strlit("</metadata>");
    let (start, end) = metadata_range(opf)->Ok_0;
    let metadata = opf.subrange(start, end);
    let close = "</metadata>"@;
    metadata_range_bounds(opf);
    find_bounds(opf, close, start);
    assert forall|j: int| 0 <= j implies !stands_at(metadata, close, j) by {
        stands_by_chars(metadata, close, j);
        stands_by_chars(opf, close, start + j);
        if stands_at(metadata, close, j) {
            assert forall|i: int| 0 <= i < close.len() implies opf[start + j + i]
                == #[trigger] close[i] by {
                assert(metadata[j + i] == close[i]);
            }
            assert(stands_at(opf, close, start + j));
        }
    }
    nothing_contained(metadata, close);
}

proof fn patched_names_do_not_close_metadata(metadata: Seq<char>, patches: Seq<PatchModel>)
    requires
        !contains(metadata, "</metadata>"@),
    ensures
        !contains(with_names(metadata, patches), "</metadata>"@),
    decreases patches.len(),
{
    if patches.len() > 0 {
        patched_names_do_not_close_metadata(metadata, patches.drop_last());
        let before = with_names(metadata, patches.drop_last());
        reveal_strlit("title");
        reveal_strlit("creator");
        names_do_not_close_metadata(before, "title"@, patches.last().new_value);
        names_do_not_close_metadata(before, "creator"@, patches.last().new_value);
    }
}

/// A series that was written to a package document is read back from it: in its
/// `metadata` element the elements that were written for it are all that say anything
/// of a series, each of them once and with the new value, and the series is the one
/// that is found. This asks for metadata in which whatever is opened is closed.
pub proof fn patched_series_read_back(opf: Seq<char>, patches: Seq<PatchModel>)
    requires
        first_applied(patches, MetadataField::Series) is Some || first_applied(
            patches,
            MetadataField::SeriesIndex,
        ) is Some,
        match metadata_range(opf) {
            Ok((start, end)) => is_balanced(with_names(opf.subrange(start, end), patches)),
            Err(_) => false,
        },
    ensures
        ({
            let (first, last) = metadata_range(opf)->Ok_0;
            let named = with_names(opf.subrange(first, last), patches);
            let series = series_to_write(named, first_applied(patches, MetadataField::Series));
            let index = index_to_write(named, first_applied(patches, MetadataField::SeriesIndex));
            match patched_opf(opf, patches) {
                Ok(patched) => match metadata_range(patched) {
                    Ok((start, end)) => {
                        let metadata = patched.subrange(start, end);
                        let all = metas(metadata, 0);
                        &&& telling(all, all) == written_metas(series, index)
                        &&& series is Some && !is_blank(series->0) ==> existing_series(metadata)
                            == Some(
                            SeriesText { series: trim(series->0), index: meaningful_text(index) },
                        )
                    },
                    Err(_) => false,
                },
                Err(_) => false,
            }
        }),
{
    let (start, end) = metadata_range(opf)->Ok_0;
    let metadata = opf.subrange(start, end);
    let named = with_names(metadata, patches);
    let new_series = first_applied(patches, MetadataField::Series);
    let new_index = first_applied(patches, MetadataField::SeriesIndex);
    let series = series_to_write(named, new_series);
    let index = index_to_write(named, new_index);
    let inner = patched_metadata(metadata, patches);
    metadata_range_bounds(opf);
    contents_do_not_close_metadata(opf);
    patched_names_do_not_close_metadata(metadata, patches);
    metadata_is_closed_by_a_tag();
    what_is_left_holds_no_tag(named, "</metadata>"@);
    what_is_left_is_balanced(named);
    written_values_are_inert(named, new_series, new_index);
    series_elements_close_nothing(series, index);
    no_tag_between(without_series(named), series_elements(series, index), "</metadata>"@, 0);
    metadata_range_moves(opf, inner);
    let patched = opf.take(start) + inner + opf.skip(end);
    assert(patched.subrange(start, start + inner.len()) =~= inner);
    written_series_stand_alone(metadata, patches);
    written_series_is_found_again(metadata, patches);
}

/// The patches that are applied.
pub open spec fn applied_patches(patches: Seq<PatchModel>) -> Seq<PatchModel>
    decreases patches.len(),
{
    if patches.len() == 0 {
        patches
    } else if patches.last().applied {
        applied_patches(patches.drop_last()).push(patches.last())
    } else {
        applied_patches(patches.drop_last())
    }
}

proof fn names_of_applied_patches(metadata: Seq<char>, patches: Seq<PatchModel>)
    ensures
        with_names(metadata, applied_patches(patches)) == with_names(metadata, patches),
    decreases patches.len(),
{
    if patches.len() > 0 {
        names_of_applied_patches(metadata, patches.drop_last());
        if patches.last().applied {
            let before = applied_patches(patches.drop_last());
            assert(before.push(patches.last()).drop_last() =~= before);
        }
    }
}

proof fn first_applied_from_the_right(patches: Seq<PatchModel>, field: MetadataField)
    requires
        patches.len() > 0,
    ensures
        first_applied(patches, field) == match first_applied(patches.drop_last(), field) {
            Some(value) => Some(value),
            None => if patches.last().applied && patches.last().field == field {
                Some(patches.last().new_value)
            } else {
                None
            },
        },
    decreases patches.len(),
{
    if patches.len() == 1 {
        assert(patches.drop_first() =~= Seq::empty());
    } else {
        first_applied_from_the_right(patches.drop_first(), field);
        assert(patches.drop_first().drop_last() =~= patches.drop_last().drop_first());
    }
}

proof fn values_of_applied_patches(patches: Seq<PatchModel>, field: MetadataField)
    ensures
        first_applied(applied_patches(patches), field) == first_applied(patches, field),
    decreases patches.len(),
{
    if patches.len() > 0 {
        values_of_applied_patches(patches.drop_last(), field);
        first_applied_from_the_right(patches, field);
        if patches.last().applied {
            let before = applied_patches(patches.drop_last());
            let all = before.push(patches.last());
            first_applied_from_the_right(all, field);
            assert(all.drop_last() =~= before);
        }
    }
}

/// To apply a list of patches is to apply those of them that are applied.
pub proof fn only_applied_patches_count(opf: Seq<char>, patches: Seq<PatchModel>)
    ensures
        patched_opf(opf, applied_patches(patches)) == patched_opf(opf, patches),
{
    values_of_applied_patches(patches, MetadataField::Series);
    values_of_applied_patches(patches, MetadataField::SeriesIndex);
    if metadata_range(opf) is Ok {
        let (start, end) = metadata_range(opf)->Ok_0;
        names_of_applied_patches(opf.subrange(start, end), patches);
    }
}

/// A series that no patch names is kept beside a new place in it, and a place that
/// no patch gives beside a new series.
pub proof fn unpatched_series_is_kept(metadata: Seq<char>)
    requires
        existing_series(metadata) is Some,
    ensures
        series_to_write(metadata, None) == Some(requoted(existing_series(metadata)->0.series)),
        existing_series(metadata)->0.index is Some ==> index_to_write(metadata, None) == Some(
            requoted(existing_series(metadata)->0.index->0),
        ),
{
}

/// Elements that can say nothing of a series stay in a package document when patches
/// to the series are applied: the book's identifiers, say. What stands before them
/// has to be closed, so that they stand in no element that is about a series.
pub proof fn other_elements_are_kept(
    opf: Seq<char>,
    patches: Seq<PatchModel>,
    before: Seq<char>,
    element: Seq<char>,
    after: Seq<char>,
)
    requires
        metadata_range(opf) is Ok,
        is_balanced(before),
        is_other_markup(element),
        ({
            let (start, end) = metadata_range(opf)->Ok_0;
            with_names(opf.subrange(start, end), patches) == before + element + after
        }),
    ensures
        patched_opf(opf, patches) is Ok,
        contains(patched_opf(opf, patches)->Ok_0, element),
{
    metadata_range_bounds(opf);
    let (start, end) = metadata_range(opf)->Ok_0;
    let metadata = opf.subrange(start, end);
    let named = with_names(metadata, patches);
    let inner = patched_metadata(metadata, patches);
    let patched = patched_opf(opf, patches)->Ok_0;
    other_markup_is_kept(before, element, after);
    contains_by_place_in(named, before, element, after);
    let kept = if inner == named {
        named
    } else {
        without_series(named)
    };
    find_bounds(kept, element, 0);
    let at = find(kept, element, 0)->0;
    assert(patched.subrange(start + at, start + at + element.len()) =~= kept.subrange(
        at,
        at + element.len(),
    ));
    contains_by_place(patched, element, start + at);
}

proof fn contains_by_place_in(s: Seq<char>, before: Seq<char>, part: Seq<char>, after: Seq<char>)
    requires
        s == before + part + after,
    ensures
        contains(s, part),
{
    let at = before.len() as int;
    assert(s.subrange(at, at + part.len()) =~= part);
    contains_by_place(s, part, at);
}

/// A book whose entries fit an archive is copied, and one that cannot be copied
/// fails for the reason that the book gives: what is wrong with its archive, that
/// it has no container document, that this names no package document, or what is
/// wrong with the first entry that cannot be carried over.
pub proof fn copies_fail_as_the_book_does(
    source: Seq<u8>,
    patches: Seq<PatchModel>,
    out: Result<Vec<u8>, EpubWriteError>,
)
    requires
        written_as(out, rewritten_book(source, patches), carried_over_book(source, patches)),
    ensures
        package_path(source) is Err ==> out is Err && out->Err_0@ == package_path(source)->Err_0,
        fit_an_archive(carried_over_book(source, patches)) ==> match rewritten_book(
            source,
            patches,
        ) {
            Ok(_) => out is Ok,
            Err(error) => out is Err && out->Err_0@ == error,
        },
{
}

/// The copy of a book has the entries of the book, in order and under their
/// names; only the contents of the package document differ.
pub proof fn other_entries_are_kept(source: Seq<u8>, patches: Seq<PatchModel>, index: nat)
    requires
        rewritten_book(source, patches) is Ok,
        index < entry_count(source),
    ensures
        ({
            let entries = rewritten_book(source, patches)->Ok_0;
            let entry = entry_at(source, index)->Ok_0;
            &&& entries.len() == entry_count(source)
            &&& entry_at(source, index) is Ok
            &&& entries[index as int].0 == entry.name
            &&& entry.name != package_path(source)->Ok_0 && !names_directory(entry.name)
                ==> entry.contents == Ok::<Seq<u8>, Seq<char>>(entries[index as int].1)
        }),
{
    entries_one_by_one(
        source,
        package_path(source)->Ok_0,
        patches,
        entry_count(source),
        index,
    );
}

/// A copy that was written can be opened and reads back as the book it was made
/// from: as many entries, in the same order and under the same names, with the same
/// contents but for directories, which have none, and the package document, which
/// has the patches. This holds of a copy whose end cannot be taken for that of another
/// archive: any that has fewer than 65535 entries and is shorter than four gibibytes,
/// and most of the others.
pub proof fn copies_read_back(
    source: Seq<u8>,
    patches: Seq<PatchModel>,
    out: Result<Vec<u8>, EpubWriteError>,
    index: nat,
)
    requires
        written_as(out, rewritten_book(source, patches), carried_over_book(source, patches)),
        out is Ok,
        has_clear_end(rewritten_book(source, patches)->Ok_0, out->Ok_0@),
        index < entry_count(source),
    ensures
        ({
            let copy = out->Ok_0@;
            let path = package_path(source)->Ok_0;
            let before = entry_at(source, index)->Ok_0;
            let after = entry_at(copy, index)->Ok_0;
            &&& open_failure(copy) is None
            &&& entry_count(copy) == entry_count(source)
            &&& entry_at(source, index) is Ok
            &&& entry_at(copy, index) is Ok
            &&& after.name == before.name
            &&& names_directory(before.name) ==> after.contents == Ok::<Seq<u8>, Seq<char>>(
                Seq::empty(),
            )
            &&& !names_directory(before.name) && before.name != path ==> after.contents
                == before.contents
            &&& !names_directory(before.name) && before.name == path ==> {
                &&& before.contents is Ok
                &&& patched_opf(decode_utf8(before.contents->Ok_0), patches) is Ok
                &&& after.contents == Ok::<Seq<u8>, Seq<char>>(
                    encode_utf8(patched_opf(decode_utf8(before.contents->Ok_0), patches)->Ok_0),
                )
            }
        }),
{
    other_entries_are_kept(source, patches, index);
    entries_one_by_one(
        source,
        package_path(source)->Ok_0,
        patches,
        entry_count(source),
        index,
    );
}

proof fn entries_one_by_one(
    source: Seq<u8>,
    opf_path: Seq<char>,
    patches: Seq<PatchModel>,
    n: nat,
    index: nat,
)
    requires
        rewritten(source, opf_path, patches, n) is Ok,
        index < n,
    ensures
        rewritten(source, opf_path, patches, n)->Ok_0.len() == n,
        rewritten_entry(entry_at(source, index), opf_path, patches) == Ok::<
            (Seq<char>, Seq<u8>),
            WriteErrorModel,
        >(rewritten(source, opf_path, patches, n)->Ok_0[index as int]),
    decreases n,
{
    if n > 1 && index < n - 1 {
        entries_one_by_one(source, opf_path, patches, (n - 1) as nat, index);
    } else if n > 1 {
        entries_one_by_one(source, opf_path, patches, (n - 1) as nat, 0);
    } else {
        assert(rewritten(source, opf_path, patches, 0) is Ok);
    }
}

/// A tag, from its sign on, is found where it first stands behind a text without it.
proof fn tag_is_found(s: Seq<char>, tag: Seq<char>, from: int, at: int)
    requires
        0 <= from <= at,
        stands_at(s, tag, at),
        tag.len() > 0,
        tag[0] == '<',
        forall|i: int| 0 < i < tag.len() ==> tag[i] != '<',
        stands_nowhere(s.subrange(from, at), tag),
    ensures
        find(s, tag, from) == Some(at),
{
    let middle = s.subrange(from, at);
    assert(s.subrange(at, at + tag.len())[0] == s[at]);
    assert forall|j: int| from <= j < at implies !stands_at(s, tag, j) by {
        if stands_at(s, tag, j) {
            let part = s.subrange(j, j + tag.len());
            if j + tag.len() <= at {
                assert(middle.subrange(j - from, j - from + tag.len()) =~= part);
                assert(stands_at(middle, tag, j - from));
            } else {
                assert(part[at - j] == s[at]);
            }
        }
    }
    found_at(s, tag, from, at);
}

proof fn missing_is_not_found(s: Seq<char>, tag: Seq<char>)
    requires
        stands_nowhere(s, tag),
    ensures
        find(s, tag, 0) is None,
{
    find_bounds(s, tag, 0);
}

proof fn tags_of_names(tag: Seq<char>)
    requires
        tag == "title"@ || tag == "creator"@,
    ensures
        dc_open(tag).len() == 4 + tag.len(),
        dc_close(tag).len() == 6 + tag.len(),
        dc_open(tag)[0] == '<',
        dc_close(tag)[0] == '<',
        forall|i: int|
            0 < i < dc_open(tag).len() ==> dc_open(tag)[i] != '<',
        forall|i: int| 0 <= i < dc_open(tag).len() ==> dc_open(tag)[i] != '>',
        forall|i: int| 0 < i < dc_close(tag).len() ==> dc_close(tag)[i] != '<',
{
    reveal_strlit("title");
    reveal_strlit("creator");
    reveal_strlit("<dc:");
    reveal_strlit("</dc:");
    reveal_strlit(">");
    let (open, close) = (dc_open(tag), dc_close(tag));
    let sign = |c: char| c == '<' || c == '>';
    assert(position(tag, sign, 0) == tag.len()) by {
        reveal_with_fuel(position, 9);
    }
    position_bounds(tag, sign, 0);
    assert forall|i: int| 0 <= i < tag.len() implies tag[i] != '<' && tag[i] != '>' by {
        assert(!sign(tag[i]));
    }
    assert forall|i: int| 0 <= i < open.len() implies open[i] != '>' && (i > 0 ==> open[i]
        != '<') by {
        if i >= 4 {
            assert(open[i] == tag[i - 4]);
        }
    }
    assert forall|i: int| 0 < i < close.len() implies close[i] != '<' by {
        if 5 <= i < 5 + tag.len() {
            assert(close[i] == tag[i - 5]);
        }
    }
}

/// Where a package document has a `metadata` element with these contents, patches are
/// applied to them, and all that stands around them is kept.
proof fn contents_are_patched(
    head: Seq<char>,
    attributes: Seq<char>,
    contents: Seq<char>,
    tail: Seq<char>,
    patches: Seq<PatchModel>,
)
    requires
        stands_nowhere(head, "<metadata"@),
        forall|i: int| 0 <= i < attributes.len() ==> #[trigger] attributes[i] != '>',
        stands_nowhere(contents, "</metadata>"@),
    ensures
        ({
            let opening = head + "<metadata"@ + attributes + ">"@;
            let closing = "</metadata>"@ + tail;
            patched_opf(opening + contents + closing, patches) == Ok::<Seq<char>, WriteErrorModel>(
                opening + patched_metadata(contents, patches) + closing,
            )
        }),
{
    reveal_strlit("<metadata");
    reveal_strlit("</metadata>");
    reveal_strlit(">");
    let (open, close) = ("<metadata"@, "</metadata>"@);
    let opening = head + open + attributes + ">"@;
    let closing = close + tail;
    let opf = opening + contents + closing;
    let n = head.len() as int;
    let inner = opening.len() as int;
    let end = inner + contents.len();
    assert(opf.subrange(n, n + 9) =~= open);
    assert(opf.subrange(0, n) =~= head);
    tag_is_found(opf, open, 0, n);
    let closes = |c: char| c == '>';
    assert forall|i: int| n <= i < inner - 1 implies !closes(opf[i]) by {
        if i < n + 9 {
            assert(opf[i] == open[i - n]);
        } else {
            assert(opf[i] == attributes[i - n - 9]);
        }
    }
    assert(opf[inner - 1] == '>');
    position_is(opf, closes, n, inner - 1);
    assert(opf.subrange(inner, end) =~= contents);
    assert(opf.subrange(end, end + 11) =~= close);
    tag_is_found(opf, close, inner, end);
    assert(metadata_range(opf) == Ok::<(int, int), Seq<char>>((inner, end)));
    assert(opf.take(inner) =~= opening);
    assert(opf.skip(end) =~= closing);
}

/// A title that is applied takes the place of the text of the first `dc:title` of a
/// package document, and an author that of the first `dc:creator`, escaped; the tags
/// around it and all of the rest stay as they are.
pub proof fn titles_and_authors_are_put_into_their_elements(
    head: Seq<char>,
    attributes: Seq<char>,
    before: Seq<char>,
    own: Seq<char>,
    text: Seq<char>,
    after: Seq<char>,
    tail: Seq<char>,
    patch: PatchModel,
    tag: Seq<char>,
)
    requires
        patch.applied,
        patch.field == MetadataField::Title && tag == "title"@ || patch.field
            == MetadataField::Author && tag == "creator"@,
        stands_nowhere(head, "<metadata"@),
        forall|i: int| 0 <= i < attributes.len() ==> #[trigger] attributes[i] != '>',
        stands_nowhere(before, "<dc:"@ + tag),
        forall|i: int| 0 <= i < own.len() ==> #[trigger] own[i] != '>',
        stands_nowhere(text, "</dc:"@ + tag + ">"@),
        stands_nowhere(
            before + ("<dc:"@ + tag) + own + ">"@ + text + ("</dc:"@ + tag + ">"@) + after,
            "</metadata>"@,
        ),
    ensures
        ({
            let opening = head + "<metadata"@ + attributes + ">"@;
            let closing = "</metadata>"@ + tail;
            let start = before + ("<dc:"@ + tag) + own + ">"@;
            let end = ("</dc:"@ + tag + ">"@) + after;
            patched_opf(opening + (start + text + end) + closing, seq![patch]) == Ok::<
                Seq<char>,
                WriteErrorModel,
            >(opening + (start + escaped(patch.new_value) + end) + closing)
        }),
{
    let start = before + dc_open(tag) + own + ">"@;
    let end = dc_close(tag) + after;
    let contents = start + text + end;
    assert(contents =~= before + ("<dc:"@ + tag) + own + ">"@ + text + ("</dc:"@ + tag + ">"@)
        + after);
    element_text_is_found(before, own, text, after, tag);
    one_name_is_patched(contents, patch, tag);
    contents_are_patched(head, attributes, contents, tail, seq![patch]);
}

proof fn element_text_is_found(
    before: Seq<char>,
    own: Seq<char>,
    text: Seq<char>,
    after: Seq<char>,
    tag: Seq<char>,
)
    requires
        tag == "title"@ || tag == "creator"@,
        stands_nowhere(before, dc_open(tag)),
        forall|i: int| 0 <= i < own.len() ==> #[trigger] own[i] != '>',
        stands_nowhere(text, dc_close(tag)),
    ensures
        ({
            let start = before + dc_open(tag) + own + ">"@;
            let end = dc_close(tag) + after;
            let contents = start + text + end;
            &&& dc_range(contents, tag) == Some(
                (start.len() as int, (start.len() + text.len()) as int),
            )
            &&& contents.take(start.len() as int) == start
            &&& contents.skip((start.len() + text.len()) as int) == end
        }),
{
    reveal_strlit(">");
    tags_of_names(tag);
    let (open, close) = (dc_open(tag), dc_close(tag));
    let start = before + open + own + ">"@;
    let end = close + after;
    let contents = start + text + end;
    let n = before.len() as int;
    let m = open.len() as int;
    let inner = start.len() as int;
    let stop = inner + text.len();
    assert(contents.subrange(n, n + m) =~= open);
    assert(contents.subrange(0, n) =~= before);
    tag_is_found(contents, open, 0, n);
    let closes = |c: char| c == '>';
    assert forall|i: int| n <= i < inner - 1 implies !closes(contents[i]) by {
        if i < n + m {
            assert(contents[i] == open[i - n]);
        } else {
            assert(contents[i] == own[i - n - m]);
        }
    }
    assert(contents[inner - 1] == '>');
    position_is(contents, closes, n, inner - 1);
    assert(contents.subrange(inner, stop) =~= text);
    assert(contents.subrange(stop, stop + close.len()) =~= close);
    tag_is_found(contents, close, inner, stop);
    assert(contents.take(inner) =~= start);
    assert(contents.skip(stop) =~= end);
}

proof fn one_name_is_patched(contents: Seq<char>, patch: PatchModel, tag: Seq<char>)
    requires
        patch.applied,
        patch.field == MetadataField::Title && tag == "title"@ || patch.field
            == MetadataField::Author && tag == "creator"@,
    ensures
        patched_metadata(contents, seq![patch]) == with_dc(contents, tag, patch.new_value),
{
    let patches = seq![patch];
    assert(patches.drop_last() =~= Seq::empty());
    assert(with_names(contents, patches.drop_last()) == contents);
    assert(with_names(contents, patches) == with_dc(contents, tag, patch.new_value));
    first_applied_after(patches, MetadataField::Series, 1);
    first_applied_after(patches, MetadataField::SeriesIndex, 1);
}

/// Where a package document has no such element, one is added at the end of its
/// `metadata` element, on a line of its own.
pub proof fn missing_titles_and_authors_are_added(
    head: Seq<char>,
    attributes: Seq<char>,
    contents: Seq<char>,
    tail: Seq<char>,
    patch: PatchModel,
    tag: Seq<char>,
)
    requires
        patch.applied,
        patch.field == MetadataField::Title && tag == "title"@ || patch.field
            == MetadataField::Author && tag == "creator"@,
        stands_nowhere(head, "<metadata"@),
        forall|i: int| 0 <= i < attributes.len() ==> #[trigger] attributes[i] != '>',
        stands_nowhere(contents, "</metadata>"@),
        stands_nowhere(contents, "<dc:"@ + tag),
    ensures
        ({
            let opening = head + "<metadata"@ + attributes + ">"@;
            let closing = "</metadata>"@ + tail;
            let element = "\n    <dc:"@ + tag + ">"@ + escaped(patch.new_value) + ("</dc:"@ + tag
                + ">"@);
            patched_opf(opening + contents + closing, seq![patch]) == Ok::<
                Seq<char>,
                WriteErrorModel,
            >(opening + (contents + element) + closing)
        }),
{
    missing_is_not_found(contents, dc_open(tag));
    element_is_added(contents, tag, patch.new_value);
    one_name_is_patched(contents, patch, tag);
    contents_are_patched(head, attributes, contents, tail, seq![patch]);
}

proof fn element_is_added(contents: Seq<char>, tag: Seq<char>, value: Seq<char>)
    requires
        dc_range(contents, tag) is None,
    ensures
        with_dc(contents, tag, value) == contents + ("\n    <dc:"@ + tag + ">"@ + escaped(value) + (
        "</dc:"@ + tag + ">"@)),
{
    let (a, b, c, d) = ("\n    <dc:"@, ">"@, escaped(value), "</dc:"@);
    joined_in_any_order(contents, a, tag, b, c, d);
}

proof fn joined_in_any_order(
    contents: Seq<char>,
    a: Seq<char>,
    tag: Seq<char>,
    b: Seq<char>,
    c: Seq<char>,
    d: Seq<char>,
)
    ensures
        contents + a + tag + b + c + d + tag + b == contents + (a + tag + b + c + (d + tag + b)),
{
    assert(contents + a + tag + b + c =~= contents + (a + tag + b + c));
    let start = a + tag + b + c;
    assert(contents + start + d + tag + b =~= contents + (start + (d + tag + b)));
}

/// A text is escaped sign by sign, in order: four signs have a code, and any other
/// stands for itself.
pub proof fn four_signs_are_escaped(a: Seq<char>, b: Seq<char>, c: char)
    ensures
        escaped(a + b) == escaped(a) + escaped(b),
        escaped(seq!['&']) == "&amp;"@,
        escaped(seq!['<']) == "&lt;"@,
        escaped(seq!['>']) == "&gt;"@,
        escaped(seq!['"']) == "&quot;"@,
        c != '&' && c != '<' && c != '>' && c != '"' ==> escaped(seq![c]) == seq![c],
    decreases b.len(),
{
    assert forall|d: char| escaped(#[trigger] seq![d]) == escaped_char(d) by {
        let one = seq![d];
        assert(one.drop_last() =~= Seq::empty());
        assert(escaped(one.drop_last()) =~= Seq::empty());
        assert(escaped(one) =~= escaped_char(d));
    }
    if b.len() > 0 {
        four_signs_are_escaped(a, b.drop_last(), c);
        assert((a + b).drop_last() =~= a + b.drop_last());
        assert((a + b).last() == b.last());
        assert(escaped(a + b) =~= escaped(a) + escaped(b));
    } else {
        assert(a + b =~= a);
        assert(escaped(a) + escaped(b) =~= escaped(a));
    }
}

/// The package document of a book lies where the first `full-path` of its container
/// document says, up to the quote that closes it.
pub proof fn the_first_full_path_is_the_package(
    before: Seq<char>,
    path: Seq<char>,
    after: Seq<char>,
)
    requires
        stands_nowhere(before + "full-path=\""@.drop_last(), "full-path=\""@),
        forall|i: int| 0 <= i < path.len() ==> #[trigger] path[i] != '"',
    ensures
        rootfile(before + "full-path=\""@ + path + seq!['"'] + after) == Some(path),
{
    reveal_strlit("full-path=\"");
    let mark = "full-path=\""@;
    let container = before + mark + path + seq!['"'] + after;
    let n = before.len() as int;
    assert(container.subrange(n, n + 11) =~= mark);
    let start = before + mark.drop_last();
    assert forall|j: int| 0 <= j < n implies !stands_at(container, mark, j) by {
        if stands_at(container, mark, j) {
            assert(start.subrange(j, j + 11) =~= container.subrange(j, j + 11));
            assert(stands_at(start, mark, j));
        }
    }
    found_at(container, mark, 0, n);
    let quote = |c: char| c == '"';
    let first = n + 11;
    assert forall|i: int| first <= i < first + path.len() implies !quote(container[i]) by {
        assert(container[i] == path[i - first]);
    }
    assert(container[first + path.len()] == '"');
    position_is(container, quote, first, first + path.len());
    assert(container.subrange(first, first + path.len()) =~= path);
}

/// A container document without a `full-path` names no package document.
pub proof fn no_full_path_is_no_package(container: Seq<char>)
    requires
        stands_nowhere(container, "full-path=\""@),
    ensures
        rootfile(container) is None,
{
    missing_is_not_found(container, "full-path=\""@);
}

/// A package document without a `metadata` element cannot be patched, and neither can
/// one in which nothing closes it.
pub proof fn metadata_elements_are_needed(
    opf: Seq<char>,
    head: Seq<char>,
    attributes: Seq<char>,
    rest: Seq<char>,
    patches: Seq<PatchModel>,
)
    requires
        stands_nowhere(head, "<metadata"@),
        forall|i: int| 0 <= i < attributes.len() ==> #[trigger] attributes[i] != '>',
    ensures
        stands_nowhere(opf, "<metadata"@) ==> patched_opf(opf, patches) == Err::<
            Seq<char>,
            WriteErrorModel,
        >(WriteErrorModel::MalformedPackageDocument { message: "missing metadata element"@ }),
        patched_opf(head + "<metadata"@ + attributes, patches) == Err::<
            Seq<char>,
            WriteErrorModel,
        >(WriteErrorModel::MalformedPackageDocument { message: "unclosed metadata element"@ }),
        stands_nowhere(rest, "</metadata>"@) ==> patched_opf(
            head + "<metadata"@ + attributes + ">"@ + rest,
            patches,
        ) == Err::<Seq<char>, WriteErrorModel>(
            WriteErrorModel::MalformedPackageDocument { message: "missing metadata close element"@ },
        ),
{
    reveal_strlit("<metadata");
    reveal_strlit("</metadata>");
    reveal_strlit(">");
    let (open, close) = ("<metadata"@, "</metadata>"@);
    if stands_nowhere(opf, open) {
        missing_is_not_found(opf, open);
    }
    let n = head.len() as int;
    let closes = |c: char| c == '>';
    let short = head + open + attributes;
    assert(short.subrange(n, n + 9) =~= open);
    assert(short.subrange(0, n) =~= head);
    tag_is_found(short, open, 0, n);
    assert forall|i: int| n <= i < short.len() implies !closes(short[i]) by {
        if i < n + 9 {
            assert(short[i] == open[i - n]);
        } else {
            assert(short[i] == attributes[i - n - 9]);
        }
    }
    position_bounds(short, closes, n);
    assert(position(short, closes, n) == short.len());
    let long = short + ">"@ + rest;
    assert(long.subrange(n, n + 9) =~= open);
    assert(long.subrange(0, n) =~= head);
    tag_is_found(long, open, 0, n);
    assert forall|i: int| n <= i < short.len() implies !closes(long[i]) by {
        assert(long[i] == short[i]);
    }
    assert(long[short.len() as int] == '>');
    position_is(long, closes, n, short.len() as int);
    if stands_nowhere(rest, close) {
        let from = short.len() as int + 1;
        find_bounds(long, close, from);
        if find(long, close, from) is Some {
            let at = find(long, close, from)->0;
            assert(rest.subrange(at - from, at - from + 11) =~= long.subrange(at, at + 11));
            assert(stands_at(rest, close, at - from));
        }
    }
}

/// Of several patches of a field the first that is applied gives the series, and the
/// place in it.
pub proof fn the_first_applied_patch_counts(
    patches: Seq<PatchModel>,
    field: MetadataField,
    place: int,
)
    requires
        0 <= place <= patches.len(),
        forall|i: int|
            0 <= i < place ==> !((#[trigger] patches[i]).applied && patches[i].field == field),
    ensures
        place == patches.len() ==> first_applied(patches, field) is None,
        place < patches.len() && patches[place].applied && patches[place].field == field
            ==> first_applied(patches, field) == Some(patches[place].new_value),
{
    first_applied_after(patches, field, place);
}

/// Titles and authors are written patch by patch, in order.
pub proof fn names_are_written_patch_by_patch(
    metadata: Seq<char>,
    first: Seq<PatchModel>,
    second: Seq<PatchModel>,
)
    ensures
        with_names(metadata, first + second) == with_names(with_names(metadata, first), second),
    decreases second.len(),
{
    if second.len() > 0 {
        names_are_written_patch_by_patch(metadata, first, second.drop_last());
        assert((first + second).drop_last() =~= first + second.drop_last());
        assert((first + second).last() == second.last());
    } else {
        assert(first + second =~= first);
    }
}

/// Where a series or a place in one is applied, what the contents of a `metadata`
/// element said of one is taken out, and the new series and place are written behind
/// the rest: the patches' own, escaped, and for what no patch gives what the contents
/// said.
pub proof fn series_are_written_behind_the_rest(
    contents: Seq<char>,
    patches: Seq<PatchModel>,
)
    ensures
        ({
            let named = with_names(contents, patches);
            let series = first_applied(patches, MetadataField::Series);
            let index = first_applied(patches, MetadataField::SeriesIndex);
            let patched = patched_metadata(contents, patches);
            &&& series is None && index is None ==> patched == named
            &&& series is Some && index is Some ==> patched == without_series(named)
                + series_elements(Some(escaped(series->0)), Some(escaped(index->0)))
            &&& series is Some && index is None ==> patched == without_series(named)
                + series_elements(
                Some(escaped(series->0)),
                match existing_series(named) {
                    Some(known) => match known.index {
                        Some(place) => Some(requoted(place)),
                        None => None,
                    },
                    None => None,
                },
            )
            &&& series is None && index is Some ==> patched == without_series(named)
                + series_elements(
                match existing_series(named) {
                    Some(known) => Some(requoted(known.series)),
                    None => None,
                },
                Some(escaped(index->0)),
            )
        }),
{
}

/// A copy that meets no trouble goes like this: the target is looked for, its folder
/// created, a temporary file of an earlier copy removed where there is one, the book
/// opened, the temporary file created and written, and renamed to the target.
pub proof fn patched_copies_without_trouble_succeed()
    ensures
        ({
            let missing = PatchedCopyEventModel::Exists(Ok(false));
            let present = PatchedCopyEventModel::Exists(Ok(true));
            let done = PatchedCopyEventModel::Did(None);
            let fine = PatchedCopyEventModel::Book(None);
            &&& PatchedCopyModel::CheckTarget.next(missing) == PatchedCopyModel::CreateParent
            &&& PatchedCopyModel::CreateParent.next(done) == PatchedCopyModel::CheckTemp
            &&& PatchedCopyModel::CheckTemp.next(missing) == PatchedCopyModel::OpenBook
            &&& PatchedCopyModel::CheckTemp.next(present) == PatchedCopyModel::RemoveStaleTemp
            &&& PatchedCopyModel::RemoveStaleTemp.next(done) == PatchedCopyModel::OpenBook
            &&& PatchedCopyModel::OpenBook.next(fine) == PatchedCopyModel::CreateTemp
            &&& PatchedCopyModel::CreateTemp.next(done) == PatchedCopyModel::WriteTemp
            &&& PatchedCopyModel::WriteTemp.next(fine) == PatchedCopyModel::Place
            &&& PatchedCopyModel::Place.next(done) == (PatchedCopyModel::Finished { error: None })
        }),
{
}

/// Whatever fails, the copy fails with that: before the book is opened at once, and
/// from then on once the temporary file is removed.
pub proof fn patched_copies_fail_with_their_reason(
    message: Seq<char>,
    error: WriteErrorModel,
    removal: Option<Seq<char>>,
)
    ensures
        ({
            let unknown = PatchedCopyEventModel::Exists(Err(message));
            let failed = PatchedCopyEventModel::Did(Some(message));
            let broken = PatchedCopyEventModel::Book(Some(error));
            let reason = WriteErrorModel::Io { message };
            let at_once = PatchedCopyModel::Finished { error: Some(reason) };
            let first_cleaned = PatchedCopyModel::CleanUp { error: reason };
            &&& PatchedCopyModel::CheckTarget.next(unknown) == at_once
            &&& PatchedCopyModel::CreateParent.next(failed) == at_once
            &&& PatchedCopyModel::CheckTemp.next(unknown) == at_once
            &&& PatchedCopyModel::RemoveStaleTemp.next(failed) == at_once
            &&& PatchedCopyModel::OpenBook.next(broken) == (PatchedCopyModel::CleanUp { error })
            &&& PatchedCopyModel::CreateTemp.next(failed) == first_cleaned
            &&& PatchedCopyModel::WriteTemp.next(broken) == (PatchedCopyModel::CleanUp { error })
            &&& PatchedCopyModel::Place.next(failed) == first_cleaned
            &&& (PatchedCopyModel::CleanUp { error }).next(PatchedCopyEventModel::Did(removal)) == (
            PatchedCopyModel::Finished { error: Some(error) })
        }),
{
}

/// The temporary file of a copy lies beside its target, under the target's name and
/// ".tmp".
pub proof fn temporary_names_end_in_tmp(name: Seq<char>)
    ensures
        temp_output_name(Some(name)) == name + ".tmp"@,
        temp_output_name(None) == "epub-mgr-output.tmp"@,
{
    reveal_strlit("epub-mgr-output");
    reveal_strlit(".tmp");
    reveal_strlit("epub-mgr-output.tmp");
    assert("epub-mgr-output"@ + ".tmp"@ =~= "epub-mgr-output.tmp"@);
}

/// Where the package document of a book lies is read from its container document; an
/// archive that cannot be opened, one without that document, one in which it cannot be
/// read and one in which it names none are told apart.
pub proof fn books_without_a_package_are_told_apart(source: Seq<u8>)
    ensures
        match open_failure(source) {
            Some(message) => package_path(source) == Err::<Seq<char>, WriteErrorModel>(
                WriteErrorModel::Zip { message },
            ),
            None => match text_named(source, "META-INF/container.xml"@) {
                None => package_path(source) == Err::<Seq<char>, WriteErrorModel>(
                    WriteErrorModel::MissingContainer,
                ),
                Some(Err(message)) => package_path(source) == Err::<Seq<char>, WriteErrorModel>(
                    WriteErrorModel::Io { message },
                ),
                Some(Ok(container)) => {
                    &&& stands_nowhere(container, "full-path=\""@) ==> package_path(source) == Err::<
                        Seq<char>,
                        WriteErrorModel,
                    >(WriteErrorModel::MissingRootfile)
                    &&& package_path(source) is Ok ==> rootfile(container) == Some(
                        package_path(source)->Ok_0,
                    )
                },
            },
        },
{
    match text_named(source, "META-INF/container.xml"@) {
        Some(Ok(container)) => {
            if stands_nowhere(container, "full-path=\""@) {
                no_full_path_is_no_package(container);
            }
        },
        _ => {},
    }
}

/// A text is put between double quotes sign by sign, in order: a double quote has a
/// code, and any other sign stands for itself.
pub proof fn only_double_quotes_are_requoted(a: Seq<char>, b: Seq<char>, c: char)
    ensures
        requoted(a + b) == requoted(a) + requoted(b),
        requoted(seq!['"']) == "&quot;"@,
        c != '"' ==> requoted(seq![c]) == seq![c],
    decreases b.len(),
{
    let (quote, other) = (seq!['"'], seq![c]);
    assert(quote.drop_last() =~= Seq::empty());
    assert(other.drop_last() =~= Seq::empty());
    assert(requoted(Seq::<char>::empty()) =~= Seq::empty());
    assert(requoted(quote) =~= "&quot;"@);
    if c != '"' {
        assert(requoted(other) =~= other);
    }
    if b.len() > 0 {
        only_double_quotes_are_requoted(a, b.drop_last(), c);
        assert((a + b).drop_last() =~= a + b.drop_last());
        assert((a + b).last() == b.last());
        assert(requoted(a + b) =~= requoted(a) + requoted(b));
    } else {
        assert(a + b =~= a);
        assert(requoted(a) + requoted(b) =~= requoted(a));
    }
}

/// What went wrong with a copy is told in words of its own.
pub proof fn write_errors_are_told_apart(message: Seq<char>)
    ensures
        WriteErrorModel::OutputExists.text() == "output path already exists"@,
        (WriteErrorModel::Io { message }).text() == "I/O error: "@ + message,
        (WriteErrorModel::Zip { message }).text() == "ZIP error: "@ + message,
        WriteErrorModel::MissingContainer.text() == "missing META-INF/container.xml"@,
        WriteErrorModel::MissingRootfile.text()
            == "META-INF/container.xml has no rootfile full-path"@,
        (WriteErrorModel::MissingPackageDocument { path: message }).text()
            == "package document not found at "@ + message,
        (WriteErrorModel::MalformedPackageDocument { message }).text()
            == "malformed package document: "@ + message,
{
}

} // verus!
