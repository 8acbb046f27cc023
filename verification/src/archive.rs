//! ZIP archives in memory, read and written with the `zip` crate.

use vstd::prelude::*;
use vstd::utf8::{decode_utf8, encode_utf8, valid_utf8};

use std::io::{Cursor, Read, Write};
use zip::write::SimpleFileOptions;
use zip::{CompressionMethod, ZipArchive, ZipWriter};

verus! {

/// An in-memory reader: `std::io::Cursor`.
#[verifier::external_type_specification]
#[verifier::external_body]
#[verifier::reject_recursive_types(T)]
pub struct ExCursor<T>(Cursor<T>);

/// An archive that is open for reading: `zip::ZipArchive`.
#[verifier::external_type_specification]
#[verifier::external_body]
#[verifier::reject_recursive_types(R)]
pub struct ExZipArchive<R>(ZipArchive<R>);

/// An archive that is being written: `zip::ZipWriter` on memory.
#[verifier::external_body]
pub struct ArchiveWriter {
    inner: ZipWriter<Cursor<Vec<u8>>>,
}

/// An entry of an archive: its name, and its contents or why they cannot be read.
pub struct ArchivedEntry {
    pub name: String,
    pub contents: Result<Vec<u8>, String>,
}

pub struct EntryModel {
    pub name: Seq<char>,
    pub contents: Result<Seq<u8>, Seq<char>>,
}

impl View for ArchivedEntry {
    type V = EntryModel;

    open spec fn view(&self) -> EntryModel {
        EntryModel {
            name: self.name@,
            contents: match self.contents {
                Ok(bytes) => Ok(bytes@),
                Err(message) => Err(message@),
            },
        }
    }
}

/// An entry, or why there is none, in plain values.
pub open spec fn entry_model(entry: Result<ArchivedEntry, String>) -> Result<
    EntryModel,
    Seq<char>,
> {
    match entry {
        Ok(inner) => Ok(inner@),
        Err(message) => Err(message@),
    }
}

/// A text that an archive holds, or why it cannot be read, in plain values.
pub open spec fn text_model(text: Option<Result<String, String>>) -> Option<
    Result<Seq<char>, Seq<char>>,
> {
    match text {
        Some(Ok(inner)) => Some(Ok(inner@)),
        Some(Err(message)) => Some(Err(message@)),
        None => None,
    }
}

/// The bytes that an archive was opened on.
pub uninterp spec fn archive_bytes(archive: ZipArchive<Cursor<Vec<u8>>>) -> Seq<u8>;

/// Why `ZipArchive::new` does not open the bytes, where it does not.
pub uninterp spec fn open_failure(bytes: Seq<u8>) -> Option<Seq<char>>;

/// How many entries `ZipArchive::len` counts in an archive of these bytes.
pub uninterp spec fn entry_count(bytes: Seq<u8>) -> nat;

/// What `ZipArchive::by_index` finds at a place in an archive of these bytes.
pub uninterp spec fn entry_at(bytes: Seq<u8>, index: nat) -> Result<EntryModel, Seq<char>>;

/// The text that `ZipArchive::by_name` finds under a name in an archive of these
/// bytes.
pub uninterp spec fn text_named(bytes: Seq<u8>, name: Seq<char>) -> Option<
    Result<Seq<char>, Seq<char>>,
>;

/// What an archive that is being written holds so far: names and contents, in
/// the order in which they were added. A directory has no contents.
pub uninterp spec fn written(writer: ArchiveWriter) -> Seq<(Seq<char>, Seq<u8>)>;

/// Nothing that was done to a writer has failed.
pub uninterp spec fn is_intact(writer: ArchiveWriter) -> bool;

/// What `String::from_utf8` says of bytes that are not UTF-8.
pub uninterp spec fn utf8_failure(bytes: Seq<u8>) -> Seq<char>;

/// `ZipArchive::new`: opens an archive on bytes in memory. Whether that succeeds,
/// and the text of the error where it does not, depends on the bytes alone.
#[verifier::external_body]
pub(crate) fn open_archive(bytes: Vec<u8>) -> (archive: Result<ZipArchive<Cursor<Vec<u8>>>, String>)
    ensures
        match archive {
            Ok(opened) => open_failure(bytes@) is None && archive_bytes(opened) == bytes@,
            Err(message) => open_failure(bytes@) == Some(message@),
        },
{
    ZipArchive::new(Cursor::new(bytes)).map_err(|error| error.to_string())
}

/// `ZipArchive::len`: the number of entries, which depends on the archive's bytes
/// alone.
#[verifier::external_body]
pub(crate) fn archive_len(archive: &ZipArchive<Cursor<Vec<u8>>>) -> (count: usize)
    ensures
        count == entry_count(archive_bytes(*archive)),
{
    archive.len()
}

/// `ZipArchive::by_index`: the entry at a place, with `ZipFile::name` and what
/// `read_to_end` reads of it, each error as its text. All of it depends on the
/// archive's bytes and the place alone, and reading leaves the archive as it is.
#[verifier::external_body]
pub(crate) fn read_entry(archive: &mut ZipArchive<Cursor<Vec<u8>>>, index: usize) -> (entry: Result<
    ArchivedEntry,
    String,
>)
    ensures
        archive_bytes(*final(archive)) == archive_bytes(*old(archive)),
        entry_model(entry) == entry_at(archive_bytes(*old(archive)), index as nat),
{
    let mut file = archive.by_index(index).map_err(|error| error.to_string())?;
    let mut bytes = Vec::new();
    let read = file.read_to_end(&mut bytes);
    let contents = read.map(|_| bytes).map_err(|error| error.to_string());
    Ok(ArchivedEntry { name: file.name().to_string(), contents })
}

/// `ZipArchive::by_name`: the text under a name, as `read_to_string` reads it, or
/// the text of its error, or nothing where `by_name` fails. It depends on the
/// archive's bytes and the name alone, and reading leaves the archive as it is.
#[verifier::external_body]
pub(crate) fn read_named(archive: &mut ZipArchive<Cursor<Vec<u8>>>, name: &str) -> (text: Option<
    Result<String, String>,
>)
    ensures
        archive_bytes(*final(archive)) == archive_bytes(*old(archive)),
        text_model(text) == text_named(archive_bytes(*old(archive)), name@),
{
    let mut file = archive.by_name(name).ok()?;
    let mut text = String::new();
    let read = file.read_to_string(&mut text);
    Some(read.map(|_| text).map_err(|error| error.to_string()))
}

/// `ZipWriter::new`: starts an empty archive in memory, which can be written to.
#[verifier::external_body]
pub(crate) fn new_archive() -> (writer: ArchiveWriter)
    ensures
        written(writer) == Seq::<(Seq<char>, Seq<u8>)>::empty(),
        is_intact(writer),
{
    ArchiveWriter { inner: ZipWriter::new(Cursor::new(Vec::new())) }
}

/// A name that is short enough for an entry: its length takes two bytes.
pub open spec fn is_entry_name(name: Seq<char>) -> bool {
    encode_utf8(name).len() <= 0xffff
}

/// None of the entries has this name.
pub open spec fn is_new_name(entries: Seq<(Seq<char>, Seq<u8>)>, name: Seq<char>) -> bool {
    forall|i: int| 0 <= i < entries.len() ==> (#[trigger] entries[i]).0 != name
}

/// Contents that take less than four gibibytes however they are deflated.
pub open spec fn is_ordinary_size(contents: Seq<u8>) -> bool {
    contents.len() < 0x8000_0000
}

/// Nothing that was done to a writer has failed, and what it holds is of ordinary
/// size: more can be added to it, and it can be finished.
pub open spec fn is_usable(writer: ArchiveWriter) -> bool {
    &&& is_intact(writer)
    &&& forall|i: int|
        0 <= i < written(writer).len() ==> is_ordinary_size((#[trigger] written(writer)[i]).1)
}

/// `ZipWriter::start_file`, for a file that is deflated: where it succeeds, the
/// name is new to the archive, which then holds an empty file of that name. It
/// succeeds where the writer is usable and the name is new and short enough. The
/// text of an error is left unsaid.
#[verifier::external_body]
pub(crate) fn start_file(writer: &mut ArchiveWriter, name: &str) -> (started: Result<(), String>)
    ensures
        started is Ok ==> written(*final(writer)) == written(*old(writer)).push(
            (name@, Seq::empty()),
        ) && is_new_name(written(*old(writer)), name@),
        started is Ok && is_intact(*old(writer)) ==> is_intact(*final(writer)),
        is_usable(*old(writer)) && is_new_name(written(*old(writer)), name@) && is_entry_name(name@)
            ==> started is Ok,
{
    let options = SimpleFileOptions::default().compression_method(CompressionMethod::Deflated);
    writer.inner.start_file(name, options).map_err(|error| error.to_string())
}

/// Contents whose length takes four bytes.
pub open spec fn has_entry_length(contents: Seq<u8>) -> bool {
    contents.len() <= 0xffff_ffff
}

/// `write_all` on a `ZipWriter`: where it succeeds, and something was added
/// before, the bytes stand at the end of what was added last, whose length then
/// still takes four bytes. It succeeds where the writer is usable and what was added
/// last is a file that stays of ordinary size. The text of an error is left unsaid.
#[verifier::external_body]
pub(crate) fn write_contents(writer: &mut ArchiveWriter, contents: &[u8]) -> (done: Result<
    (),
    String,
>)
    ensures
        done is Ok && written(*old(writer)).len() > 0 ==> {
            let last = written(*old(writer)).last();
            written(*final(writer)) == written(*old(writer)).drop_last().push(
                (last.0, last.1 + contents@),
            ) && has_entry_length(last.1 + contents@)
        },
        done is Ok && is_intact(*old(writer)) ==> is_intact(*final(writer)),
        is_usable(*old(writer)) && written(*old(writer)).len() > 0 && !names_directory(
            written(*old(writer)).last().0,
        ) && is_ordinary_size(written(*old(writer)).last().1 + contents@) ==> done is Ok,
{
    writer.inner.write_all(contents).map_err(|error| error.to_string())
}

/// The name of a directory in an archive ends with a slash or a backslash.
pub open spec fn names_directory(name: Seq<char>) -> bool {
    name.len() > 0 && (name.last() == '/' || name.last() == '\\')
}

/// `ZipWriter::add_directory`, for a name that ends with a slash or a backslash:
/// where it succeeds, the name is new to the archive, which then holds it without
/// contents. It succeeds where the writer is usable and the name is new and short
/// enough. The text of an error is left unsaid.
#[verifier::external_body]
pub(crate) fn add_directory(writer: &mut ArchiveWriter, name: &str) -> (added: Result<(), String>)
    requires
        names_directory(name@),
    ensures
        added is Ok ==> written(*final(writer)) == written(*old(writer)).push(
            (name@, Seq::empty()),
        ) && is_new_name(written(*old(writer)), name@),
        added is Ok && is_intact(*old(writer)) ==> is_intact(*final(writer)),
        is_usable(*old(writer)) && is_new_name(written(*old(writer)), name@) && is_entry_name(name@)
            ==> added is Ok,
{
    let options = SimpleFileOptions::default();
    writer.inner.add_directory(name, options).map_err(|error| error.to_string())
}

/// An archive whose end cannot be taken for that of another. It holds two numbers,
/// the count of the entries and the place where their list starts, and where one of
/// them has all its bits set, that may be a sign that the true numbers stand in a
/// record of their own. So the count must not be just that one, nor may the list
/// start at just that place: it does not where the archive is shorter, nor where it
/// is longer by more than the list can take.
pub open spec fn has_clear_end(entries: Seq<(Seq<char>, Seq<u8>)>, bytes: Seq<u8>) -> bool {
    &&& entries.len() != 0xffff
    &&& bytes.len() < 0xffff_ffff || bytes.len() > 0x1_0001_0000 + 0x4_0000 * entries.len()
}

/// The entries of an archive of these bytes are the given names and contents.
pub open spec fn holds(bytes: Seq<u8>, entries: Seq<(Seq<char>, Seq<u8>)>) -> bool {
    &&& entry_count(bytes) == entries.len()
    &&& forall|i: nat|
        i < entries.len() ==> #[trigger] entry_at(bytes, i) == Ok::<EntryModel, Seq<char>>(
            EntryModel { name: entries[i as int].0, contents: Ok(entries[i as int].1) },
        )
}

/// `ZipWriter::finish`: the bytes of the archive. It succeeds where the writer is
/// usable. Where it succeeds and nothing has failed before, the bytes can be opened,
/// and reading them back gives what was added, in order, as long as the end of the
/// archive is clear. The text of an error is left unsaid.
#[verifier::external_body]
pub(crate) fn finish_archive(writer: ArchiveWriter) -> (bytes: Result<Vec<u8>, String>)
    ensures
        is_usable(writer) ==> bytes is Ok,
        is_intact(writer) && bytes is Ok && has_clear_end(written(writer), bytes->Ok_0@)
            ==> open_failure(bytes->Ok_0@) is None && holds(bytes->Ok_0@, written(writer)),
{
    writer.inner.finish().map(|done| done.into_inner()).map_err(|error| error.to_string())
}

/// `String::from_utf8`: the text that the bytes encode, where they are UTF-8, else
/// the text of the error, which depends on the bytes alone.
#[verifier::external_body]
pub(crate) fn text_from_utf8(bytes: Vec<u8>) -> (text: Result<String, String>)
    ensures
        match text {
            Ok(s) => valid_utf8(bytes@) && s@ == decode_utf8(bytes@),
            Err(message) => !valid_utf8(bytes@) && message@ == utf8_failure(bytes@),
        },
{
    String::from_utf8(bytes).map_err(|error| error.to_string())
}

} // verus!
