//! Opening a book's package document with the `epub` crate.

use vstd::prelude::*;
use vstd::slice::slice_subrange;

use epub::archive::EpubArchive;
use epub::doc::{DocError, EpubDoc};
use std::io::Cursor;

use crate::epub_metadata::{
    opened_model, DocFailure, FailureModel, MetadataItem, MetadataRefinement, PackageMetadata,
    PackageModel,
};
use crate::markup::{is_quote, value_end, value_end_is};
use crate::text::{
    chars_of, contains, contains_chars, find_bounds, find_from, position, position_bounds,
    position_of, stands_at, stands_nowhere,
};

verus! {

/// The container document that `EpubArchive::get_container_file` finds in the
/// bytes of a book, or what its error says.
pub uninterp spec fn container_of(epub: Seq<u8>) -> Result<Seq<u8>, Seq<char>>;

/// What `EpubDoc::from_reader` makes of the bytes of a book: the metadata and the
/// unique identifier of its package document, or the error.
pub uninterp spec fn package_of(epub: Seq<u8>) -> Result<PackageModel, FailureModel>;

/// The container document, or why there is none, in plain values.
pub open spec fn container_model(container: Result<Vec<u8>, String>) -> Result<
    Seq<u8>,
    Seq<char>,
> {
    match container {
        Ok(bytes) => Ok(bytes@),
        Err(message) => Err(message@),
    }
}

/// `EpubArchive::from_reader` and `EpubArchive::get_container_file`: the container
/// document of a book, or the text of the error. It depends on the bytes alone.
#[verifier::external_body]
fn read_container(epub: &Vec<u8>) -> (container: Result<Vec<u8>, String>)
    ensures
        container_model(container) == container_of(epub@),
{
    EpubArchive::from_reader(Cursor::new(epub.as_slice()))
        .and_then(|mut archive| archive.get_container_file())
        .map_err(|error| error.to_string())
}

/// `EpubDoc::from_reader`: the metadata items of a book's package document, each
/// with its refinements, in order, and the unique identifier; or the error, by its
/// kind and with the text of what caused it. All of it depends on the bytes alone.
/// The call panics on a container document that names a root, or nothing, as the
/// package document: bytes for which that cannot be ruled out are left out.
#[verifier::external_body]
fn open_doc(epub: Vec<u8>) -> (opened: Result<PackageMetadata, DocFailure>)
    requires
        can_open(epub@),
    ensures
        opened_model(opened) == package_of(epub@),
{
    let doc = EpubDoc::from_reader(Cursor::new(epub)).map_err(|error| match error {
        DocError::IOError(inner) => DocFailure::Io(inner.to_string()),
        DocError::ArchiveError(inner) => DocFailure::Archive(inner.to_string()),
        DocError::XmlError(inner) => DocFailure::Xml(inner.to_string()),
        DocError::InvalidEpub => DocFailure::InvalidEpub,
    })?;
    let items = doc.metadata.into_iter().map(|item| MetadataItem {
        property: item.property,
        value: item.value,
        refined: item.refined.into_iter().map(|r| MetadataRefinement { property: r.property, value: r.value }).collect(),
    });
    Ok(PackageMetadata { items: items.collect(), unique_identifier: doc.unique_identifier })
}

/// Bytes as characters of the same numbers.
pub open spec fn as_chars(bytes: Seq<u8>) -> Seq<char> {
    bytes.map_values(|b: u8| b as char)
}

/// The number that a pair of bytes is.
pub open spec fn unit(bytes: Seq<u8>, i: int, high_first: bool) -> int {
    if high_first {
        bytes[2 * i] * 256 + bytes[2 * i + 1]
    } else {
        bytes[2 * i + 1] * 256 + bytes[2 * i]
    }
}

/// Pairs of bytes as characters: those of ASCII as they are, and all others as one
/// that is none of them.
pub open spec fn as_wide_chars(bytes: Seq<u8>, high_first: bool) -> Seq<char> {
    Seq::new(
        bytes.len() / 2,
        |i: int|
            if unit(bytes, i, high_first) < 128 {
                unit(bytes, i, high_first) as char
            } else {
                '\u{80}'
            },
    )
}

/// White space between the parts of a tag.
pub open spec fn is_tag_space(c: char) -> bool {
    c == ' ' || c == '\t' || c == '\n' || c == '\r'
}

pub open spec fn is_path_separator(c: char) -> bool {
    c == '/' || c == '\\'
}

/// How many characters of a path, outside references such as `&amp;`, belong to the
/// names in it.
pub open spec fn name_chars(path: Seq<char>, from: int, in_reference: bool) -> nat
    decreases path.len() - from,
{
    if from < 0 || from >= path.len() {
        0
    } else {
        let c = path[from];
        if in_reference {
            name_chars(path, from + 1, c != ';')
        } else if c == '&' {
            name_chars(path, from + 1, true)
        } else if is_path_separator(c) || c == '.' || c == ':' || is_tag_space(c) {
            name_chars(path, from + 1, false)
        } else {
            name_chars(path, from + 1, false) + 1
        }
    }
}

pub open spec fn is_plain(path: Seq<char>) -> bool {
    forall|i: int| 0 <= i < path.len() ==> #[trigger] path[i] != '&' && path[i] != ':'
}

pub open spec fn is_dots(path: Seq<char>) -> bool {
    path.len() > 0 && forall|i: int| 0 <= i < path.len() ==> #[trigger] path[i] == '.'
}

/// Where the second character of a path is written, of which the first may be a
/// reference.
pub open spec fn second_char(path: Seq<char>) -> int {
    if path[0] == '&' {
        position(path, |c: char| c == ';', 0) + 1
    } else {
        1
    }
}

/// What comes second in a path does not make it the name of a server.
pub open spec fn starts_no_server(path: Seq<char>) -> bool {
    is_path_separator(path[0]) || path[0] == '&' ==> second_char(path) < path.len()
        && !is_path_separator(path[second_char(path)]) && path[second_char(path)] != '&'
}

/// A path with a name in it, or of dots alone, on every system: it is more than a
/// root, a drive or the name of a server.
pub open spec fn leads_to_file(path: Seq<char>) -> bool {
    ||| is_dots(path)
    ||| {
        &&& path.len() > 0
        &&& starts_no_server(path)
        &&& name_chars(path, 0, false) > 1 || (name_chars(path, 0, false) > 0 && is_plain(path))
    }
}

/// Where white space ends.
pub open spec fn after_spaces(document: Seq<char>, at: int) -> int {
    position(document, |c: char| !is_tag_space(c), at)
}

pub open spec fn is_ascii(c: char) -> bool {
    (c as u32) < 128
}

/// What follows a name, at `at`, gives it no value, or a path with a name in it. A
/// value follows an equals sign, in quotes of either kind.
pub open spec fn gives_file(document: Seq<char>, at: int) -> bool {
    let sign = after_spaces(document, at);
    if sign >= document.len() {
        true
    } else if document[sign] != '=' {
        is_ascii(document[sign])
    } else {
        let quote = after_spaces(document, sign + 1);
        if quote >= document.len() {
            true
        } else if !is_quote(document[quote]) {
            is_ascii(document[quote])
        } else {
            let end = value_end(document, document[quote], quote + 1);
            end >= document.len() || leads_to_file(document.subrange(quote + 1, end))
        }
    }
}

/// A container document in which no `full-path` names a root, and which has no zero
/// characters and defines no entities.
pub open spec fn names_files(document: Seq<char>) -> bool {
    &&& forall|i: int| 0 <= i < document.len() ==> #[trigger] document[i] != '\0'
    &&& !contains(document, "<!ENTITY"@)
    &&& forall|at: int| #[trigger]
        stands_at(document, "full-path"@, at) ==> gives_file(
            document,
            at + "full-path"@.len(),
        )
}

/// The bytes start with the mark of UTF-16, in one byte order or the other.
pub open spec fn is_wide(bytes: Seq<u8>) -> bool {
    bytes.len() > 1 && (bytes[0] == 0xfe && bytes[1] == 0xff || bytes[0] == 0xff && bytes[1]
        == 0xfe)
}

/// The package document of a book can be opened, if only to find that something is
/// wrong with it: the book has no container document, or one that does not name a
/// root.
pub open spec fn can_open(epub: Seq<u8>) -> bool {
    match container_of(epub) {
        Ok(container) => if is_wide(container) {
            names_files(as_wide_chars(container.skip(2), true)) && names_files(
                as_wide_chars(container.skip(2), false),
            )
        } else {
            names_files(as_chars(container))
        },
        Err(_) => true,
    }
}

fn chars_of_bytes(bytes: &Vec<u8>) -> (chars: Vec<char>)
    ensures
        chars@ == as_chars(bytes@),
{
    let mut chars: Vec<char> = Vec::new();
    let mut i: usize = 0;
    while i < bytes.len()
        invariant
            i <= bytes.len(),
            chars@ == as_chars(bytes@.take(i as int)),
        decreases bytes.len() - i,
    {
        chars.push(bytes[i] as char);
        i += 1;
        assert(chars@ =~= as_chars(bytes@.take(i as int)));
    }
    assert(bytes@.take(i as int) =~= bytes@);
    chars
}

fn wide_chars_of_bytes(bytes: &[u8], high_first: bool) -> (chars: Vec<char>)
    ensures
        chars@ == as_wide_chars(bytes@, high_first),
{
    let mut chars: Vec<char> = Vec::new();
    let count: usize = bytes.len() / 2;
    let mut i: usize = 0;
    while i < count
        invariant
            i <= count,
            count == bytes@.len() / 2,
            chars@ == as_wide_chars(bytes@, high_first).take(i as int),
        decreases count - i,
    {
        assert(2 * i + 1 < bytes.len());
        let first = bytes[2 * i];
        let second = bytes[2 * i + 1];
        let (high, low) = if high_first {
            (first, second)
        } else {
            (second, first)
        };
        let c: char = if high == 0 && low < 128 {
            low as char
        } else {
            '\u{80}'
        };
        proof {
            assert(c == as_wide_chars(bytes@, high_first)[i as int]);
            assert(as_wide_chars(bytes@, high_first).take(i as int).push(c) =~= as_wide_chars(
                bytes@,
                high_first,
            ).take(i + 1));
        }
        chars.push(c);
        i += 1;
    }
    assert(as_wide_chars(bytes@, high_first).take(i as int) =~= as_wide_chars(bytes@, high_first));
    chars
}

fn count_name_chars(path: &[char]) -> (count: usize)
    ensures
        count == name_chars(path@, 0, false),
{
    let mut count: usize = 0;
    let mut in_reference = false;
    let mut i: usize = 0;
    while i < path.len()
        invariant
            i <= path.len(),
            count <= i,
            name_chars(path@, 0, false) == count + name_chars(path@, i as int, in_reference),
        decreases path.len() - i,
    {
        let c = path[i];
        if in_reference {
            in_reference = c != ';';
        } else if c == '&' {
            in_reference = true;
        } else if !(c == '/' || c == '\\' || c == '.' || c == ':' || c == ' ' || c == '\t' || c
            == '\n' || c == '\r') {
            count += 1;
        }
        i += 1;
    }
    count
}

fn is_plain_path(path: &[char]) -> (yes: bool)
    ensures
        yes == is_plain(path@),
{
    let mut i: usize = 0;
    while i < path.len()
        invariant
            i <= path.len(),
            forall|j: int| 0 <= j < i ==> #[trigger] path@[j] != '&' && path@[j] != ':',
        decreases path.len() - i,
    {
        if path[i] == '&' || path[i] == ':' {
            assert(path@[i as int] == '&' || path@[i as int] == ':');
            return false;
        }
        i += 1;
    }
    true
}

fn consists_of_dots(path: &[char]) -> (yes: bool)
    ensures
        yes == is_dots(path@),
{
    let mut i: usize = 0;
    while i < path.len()
        invariant
            i <= path.len(),
            forall|j: int| 0 <= j < i ==> #[trigger] path@[j] == '.',
        decreases path.len() - i,
    {
        if path[i] != '.' {
            return false;
        }
        i += 1;
    }
    path.len() > 0
}

fn path_leads_to_file(path: &[char]) -> (yes: bool)
    ensures
        yes == leads_to_file(path@),
{
    if consists_of_dots(path) {
        return true;
    }
    if path.len() == 0 {
        return false;
    }
    if path[0] == '/' || path[0] == '\\' || path[0] == '&' {
        proof {
            position_bounds(path@, |c: char| c == ';', 0);
        }
        let second: usize = if path[0] == '&' {
            let mark = position_of(path, ';', 0);
            if mark == path.len() {
                return false;
            }
            mark + 1
        } else {
            1
        };
        if second >= path.len() || path[second] == '/' || path[second] == '\\' || path[second]
            == '&' {
            return false;
        }
    }
    let count = count_name_chars(path);
    count > 1 || (count > 0 && is_plain_path(path))
}

fn skip_spaces(document: &[char], from: usize) -> (at: usize)
    requires
        from <= document@.len(),
    ensures
        at == after_spaces(document@, from as int),
        from <= at <= document@.len(),
{
    let mut i: usize = from;
    while i < document.len()
        invariant
            from <= i <= document@.len(),
            after_spaces(document@, from as int) == position(
                document@,
                |c: char| !is_tag_space(c),
                i as int,
            ),
        decreases document.len() - i,
    {
        let c = document[i];
        if c != ' ' && c != '\t' && c != '\n' && c != '\r' {
            return i;
        }
        i += 1;
    }
    i
}

fn file_is_given(document: &[char], at: usize) -> (yes: bool)
    requires
        at <= document@.len(),
    ensures
        yes == gives_file(document@, at as int),
{
    let sign = skip_spaces(document, at);
    if sign == document.len() {
        return true;
    }
    if document[sign] != '=' {
        return (document[sign] as u32) < 128;
    }
    let quote = skip_spaces(document, sign + 1);
    if quote == document.len() {
        return true;
    }
    let mark = document[quote];
    if mark != '"' && mark != '\'' {
        return (mark as u32) < 128;
    }
    let end = position_of(document, mark, quote + 1);
    proof {
        value_end_is(document@, mark, quote + 1, end as int);
    }
    end == document.len() || path_leads_to_file(slice_subrange(document, quote + 1, end))
}

/// Whether no `full-path` in a container document names a root.
fn document_names_files(document: &[char]) -> (yes: bool)
    ensures
        yes == names_files(document@),
{
    let mut i: usize = 0;
    while i < document.len()
        invariant
            i <= document.len(),
            forall|j: int| 0 <= j < i ==> #[trigger] document@[j] != '\0',
        decreases document.len() - i,
    {
        if document[i] == '\0' {
            assert(document@[i as int] == '\0');
            return false;
        }
        i += 1;
    }
    if contains_chars(document, chars_of("<!ENTITY").as_slice()) {
        return false;
    }
    let name = chars_of("full-path");
    proof {
        reveal_strlit("full-path");
    }
    let mut from: usize = 0;
    loop
        invariant
            from <= document@.len(),
            name@ == "full-path"@,
            name@.len() == 9,
            forall|j: int| 0 <= j < document@.len() ==> #[trigger] document@[j] != '\0',
            !contains(document@, "<!ENTITY"@),
            forall|at: int|
                at < from && #[trigger] stands_at(document@, name@, at) ==> gives_file(
                    document@,
                    at + 9,
                ),
        decreases document@.len() - from,
    {
        proof {
            find_bounds(document@, name@, from as int);
        }
        match find_from(document, name.as_slice(), from) {
            None => {
                return true;
            },
            Some(at) => {
                assert(stands_at(document@, name@, at as int));
                assert(at + 9 <= document.len());
                if !file_is_given(document, at + 9) {
                    return false;
                }
                from = at + 1;
            },
        }
    }
}

/// Whether a container document lets the package document be opened: it does not
/// name a root.
pub fn container_names_files(container: &Vec<u8>) -> (yes: bool)
    ensures
        yes == if is_wide(container@) {
            names_files(as_wide_chars(container@.skip(2), true)) && names_files(
                as_wide_chars(container@.skip(2), false),
            )
        } else {
            names_files(as_chars(container@))
        },
{
    if container.len() > 1 && (container[0] == 0xfe && container[1] == 0xff || container[0] == 0xff
        && container[1] == 0xfe) {
        let rest = slice_subrange(container.as_slice(), 2, container.len());
        assert(rest@ =~= container@.skip(2));
        document_names_files(wide_chars_of_bytes(rest, true).as_slice()) && document_names_files(
            wide_chars_of_bytes(rest, false).as_slice(),
        )
    } else {
        document_names_files(chars_of_bytes(container).as_slice())
    }
}

/// Opens the package document of a book, given the bytes of its file, where that
/// can be done: see [`can_open`].
pub fn open_package(epub: Vec<u8>) -> (opened: Option<Result<PackageMetadata, DocFailure>>)
    ensures
        match opened {
            Some(outcome) => can_open(epub@) && opened_model(outcome) == package_of(epub@),
            None => !can_open(epub@),
        },
{
    match read_container(&epub) {
        Ok(container) => {
            if !container_names_files(&container) {
                return None;
            }
        },
        Err(_) => {},
    }
    Some(open_doc(epub))
}

proof fn one_path_is_given(before: Seq<char>, path: Seq<char>, after: Seq<char>)
    requires
        forall|i: int| 0 <= i < path.len() ==> #[trigger] path[i] != '"',
    ensures
        ({
            let document = before + "full-path=\""@ + path + seq!['"'] + after;
            gives_file(document, before.len() as int + 9) <==> leads_to_file(path)
        }),
{
    reveal_strlit("full-path=\"");
    let document = before + "full-path=\""@ + path + seq!['"'] + after;
    let n = before.len() as int;
    assert(document[n + 9] == '=' && document[n + 10] == '"');
    let start = n + 11;
    let end = start + path.len();
    assert forall|i: int| start <= i < end implies document[i] != '"' by {
        assert(document[i] == path[i - start]);
    }
    assert(document[end] == '"');
    value_end_is(document, '"', start, end);
    assert(document.subrange(start, end) =~= path);
    assert(after_spaces(document, n + 9) == n + 9);
    assert(after_spaces(document, n + 10) == n + 10);
}

proof fn names_are_counted(path: Seq<char>, from: int, at: int)
    requires
        0 <= from <= at < path.len(),
        forall|i: int| 0 <= i < path.len() ==> #[trigger] path[i] != '&',
        !is_path_separator(path[at]) && path[at] != '.' && path[at] != ':' && !is_tag_space(
            path[at],
        ),
    ensures
        name_chars(path, from, false) > 0,
    decreases at - from,
{
    assert(path[from] != '&');
    if from < at {
        names_are_counted(path, from + 1, at);
    }
}

proof fn separators_are_no_names(path: Seq<char>, from: int)
    requires
        0 <= from <= path.len(),
        forall|i: int| 0 <= i < path.len() ==> #[trigger] path[i] == '/' || path[i] == '\\',
    ensures
        name_chars(path, from, false) == 0,
    decreases path.len() - from,
{
    if from < path.len() {
        assert(path[from] == '/' || path[from] == '\\');
        separators_are_no_names(path, from + 1);
    }
}

/// A container document that gives one path, in double quotes, lets the package
/// document be opened where the path holds a name, starts with no slash, and has
/// neither references nor colons in it, and the document holds no zero character and
/// defines no entity.
pub proof fn containers_that_name_a_file_can_be_opened(
    before: Seq<char>,
    path: Seq<char>,
    after: Seq<char>,
    name: int,
)
    requires
        forall|i: int|
            0 <= i < path.len() ==> #[trigger] path[i] != '"' && path[i] != '&' && path[i] != ':',
        0 <= name < path.len(),
        path[name] != '/' && path[name] != '\\' && path[name] != '.' && path[name] != ' '
            && path[name] != '\t' && path[name] != '\n' && path[name] != '\r',
        path[0] != '/' && path[0] != '\\',
        ({
            let document = before + "full-path=\""@ + path + seq!['"'] + after;
            &&& forall|at: int| #[trigger]
                stands_at(document, "full-path"@, at) ==> at == before.len()
            &&& forall|i: int| 0 <= i < document.len() ==> #[trigger] document[i] != '\0'
            &&& stands_nowhere(document, "<!ENTITY"@)
        }),
    ensures
        names_files(before + "full-path=\""@ + path + seq!['"'] + after),
{
    reveal_strlit("full-path");
    let document = before + "full-path=\""@ + path + seq!['"'] + after;
    assert forall|i: int| 0 <= i < path.len() implies #[trigger] path[i] != '&' by {}
    assert(path[name] != ':' && path[0] != '&');
    names_are_counted(path, 0, name);
    assert(is_plain(path));
    assert(leads_to_file(path));
    one_path_is_given(before, path, after);
    find_bounds(document, "<!ENTITY"@, 0);
}

/// A container document that gives nothing, or slashes alone, for a path does not let
/// the package document be opened.
pub proof fn containers_that_name_a_root_cannot_be_opened(
    before: Seq<char>,
    path: Seq<char>,
    after: Seq<char>,
)
    requires
        forall|i: int| 0 <= i < path.len() ==> #[trigger] path[i] == '/' || path[i] == '\\',
    ensures
        !names_files(before + "full-path=\""@ + path + seq!['"'] + after),
{
    reveal_strlit("full-path");
    reveal_strlit("full-path=\"");
    let document = before + "full-path=\""@ + path + seq!['"'] + after;
    let n = before.len() as int;
    assert(document.subrange(n, n + 9) =~= "full-path"@);
    assert(stands_at(document, "full-path"@, n));
    assert forall|i: int| 0 <= i < path.len() implies #[trigger] path[i] != '"' by {
        assert(path[i] == '/' || path[i] == '\\');
    }
    one_path_is_given(before, path, after);
    separators_are_no_names(path, 0);
    assert(!is_dots(path)) by {
        if path.len() > 0 {
            assert(path[0] == '/' || path[0] == '\\');
        }
    }
}

} // verus!
