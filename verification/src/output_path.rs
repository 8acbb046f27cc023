//! Output Path Templates: where in an Output Library a book's file goes.
//!
//! A template is text with placeholders, `{field}` or `{field:format}`, and
//! optional sections in square brackets, which are left out where one of their
//! fields has no value. What a template renders to is cut into path segments
//! that are safe as file names.

use vstd::prelude::*;
use vstd::slice::slice_subrange;

use crate::text::{
    chars_of, clone_text, debug_form, debug_text, glue, is_blank, is_blank_text, is_control,
    is_control_char, is_digit, is_space, is_space_char, join, join_texts,
    only_the_case_of_letters_is_ignored, pair, position, position_bounds, position_of, push_chars,
    pushed_view, same_but_case, same_chars, split, split_undoes_join, string_of, trim, trim_chars,
    trim_end, trim_is_subrange, trim_keeps, trim_range, trim_start, trim_start_skips, trimmed,
    upper, upper_all, upper_chars, viewed, views,
};

verus! {

/// No path segment is longer than this, but for the underscore that is put
/// before a reserved name.
pub const MAX_SEGMENT_CHARS: usize = 180;

/// What a template can say of a book, in plain texts.
pub struct MetadataModel {
    pub title: Option<Seq<char>>,
    pub author: Option<Seq<char>>,
    pub authors: Option<Seq<char>>,
    pub author_sort: Option<Seq<char>>,
    pub series: Option<Seq<char>>,
    pub series_index: Option<Seq<char>>,
    pub language: Option<Seq<char>>,
    pub identifier: Option<Seq<char>>,
}

/// What a template can say of a book.
#[derive(Debug, PartialEq, Eq)]
pub struct NormalizedMetadata {
    pub title: Option<String>,
    pub author: Option<String>,
    pub authors: Option<String>,
    pub author_sort: Option<String>,
    pub series: Option<String>,
    pub series_index: Option<String>,
    pub language: Option<String>,
    pub identifier: Option<String>,
}

impl View for NormalizedMetadata {
    type V = MetadataModel;

    open spec fn view(&self) -> MetadataModel {
        MetadataModel {
            title: viewed(self.title),
            author: viewed(self.author),
            authors: viewed(self.authors),
            author_sort: viewed(self.author_sort),
            series: viewed(self.series),
            series_index: viewed(self.series_index),
            language: viewed(self.language),
            identifier: viewed(self.identifier),
        }
    }
}

impl Clone for NormalizedMetadata {
    fn clone(&self) -> (copy: Self)
        ensures
            copy@ == self@,
    {
        NormalizedMetadata {
            title: clone_text(&self.title),
            author: clone_text(&self.author),
            authors: clone_text(&self.authors),
            author_sort: clone_text(&self.author_sort),
            series: clone_text(&self.series),
            series_index: clone_text(&self.series_index),
            language: clone_text(&self.language),
            identifier: clone_text(&self.identifier),
        }
    }
}

impl Default for NormalizedMetadata {
    fn default() -> (empty: Self)
        ensures
            empty@ == (MetadataModel {
                title: None,
                author: None,
                authors: None,
                author_sort: None,
                series: None,
                series_index: None,
                language: None,
                identifier: None,
            }),
    {
        NormalizedMetadata {
            title: None,
            author: None,
            authors: None,
            author_sort: None,
            series: None,
            series_index: None,
            language: None,
            identifier: None,
        }
    }
}

/// Where a book goes, relative to the Output Library, in segments separated by
/// `/`, and what the reader of the report should know about it.
#[derive(Debug, PartialEq, Eq)]
pub struct RenderedOutputPath {
    pub relative_path: String,
    pub warnings: Vec<String>,
}

/// Why a template has no output path for a book.
#[derive(Debug, PartialEq, Eq)]
pub struct PathRenderError {
    message: String,
}

impl View for PathRenderError {
    type V = Seq<char>;

    closed spec fn view(&self) -> Seq<char> {
        self.message@
    }
}

/// Text that a part of a template stands for, and the warnings that go with it.
pub struct Rendered {
    pub text: Seq<char>,
    pub warnings: Seq<Seq<char>>,
}

impl Rendered {
    pub open spec fn plain(text: Seq<char>) -> Rendered {
        Rendered { text, warnings: Seq::empty() }
    }

    /// This followed by what `rest` gives, if it gives anything.
    pub open spec fn before(self, rest: Result<Rendered, Seq<char>>) -> Result<
        Rendered,
        Seq<char>,
    > {
        match rest {
            Ok(next) => Ok(
                Rendered { text: self.text + next.text, warnings: self.warnings + next.warnings },
            ),
            Err(message) => Err(message),
        }
    }
}

/// The fields that a placeholder can name.
#[derive(Debug, Clone, Copy, PartialEq, Eq, Structural)]
pub enum Field {
    Title,
    Author,
    Authors,
    AuthorSort,
    Series,
    SeriesIndex,
    Language,
    Identifier,
}

impl Field {
    /// The field's name in a template.
    pub open spec fn name(self) -> Seq<char> {
        match self {
            Field::Title => "title"@,
            Field::Author => "author"@,
            Field::Authors => "authors"@,
            Field::AuthorSort => "author_sort"@,
            Field::Series => "series"@,
            Field::SeriesIndex => "series_index"@,
            Field::Language => "language"@,
            Field::Identifier => "identifier"@,
        }
    }

    /// The field of a given name.
    pub open spec fn named(name: Seq<char>) -> Option<Field> {
        if name == "title"@ {
            Some(Field::Title)
        } else if name == "author"@ {
            Some(Field::Author)
        } else if name == "authors"@ {
            Some(Field::Authors)
        } else if name == "author_sort"@ {
            Some(Field::AuthorSort)
        } else if name == "series"@ {
            Some(Field::Series)
        } else if name == "series_index"@ {
            Some(Field::SeriesIndex)
        } else if name == "language"@ {
            Some(Field::Language)
        } else if name == "identifier"@ {
            Some(Field::Identifier)
        } else {
            None
        }
    }

    /// What a book says of the field.
    pub open spec fn value(self, metadata: MetadataModel) -> Option<Seq<char>> {
        match self {
            Field::Title => metadata.title,
            Field::Author => metadata.author,
            Field::Authors => metadata.authors,
            Field::AuthorSort => metadata.author_sort,
            Field::Series => metadata.series,
            Field::SeriesIndex => metadata.series_index,
            Field::Language => metadata.language,
            Field::Identifier => metadata.identifier,
        }
    }

    /// The field has a value other than white space.
    pub open spec fn has_value(self, metadata: MetadataModel) -> bool {
        self.value(metadata) is Some && !is_blank(self.value(metadata)->0)
    }

    /// What stands for the field in a book that does not have it.
    pub open spec fn fallback(self) -> Option<Seq<char>> {
        match self {
            Field::Title => Some("Unknown Title"@),
            Field::Author => Some("Unknown Author"@),
            Field::Authors => Some("Unknown Author"@),
            _ => None,
        }
    }
}

/// A placeholder without its braces.
pub struct PlaceholderModel {
    pub field: Field,
    pub format: Option<Seq<char>>,
}

pub open spec fn placeholder(input: Seq<char>) -> Result<PlaceholderModel, Seq<char>> {
    let colon = position(input, |c: char| c == ':', 0);
    match Field::named(input.take(colon)) {
        Some(field) => Ok(
            PlaceholderModel {
                field,
                format: if colon < input.len() {
                    Some(input.skip(colon + 1))
                } else {
                    None
                },
            },
        ),
        None => Err(unsupported_field(debug_form(input.take(colon)))),
    }
}

pub open spec fn unsupported_field(quoted: Seq<char>) -> Seq<char> {
    "unsupported metadata field "@ + quoted + " in Output Path Template"@
}

pub open spec fn unpadded_index(quoted: Seq<char>) -> Seq<char> {
    "series_index value "@ + quoted + " is not integer-looking; leaving unpadded"@
}

pub open spec fn unclosed_placeholder() -> Seq<char> {
    "unclosed placeholder in Output Path Template"@
}

pub open spec fn unclosed_section() -> Seq<char> {
    "unclosed optional section in Output Path Template"@
}

/// A series index of digits alone, with two digits or more and no other leading
/// zeros.
pub open spec fn padded(digits: Seq<char>) -> Seq<char> {
    let significant = trim_start(digits, |c: char| c == '0');
    if significant.len() == 0 {
        "00"@
    } else if significant.len() == 1 {
        "0"@ + significant
    } else {
        significant
    }
}

pub open spec fn all_digits(s: Seq<char>) -> bool {
    forall|i: int| 0 <= i < s.len() ==> is_digit(#[trigger] s[i])
}

/// `value`, which has no white space at its ends, as `p` formats it.
pub open spec fn formatted(p: PlaceholderModel, value: Seq<char>) -> Result<Rendered, Seq<char>> {
    match p.format {
        None => Ok(Rendered::plain(value)),
        Some(format) => if format == "02"@ && p.field == Field::SeriesIndex {
            if all_digits(value) {
                Ok(Rendered::plain(padded(value)))
            } else {
                Ok(Rendered { text: value, warnings: seq![unpadded_index(debug_form(value))] })
            }
        } else {
            Err("unsupported placeholder format :"@ + format + " for "@ + p.field.name())
        },
    }
}

/// What a placeholder stands for.
pub open spec fn placeholder_text(input: Seq<char>, metadata: MetadataModel, optional: bool) -> Result<
    Rendered,
    Seq<char>,
> {
    match placeholder(input) {
        Err(message) => Err(message),
        Ok(p) => if p.field.has_value(metadata) {
            match formatted(p, trim(p.field.value(metadata)->0)) {
                Err(message) => Err(message),
                Ok(r) => Ok(Rendered { text: segment(r.text), ..r }),
            }
        } else if optional {
            Ok(Rendered::plain(Seq::empty()))
        } else {
            match p.field.fallback() {
                Some(fallback) => match formatted(p, fallback) {
                    Err(message) => Err(message),
                    Ok(r) => Ok(
                        Rendered {
                            text: segment(r.text),
                            warnings: seq![
                                "missing "@ + p.field.name() + "; using fallback "@ + fallback,
                            ] + r.warnings,
                        },
                    ),
                },
                None => if p.field == Field::Identifier {
                    Ok(
                        Rendered {
                            text: Seq::empty(),
                            warnings: seq!["missing identifier; rendering empty string"@],
                        },
                    )
                } else {
                    Err(
                        "missing required metadata field "@ + p.field.name()
                            + " for Output Path Template"@,
                    )
                },
            }
        },
    }
}

/// Where, `from` or later, the bracket closes that leaves `depth` others open.
pub open spec fn closing_bracket(s: Seq<char>, from: int, depth: int) -> Option<int>
    decreases s.len() - from,
{
    if from < 0 || from >= s.len() {
        None
    } else if s[from] == '[' {
        closing_bracket(s, from + 1, depth + 1)
    } else if s[from] == ']' {
        if depth == 1 {
            Some(from)
        } else {
            closing_bracket(s, from + 1, depth - 1)
        }
    } else {
        closing_bracket(s, from + 1, depth)
    }
}

/// The fields of all the placeholders in an optional section, nested ones too.
pub open spec fn section_fields(section: Seq<char>) -> Result<Seq<Field>, Seq<char>>
    decreases section.len(),
{
    let open = position(section, |c: char| c == '{', 0);
    if !(0 <= open < section.len()) {
        Ok(Seq::empty())
    } else {
        let tail = section.skip(open);
        let close = position(tail, |c: char| c == '}', 0);
        if !(0 < close < tail.len()) {
            Err(unclosed_placeholder())
        } else {
            match placeholder(tail.subrange(1, close)) {
                Err(message) => Err(message),
                Ok(p) => match section_fields(tail.skip(close + 1)) {
                    Err(message) => Err(message),
                    Ok(fields) => Ok(seq![p.field] + fields),
                },
            }
        }
    }
}

/// An optional section shows where it has placeholders and all of their fields
/// have values.
pub open spec fn shows(fields: Seq<Field>, metadata: MetadataModel) -> bool {
    fields.len() > 0 && forall|i: int|
        0 <= i < fields.len() ==> (#[trigger] fields[i]).has_value(metadata)
}

/// What a template, or an optional section of one, stands for.
pub open spec fn template_text(template: Seq<char>, metadata: MetadataModel, optional: bool) -> Result<
    Rendered,
    Seq<char>,
>
    decreases template.len(),
{
    let at = position(template, |c: char| c == '[' || c == '{', 0);
    if !(0 <= at < template.len()) {
        Ok(Rendered::plain(template))
    } else {
        let literal = Rendered::plain(template.take(at));
        let tail = template.skip(at);
        if tail[0] == '[' {
            match closing_bracket(tail, 0, 0) {
                None => Err(unclosed_section()),
                Some(close) => if !(0 < close < tail.len()) {
                    Err(unclosed_section())
                } else {
                    let section = tail.subrange(1, close);
                    let rest = template_text(tail.skip(close + 1), metadata, optional);
                    match section_fields(section) {
                        Err(message) => Err(message),
                        Ok(fields) => if shows(fields, metadata) {
                            match template_text(section, metadata, true) {
                                Err(message) => Err(message),
                                Ok(inner) => literal.before(inner.before(rest)),
                            }
                        } else {
                            literal.before(rest)
                        },
                    }
                },
            }
        } else {
            let close = position(tail, |c: char| c == '}', 0);
            if !(0 < close < tail.len()) {
                Err(unclosed_placeholder())
            } else {
                let rest = template_text(tail.skip(close + 1), metadata, optional);
                match placeholder_text(tail.subrange(1, close), metadata, optional) {
                    Err(message) => Err(message),
                    Ok(value) => literal.before(value.before(rest)),
                }
            }
        }
    }
}

/// A character that no file name should hold.
pub open spec fn is_forbidden(c: char) -> bool {
    is_control(c) || c == '/' || c == '\\' || c == '<' || c == '>' || c == ':' || c == '"' || c
        == '|' || c == '?' || c == '*'
}

pub open spec fn is_gap(c: char) -> bool {
    is_space(c) && !is_forbidden(c)
}

/// `s` with an underscore for each forbidden character and one space for each
/// run of white space.
pub open spec fn scrubbed(s: Seq<char>) -> Seq<char>
    decreases s.len(),
{
    if s.len() == 0 {
        s
    } else {
        let before = s.drop_last();
        if is_forbidden(s.last()) {
            scrubbed(before).push('_')
        } else if is_space(s.last()) {
            if before.len() > 0 && is_gap(before.last()) {
                scrubbed(before)
            } else {
                scrubbed(before).push(' ')
            }
        } else {
            scrubbed(before).push(s.last())
        }
    }
}

/// The device names that some file systems keep for themselves, with or without
/// an extension.
pub open spec fn is_reserved(s: Seq<char>) -> bool {
    let base = upper_all(s.take(position(s, |c: char| c == '.', 0)));
    ||| base == "CON"@
    ||| base == "PRN"@
    ||| base == "AUX"@
    ||| base == "NUL"@
    ||| base.len() == 4 && (base.take(3) == "COM"@ || base.take(3) == "LPT"@) && '1' <= base[3]
        <= '9'
}

pub open spec fn is_edge(c: char) -> bool {
    c == ' ' || c == '.'
}

/// The path segment that `s` becomes.
pub open spec fn segment(s: Seq<char>) -> Seq<char> {
    let inner = trim_end(
        trim_start(scrubbed(trim(s)), |c: char| is_edge(c)),
        |c: char| is_edge(c),
    );
    let short = if inner.len() > MAX_SEGMENT_CHARS {
        inner.take(MAX_SEGMENT_CHARS as int)
    } else {
        inner
    };
    let name = if short.len() == 0 {
        "_"@
    } else {
        short
    };
    if is_reserved(name) {
        "_"@ + name
    } else {
        name
    }
}

pub open spec fn is_separator(c: char) -> bool {
    c == '/' || c == '\\'
}

/// The segments of the path that a rendered template stands for.
pub open spec fn segments(rendered: Seq<char>) -> Seq<Seq<char>> {
    split(rendered, |c: char| is_separator(c)).map_values(|s: Seq<char>| segment(s))
}

/// The output path, with its warnings, that a template has for a book.
pub open spec fn output_path(template: Seq<char>, metadata: MetadataModel) -> Result<
    Rendered,
    Seq<char>,
> {
    match template_text(template, metadata, false) {
        Err(message) => Err(message),
        Ok(r) => Ok(Rendered { text: join(segments(r.text), "/"@), ..r }),
    }
}

fn is_forbidden_path_character(c: char) -> (yes: bool)
    ensures
        yes == is_forbidden(c),
{
    is_control_char(c) || c == '/' || c == '\\' || c == '<' || c == '>' || c == ':' || c == '"' || c
        == '|' || c == '?' || c == '*'
}

fn is_reserved_name(name: &[char]) -> (yes: bool)
    ensures
        yes == is_reserved(name@),
{
    proof {
        position_bounds(name@, |c: char| c == '.', 0);
    }
    let dot = position_of(name, '.', 0);
    let upper = upper_chars(slice_subrange(name, 0, dot));
    let base = upper.as_slice();
    assert(name@.subrange(0, dot as int) =~= name@.take(dot as int));
    if base.len() == 4 {
        let stem = slice_subrange(base, 0, 3);
        assert(stem@ =~= base@.take(3));
        if (same_chars(stem, chars_of("COM").as_slice()) || same_chars(
            stem,
            chars_of("LPT").as_slice(),
        )) && '1' <= base[3] && base[3] <= '9' {
            return true;
        }
    }
    same_chars(base, chars_of("CON").as_slice()) || same_chars(base, chars_of("PRN").as_slice())
        || same_chars(base, chars_of("AUX").as_slice()) || same_chars(
        base,
        chars_of("NUL").as_slice(),
    )
}

fn scrub(s: &[char]) -> (clean: Vec<char>)
    ensures
        clean@ == scrubbed(s@),
{
    let mut clean: Vec<char> = Vec::new();
    let mut after_gap = false;
    let mut i: usize = 0;
    while i < s.len()
        invariant
            i <= s.len(),
            clean@ == scrubbed(s@.take(i as int)),
            after_gap == (i > 0 && is_gap(s@[i - 1])),
        decreases s.len() - i,
    {
        let c = s[i];
        assert(s@.take(i + 1).drop_last() =~= s@.take(i as int));
        if is_forbidden_path_character(c) {
            clean.push('_');
            after_gap = false;
        } else if is_space_char(c) {
            if !after_gap {
                clean.push(' ');
            }
            after_gap = true;
        } else {
            clean.push(c);
            after_gap = false;
        }
        i += 1;
    }
    assert(s@.take(i as int) =~= s@);
    clean
}

/// The path segment that a text becomes: see [`segment`].
pub fn sanitize_segment(s: &str) -> (clean: String)
    ensures
        clean@ == segment(s@),
{
    string_of(sanitize_chars(chars_of(s).as_slice()).as_slice())
}

fn sanitize_chars(s: &[char]) -> (clean: Vec<char>)
    ensures
        clean@ == segment(s@),
{
    let scrubbed_chars = scrub(trim_chars(s));
    let all = scrubbed_chars.as_slice();
    let mut start: usize = 0;
    while start < all.len() && (all[start] == ' ' || all[start] == '.')
        invariant
            start <= all.len(),
            forall|i: int| 0 <= i < start ==> is_edge(all@[i]),
        decreases all.len() - start,
    {
        start += 1;
    }
    let mut end: usize = all.len();
    while end > start && (all[end - 1] == ' ' || all[end - 1] == '.')
        invariant
            start <= end <= all.len(),
            start < all.len() ==> !is_edge(all@[start as int]),
            forall|i: int| end <= i < all.len() ==> is_edge(all@[i]),
        decreases end - start,
    {
        end -= 1;
    }
    proof {
        trim_is_subrange(all@, |c: char| is_edge(c), start as int, end as int);
    }
    if end - start > MAX_SEGMENT_CHARS {
        end = start + MAX_SEGMENT_CHARS;
        assert(all@.subrange(start as int, end as int) =~= trim_end(
            trim_start(all@, |c: char| is_edge(c)),
            |c: char| is_edge(c),
        ).take(MAX_SEGMENT_CHARS as int));
    }
    let mut name: Vec<char> = Vec::new();
    if start == end {
        name = chars_of("_");
    } else {
        push_chars(&mut name, slice_subrange(all, start, end));
        assert(name@ =~= all@.subrange(start as int, end as int));
    }
    if is_reserved_name(name.as_slice()) {
        let mut longer = chars_of("_");
        push_chars(&mut longer, name.as_slice());
        longer
    } else {
        name
    }
}

/// The path whose segments the parts of a rendered template become.
fn sanitize_rendered_path(rendered: &[char]) -> (path: String)
    ensures
        path@ == join(segments(rendered@), "/"@),
{
    let ghost sep = |c: char| is_separator(c);
    let mut parts: Vec<String> = Vec::new();
    let mut start: usize = 0;
    let mut i: usize = 0;
    assert(rendered@.skip(0) =~= rendered@);
    while i < rendered.len()
        invariant
            sep == (|c: char| is_separator(c)),
            start <= i <= rendered.len(),
            forall|j: int| start <= j < i ==> !is_separator(rendered@[j]),
            segments(rendered@) == views(parts@) + segments(rendered@.skip(start as int)),
        decreases rendered.len() - i,
    {
        if rendered[i] == '/' || rendered[i] == '\\' {
            let piece = slice_subrange(rendered, start, i);
            let part = string_of(sanitize_chars(piece).as_slice());
            let ghost before = parts@;
            parts.push(part);
            proof {
                let rest = rendered@.skip(start as int);
                first_position(rest, sep, i - start);
                assert(rest.take(i - start) =~= piece@);
                assert(rest.skip(i - start + 1) =~= rendered@.skip(i + 1));
                pushed_view(before, part);
                assert(segments(rest) =~= seq![segment(piece@)] + segments(rendered@.skip(i + 1)));
                assert(views(parts@) + segments(rendered@.skip(i + 1)) =~= views(before)
                    + segments(rest));
            }
            start = i + 1;
        }
        i += 1;
    }
    let piece = slice_subrange(rendered, start, rendered.len());
    let part = string_of(sanitize_chars(piece).as_slice());
    let ghost before = parts@;
    parts.push(part);
    proof {
        let rest = rendered@.skip(start as int);
        first_position(rest, sep, rest.len() as int);
        assert(rest =~= piece@);
        pushed_view(before, part);
        assert(segments(rest) =~= seq![segment(piece@)]);
        assert(views(parts@) =~= segments(rendered@));
    }
    join_texts(&parts, "/")
}

impl PathRenderError {
    fn new(message: String) -> (error: Self)
        ensures
            error@ == message@,
    {
        PathRenderError { message }
    }

    /// The error for a placeholder whose field is not known, with the field's
    /// name as the template has it, in quotes.
    pub fn unsupported_field(quoted: &str) -> (error: Self)
        ensures
            error@ == unsupported_field(quoted@),
    {
        PathRenderError::new(
            glue("unsupported metadata field ", quoted, " in Output Path Template"),
        )
    }

    /// What the error says.
    pub fn message(&self) -> (message: String)
        ensures
            message@ == self@,
    {
        self.message.clone()
    }
}

/// The warning for a series index that is not a whole number, given in quotes.
pub fn unpadded_index_warning(quoted: &str) -> (warning: String)
    ensures
        warning@ == unpadded_index(quoted@),
{
    glue("series_index value ", quoted, " is not integer-looking; leaving unpadded")
}

impl Field {
    fn parse(input: &[char]) -> (field: Result<Field, PathRenderError>)
        ensures
            match Field::named(input@) {
                Some(named) => field == Ok::<Field, PathRenderError>(named),
                None => field is Err && field->Err_0@ == unsupported_field(debug_form(input@)),
            },
    {
        if same_chars(input, chars_of("title").as_slice()) {
            Ok(Field::Title)
        } else if same_chars(input, chars_of("author").as_slice()) {
            Ok(Field::Author)
        } else if same_chars(input, chars_of("authors").as_slice()) {
            Ok(Field::Authors)
        } else if same_chars(input, chars_of("author_sort").as_slice()) {
            Ok(Field::AuthorSort)
        } else if same_chars(input, chars_of("series").as_slice()) {
            Ok(Field::Series)
        } else if same_chars(input, chars_of("series_index").as_slice()) {
            Ok(Field::SeriesIndex)
        } else if same_chars(input, chars_of("language").as_slice()) {
            Ok(Field::Language)
        } else if same_chars(input, chars_of("identifier").as_slice()) {
            Ok(Field::Identifier)
        } else {
            let quoted = debug_text(string_of(input).as_str());
            Err(PathRenderError::unsupported_field(quoted.as_str()))
        }
    }

    fn as_str(self) -> (name: &'static str)
        ensures
            name@ == self.name(),
    {
        match self {
            Field::Title => "title",
            Field::Author => "author",
            Field::Authors => "authors",
            Field::AuthorSort => "author_sort",
            Field::Series => "series",
            Field::SeriesIndex => "series_index",
            Field::Language => "language",
            Field::Identifier => "identifier",
        }
    }
}

/// What a book says of a field, where that is more than white space, without the
/// white space at its ends.
fn metadata_value(metadata: &NormalizedMetadata, field: Field) -> (value: Option<String>)
    ensures
        match value {
            Some(s) => field.has_value(metadata@) && s@ == trim(field.value(metadata@)->0),
            None => !field.has_value(metadata@),
        },
{
    let value: &Option<String> = match field {
        Field::Title => &metadata.title,
        Field::Author => &metadata.author,
        Field::Authors => &metadata.authors,
        Field::AuthorSort => &metadata.author_sort,
        Field::Series => &metadata.series,
        Field::SeriesIndex => &metadata.series_index,
        Field::Language => &metadata.language,
        Field::Identifier => &metadata.identifier,
    };
    match value {
        Some(s) => if is_blank_text(s.as_str()) {
            None
        } else {
            Some(trimmed(s.as_str()))
        },
        None => None,
    }
}

fn fallback_for(field: Field) -> (fallback: Option<&'static str>)
    ensures
        match fallback {
            Some(s) => field.fallback() == Some(s@),
            None => field.fallback() is None,
        },
{
    match field {
        Field::Title => Some("Unknown Title"),
        Field::Author => Some("Unknown Author"),
        Field::Authors => Some("Unknown Author"),
        _ => None,
    }
}

/// A placeholder without its braces.
struct Placeholder {
    field: Field,
    format: Option<String>,
}

impl View for Placeholder {
    type V = PlaceholderModel;

    closed spec fn view(&self) -> PlaceholderModel {
        PlaceholderModel { field: self.field, format: viewed(self.format) }
    }
}

fn parse_placeholder(input: &[char]) -> (parsed: Result<Placeholder, PathRenderError>)
    ensures
        match placeholder(input@) {
            Ok(p) => parsed is Ok && parsed->Ok_0@ == p,
            Err(message) => parsed is Err && parsed->Err_0@ == message,
        },
{
    proof {
        position_bounds(input@, |c: char| c == ':', 0);
    }
    let colon = position_of(input, ':', 0);
    let name = slice_subrange(input, 0, colon);
    assert(name@ =~= input@.take(colon as int));
    match Field::parse(name) {
        Err(error) => Err(error),
        Ok(field) => {
            let mut format: Option<String> = None;
            if colon < input.len() {
                let given = slice_subrange(input, colon + 1, input.len());
                assert(given@ =~= input@.skip(colon + 1));
                format = Some(string_of(given));
            }
            Ok(Placeholder { field, format })
        },
    }
}

fn pad_index(value: &[char]) -> (out: String)
    ensures
        out@ == padded(value@),
{
    let mut start: usize = 0;
    while start < value.len() && value[start] == '0'
        invariant
            start <= value.len(),
            forall|i: int| 0 <= i < start ==> value@[i] == '0',
        decreases value.len() - start,
    {
        start += 1;
    }
    proof {
        trim_start_skips(value@, |c: char| c == '0', start as int);
    }
    let significant = slice_subrange(value, start, value.len());
    assert(significant@ =~= value@.skip(start as int));
    if significant.len() == 0 {
        "00".to_owned()
    } else if significant.len() == 1 {
        pair("0", string_of(significant).as_str())
    } else {
        string_of(significant)
    }
}

fn are_digits(value: &[char]) -> (yes: bool)
    ensures
        yes == all_digits(value@),
{
    let mut i: usize = 0;
    while i < value.len()
        invariant
            i <= value.len(),
            forall|j: int| 0 <= j < i ==> is_digit(value@[j]),
        decreases value.len() - i,
    {
        if !('0' <= value[i] && value[i] <= '9') {
            return false;
        }
        i += 1;
    }
    true
}

/// `warnings` has grown as `rendered` says, and `outcome` is its text or error.
spec fn renders(
    rendered: Result<Rendered, Seq<char>>,
    outcome: Result<Vec<char>, PathRenderError>,
    before: Seq<String>,
    after: Seq<String>,
) -> bool {
    match rendered {
        Ok(r) => outcome is Ok && outcome->Ok_0@ == r.text && views(after) == views(before)
            + r.warnings,
        Err(message) => outcome is Err && outcome->Err_0@ == message,
    }
}

fn format_placeholder_value(
    placeholder: &Placeholder,
    value: &str,
    warnings: &mut Vec<String>,
) -> (out: Result<Vec<char>, PathRenderError>)
    ensures
        renders(formatted(placeholder@, value@), out, old(warnings)@, final(warnings)@),
{
    match &placeholder.format {
        None => {
            assert(views(warnings@) + Seq::<Seq<char>>::empty() =~= views(warnings@));
            Ok(chars_of(value))
        },
        Some(format) => {
            let is_index = match placeholder.field {
                Field::SeriesIndex => true,
                _ => false,
            };
            let chars = chars_of(value);
            if is_index && same_chars(chars_of(format.as_str()).as_slice(), chars_of("02").as_slice()) {
                if are_digits(chars.as_slice()) {
                    assert(views(warnings@) + Seq::<Seq<char>>::empty() =~= views(warnings@));
                    Ok(chars_of(pad_index(chars.as_slice()).as_str()))
                } else {
                    let quoted = debug_text(value);
                    let warning = unpadded_index_warning(quoted.as_str());
                    proof {
                        pushed_view(warnings@, warning);
                        assert(views(warnings@) + seq![warning@] =~= views(warnings@).push(
                            warning@,
                        ));
                    }
                    warnings.push(warning);
                    Ok(chars)
                }
            } else {
                let start = glue("unsupported placeholder format :", format.as_str(), " for ");
                Err(PathRenderError::new(pair(start.as_str(), placeholder.field.as_str())))
            }
        },
    }
}

fn render_placeholder(
    input: &[char],
    metadata: &NormalizedMetadata,
    optional: bool,
    warnings: &mut Vec<String>,
) -> (out: Result<Vec<char>, PathRenderError>)
    ensures
        renders(
            placeholder_text(input@, metadata@, optional),
            out,
            old(warnings)@,
            final(warnings)@,
        ),
{
    let ghost before = warnings@;
    let placeholder = match parse_placeholder(input) {
        Ok(placeholder) => placeholder,
        Err(error) => return Err(error),
    };
    let ghost mut noted: Seq<Seq<char>> = Seq::empty();
    let value: String = match metadata_value(metadata, placeholder.field) {
        Some(value) => value,
        None => {
            if optional {
                assert(views(before) + Seq::<Seq<char>>::empty() =~= views(before));
                return Ok(Vec::new());
            }
            match fallback_for(placeholder.field) {
                Some(fallback) => {
                    let missing = glue("missing ", placeholder.field.as_str(), "; using fallback ");
                    let warning = pair(missing.as_str(), fallback);
                    proof {
                        noted = seq![warning@];
                        pushed_view(before, warning);
                        assert(views(before) + noted =~= views(before).push(warning@));
                    }
                    warnings.push(warning);
                    fallback.to_owned()
                },
                None => {
                    let is_identifier = match placeholder.field {
                        Field::Identifier => true,
                        _ => false,
                    };
                    if is_identifier {
                        let warning = "missing identifier; rendering empty string".to_owned();
                        proof {
                            pushed_view(before, warning);
                            assert(views(before) + seq![warning@] =~= views(before).push(warning@));
                        }
                        warnings.push(warning);
                        return Ok(Vec::new());
                    }
                    return Err(
                        PathRenderError::new(
                            glue(
                                "missing required metadata field ",
                                placeholder.field.as_str(),
                                " for Output Path Template",
                            ),
                        ),
                    );
                },
            }
        },
    };
    assert(views(warnings@) =~= views(before) + noted);
    match format_placeholder_value(&placeholder, value.as_str(), warnings) {
        Err(error) => Err(error),
        Ok(formatted_chars) => {
            proof {
                let more = formatted(placeholder@, value@)->Ok_0.warnings;
                assert(views(before) + noted + more =~= views(before) + (noted + more));
                assert(Seq::<Seq<char>>::empty() + more =~= more);
            }
            Ok(sanitize_chars(formatted_chars.as_slice()))
        },
    }
}

fn find_optional_close(input: &[char]) -> (close: Result<usize, PathRenderError>)
    requires
        input@.len() > 0,
        input@[0] == '[',
    ensures
        match closing_bracket(input@, 0, 0) {
            Some(at) => close is Ok && close->Ok_0 == at && 0 < at < input@.len(),
            None => close is Err && close->Err_0@ == unclosed_section(),
        },
{
    let mut depth: usize = 0;
    let mut i: usize = 0;
    while i < input.len()
        invariant
            i <= input.len(),
            depth <= i,
            input@.len() > 0,
            input@[0] == '[',
            i > 0 ==> depth > 0,
            closing_bracket(input@, 0, 0) == closing_bracket(input@, i as int, depth as int),
        decreases input.len() - i,
    {
        if input[i] == '[' {
            depth += 1;
        } else if input[i] == ']' {
            depth -= 1;
            if depth == 0 {
                return Ok(i);
            }
        }
        i += 1;
    }
    Err(PathRenderError::new("unclosed optional section in Output Path Template".to_owned()))
}

/// Whether an optional section shows: see [`shows`].
fn optional_section_has_required_values(section: &[char], metadata: &NormalizedMetadata) -> (out:
    Result<bool, PathRenderError>)
    ensures
        match section_fields(section@) {
            Ok(fields) => out == Ok::<bool, PathRenderError>(shows(fields, metadata@)),
            Err(message) => out is Err && out->Err_0@ == message,
        },
{
    let mut any = false;
    let mut all = true;
    let mut rest: &[char] = section;
    let ghost mut seen: Seq<Field> = Seq::empty();
    proof {
        follows_nothing(section_fields(section@));
    }
    loop
        invariant
            section_fields(section@) == follow(seen, section_fields(rest@)),
            any == (seen.len() > 0),
            all == (forall|i: int|
                0 <= i < seen.len() ==> (#[trigger] seen[i]).has_value(metadata@)),
        decreases rest@.len(),
    {
        proof {
            position_bounds(rest@, |c: char| c == '{', 0);
        }
        let open = position_of(rest, '{', 0);
        if open == rest.len() {
            assert(section_fields(rest@) == Ok::<Seq<Field>, Seq<char>>(Seq::empty()));
            assert(seen + Seq::<Field>::empty() =~= seen);
            return Ok(any && all);
        }
        let tail = slice_subrange(rest, open, rest.len());
        assert(tail@ =~= rest@.skip(open as int));
        proof {
            position_bounds(tail@, |c: char| c == '}', 0);
        }
        let close = position_of(tail, '}', 0);
        if close == tail.len() {
            return Err(PathRenderError::new("unclosed placeholder in Output Path Template".to_owned()));
        }
        let inner = slice_subrange(tail, 1, close);
        let placeholder = match parse_placeholder(inner) {
            Ok(placeholder) => placeholder,
            Err(error) => return Err(error),
        };
        let present = metadata_value(metadata, placeholder.field).is_some();
        let next = slice_subrange(tail, close + 1, tail.len());
        proof {
            assert(next@ =~= tail@.skip(close + 1));
            let more = section_fields(next@);
            match more {
                Ok(fields) => {
                    assert(seen + (seq![placeholder@.field] + fields) =~= seen.push(
                        placeholder@.field,
                    ) + fields);
                },
                Err(_) => {},
            }
            let longer = seen.push(placeholder@.field);
            if all && present {
                assert forall|i: int| 0 <= i < longer.len() implies (
                #[trigger] longer[i]).has_value(metadata@) by {
                    if i < seen.len() {
                        assert(longer[i] == seen[i]);
                    }
                }
            } else if !all {
                let i = choose|i: int|
                    0 <= i < seen.len() && !(#[trigger] seen[i]).has_value(metadata@);
                assert(longer[i] == seen[i]);
            } else {
                assert(longer[seen.len() as int] == placeholder@.field);
            }
            seen = longer;
        }
        any = true;
        all = all && present;
        rest = next;
    }
}

spec fn follow(seen: Seq<Field>, rest: Result<Seq<Field>, Seq<char>>) -> Result<
    Seq<Field>,
    Seq<char>,
> {
    match rest {
        Ok(fields) => Ok(seen + fields),
        Err(message) => Err(message),
    }
}

proof fn follows_nothing(rest: Result<Seq<Field>, Seq<char>>)
    ensures
        follow(Seq::empty(), rest) == rest,
{
    if rest is Ok {
        assert(Seq::<Field>::empty() + rest->Ok_0 =~= rest->Ok_0);
    }
}

proof fn before_is_associative(a: Rendered, b: Rendered, rest: Result<Rendered, Seq<char>>)
    ensures
        a.before(b.before(rest)) == (Rendered {
            text: a.text + b.text,
            warnings: a.warnings + b.warnings,
        }).before(rest),
{
    if rest is Ok {
        let c = rest->Ok_0;
        assert(a.text + (b.text + c.text) =~= a.text + b.text + c.text);
        assert(a.warnings + (b.warnings + c.warnings) =~= a.warnings + b.warnings + c.warnings);
    }
}

/// What a template stands for: see [`template_text`].
fn render_template(
    template: &[char],
    metadata: &NormalizedMetadata,
    optional: bool,
    warnings: &mut Vec<String>,
) -> (out: Result<Vec<char>, PathRenderError>)
    ensures
        renders(
            template_text(template@, metadata@, optional),
            out,
            old(warnings)@,
            final(warnings)@,
        ),
    decreases template@.len(),
{
    let ghost before = warnings@;
    let ghost mut noted: Seq<Seq<char>> = Seq::empty();
    let mut rendered: Vec<char> = Vec::new();
    let mut rest: &[char] = template;
    proof {
        nothing_before(template_text(template@, metadata@, optional));
        assert(views(before) + noted =~= views(before));
    }
    loop
        invariant
            template_text(template@, metadata@, optional) == (Rendered {
                text: rendered@,
                warnings: noted,
            }).before(template_text(rest@, metadata@, optional)),
            views(warnings@) == views(before) + noted,
            rest@.len() <= template@.len(),
            before == old(warnings)@,
        decreases rest@.len(),
    {
        let ghost start = Rendered { text: rendered@, warnings: noted };
        let ghost marks = |c: char| c == '[' || c == '{';
        let mut at: usize = 0;
        while at < rest.len() && rest[at] != '[' && rest[at] != '{'
            invariant
                at <= rest.len(),
                forall|i: int| 0 <= i < at ==> rest@[i] != '[' && rest@[i] != '{',
            decreases rest.len() - at,
        {
            at += 1;
        }
        proof {
            first_position(rest@, marks, at as int);
        }
        if at == rest.len() {
            push_chars(&mut rendered, rest);
            assert(noted + Seq::<Seq<char>>::empty() =~= noted);
            return Ok(rendered);
        }
        let literal = slice_subrange(rest, 0, at);
        let tail = slice_subrange(rest, at, rest.len());
        assert(literal@ =~= rest@.take(at as int));
        assert(tail@ =~= rest@.skip(at as int));
        push_chars(&mut rendered, literal);
        let ghost plain = Rendered::plain(literal@);
        let ghost mut value = Rendered::plain(Seq::empty());
        let close: usize;
        if tail[0] == '[' {
            close = match find_optional_close(tail) {
                Ok(close) => close,
                Err(error) => return Err(error),
            };
            let section = slice_subrange(tail, 1, close);
            match optional_section_has_required_values(section, metadata) {
                Err(error) => return Err(error),
                Ok(shown) => {
                    if shown {
                        let inner = match render_template(section, metadata, true, warnings) {
                            Err(error) => return Err(error),
                            Ok(inner) => inner,
                        };
                        push_chars(&mut rendered, inner.as_slice());
                        proof {
                            value = template_text(section@, metadata@, true)->Ok_0;
                        }
                    } else {
                        proof {
                            nothing_before(
                                template_text(tail@.skip(close + 1), metadata@, optional),
                            );
                        }
                    }
                },
            }
        } else {
            proof {
                position_bounds(tail@, |c: char| c == '}', 0);
            }
            close = position_of(tail, '}', 0);
            if close == tail.len() {
                return Err(
                    PathRenderError::new("unclosed placeholder in Output Path Template".to_owned()),
                );
            }
            let inner = slice_subrange(tail, 1, close);
            let shown = match render_placeholder(inner, metadata, optional, warnings) {
                Err(error) => return Err(error),
                Ok(shown) => shown,
            };
            push_chars(&mut rendered, shown.as_slice());
            proof {
                value = placeholder_text(inner@, metadata@, optional)->Ok_0;
            }
        }
        let next = slice_subrange(tail, close + 1, tail.len());
        proof {
            assert(next@ =~= tail@.skip(close + 1));
            let more = template_text(next@, metadata@, optional);
            assert(template_text(rest@, metadata@, optional) == plain.before(value.before(more)));
            before_is_associative(start, plain, value.before(more));
            let head = Rendered {
                text: start.text + plain.text,
                warnings: start.warnings + plain.warnings,
            };
            before_is_associative(head, value, more);
            assert(noted + Seq::<Seq<char>>::empty() =~= noted);
            assert(head.text + value.text =~= rendered@);
            assert(views(warnings@) =~= views(before) + (noted + value.warnings));
            noted = noted + value.warnings;
        }
        rest = next;
    }
}

proof fn nothing_before(rest: Result<Rendered, Seq<char>>)
    ensures
        Rendered::plain(Seq::empty()).before(rest) == rest,
{
    if rest is Ok {
        assert(Seq::<char>::empty() + rest->Ok_0.text =~= rest->Ok_0.text);
        assert(Seq::<Seq<char>>::empty() + rest->Ok_0.warnings =~= rest->Ok_0.warnings);
    }
}

/// The output path that a template has for a book.
///
/// It fails on an unclosed placeholder or optional section, on a field or a
/// format that is not known, and where a field without a fallback has no value
/// outside an optional section.
pub fn render_output_path(template: &str, metadata: &NormalizedMetadata) -> (out: Result<
    RenderedOutputPath,
    PathRenderError,
>)
    ensures
        match output_path(template@, metadata@) {
            Ok(r) => out is Ok && out->Ok_0.relative_path@ == r.text && views(
                out->Ok_0.warnings@,
            ) == r.warnings,
            Err(message) => out is Err && out->Err_0@ == message,
        },
{
    let mut warnings: Vec<String> = Vec::new();
    let chars = chars_of(template);
    let rendered = match render_template(chars.as_slice(), metadata, false, &mut warnings) {
        Err(error) => return Err(error),
        Ok(rendered) => rendered,
    };
    assert(views(Seq::<String>::empty()) =~= Seq::empty());
    proof {
        let noted = template_text(template@, metadata@, false)->Ok_0.warnings;
        assert(Seq::<Seq<char>>::empty() + noted =~= noted);
    }
    let relative_path = sanitize_rendered_path(rendered.as_slice());
    Ok(RenderedOutputPath { relative_path, warnings })
}

/// A segment that is safe as the name of a file or a folder on every system.
pub open spec fn is_safe_segment(s: Seq<char>) -> bool {
    &&& 0 < s.len() <= MAX_SEGMENT_CHARS + 1
    &&& s != "."@
    &&& s != ".."@
    &&& !is_edge(s[0])
    &&& !is_reserved(s)
    &&& forall|i: int| 0 <= i < s.len() ==> !is_forbidden(#[trigger] s[i])
    &&& forall|i: int| 0 <= i < s.len() && is_space(#[trigger] s[i]) ==> s[i] == ' '
}

/// No forbidden character, no white space but single spaces.
spec fn is_scrubbed(s: Seq<char>) -> bool {
    &&& forall|i: int| 0 <= i < s.len() ==> !is_forbidden(#[trigger] s[i])
    &&& forall|i: int| 0 <= i < s.len() && is_space(#[trigger] s[i]) ==> s[i] == ' '
    &&& forall|i: int| 0 < i < s.len() && #[trigger] s[i] == ' ' ==> s[i - 1] != ' '
}

proof fn scrubbing(s: Seq<char>)
    ensures
        is_scrubbed(scrubbed(s)),
        s.len() > 0 ==> scrubbed(s).len() > 0 && (scrubbed(s).last() == ' ' <==> is_gap(s.last())),
        s.len() == 0 ==> scrubbed(s).len() == 0,
    decreases s.len(),
{
    if s.len() > 0 {
        scrubbing(s.drop_last());
    }
}

/// Whatever a text holds, the segment made of it is safe.
pub proof fn segments_are_safe(s: Seq<char>)
    ensures
        is_safe_segment(segment(s)),
{
    reveal_strlit("_");
    reveal_strlit(".");
    reveal_strlit("..");
    reveal_strlit("CON");
    reveal_strlit("PRN");
    reveal_strlit("AUX");
    reveal_strlit("NUL");
    reveal_strlit("COM");
    reveal_strlit("LPT");
    let clean = scrubbed(trim(s));
    scrubbing(trim(s));
    let range = trim_range(clean, |c: char| is_edge(c));
    let inner = clean.subrange(range.0, range.1);
    let short = if inner.len() > MAX_SEGMENT_CHARS {
        inner.take(MAX_SEGMENT_CHARS as int)
    } else {
        inner
    };
    let name = if short.len() == 0 {
        "_"@
    } else {
        short
    };
    assert(!is_edge(name[0]));
    let done = segment(s);
    if is_reserved(name) {
        assert(done == "_"@ + name);
        assert(done[0] == '_');
        position_bounds(done, |c: char| c == '.', 0);
        let base = upper_all(done.take(position(done, |c: char| c == '.', 0)));
        assert(base.len() > 0 ==> base[0] == '_');
        if base.len() == 4 {
            assert(base.take(3)[0] == '_');
            assert("COM"@[0] == 'C');
            assert("LPT"@[0] == 'L');
        }
        assert("CON"@[0] == 'C');
        assert("PRN"@[0] == 'P');
        assert("AUX"@[0] == 'A');
        assert("NUL"@[0] == 'N');
        assert(!is_reserved(done));
    }
}

/// A path segment is left as it is when it is made a segment again, unless it
/// was cut short.
pub proof fn segments_are_stable(s: Seq<char>)
    requires
        segment(s).len() <= MAX_SEGMENT_CHARS,
        !is_edge(segment(s).last()),
    ensures
        segment(segment(s)) == segment(s),
{
    let done = segment(s);
    segments_are_safe(s);
    reveal_strlit("_");
    let clean = scrubbed(trim(s));
    scrubbing(trim(s));
    let range = trim_range(clean, |c: char| is_edge(c));
    let inner = clean.subrange(range.0, range.1);
    assert(is_scrubbed(inner)) by {
        assert forall|i: int| 0 < i < inner.len() && #[trigger] inner[i] == ' ' implies inner[i - 1]
            != ' ' by {
            assert(inner[i] == clean[range.0 + i]);
        }
    }
    let short = if inner.len() > MAX_SEGMENT_CHARS {
        inner.take(MAX_SEGMENT_CHARS as int)
    } else {
        inner
    };
    assert(is_scrubbed(short)) by {
        assert forall|i: int| 0 < i < short.len() && #[trigger] short[i] == ' ' implies short[i - 1]
            != ' ' by {
            assert(short[i] == inner[i]);
        }
    }
    let name = if short.len() == 0 {
        "_"@
    } else {
        short
    };
    assert(is_scrubbed(name));
    assert(is_scrubbed(done)) by {
        if is_reserved(name) {
            assert forall|i: int| 0 < i < done.len() && #[trigger] done[i] == ' ' implies done[i
                - 1] != ' ' by {
                assert(done[i] == name[i - 1]);
                if i > 1 {
                    assert(done[i - 1] == name[i - 2]);
                }
            }
        }
    }
    trim_keeps(done, |c: char| is_space(c));
    scrubbing_scrubbed(done);
    trim_keeps(done, |c: char| is_edge(c));
}

proof fn scrubbing_shortens(s: Seq<char>)
    ensures
        scrubbed(s).len() <= s.len(),
    decreases s.len(),
{
    if s.len() > 0 {
        scrubbing_shortens(s.drop_last());
    }
}

/// The segment that a text becomes which is short enough not to be cut is left as
/// it is when it is made a segment again. It neither starts nor ends with a space
/// or a dot, and no two characters of white space stand side by side in it.
pub proof fn short_segments_are_clean(s: Seq<char>)
    requires
        s.len() < MAX_SEGMENT_CHARS,
    ensures
        segment(segment(s)) == segment(s),
        segment(s).len() > 0,
        !is_edge(segment(s)[0]),
        !is_edge(segment(s).last()),
        forall|i: int|
            0 < i < segment(s).len() && is_space(#[trigger] segment(s)[i]) ==> !is_space(
                segment(s)[i - 1],
            ),
{
    segments_are_safe(s);
    reveal_strlit("_");
    let clean = scrubbed(trim(s));
    scrubbing(trim(s));
    scrubbing_shortens(trim(s));
    trim_range(s, |c: char| is_space(c));
    let range = trim_range(clean, |c: char| is_edge(c));
    let inner = clean.subrange(range.0, range.1);
    let name = if inner.len() == 0 {
        "_"@
    } else {
        inner
    };
    let done = segment(s);
    assert(done == if is_reserved(name) {
        "_"@ + name
    } else {
        name
    });
    assert(done.last() == name.last());
    assert forall|i: int| 0 < i < done.len() && is_space(#[trigger] done[i]) implies !is_space(
        done[i - 1],
    ) by {
        assert(done[i] == ' ');
        if is_space(done[i - 1]) {
            assert(done[i - 1] == ' ');
            let k = i - (done.len() - name.len());
            assert(done[i] == name[k]);
            if k > 0 && inner.len() > 0 {
                assert(done[i - 1] == name[k - 1]);
                assert(name[k] == clean[range.0 + k]);
                assert(name[k - 1] == clean[range.0 + k - 1]);
                assert(clean[range.0 + k - 1] != ' ');
            }
        }
    }
    segments_are_stable(s);
}

proof fn scrubbing_scrubbed(s: Seq<char>)
    requires
        is_scrubbed(s),
    ensures
        scrubbed(s) == s,
    decreases s.len(),
{
    if s.len() > 0 {
        let before = s.drop_last();
        assert(is_scrubbed(before)) by {
            assert forall|i: int| 0 < i < before.len() && #[trigger] before[i]
                == ' ' implies before[i - 1] != ' ' by {
                assert(before[i] == s[i]);
            }
        }
        scrubbing_scrubbed(before);
        assert(before.push(s.last()) =~= s);
        if is_space(s.last()) && before.len() > 0 {
            assert(s[s.len() - 1] == ' ');
            assert(before.last() == s[s.len() - 2]);
        }
    }
}

/// An output path consists of safe segments, at least one, with a slash between
/// each two: it is relative, and it names a place inside the Output Library.
pub proof fn output_paths_stay_inside(template: Seq<char>, metadata: MetadataModel)
    requires
        output_path(template, metadata) is Ok,
    ensures
        ({
            let parts = split(output_path(template, metadata)->Ok_0.text, |c: char| c == '/');
            parts.len() > 0 && forall|i: int|
                0 <= i < parts.len() ==> is_safe_segment(#[trigger] parts[i])
        }),
{
    let rendered = template_text(template, metadata, false)->Ok_0.text;
    let parts = segments(rendered);
    assert forall|i: int| 0 <= i < parts.len() implies is_safe_segment(#[trigger] parts[i]) by {
        segments_are_safe(split(rendered, |c: char| is_separator(c))[i]);
    }
    reveal_strlit("/");
    assert("/"@ =~= seq!['/']);
    split_undoes_join(parts, '/');
}

/// How many characters `f` holds of.
pub open spec fn count(s: Seq<char>, f: spec_fn(char) -> bool) -> nat
    decreases s.len(),
{
    if s.len() == 0 {
        0
    } else {
        count(s.drop_last(), f) + if f(s.last()) {
            1nat
        } else {
            0
        }
    }
}

pub open spec fn separators(s: Seq<char>) -> nat {
    count(s, |c: char| is_separator(c))
}

/// The separators of a template that stand outside its placeholders.
pub open spec fn template_separators(template: Seq<char>) -> nat
    decreases template.len(),
{
    let at = position(template, |c: char| c == '{', 0);
    if !(0 <= at < template.len()) {
        separators(template)
    } else {
        let tail = template.skip(at);
        let close = position(tail, |c: char| c == '}', 0);
        if !(0 < close < tail.len()) {
            separators(template.take(at))
        } else {
            separators(template.take(at)) + template_separators(tail.skip(close + 1))
        }
    }
}

proof fn counts_of_both(a: Seq<char>, b: Seq<char>, f: spec_fn(char) -> bool)
    ensures
        count(a + b, f) == count(a, f) + count(b, f),
    decreases b.len(),
{
    if b.len() > 0 {
        counts_of_both(a, b.drop_last(), f);
        assert((a + b).drop_last() =~= a + b.drop_last());
        assert((a + b).last() == b.last());
    } else {
        assert(a + b =~= a);
    }
}

proof fn nothing_counted(s: Seq<char>, f: spec_fn(char) -> bool)
    requires
        forall|i: int| 0 <= i < s.len() ==> !f(#[trigger] s[i]),
    ensures
        count(s, f) == 0,
    decreases s.len(),
{
    if s.len() > 0 {
        assert(!f(s[s.len() - 1]));
        assert forall|i: int| 0 <= i < s.drop_last().len() implies !f(
            #[trigger] s.drop_last()[i],
        ) by {
            assert(!f(s[i]));
        }
        nothing_counted(s.drop_last(), f);
    }
}

/// A text is split into one part more than it has separators.
proof fn parts_are_counted(s: Seq<char>, f: spec_fn(char) -> bool)
    ensures
        split(s, f).len() == 1 + count(s, f),
    decreases s.len(),
{
    position_bounds(s, f, 0);
    let at = position(s, f, 0);
    if at < s.len() {
        parts_are_counted(s.skip(at + 1), f);
        nothing_counted(s.take(at), f);
        let middle = seq![s[at]];
        assert(middle.drop_last() =~= Seq::empty());
        assert(count(middle.drop_last(), f) == 0);
        assert(count(middle, f) == 1);
        counts_of_both(s.take(at), middle, f);
        counts_of_both(s.take(at) + middle, s.skip(at + 1), f);
        assert(s.take(at) + middle + s.skip(at + 1) =~= s);
    } else {
        nothing_counted(s, f);
    }
}

/// What a placeholder stands for has no separators in it.
proof fn values_have_no_separators(input: Seq<char>, metadata: MetadataModel, optional: bool)
    requires
        placeholder_text(input, metadata, optional) is Ok,
    ensures
        separators(placeholder_text(input, metadata, optional)->Ok_0.text) == 0,
{
    let f = |c: char| is_separator(c);
    let shown = placeholder_text(input, metadata, optional)->Ok_0.text;
    let p = placeholder(input)->Ok_0;
    assert(shown.len() == 0 || exists|s: Seq<char>| shown == #[trigger] segment(s)) by {
        if p.field.has_value(metadata) {
            let value = formatted(p, trim(p.field.value(metadata)->0))->Ok_0.text;
            assert(shown == segment(value));
        } else if !optional && p.field.fallback() is Some {
            let value = formatted(p, p.field.fallback()->0)->Ok_0.text;
            assert(shown == segment(value));
        }
    }
    if shown.len() > 0 {
        let s = choose|s: Seq<char>| shown == #[trigger] segment(s);
        segments_are_safe(s);
        assert forall|i: int| 0 <= i < shown.len() implies !f(#[trigger] shown[i]) by {
            assert(!is_forbidden(segment(s)[i]));
        }
    }
    nothing_counted(shown, f);
}

proof fn separators_come_from_the_template(template: Seq<char>, metadata: MetadataModel)
    requires
        forall|i: int| 0 <= i < template.len() ==> #[trigger] template[i] != '[',
        template_text(template, metadata, false) is Ok,
    ensures
        separators(template_text(template, metadata, false)->Ok_0.text) == template_separators(
            template,
        ),
    decreases template.len(),
{
    let f = |c: char| is_separator(c);
    let marks = |c: char| c == '[' || c == '{';
    let open = |c: char| c == '{';
    position_bounds(template, marks, 0);
    position_bounds(template, open, 0);
    let at = position(template, marks, 0);
    assert(at == position(template, open, 0)) by {
        let other = position(template, open, 0);
        if at < other {
            assert(marks(template[at]));
        }
        if other < at {
            assert(!marks(template[other]));
        }
    }
    if at < template.len() {
        let tail = template.skip(at);
        assert(tail[0] == template[at]);
        position_bounds(tail, |c: char| c == '}', 0);
        let close = position(tail, |c: char| c == '}', 0);
        let rest = tail.skip(close + 1);
        assert forall|i: int| 0 <= i < rest.len() implies #[trigger] rest[i] != '[' by {
            assert(rest[i] == template[at + close + 1 + i]);
        }
        let literal = template.take(at);
        let value = placeholder_text(tail.subrange(1, close), metadata, false)->Ok_0.text;
        separators_come_from_the_template(rest, metadata);
        values_have_no_separators(tail.subrange(1, close), metadata, false);
        let more = template_text(rest, metadata, false)->Ok_0.text;
        counts_of_both(value, more, f);
        counts_of_both(literal, value + more, f);
    }
}

/// Without optional sections the template alone fixes how many parts a path has: no
/// value of a book adds a folder or takes one away.
pub proof fn levels_come_from_the_template(template: Seq<char>, metadata: MetadataModel)
    requires
        forall|i: int| 0 <= i < template.len() ==> #[trigger] template[i] != '[',
        output_path(template, metadata) is Ok,
    ensures
        split(output_path(template, metadata)->Ok_0.text, |c: char| c == '/').len() == 1
            + template_separators(template),
{
    let rendered = template_text(template, metadata, false)->Ok_0.text;
    let parts = segments(rendered);
    separators_come_from_the_template(template, metadata);
    parts_are_counted(rendered, |c: char| is_separator(c));
    assert forall|i: int, j: int|
        0 <= i < parts.len() && 0 <= j < parts[i].len() implies parts[i][j] != '/' by {
        segments_are_safe(split(rendered, |c: char| is_separator(c))[i]);
        assert(is_safe_segment(parts[i]));
        assert(!is_forbidden(parts[i][j]));
    }
    reveal_strlit("/");
    assert("/"@ =~= seq!['/']);
    split_undoes_join(parts, '/');
}

/// An optional section is left out, and nothing is said of it, unless all of its
/// fields have values; with them it stands for what it stands for by itself.
pub proof fn optional_sections_need_their_values(
    section: Seq<char>,
    fields: Seq<Field>,
    metadata: MetadataModel,
)
    requires
        closing_bracket(seq!['['] + section + seq![']'], 0, 0) == Some(section.len() as int + 1),
        section_fields(section) == Ok::<Seq<Field>, Seq<char>>(fields),
    ensures
        template_text(seq!['['] + section + seq![']'], metadata, false) == if shows(
            fields,
            metadata,
        ) {
            template_text(section, metadata, true)
        } else {
            Ok(Rendered::plain(Seq::empty()))
        },
{
    let template = seq!['['] + section + seq![']'];
    let marks = |c: char| c == '[' || c == '{';
    assert(template[0] == '[');
    assert(position(template, marks, 0) == 0);
    assert(template.take(0) =~= Seq::empty());
    assert(template.skip(0) =~= template);
    assert(template.subrange(1, section.len() as int + 1) =~= section);
    let rest = template.skip(section.len() as int + 2);
    assert(rest =~= Seq::empty());
    assert(template_text(rest, metadata, false) == Ok::<Rendered, Seq<char>>(
        Rendered::plain(Seq::empty()),
    ));
    let nothing = Rendered::plain(Seq::empty());
    let none: Result<Rendered, Seq<char>> = Ok(nothing);
    nothing_before(none);
    if shows(fields, metadata) {
        let inner = template_text(section, metadata, true);
        if inner is Ok {
            let r = inner->Ok_0;
            assert(r.text + Seq::<char>::empty() =~= r.text);
            assert(r.warnings + Seq::<Seq<char>>::empty() =~= r.warnings);
            assert(r.before(none) == inner);
            nothing_before(inner);
        }
    }
}

proof fn first_position(s: Seq<char>, f: spec_fn(char) -> bool, at: int)
    requires
        0 <= at <= s.len(),
        forall|i: int| 0 <= i < at ==> !f(s[i]),
        at < s.len() ==> f(s[at]),
    ensures
        position(s, f, 0) == at,
{
    position_bounds(s, f, 0);
}

/// The names of devices, in capitals or not, with or without an extension behind a
/// dot.
pub open spec fn is_device_name(s: Seq<char>) -> bool {
    exists|n: int|
        {
            let stem = #[trigger] s.take(n);
            &&& 0 <= n <= s.len()
            &&& n < s.len() ==> s[n] == '.'
            &&& forall|i: int| 0 <= i < n ==> s[i] != '.'
            &&& {
                ||| same_but_case(stem, "CON"@)
                ||| same_but_case(stem, "PRN"@)
                ||| same_but_case(stem, "AUX"@)
                ||| same_but_case(stem, "NUL"@)
                ||| n == 4 && same_but_case(s.take(3), "COM"@) && '1' <= s[3] <= '9'
                ||| n == 4 && same_but_case(s.take(3), "LPT"@) && '1' <= s[3] <= '9'
            }
        }
}

proof fn capitals_match(s: Seq<char>, name: Seq<char>)
    requires
        forall|i: int| 0 <= i < name.len() ==> 'A' <= #[trigger] name[i] <= 'Z',
    ensures
        upper_all(s) == name <==> same_but_case(s, name),
{
    only_the_case_of_letters_is_ignored(s, name);
    if same_but_case(s, name) {
        assert forall|i: int| 0 <= i < s.len() implies upper_all(s)[i] == name[i] by {
            assert(s[i] == name[i] || s[i] as u32 == name[i] as u32 + 32);
        }
        assert(upper_all(s) =~= name);
    }
    if upper_all(s) == name {
        assert(s.len() == name.len());
        assert forall|i: int| 0 <= i < s.len() implies #[trigger] s[i] == name[i] || s[i] as u32
            == name[i] as u32 + 32 by {
            assert(upper_all(s)[i] == name[i]);
            assert('A' <= name[i] <= 'Z');
        }
    }
}

proof fn letters_of_device_names()
    ensures
        forall|i: int| 0 <= i < "CON"@.len() ==> 'A' <= #[trigger] "CON"@[i] <= 'Z',
        forall|i: int| 0 <= i < "PRN"@.len() ==> 'A' <= #[trigger] "PRN"@[i] <= 'Z',
        forall|i: int| 0 <= i < "AUX"@.len() ==> 'A' <= #[trigger] "AUX"@[i] <= 'Z',
        forall|i: int| 0 <= i < "NUL"@.len() ==> 'A' <= #[trigger] "NUL"@[i] <= 'Z',
        forall|i: int| 0 <= i < "COM"@.len() ==> 'A' <= #[trigger] "COM"@[i] <= 'Z',
        forall|i: int| 0 <= i < "LPT"@.len() ==> 'A' <= #[trigger] "LPT"@[i] <= 'Z',
        "CON"@.len() == 3,
        "PRN"@.len() == 3,
        "AUX"@.len() == 3,
        "NUL"@.len() == 3,
        "COM"@.len() == 3,
        "LPT"@.len() == 3,
{
    reveal_strlit("CON");
    reveal_strlit("PRN");
    reveal_strlit("AUX");
    reveal_strlit("NUL");
    reveal_strlit("COM");
    reveal_strlit("LPT");
}

proof fn device_names_are_reserved(s: Seq<char>)
    ensures
        is_reserved(s) <==> is_device_name(s),
{
    letters_of_device_names();
    position_bounds(s, |c: char| c == '.', 0);
    let n = position(s, |c: char| c == '.', 0);
    let stem = s.take(n);
    capitals_match(stem, "CON"@);
    capitals_match(stem, "PRN"@);
    capitals_match(stem, "AUX"@);
    capitals_match(stem, "NUL"@);
    capitals_match(s.take(3), "COM"@);
    capitals_match(s.take(3), "LPT"@);
    if n == 4 {
        assert(upper_all(stem).take(3) =~= upper_all(s.take(3)));
        assert(upper_all(stem)[3] == upper(s[3]));
    }
    if is_device_name(s) {
        let m = choose|m: int|
            {
                let stem = #[trigger] s.take(m);
                &&& 0 <= m <= s.len()
                &&& m < s.len() ==> s[m] == '.'
                &&& forall|i: int| 0 <= i < m ==> s[i] != '.'
                &&& {
                    ||| same_but_case(stem, "CON"@)
                    ||| same_but_case(stem, "PRN"@)
                    ||| same_but_case(stem, "AUX"@)
                    ||| same_but_case(stem, "NUL"@)
                    ||| m == 4 && same_but_case(s.take(3), "COM"@) && '1' <= s[3] <= '9'
                    ||| m == 4 && same_but_case(s.take(3), "LPT"@) && '1' <= s[3] <= '9'
                }
            };
        assert(m == n);
    }
}

/// A text that can be a segment but for its length: no control character, none of
/// the signs that file names may not hold, no white space but single spaces, no
/// space and no dot at its ends, no device name.
pub open spec fn is_fit(s: Seq<char>) -> bool {
    &&& s.len() > 0
    &&& forall|i: int|
        0 <= i < s.len() ==> {
            let c = #[trigger] s[i];
            &&& 0x20 <= c as u32 && !(0x7f <= c as u32 <= 0x9f)
            &&& c != '/' && c != '\\' && c != '<' && c != '>' && c != ':' && c != '"' && c != '|'
                && c != '?' && c != '*'
            &&& is_space(c) ==> c == ' '
        }
    &&& forall|i: int, j: int|
        0 <= i && j == i + 1 && j < s.len() ==> !(#[trigger] s[i] == ' ' && #[trigger] s[j] == ' ')
    &&& s[0] != ' ' && s[0] != '.'
    &&& s[s.len() - 1] != ' ' && s[s.len() - 1] != '.'
    &&& !is_device_name(s)
}

proof fn fit_texts_are_scrubbed(s: Seq<char>)
    requires
        is_fit(s),
    ensures
        scrubbed(s) == s,
        trim(s) == s,
        trim_end(trim_start(s, |c: char| is_edge(c)), |c: char| is_edge(c)) == s,
        !is_reserved(s),
        !is_space(s.first()),
        !is_space(s.last()),
{
    assert(is_scrubbed(s));
    scrubbing_scrubbed(s);
    trim_keeps(s, |c: char| is_space(c));
    trim_keeps(s, |c: char| is_edge(c));
    device_names_are_reserved(s);
}

/// A text is left as it is as a segment where it has at most 180 characters, holds
/// no control character, none of the signs / \ < > : " | ? * and no white space but
/// single spaces, neither starts nor ends with a space or a dot, and is no device
/// name.
pub proof fn safe_texts_are_kept(s: Seq<char>)
    requires
        1 <= s.len() <= 180,
        forall|i: int|
            0 <= i < s.len() ==> {
                let c = #[trigger] s[i];
                &&& 0x20 <= c as u32 && !(0x7f <= c as u32 <= 0x9f)
                &&& c != '/' && c != '\\' && c != '<' && c != '>' && c != ':' && c != '"' && c
                    != '|' && c != '?' && c != '*'
                &&& is_space(c) ==> c == ' '
            },
        forall|i: int, j: int|
            0 <= i && j == i + 1 && j < s.len() ==> !(#[trigger] s[i] == ' ' && #[trigger] s[j]
                == ' '),
        s[0] != ' ' && s[0] != '.',
        s[s.len() - 1] != ' ' && s[s.len() - 1] != '.',
        !is_device_name(s),
    ensures
        segment(s) == s,
{
    fit_texts_are_scrubbed(s);
}

/// Of a longer text that is otherwise fit to be a segment the first 180 characters
/// are kept.
pub proof fn long_texts_are_cut(s: Seq<char>)
    requires
        s.len() > 180,
        is_fit(s),
        !is_device_name(s.take(180)),
    ensures
        segment(s) == s.take(180),
{
    fit_texts_are_scrubbed(s);
    device_names_are_reserved(s.take(180));
}

/// A text becomes a segment sign by sign: an underscore stands for each control
/// character and each of the signs / \ < > : " | ? *, and every other sign stays,
/// where no other white space than single spaces is in it and it is short enough and
/// neither starts nor ends with white space or a dot.
pub proof fn forbidden_signs_become_underscores(s: Seq<char>, made: Seq<char>)
    requires
        1 <= s.len() <= 180,
        s.len() == made.len(),
        forall|i: int|
            0 <= i < s.len() ==> {
                let c = #[trigger] s[i];
                made[i] == if c as u32 <= 0x1f || 0x7f <= c as u32 <= 0x9f || c == '/' || c == '\\'
                    || c == '<' || c == '>' || c == ':' || c == '"' || c == '|' || c == '?' || c
                    == '*' {
                    '_'
                } else {
                    c
                }
            },
        forall|i: int| 0 <= i < made.len() && is_space(#[trigger] made[i]) ==> made[i] == ' ',
        forall|i: int, j: int|
            0 <= i && j == i + 1 && j < made.len() ==> !(#[trigger] made[i] == ' '
                && #[trigger] made[j] == ' '),
        !is_space(s.first()) && s.first() != '.',
        !is_space(s.last()) && s.last() != '.',
    ensures
        !is_device_name(made) ==> segment(s) == made,
        is_device_name(made) ==> segment(s) == "_"@ + made,
{
    reveal_strlit("_");
    trim_keeps(s, |c: char| is_space(c));
    signs_are_scrubbed(s, made);
    trim_keeps(made, |c: char| is_edge(c));
    device_names_are_reserved(made);
}

proof fn signs_are_scrubbed(s: Seq<char>, made: Seq<char>)
    requires
        s.len() == made.len(),
        forall|i: int|
            0 <= i < s.len() ==> made[i] == if is_forbidden(#[trigger] s[i]) {
                '_'
            } else {
                s[i]
            },
        forall|i: int| 0 <= i < made.len() && is_space(#[trigger] made[i]) ==> made[i] == ' ',
        forall|i: int, j: int|
            0 <= i && j == i + 1 && j < made.len() ==> !(#[trigger] made[i] == ' '
                && #[trigger] made[j] == ' '),
    ensures
        scrubbed(s) == made,
    decreases s.len(),
{
    if s.len() > 0 {
        let (before, start) = (s.drop_last(), made.drop_last());
        assert forall|i: int| 0 <= i < before.len() implies start[i] == if is_forbidden(
            #[trigger] before[i],
        ) {
            '_'
        } else {
            before[i]
        } by {
            assert(s[i] == before[i]);
        }
        assert forall|i: int| 0 <= i < start.len() && is_space(#[trigger] start[i])
            implies start[i] == ' ' by {
            assert(is_space(made[i]));
        }
        assert forall|i: int, j: int| 0 <= i && j == i + 1 && j < start.len() implies !(
        #[trigger] start[i] == ' ' && #[trigger] start[j] == ' ') by {
            assert(!(made[i] == ' ' && made[j] == ' '));
        }
        signs_are_scrubbed(before, start);
        let last = s.len() - 1;
        assert(made[last] == if is_forbidden(s[last]) {
            '_'
        } else {
            s[last]
        });
        assert(made =~= start.push(made[last]));
        if last > 0 {
            assert(made[last - 1] == if is_forbidden(s[last - 1]) {
                '_'
            } else {
                s[last - 1]
            });
        }
    } else {
        assert(scrubbed(s) =~= made);
    }
}

proof fn scrubbing_both(a: Seq<char>, b: Seq<char>)
    requires
        a.len() > 0 && b.len() > 0 ==> !(is_gap(a.last()) && is_gap(b.first())),
    ensures
        scrubbed(a + b) == scrubbed(a) + scrubbed(b),
    decreases b.len(),
{
    if b.len() > 0 {
        let start = b.drop_last();
        if start.len() > 0 {
            assert(start.first() == b.first());
        }
        scrubbing_both(a, start);
        assert((a + b).drop_last() =~= a + start);
        assert((a + b).last() == b.last());
        if start.len() > 0 {
            assert((a + start).last() == start.last());
        } else {
            assert(a + start =~= a);
            assert(b.first() == b.last());
        }
        assert(scrubbed(a + b) =~= scrubbed(a) + scrubbed(b));
    } else {
        assert(a + b =~= a);
        assert(scrubbed(a) + scrubbed(b) =~= scrubbed(a));
    }
}

proof fn edges_stay_edges(s: Seq<char>)
    requires
        forall|i: int| 0 <= i < s.len() ==> is_edge(#[trigger] s[i]),
    ensures
        forall|i: int| 0 <= i < scrubbed(s).len() ==> is_edge(#[trigger] scrubbed(s)[i]),
    decreases s.len(),
{
    if s.len() > 0 {
        let before = s.drop_last();
        assert forall|i: int| 0 <= i < before.len() implies is_edge(#[trigger] before[i]) by {
            assert(is_edge(s[i]));
        }
        edges_stay_edges(before);
        assert(is_edge(s[s.len() - 1]));
        assert forall|i: int| 0 <= i < scrubbed(s).len() implies is_edge(
            #[trigger] scrubbed(s)[i],
        ) by {
            if i < scrubbed(before).len() {
                assert(scrubbed(s)[i] == scrubbed(before)[i]);
            }
        }
    }
}

/// Spaces and dots around a text that is fit to be a segment are taken off.
pub proof fn spaces_and_dots_around_are_dropped(before: Seq<char>, s: Seq<char>, after: Seq<char>)
    requires
        forall|i: int| 0 <= i < before.len() ==> #[trigger] before[i] == ' ' || before[i] == '.',
        forall|i: int| 0 <= i < after.len() ==> #[trigger] after[i] == ' ' || after[i] == '.',
        s.len() <= 180,
        is_fit(s),
    ensures
        segment(before + s + after) == s,
{
    let space = |c: char| is_space(c);
    let edge = |c: char| is_edge(c);
    let whole = before + s + after;
    fit_texts_are_scrubbed(s);
    assert(whole[before.len() as int] == s.first());
    assert(whole[before.len() + s.len() - 1] == s.last());
    let (x, y) = trim_around(whole, before.len() as int, before.len() + s.len() - 1);
    let b = before.skip(x);
    let a = after.take(y - before.len() - s.len());
    assert(whole.subrange(x, y) =~= b + s + a);
    assert forall|i: int| 0 <= i < b.len() implies is_edge(#[trigger] b[i]) by {
        assert(b[i] == before[i + x]);
    }
    assert forall|i: int| 0 <= i < a.len() implies is_edge(#[trigger] a[i]) by {
        assert(a[i] == after[i]);
    }
    scrubbing_both(b, s);
    scrubbing_both(b + s, a);
    assert((b + s).last() == s.last());
    edges_stay_edges(b);
    edges_stay_edges(a);
    let (p, q) = (scrubbed(b), scrubbed(a));
    let done = p + s + q;
    assert(scrubbed(trim(whole)) == done);
    assert(done[p.len() as int] == s.first());
    assert(done[p.len() + s.len() - 1] == s.last());
    assert forall|i: int| p.len() + s.len() <= i < done.len() implies edge(done[i]) by {
        assert(done[i] == q[i - p.len() - s.len()]);
    }
    assert forall|i: int| 0 <= i < p.len() implies edge(done[i]) by {
        assert(done[i] == p[i]);
    }
    trim_is_subrange(done, edge, p.len() as int, (p.len() + s.len()) as int);
    assert(done.subrange(p.len() as int, (p.len() + s.len()) as int) =~= s);
}

/// Between two places that hold no white space nothing is trimmed.
proof fn trim_around(s: Seq<char>, from: int, to: int) -> (range: (int, int))
    requires
        0 <= from <= to < s.len(),
        !is_space(s[from]),
        !is_space(s[to]),
    ensures
        0 <= range.0 <= from,
        to < range.1 <= s.len(),
        trim(s) == s.subrange(range.0, range.1),
    decreases s.len(),
{
    let space = |c: char| is_space(c);
    if is_space(s.first()) {
        let inner = trim_around(s.drop_first(), from - 1, to - 1);
        assert(trim_start(s, space) == trim_start(s.drop_first(), space));
        assert(s.drop_first().subrange(inner.0, inner.1) =~= s.subrange(inner.0 + 1, inner.1 + 1));
        (inner.0 + 1, inner.1 + 1)
    } else if is_space(s.last()) {
        assert(s.drop_last().first() == s.first());
        assert(trim_start(s, space) == s);
        assert(trim_start(s.drop_last(), space) == s.drop_last());
        let inner = trim_around(s.drop_last(), from, to);
        assert(s.drop_last().subrange(inner.0, inner.1) =~= s.subrange(inner.0, inner.1));
        inner
    } else {
        trim_keeps(s, space);
        assert(s.subrange(0, s.len() as int) =~= s);
        (0, s.len() as int)
    }
}

/// White space inside a text, however much of it stands in one place, becomes one
/// space.
pub proof fn white_space_becomes_one_space(a: Seq<char>, gap: Seq<char>, b: Seq<char>)
    requires
        gap.len() > 0,
        forall|i: int|
            0 <= i < gap.len() ==> is_space(#[trigger] gap[i]) && gap[i] as u32 >= 0x20 && !(0x7f
                <= gap[i] as u32 <= 0x9f),
        a.len() > 0,
        b.len() > 0,
        !is_space(a.last()),
        !is_space(b.first()),
        is_fit(a + seq![' '] + b),
        a.len() + 1 + b.len() <= 180,
    ensures
        segment(a + gap + b) == a + seq![' '] + b,
{
    let kept = a + seq![' '] + b;
    let whole = a + gap + b;
    fit_texts_are_scrubbed(kept);
    assert(kept.first() == a.first() && kept.last() == b.last());
    assert(whole.first() == a.first() && whole.last() == b.last());
    trim_keeps(whole, |c: char| is_space(c));
    gaps_become_a_space(gap);
    gaps_become_a_space(seq![' ']);
    scrubbing_both(a, gap);
    assert((a + gap).last() == gap.last());
    scrubbing_both(a + gap, b);
    scrubbing_both(a, seq![' ']);
    assert((a + seq![' ']).last() == ' ');
    scrubbing_both(a + seq![' '], b);
    assert(scrubbed(whole) == kept);
}

proof fn gaps_become_a_space(gap: Seq<char>)
    requires
        gap.len() > 0,
        forall|i: int|
            0 <= i < gap.len() ==> is_space(#[trigger] gap[i]) && gap[i] as u32 >= 0x20 && !(0x7f
                <= gap[i] as u32 <= 0x9f),
    ensures
        scrubbed(gap) == seq![' '],
    decreases gap.len(),
{
    let before = gap.drop_last();
    assert(is_space(gap[gap.len() - 1]));
    assert(is_gap(gap.last()));
    if before.len() > 0 {
        assert forall|i: int| 0 <= i < before.len() implies is_space(#[trigger] before[i])
            && before[i] as u32 >= 0x20 && !(0x7f <= before[i] as u32 <= 0x9f) by {
            assert(is_space(gap[i]));
        }
        gaps_become_a_space(before);
        assert(is_space(gap[gap.len() - 2]));
        assert(is_gap(before.last()));
    } else {
        assert(scrubbed(before) =~= Seq::empty());
        assert(scrubbed(gap) =~= seq![' ']);
    }
}

/// Of a text of spaces and dots alone nothing is left, and an underscore stands for
/// it.
pub proof fn empty_segments_are_underscores(s: Seq<char>)
    requires
        forall|i: int| 0 <= i < s.len() ==> #[trigger] s[i] == ' ' || s[i] == '.',
    ensures
        segment(s) == "_"@,
{
    reveal_strlit("_");
    let space = |c: char| is_space(c);
    let edge = |c: char| is_edge(c);
    let range = trim_range(s, space);
    let inner = s.subrange(range.0, range.1);
    assert forall|i: int| 0 <= i < inner.len() implies is_edge(#[trigger] inner[i]) by {
        assert(inner[i] == s[i + range.0]);
    }
    edges_stay_edges(inner);
    let done = scrubbed(inner);
    trim_is_subrange(done, edge, done.len() as int, done.len() as int);
    letters_of_device_names();
    position_bounds("_"@, |c: char| c == '.', 0);
    assert("_"@.len() == 1);
    assert(!is_reserved("_"@));
}

/// The names that a placeholder can hold.
pub open spec fn is_field_name(name: Seq<char>) -> bool {
    ||| name == "title"@
    ||| name == "author"@
    ||| name == "authors"@
    ||| name == "author_sort"@
    ||| name == "series"@
    ||| name == "series_index"@
    ||| name == "language"@
    ||| name == "identifier"@
}

/// What a book says under a name, where that is not blank, without the white space
/// at its ends.
pub open spec fn told(metadata: MetadataModel, name: Seq<char>) -> Option<Seq<char>> {
    let value = if name == "title"@ {
        metadata.title
    } else if name == "author"@ {
        metadata.author
    } else if name == "authors"@ {
        metadata.authors
    } else if name == "author_sort"@ {
        metadata.author_sort
    } else if name == "series"@ {
        metadata.series
    } else if name == "series_index"@ {
        metadata.series_index
    } else if name == "language"@ {
        metadata.language
    } else if name == "identifier"@ {
        metadata.identifier
    } else {
        None
    };
    if value is Some && !is_blank(value->0) {
        Some(trim(value->0))
    } else {
        None
    }
}

/// Text in which no placeholder and no optional section starts.
pub open spec fn is_literal(s: Seq<char>) -> bool {
    forall|i: int| 0 <= i < s.len() ==> #[trigger] s[i] != '[' && s[i] != '{'
}

/// What follows a text that was rendered: the two together, or the error of the
/// second.
pub open spec fn followed_by(
    text: Seq<char>,
    warnings: Seq<Seq<char>>,
    rest: Result<Rendered, Seq<char>>,
) -> Result<Rendered, Seq<char>> {
    match rest {
        Ok(r) => Ok(Rendered { text: text + r.text, warnings: warnings + r.warnings }),
        Err(message) => Err(message),
    }
}

/// The names of the fields, told apart by their lengths but for two.
pub proof fn names_differ()
    ensures
        "title"@.len() == 5,
        "author"@.len() == 6,
        "authors"@.len() == 7,
        "author_sort"@.len() == 11,
        "series"@.len() == 6,
        "series_index"@.len() == 12,
        "language"@.len() == 8,
        "identifier"@.len() == 10,
        "author"@ != "series"@,
{
    reveal_strlit("title");
    reveal_strlit("author");
    reveal_strlit("authors");
    reveal_strlit("author_sort");
    reveal_strlit("series");
    reveal_strlit("series_index");
    reveal_strlit("language");
    reveal_strlit("identifier");
    assert("author"@[0] == 'a');
    assert("series"@[0] == 's');
}

proof fn names_are_plain(name: Seq<char>)
    requires
        is_field_name(name),
    ensures
        Field::named(name) is Some,
        Field::named(name)->0.name() == name,
        position(name, |c: char| c == ':', 0) == name.len(),
        forall|i: int|
            0 <= i < name.len() ==> #[trigger] name[i] != ':' && name[i] != '}' && name[i] != '{'
                && name[i] != '[' && name[i] != ']',
{
    reveal_strlit("title");
    reveal_strlit("author");
    reveal_strlit("authors");
    reveal_strlit("author_sort");
    reveal_strlit("series");
    reveal_strlit("series_index");
    reveal_strlit("language");
    reveal_strlit("identifier");
    let odd = |c: char| c == ':' || c == '}' || c == '{' || c == '[' || c == ']';
    assert(position(name, odd, 0) == name.len()) by {
        reveal_with_fuel(position, 14);
    }
    position_bounds(name, odd, 0);
    assert forall|i: int| 0 <= i < name.len() implies #[trigger] name[i] != ':' && name[i] != '}'
        && name[i] != '{' && name[i] != '[' && name[i] != ']' by {
        assert(!odd(name[i]));
    }
    first_position(name, |c: char| c == ':', name.len() as int);
}

proof fn names_tell(name: Seq<char>, metadata: MetadataModel)
    requires
        is_field_name(name),
    ensures
        placeholder(name) == Ok::<PlaceholderModel, Seq<char>>(
            PlaceholderModel { field: Field::named(name)->0, format: None },
        ),
        Field::named(name)->0.has_value(metadata) <==> told(metadata, name) is Some,
        told(metadata, name) is Some ==> told(metadata, name)->0 == trim(
            Field::named(name)->0.value(metadata)->0,
        ),
{
    names_are_plain(name);
    assert(name.take(name.len() as int) =~= name);
    names_differ();
}

/// Text without placeholders and optional sections stands for itself.
pub proof fn plain_text_stands_for_itself(
    text: Seq<char>,
    metadata: MetadataModel,
    optional: bool,
)
    requires
        is_literal(text),
    ensures
        template_text(text, metadata, optional) == Ok::<Rendered, Seq<char>>(
            Rendered { text, warnings: Seq::empty() },
        ),
{
    let marks = |c: char| c == '[' || c == '{';
    assert forall|i: int| 0 <= i < text.len() implies !marks(text[i]) by {
        assert(text[i] != '[' && text[i] != '{');
    }
    first_position(text, marks, text.len() as int);
}

proof fn placeholder_behind(
    before: Seq<char>,
    input: Seq<char>,
    after: Seq<char>,
    metadata: MetadataModel,
    optional: bool,
)
    requires
        is_literal(before),
        forall|i: int| 0 <= i < input.len() ==> #[trigger] input[i] != '}',
    ensures
        template_text(before + seq!['{'] + input + seq!['}'] + after, metadata, optional)
            == match placeholder_text(input, metadata, optional) {
            Err(message) => Err(message),
            Ok(shown) => followed_by(
                before + shown.text,
                shown.warnings,
                template_text(after, metadata, optional),
            ),
        },
{
    let template = before + seq!['{'] + input + seq!['}'] + after;
    let marks = |c: char| c == '[' || c == '{';
    let close = |c: char| c == '}';
    let n = before.len() as int;
    assert(template[n] == '{');
    assert forall|i: int| 0 <= i < n implies !marks(template[i]) by {
        assert(template[i] == before[i]);
    }
    first_position(template, marks, n);
    let tail = template.skip(n);
    assert(tail[0] == '{');
    let end = input.len() as int + 1;
    assert(tail[end] == '}');
    assert forall|i: int| 0 <= i < end implies !close(tail[i]) by {
        if i > 0 {
            assert(tail[i] == input[i - 1]);
        }
    }
    first_position(tail, close, end);
    assert(tail.subrange(1, end) =~= input);
    assert(tail.skip(end + 1) =~= after);
    assert(template.take(n) =~= before);
    let rest = template_text(after, metadata, optional);
    let shown = placeholder_text(input, metadata, optional);
    if shown is Ok && rest is Ok {
        let (v, r) = (shown->Ok_0, rest->Ok_0);
        assert(before + (v.text + r.text) =~= before + v.text + r.text);
        assert(Seq::<Seq<char>>::empty() + (v.warnings + r.warnings) =~= v.warnings + r.warnings);
    }
}

/// A name in braces stands for what the book says under it, made a segment; what
/// stands before it is kept, and what follows is rendered by itself.
pub proof fn names_stand_for_what_a_book_says(
    before: Seq<char>,
    name: Seq<char>,
    after: Seq<char>,
    metadata: MetadataModel,
    optional: bool,
)
    requires
        is_literal(before),
        is_field_name(name),
        told(metadata, name) is Some,
    ensures
        template_text(before + seq!['{'] + name + seq!['}'] + after, metadata, optional)
            == followed_by(
            before + segment(told(metadata, name)->0),
            Seq::empty(),
            template_text(after, metadata, optional),
        ),
{
    names_are_plain(name);
    names_tell(name, metadata);
    placeholder_behind(before, name, after, metadata, optional);
}

/// Where a book names no title, "Unknown Title" stands for it, and "Unknown Author"
/// for its author or its authors, with a warning each.
pub proof fn unknown_titles_and_authors_are_named_so(
    before: Seq<char>,
    name: Seq<char>,
    after: Seq<char>,
    metadata: MetadataModel,
)
    requires
        is_literal(before),
        name == "title"@ || name == "author"@ || name == "authors"@,
        told(metadata, name) is None,
    ensures
        template_text(before + seq!['{'] + name + seq!['}'] + after, metadata, false)
            == followed_by(
            before + (if name == "title"@ {
                "Unknown Title"@
            } else {
                "Unknown Author"@
            }),
            seq![
                if name == "title"@ {
                    "missing title; using fallback Unknown Title"@
                } else if name == "author"@ {
                    "missing author; using fallback Unknown Author"@
                } else {
                    "missing authors; using fallback Unknown Author"@
                },
            ],
            template_text(after, metadata, false),
        ),
{
    names_are_plain(name);
    names_tell(name, metadata);
    placeholder_behind(before, name, after, metadata, false);
    fallbacks_are_fit();
    reveal_strlit("missing ");
    reveal_strlit("title");
    reveal_strlit("author");
    reveal_strlit("authors");
    reveal_strlit("; using fallback ");
    reveal_strlit("Unknown Title");
    reveal_strlit("Unknown Author");
    reveal_strlit("missing title; using fallback Unknown Title");
    reveal_strlit("missing author; using fallback Unknown Author");
    reveal_strlit("missing authors; using fallback Unknown Author");
    assert("missing "@ + "title"@ + "; using fallback "@ + "Unknown Title"@
        =~= "missing title; using fallback Unknown Title"@);
    assert("missing "@ + "author"@ + "; using fallback "@ + "Unknown Author"@
        =~= "missing author; using fallback Unknown Author"@);
    assert("missing "@ + "authors"@ + "; using fallback "@ + "Unknown Author"@
        =~= "missing authors; using fallback Unknown Author"@);
    let shown = placeholder_text(name, metadata, false)->Ok_0;
    assert(shown.warnings.len() == 1);
}

proof fn fallbacks_are_fit()
    ensures
        segment("Unknown Title"@) == "Unknown Title"@,
        segment("Unknown Author"@) == "Unknown Author"@,
{
    reveal_strlit("Unknown Title");
    reveal_strlit("Unknown Author");
    let (a, b) = ("Unknown Title"@, "Unknown Author"@);
    assert(is_scrubbed(a));
    assert(is_scrubbed(b));
    scrubbing_scrubbed(a);
    scrubbing_scrubbed(b);
    trim_keeps(a, |c: char| is_space(c));
    trim_keeps(b, |c: char| is_space(c));
    trim_keeps(a, |c: char| is_edge(c));
    trim_keeps(b, |c: char| is_edge(c));
    no_dots(a);
    no_dots(b);
    letters_of_device_names();
}

proof fn no_dots(s: Seq<char>)
    requires
        s == "Unknown Title"@ || s == "Unknown Author"@,
    ensures
        position(s, |c: char| c == '.', 0) == s.len(),
        s.take(s.len() as int) == s,
        s.len() > 4,
{
    reveal_strlit("Unknown Title");
    reveal_strlit("Unknown Author");
    assert(position(s, |c: char| c == '.', 0) == s.len()) by {
        reveal_with_fuel(position, 16);
    }
    assert(s.take(s.len() as int) =~= s);
}

/// Where a book has no identifier, nothing stands for it, with a warning; any other
/// field that a template needs and a book lacks is an error.
pub proof fn other_fields_are_needed(
    before: Seq<char>,
    name: Seq<char>,
    after: Seq<char>,
    metadata: MetadataModel,
)
    requires
        is_literal(before),
        is_field_name(name),
        name != "title"@ && name != "author"@ && name != "authors"@,
        told(metadata, name) is None,
    ensures
        ({
            let template = before + seq!['{'] + name + seq!['}'] + after;
            template_text(template, metadata, false) == if name == "identifier"@ {
                followed_by(
                    before,
                    seq!["missing identifier; rendering empty string"@],
                    template_text(after, metadata, false),
                )
            } else {
                Err(
                    "missing required metadata field "@ + name + " for Output Path Template"@,
                )
            }
        }),
{
    names_are_plain(name);
    names_tell(name, metadata);
    names_differ();
    placeholder_behind(before, name, after, metadata, false);
    assert(before + Seq::<char>::empty() =~= before);
}

/// A series index of digits behind as many zeros as there are is shown with two
/// digits at least, and with no more zeros than that takes.
pub proof fn series_indexes_have_two_digits(
    before: Seq<char>,
    after: Seq<char>,
    metadata: MetadataModel,
    optional: bool,
    zeros: Seq<char>,
    digits: Seq<char>,
)
    requires
        is_literal(before),
        told(metadata, "series_index"@) == Some(zeros + digits),
        forall|i: int| 0 <= i < zeros.len() ==> #[trigger] zeros[i] == '0',
        forall|i: int| 0 <= i < digits.len() ==> '0' <= #[trigger] digits[i] <= '9',
        digits.len() > 0 ==> digits[0] != '0',
        digits.len() <= 180,
    ensures
        template_text(before + "{series_index:02}"@ + after, metadata, optional) == followed_by(
            before + (if digits.len() == 0 {
                "00"@
            } else if digits.len() == 1 {
                seq!['0', digits[0]]
            } else {
                digits
            }),
            Seq::empty(),
            template_text(after, metadata, optional),
        ),
{
    padded_placeholder(metadata);
    let input = "series_index:02"@;
    let value = zeros + digits;
    placeholder_behind(before, input, after, metadata, optional);
    reveal_strlit("{series_index:02}");
    reveal_strlit("series_index:02");
    assert(seq!['{'] + input + seq!['}'] =~= "{series_index:02}"@);
    assert(before + "{series_index:02}"@ + after =~= before + seq!['{'] + input + seq!['}']
        + after);
    assert(all_digits(value)) by {
        assert forall|i: int| 0 <= i < value.len() implies is_digit(#[trigger] value[i]) by {
            if i < zeros.len() {
                assert(value[i] == zeros[i]);
            } else {
                assert(value[i] == digits[i - zeros.len()]);
            }
        }
    }
    reveal_strlit("0");
    reveal_strlit("00");
    let zero = |c: char| c == '0';
    assert forall|i: int| 0 <= i < zeros.len() implies zero(value[i]) by {
        assert(value[i] == zeros[i]);
    }
    if digits.len() > 0 {
        assert(value[zeros.len() as int] == digits[0]);
    }
    trim_start_skips(value, zero, zeros.len() as int);
    assert(value.skip(zeros.len() as int) =~= digits);
    let shown = if digits.len() == 0 {
        "00"@
    } else if digits.len() == 1 {
        seq!['0', digits[0]]
    } else {
        digits
    };
    assert(padded(value) =~= shown);
    assert forall|i: int| 0 <= i < shown.len() implies '0' <= #[trigger] shown[i] <= '9' by {
        if digits.len() > 1 {
            assert(shown[i] == digits[i]);
        }
    }
    numbers_are_kept(shown);
}

proof fn padded_placeholder(metadata: MetadataModel)
    ensures
        placeholder("series_index:02"@) == Ok::<PlaceholderModel, Seq<char>>(
            PlaceholderModel { field: Field::SeriesIndex, format: Some("02"@) },
        ),
        Field::SeriesIndex.has_value(metadata) <==> told(metadata, "series_index"@) is Some,
        told(metadata, "series_index"@) is Some ==> told(metadata, "series_index"@)->0 == trim(
            metadata.series_index->0,
        ),
        forall|i: int|
            0 <= i < "series_index:02"@.len() ==> #[trigger] "series_index:02"@[i] != '}'
                && "series_index:02"@[i] != '{',
{
    reveal_strlit("series_index:02");
    reveal_strlit("series_index");
    reveal_strlit("02");
    let input = "series_index:02"@;
    names_tell("series_index"@, metadata);
    names_differ();
    assert(Field::named("series_index"@) == Some(Field::SeriesIndex));
    assert(position(input, |c: char| c == ':', 0) == 12) by {
        reveal_with_fuel(position, 15);
    }
    assert(input.take(12) =~= "series_index"@);
    assert(input.skip(13) =~= "02"@);
    let odd = |c: char| c == '}' || c == '{';
    assert(position(input, odd, 0) == input.len()) by {
        reveal_with_fuel(position, 17);
    }
    position_bounds(input, odd, 0);
    assert forall|i: int| 0 <= i < input.len() implies #[trigger] input[i] != '}' && input[i]
        != '{' by {
        assert(!odd(input[i]));
    }
}

proof fn numbers_are_kept(s: Seq<char>)
    requires
        1 < s.len() <= 180,
        forall|i: int| 0 <= i < s.len() ==> '0' <= #[trigger] s[i] <= '9',
    ensures
        is_fit(s),
        segment(s) == s,
{
    letters_of_device_names();
    assert(!is_device_name(s)) by {
        if is_device_name(s) {
            device_names_are_reserved(s);
            position_bounds(s, |c: char| c == '.', 0);
            let base = upper_all(s.take(position(s, |c: char| c == '.', 0)));
            if base.len() > 0 {
                assert('0' <= s[0] <= '9');
                assert(base[0] == s[0]);
                assert(base.take(3).len() >= 1 ==> base.take(3)[0] == s[0]);
            }
            assert('A' <= "CON"@[0] <= 'Z');
            assert('A' <= "PRN"@[0] <= 'Z');
            assert('A' <= "AUX"@[0] <= 'Z');
            assert('A' <= "NUL"@[0] <= 'Z');
            assert('A' <= "COM"@[0] <= 'Z');
            assert('A' <= "LPT"@[0] <= 'Z');
        }
    }
    assert('0' <= s[0] <= '9');
    assert('0' <= s[s.len() - 1] <= '9');
    assert(is_fit(s));
    safe_texts_are_kept(s);
}

/// A series index that does not consist of digits is shown as it is, with a
/// warning.
pub proof fn other_series_indexes_are_left_alone(
    before: Seq<char>,
    after: Seq<char>,
    metadata: MetadataModel,
    optional: bool,
)
    requires
        is_literal(before),
        told(metadata, "series_index"@) is Some,
        exists|i: int|
            0 <= i < told(metadata, "series_index"@)->0.len() && !('0' <= #[trigger] told(
                metadata,
                "series_index"@,
            )->0[i] <= '9'),
    ensures
        template_text(before + "{series_index:02}"@ + after, metadata, optional) == followed_by(
            before + segment(told(metadata, "series_index"@)->0),
            seq![
                "series_index value "@ + debug_form(told(metadata, "series_index"@)->0)
                    + " is not integer-looking; leaving unpadded"@,
            ],
            template_text(after, metadata, optional),
        ),
{
    padded_placeholder(metadata);
    let input = "series_index:02"@;
    let value = told(metadata, "series_index"@)->0;
    placeholder_behind(before, input, after, metadata, optional);
    reveal_strlit("{series_index:02}");
    reveal_strlit("series_index:02");
    assert(seq!['{'] + input + seq!['}'] =~= "{series_index:02}"@);
    assert(before + "{series_index:02}"@ + after =~= before + seq!['{'] + input + seq!['}']
        + after);
    let i = choose|i: int| 0 <= i < value.len() && !('0' <= #[trigger] value[i] <= '9');
    assert(!is_digit(value[i]));
    assert(!all_digits(value));
}

/// A template that asks for a field that does not exist has no text, and neither has
/// one that asks for a format other than "02" of a series index, where the book says
/// something under the name.
pub proof fn unknown_fields_and_formats_are_errors(
    before: Seq<char>,
    name: Seq<char>,
    format: Seq<char>,
    after: Seq<char>,
    metadata: MetadataModel,
    optional: bool,
)
    requires
        is_literal(before),
        forall|i: int| 0 <= i < name.len() ==> #[trigger] name[i] != ':' && name[i] != '}',
        forall|i: int| 0 <= i < format.len() ==> #[trigger] format[i] != '}',
    ensures
        ({
            let plain = before + seq!['{'] + name + seq!['}'] + after;
            let with_format = before + seq!['{'] + (name + seq![':'] + format) + seq!['}'] + after;
            let unknown = "unsupported metadata field "@ + debug_form(name)
                + " in Output Path Template"@;
            &&& !is_field_name(name) ==> template_text(plain, metadata, optional) == Err::<
                Rendered,
                Seq<char>,
            >(unknown)
            &&& !is_field_name(name) ==> template_text(with_format, metadata, optional) == Err::<
                Rendered,
                Seq<char>,
            >(unknown)
            &&& told(metadata, name) is Some && !(name == "series_index"@ && format == "02"@)
                ==> template_text(with_format, metadata, optional) == Err::<Rendered, Seq<char>>(
                "unsupported placeholder format :"@ + format + " for "@ + name,
            )
        }),
{
    let colon = |c: char| c == ':';
    let input = name + seq![':'] + format;
    assert forall|i: int| 0 <= i < input.len() implies #[trigger] input[i] != '}' by {
        if i < name.len() {
            assert(input[i] == name[i]);
        } else if i > name.len() {
            assert(input[i] == format[i - name.len() - 1]);
        }
    }
    placeholder_behind(before, name, after, metadata, optional);
    placeholder_behind(before, input, after, metadata, optional);
    assert forall|i: int| 0 <= i < name.len() implies !colon(name[i]) && !colon(input[i]) by {
        assert(name[i] != ':');
        assert(input[i] == name[i]);
    }
    first_position(name, colon, name.len() as int);
    assert(input[name.len() as int] == ':');
    first_position(input, colon, name.len() as int);
    assert(name.take(name.len() as int) =~= name);
    assert(input.take(name.len() as int) =~= name);
    assert(input.skip(name.len() as int + 1) =~= format);
    names_differ();
    if is_field_name(name) {
        names_tell(name, metadata);
        names_are_plain(name);
    }
}

/// A brace that does not close has no text, and neither has a bracket that does not.
pub proof fn unclosed_parts_are_errors(
    before: Seq<char>,
    after: Seq<char>,
    metadata: MetadataModel,
    optional: bool,
)
    requires
        is_literal(before),
    ensures
        (forall|i: int| 0 <= i < after.len() ==> #[trigger] after[i] != '}') ==> template_text(
            before + seq!['{'] + after,
            metadata,
            optional,
        ) == Err::<Rendered, Seq<char>>("unclosed placeholder in Output Path Template"@),
        (forall|i: int| 0 <= i < after.len() ==> #[trigger] after[i] != ']') ==> template_text(
            before + seq!['['] + after,
            metadata,
            optional,
        ) == Err::<Rendered, Seq<char>>("unclosed optional section in Output Path Template"@),
{
    let marks = |c: char| c == '[' || c == '{';
    let n = before.len() as int;
    let (a, b) = (before + seq!['{'] + after, before + seq!['['] + after);
    assert(a[n] == '{' && b[n] == '[');
    assert forall|i: int| 0 <= i < n implies !marks(a[i]) && !marks(b[i]) by {
        assert(a[i] == before[i] && b[i] == before[i]);
    }
    first_position(a, marks, n);
    first_position(b, marks, n);
    if forall|i: int| 0 <= i < after.len() ==> #[trigger] after[i] != '}' {
        let tail = a.skip(n);
        let close = |c: char| c == '}';
        assert forall|i: int| 0 <= i < tail.len() implies !close(tail[i]) by {
            if i > 0 {
                assert(tail[i] == after[i - 1]);
            }
        }
        assert(tail[0] == '{');
        first_position(tail, close, tail.len() as int);
    }
    if forall|i: int| 0 <= i < after.len() ==> #[trigger] after[i] != ']' {
        let tail = b.skip(n);
        assert forall|i: int| 0 <= i < tail.len() implies #[trigger] tail[i] != ']' by {
            if i > 0 {
                assert(tail[i] == after[i - 1]);
            }
        }
        assert(tail[0] == '[');
        never_closes(tail, 0, 0);
    }
}

proof fn never_closes(s: Seq<char>, from: int, depth: int)
    requires
        0 <= from <= s.len(),
        forall|i: int| 0 <= i < s.len() ==> #[trigger] s[i] != ']',
    ensures
        closing_bracket(s, from, depth) is None,
    decreases s.len() - from,
{
    if from < s.len() {
        assert(s[from] != ']');
        if s[from] == '[' {
            never_closes(s, from + 1, depth + 1);
        } else {
            never_closes(s, from + 1, depth);
        }
    }
}

proof fn closes_at(s: Seq<char>, from: int, end: int)
    requires
        0 <= from <= end < s.len(),
        forall|i: int| from <= i < end ==> #[trigger] s[i] != '[' && s[i] != ']',
        s[end] == ']',
    ensures
        closing_bracket(s, from, 1) == Some(end),
    decreases end - from,
{
    if from < end {
        assert(s[from] != '[' && s[from] != ']');
        closes_at(s, from + 1, end);
    }
}

/// Text in which no bracket stands.
pub open spec fn has_no_brackets(s: Seq<char>) -> bool {
    forall|i: int| 0 <= i < s.len() ==> #[trigger] s[i] != '[' && s[i] != ']'
}

proof fn section_behind(
    before: Seq<char>,
    section: Seq<char>,
    after: Seq<char>,
    metadata: MetadataModel,
    optional: bool,
)
    requires
        is_literal(before),
        has_no_brackets(section),
        section_fields(section) is Ok,
    ensures
        ({
            let template = before + seq!['['] + section + seq![']'] + after;
            let rest = template_text(after, metadata, optional);
            template_text(template, metadata, optional) == if shows(
                section_fields(section)->Ok_0,
                metadata,
            ) {
                match template_text(section, metadata, true) {
                    Err(message) => Err(message),
                    Ok(shown) => followed_by(before + shown.text, shown.warnings, rest),
                }
            } else {
                followed_by(before, Seq::empty(), rest)
            }
        }),
{
    let tail = seq!['['] + section + seq![']'] + after;
    let end = section.len() as int + 1;
    assert(tail[0] == '[');
    assert(tail[end] == ']');
    assert forall|i: int| 1 <= i < end implies #[trigger] tail[i] != '[' && tail[i] != ']' by {
        assert(tail[i] == section[i - 1]);
    }
    closes_at(tail, 1, end);
    assert(closing_bracket(tail, 0, 0) == Some(end));
    closed_section_behind(before, section, after, metadata, optional);
}

proof fn closed_section_behind(
    before: Seq<char>,
    section: Seq<char>,
    after: Seq<char>,
    metadata: MetadataModel,
    optional: bool,
)
    requires
        is_literal(before),
        closing_bracket(seq!['['] + section + seq![']'] + after, 0, 0) == Some(
            section.len() as int + 1,
        ),
        section_fields(section) is Ok,
    ensures
        ({
            let template = before + seq!['['] + section + seq![']'] + after;
            let rest = template_text(after, metadata, optional);
            template_text(template, metadata, optional) == if shows(
                section_fields(section)->Ok_0,
                metadata,
            ) {
                match template_text(section, metadata, true) {
                    Err(message) => Err(message),
                    Ok(shown) => followed_by(before + shown.text, shown.warnings, rest),
                }
            } else {
                followed_by(before, Seq::empty(), rest)
            }
        }),
{
    let template = before + seq!['['] + section + seq![']'] + after;
    let marks = |c: char| c == '[' || c == '{';
    let n = before.len() as int;
    assert(template[n] == '[');
    assert forall|i: int| 0 <= i < n implies !marks(template[i]) by {
        assert(template[i] == before[i]);
    }
    first_position(template, marks, n);
    let tail = template.skip(n);
    assert(tail =~= seq!['['] + section + seq![']'] + after);
    let end = section.len() as int + 1;
    assert(tail.subrange(1, end) =~= section);
    assert(tail.skip(end + 1) =~= after);
    assert(template.take(n) =~= before);
    let rest = template_text(after, metadata, optional);
    let shown = template_text(section, metadata, true);
    if rest is Ok {
        let r = rest->Ok_0;
        assert(Seq::<Seq<char>>::empty() + r.warnings =~= r.warnings);
        if shown is Ok {
            let v = shown->Ok_0;
            assert(before + (v.text + r.text) =~= before + v.text + r.text);
            assert(Seq::<Seq<char>>::empty() + (v.warnings + r.warnings) =~= v.warnings
                + r.warnings);
        }
    }
}

proof fn fields_behind(before: Seq<char>, input: Seq<char>, after: Seq<char>)
    requires
        forall|i: int| 0 <= i < before.len() ==> #[trigger] before[i] != '{',
        forall|i: int| 0 <= i < input.len() ==> #[trigger] input[i] != '}',
        placeholder(input) is Ok,
        section_fields(after) is Ok,
    ensures
        section_fields(before + seq!['{'] + input + seq!['}'] + after) == Ok::<
            Seq<Field>,
            Seq<char>,
        >(seq![placeholder(input)->Ok_0.field] + section_fields(after)->Ok_0),
{
    let section = before + seq!['{'] + input + seq!['}'] + after;
    let open = |c: char| c == '{';
    let close = |c: char| c == '}';
    let n = before.len() as int;
    assert(section[n] == '{');
    assert forall|i: int| 0 <= i < n implies !open(section[i]) by {
        assert(section[i] == before[i]);
    }
    first_position(section, open, n);
    let tail = section.skip(n);
    let end = input.len() as int + 1;
    assert(tail[0] == '{');
    assert(tail[end] == '}');
    assert forall|i: int| 0 <= i < end implies !close(tail[i]) by {
        if i > 0 {
            assert(tail[i] == input[i - 1]);
        }
    }
    first_position(tail, close, end);
    assert(tail.subrange(1, end) =~= input);
    assert(tail.skip(end + 1) =~= after);
}

proof fn no_fields_in(text: Seq<char>)
    requires
        is_literal(text),
    ensures
        section_fields(text) == Ok::<Seq<Field>, Seq<char>>(Seq::empty()),
{
    let open = |c: char| c == '{';
    assert forall|i: int| 0 <= i < text.len() implies !open(text[i]) by {
        assert(text[i] != '{');
    }
    first_position(text, open, text.len() as int);
}

/// An optional section without a placeholder is left out. What stands before it is
/// kept, and what follows is rendered by itself.
pub proof fn sections_without_placeholders_are_left_out(
    before: Seq<char>,
    section: Seq<char>,
    after: Seq<char>,
    metadata: MetadataModel,
    optional: bool,
)
    requires
        is_literal(before),
        is_literal(section),
        has_no_brackets(section),
    ensures
        template_text(before + seq!['['] + section + seq![']'] + after, metadata, optional)
            == followed_by(before, Seq::empty(), template_text(after, metadata, optional)),
{
    no_fields_in(section);
    section_behind(before, section, after, metadata, optional);
}

/// An optional section with one name shows where the book says something under it:
/// its own text with what the book says in the name's place. It is left out
/// otherwise, with no warning and no fallback.
pub proof fn sections_show_what_a_book_says(
    before: Seq<char>,
    a: Seq<char>,
    name: Seq<char>,
    b: Seq<char>,
    after: Seq<char>,
    metadata: MetadataModel,
    optional: bool,
)
    requires
        is_literal(before),
        is_literal(a),
        is_literal(b),
        has_no_brackets(a),
        has_no_brackets(b),
        is_field_name(name),
    ensures
        ({
            let section = a + seq!['{'] + name + seq!['}'] + b;
            let template = before + seq!['['] + section + seq![']'] + after;
            let rest = template_text(after, metadata, optional);
            template_text(template, metadata, optional) == if told(metadata, name) is Some {
                followed_by(
                    before + (a + segment(told(metadata, name)->0) + b),
                    Seq::empty(),
                    rest,
                )
            } else {
                followed_by(before, Seq::empty(), rest)
            }
        }),
{
    let section = a + seq!['{'] + name + seq!['}'] + b;
    names_are_plain(name);
    names_tell(name, metadata);
    no_fields_in(b);
    fields_behind(a, name, b);
    let field = Field::named(name)->0;
    let fields = section_fields(section)->Ok_0;
    assert(fields =~= seq![field]);
    if told(metadata, name) is Some {
        names_stand_for_what_a_book_says(a, name, b, metadata, true);
        plain_text_stands_for_itself(b, metadata, true);
    } else {
        assert(!fields[0].has_value(metadata));
    }
    parts_have_no_brackets(a, name, b);
    section_behind(before, section, after, metadata, optional);
    let none = Seq::<Seq<char>>::empty();
    assert(none + none =~= none);
}

proof fn parts_have_no_brackets(a: Seq<char>, input: Seq<char>, b: Seq<char>)
    requires
        has_no_brackets(a),
        has_no_brackets(input),
        has_no_brackets(b),
    ensures
        has_no_brackets(a + seq!['{'] + input + seq!['}'] + b),
{
    let section = a + seq!['{'] + input + seq!['}'] + b;
    assert forall|i: int| 0 <= i < section.len() implies #[trigger] section[i] != '[' && section[i]
        != ']' by {
        if i < a.len() {
            assert(section[i] == a[i]);
        } else if i == a.len() {
            assert(section[i] == '{');
        } else if i <= a.len() + input.len() {
            assert(section[i] == input[i - a.len() - 1]);
        } else if i == a.len() + input.len() + 1 {
            assert(section[i] == '}');
        } else {
            assert(section[i] == b[i - a.len() - input.len() - 2]);
        }
    }
}

/// An optional section with two names shows where the book says something under
/// both, and is left out where it lacks one of them.
pub proof fn sections_need_all_of_their_names(
    before: Seq<char>,
    a: Seq<char>,
    first: Seq<char>,
    b: Seq<char>,
    second: Seq<char>,
    c: Seq<char>,
    after: Seq<char>,
    metadata: MetadataModel,
    optional: bool,
)
    requires
        is_literal(before),
        is_literal(a),
        is_literal(b),
        is_literal(c),
        has_no_brackets(a),
        has_no_brackets(b),
        has_no_brackets(c),
        is_field_name(first),
        is_field_name(second),
    ensures
        ({
            let inner = b + seq!['{'] + second + seq!['}'] + c;
            let section = a + seq!['{'] + first + seq!['}'] + inner;
            let template = before + seq!['['] + section + seq![']'] + after;
            let rest = template_text(after, metadata, optional);
            template_text(template, metadata, optional) == if told(metadata, first) is Some && told(
                metadata,
                second,
            ) is Some {
                followed_by(
                    before + (a + segment(told(metadata, first)->0) + (b + segment(
                        told(metadata, second)->0,
                    ) + c)),
                    Seq::empty(),
                    rest,
                )
            } else {
                followed_by(before, Seq::empty(), rest)
            }
        }),
{
    let inner = b + seq!['{'] + second + seq!['}'] + c;
    let section = a + seq!['{'] + first + seq!['}'] + inner;
    names_are_plain(first);
    names_are_plain(second);
    names_tell(first, metadata);
    names_tell(second, metadata);
    no_fields_in(c);
    fields_behind(b, second, c);
    fields_behind(a, first, inner);
    let fields = section_fields(section)->Ok_0;
    assert(fields =~= seq![Field::named(first)->0, Field::named(second)->0]);
    let none = Seq::<Seq<char>>::empty();
    assert(none + none =~= none);
    if told(metadata, first) is Some && told(metadata, second) is Some {
        names_stand_for_what_a_book_says(b, second, c, metadata, true);
        plain_text_stands_for_itself(c, metadata, true);
        names_stand_for_what_a_book_says(a, first, inner, metadata, true);
        assert(shows(fields, metadata));
    } else {
        assert(!fields[0].has_value(metadata) || !fields[1].has_value(metadata));
    }
    parts_have_no_brackets(b, second, c);
    parts_have_no_brackets(a, first, inner);
    section_behind(before, section, after, metadata, optional);
}

proof fn split_behind(a: Seq<char>, separator: char, b: Seq<char>)
    requires
        separator == '/' || separator == '\\',
        forall|i: int| 0 <= i < a.len() ==> #[trigger] a[i] != '/' && a[i] != '\\',
    ensures
        segments(a + seq![separator] + b) == seq![segment(a)] + segments(b),
{
    let whole = a + seq![separator] + b;
    let f = |c: char| is_separator(c);
    assert(whole[a.len() as int] == separator);
    assert forall|i: int| 0 <= i < a.len() implies !f(whole[i]) by {
        assert(whole[i] == a[i]);
    }
    first_position(whole, f, a.len() as int);
    assert(whole.take(a.len() as int) =~= a);
    assert(whole.skip(a.len() as int + 1) =~= b);
    assert(split(whole, f) == seq![a] + split(b, f));
    assert(segments(whole) =~= seq![segment(a)] + segments(b));
}

proof fn split_of_one(a: Seq<char>)
    requires
        forall|i: int| 0 <= i < a.len() ==> #[trigger] a[i] != '/' && a[i] != '\\',
    ensures
        segments(a) == seq![segment(a)],
{
    let f = |c: char| is_separator(c);
    assert forall|i: int| 0 <= i < a.len() implies !f(a[i]) by {
        assert(a[i] != '/' && a[i] != '\\');
    }
    first_position(a, f, a.len() as int);
    assert(segments(a) =~= seq![segment(a)]);
}

/// What a template stands for is parted into folders and a file at each slash, of
/// either kind; each part is made a segment, and slashes stand between them.
pub proof fn slashes_part_segments(
    a: Seq<char>,
    separator: char,
    b: Seq<char>,
    metadata: MetadataModel,
)
    requires
        is_literal(a),
        is_literal(b),
        separator == '/' || separator == '\\',
        forall|i: int| 0 <= i < a.len() ==> #[trigger] a[i] != '/' && a[i] != '\\',
        forall|i: int| 0 <= i < b.len() ==> #[trigger] b[i] != '/' && b[i] != '\\',
    ensures
        output_path(a, metadata) == Ok::<Rendered, Seq<char>>(
            Rendered { text: segment(a), warnings: Seq::empty() },
        ),
        output_path(a + seq![separator] + b, metadata) == Ok::<Rendered, Seq<char>>(
            Rendered { text: segment(a) + seq!['/'] + segment(b), warnings: Seq::empty() },
        ),
{
    let whole = a + seq![separator] + b;
    assert forall|i: int| 0 <= i < whole.len() implies #[trigger] whole[i] != '[' && whole[i]
        != '{' by {
        if i < a.len() {
            assert(whole[i] == a[i]);
        } else if i > a.len() {
            assert(whole[i] == b[i - a.len() - 1]);
        }
    }
    plain_text_stands_for_itself(a, metadata, false);
    plain_text_stands_for_itself(whole, metadata, false);
    split_of_one(a);
    split_of_one(b);
    split_behind(a, separator, b);
    reveal_strlit("/");
    assert("/"@ =~= seq!['/']);
    let parts = seq![segment(a)] + seq![segment(b)];
    assert(parts.drop_last() =~= seq![segment(a)]);
    assert(join(parts.drop_last(), "/"@) == segment(a));
}

proof fn files_are_fit(t: Seq<char>)
    requires
        is_fit(t),
    ensures
        is_fit(t + ".epub"@),
{
    reveal_strlit(".epub");
    let file = t + ".epub"@;
    let n = t.len() as int;
    assert(file[n] == '.' && file[n + 1] == 'e' && file[n + 2] == 'p' && file[n + 3] == 'u'
        && file[n + 4] == 'b');
    assert forall|i: int| 0 <= i < file.len() implies {
        let c = #[trigger] file[i];
        &&& 0x20 <= c as u32 && !(0x7f <= c as u32 <= 0x9f)
        &&& c != '/' && c != '\\' && c != '<' && c != '>' && c != ':' && c != '"' && c != '|' && c
            != '?' && c != '*'
        &&& is_space(c) ==> c == ' '
    } by {
        if i < n {
            assert(file[i] == t[i]);
        } else {
            assert(i == n || i == n + 1 || i == n + 2 || i == n + 3 || i == n + 4);
        }
    }
    assert forall|i: int, j: int| 0 <= i && j == i + 1 && j < file.len() implies !(
    #[trigger] file[i] == ' ' && #[trigger] file[j] == ' ') by {
        if j < n {
            assert(file[i] == t[i] && file[j] == t[j]);
        } else {
            assert(j == n || j == n + 1 || j == n + 2 || j == n + 3 || j == n + 4);
        }
    }
    device_names_are_reserved(t);
    device_names_are_reserved(file);
    let dot = |c: char| c == '.';
    position_bounds(t, dot, 0);
    let at = position(t, dot, 0);
    assert forall|i: int| 0 <= i < at implies !dot(file[i]) by {
        assert(file[i] == t[i]);
    }
    assert(file[at] == '.') by {
        if at < n {
            assert(file[at] == t[at]);
        }
    }
    first_position(file, dot, at);
    assert(file.take(at) =~= t.take(at));
    assert(file[0] == t[0]);
}

proof fn numbered_files_are_fit(number: Seq<char>, t: Seq<char>)
    requires
        number.len() > 1,
        forall|i: int| 0 <= i < number.len() ==> '0' <= #[trigger] number[i] <= '9',
        is_fit(t),
    ensures
        is_fit(number + seq![' '] + (t + ".epub"@)),
{
    files_are_fit(t);
    let title = t + ".epub"@;
    let file = number + seq![' '] + title;
    let n = number.len() as int;
    assert(file[n] == ' ');
    assert forall|i: int| 0 <= i < file.len() implies {
        let c = #[trigger] file[i];
        &&& 0x20 <= c as u32 && !(0x7f <= c as u32 <= 0x9f)
        &&& c != '/' && c != '\\' && c != '<' && c != '>' && c != ':' && c != '"' && c != '|' && c
            != '?' && c != '*'
        &&& is_space(c) ==> c == ' '
    } by {
        if i < n {
            assert(file[i] == number[i]);
        } else if i > n {
            assert(file[i] == title[i - n - 1]);
        }
    }
    assert forall|i: int, j: int| 0 <= i && j == i + 1 && j < file.len() implies !(
    #[trigger] file[i] == ' ' && #[trigger] file[j] == ' ') by {
        if i < n {
            assert(file[i] == number[i]);
        } else if i == n {
            assert(file[j] == title[0]);
        } else {
            assert(file[i] == title[i - n - 1] && file[j] == title[j - n - 1]);
        }
    }
    assert(file[0] == number[0]);
    assert('0' <= number[0] <= '9');
    assert(file[file.len() - 1] == title[title.len() - 1]);
    device_names_are_reserved(file);
    letters_of_device_names();
    position_bounds(file, |c: char| c == '.', 0);
    let base = upper_all(file.take(position(file, |c: char| c == '.', 0)));
    if base.len() > 0 {
        assert(base[0] == file[0]);
        assert(base.take(3).len() >= 1 ==> base.take(3)[0] == file[0]);
    }
    assert('A' <= "CON"@[0] <= 'Z');
    assert('A' <= "PRN"@[0] <= 'Z');
    assert('A' <= "AUX"@[0] <= 'Z');
    assert('A' <= "NUL"@[0] <= 'Z');
    assert('A' <= "COM"@[0] <= 'Z');
    assert('A' <= "LPT"@[0] <= 'Z');
    assert(!is_reserved(file));
}

proof fn title_part_renders(metadata: MetadataModel)
    requires
        told(metadata, "title"@) is Some,
    ensures
        template_text("{title}.epub"@, metadata, false) == Ok::<Rendered, Seq<char>>(
            Rendered {
                text: segment(told(metadata, "title"@)->0) + ".epub"@,
                warnings: Seq::empty(),
            },
        ),
{
    reveal_strlit("{title}.epub");
    reveal_strlit("title");
    reveal_strlit(".epub");
    let none = Seq::<char>::empty();
    assert("{title}.epub"@ =~= none + seq!['{'] + "title"@ + seq!['}'] + ".epub"@);
    names_stand_for_what_a_book_says(none, "title"@, ".epub"@, metadata, false);
    plain_text_stands_for_itself(".epub"@, metadata, false);
    let title = segment(told(metadata, "title"@)->0);
    assert(none + title =~= title);
    let quiet = Seq::<Seq<char>>::empty();
    assert(quiet + quiet =~= quiet);
}

proof fn series_part_shows(metadata: MetadataModel, zeros: Seq<char>, digits: Seq<char>)
    requires
        told(metadata, "series"@) is Some,
        told(metadata, "series_index"@) == Some(zeros + digits),
        forall|i: int| 0 <= i < zeros.len() ==> #[trigger] zeros[i] == '0',
        forall|i: int| 0 <= i < digits.len() ==> '0' <= #[trigger] digits[i] <= '9',
        digits.len() > 0 ==> digits[0] != '0',
        digits.len() <= 180,
    ensures
        template_text("{series}/{series_index:02} "@, metadata, true) == Ok::<Rendered, Seq<char>>(
            Rendered {
                text: segment(told(metadata, "series"@)->0) + (seq!['/'] + (if digits.len() == 0 {
                    "00"@
                } else if digits.len() == 1 {
                    seq!['0', digits[0]]
                } else {
                    digits
                }) + seq![' ']),
                warnings: Seq::empty(),
            },
        ),
{
    reveal_strlit("{series}/{series_index:02} ");
    reveal_strlit("{series_index:02}");
    reveal_strlit("series");
    let none = Seq::<char>::empty();
    let quiet = Seq::<Seq<char>>::empty();
    let inner = seq!['/'] + "{series_index:02}"@ + seq![' '];
    assert("{series}/{series_index:02} "@ =~= none + seq!['{'] + "series"@ + seq!['}'] + inner);
    plain_text_stands_for_itself(seq![' '], metadata, true);
    series_indexes_have_two_digits(seq!['/'], seq![' '], metadata, true, zeros, digits);
    names_stand_for_what_a_book_says(none, "series"@, inner, metadata, true);
    let series = segment(told(metadata, "series"@)->0);
    assert(none + series =~= series);
    assert(quiet + quiet =~= quiet);
}

proof fn series_part_fields()
    ensures
        section_fields("{series}/{series_index:02} "@) == Ok::<Seq<Field>, Seq<char>>(
            seq![Field::Series, Field::SeriesIndex],
        ),
        has_no_brackets("{series}/{series_index:02} "@),
{
    reveal_strlit("{series}/{series_index:02} ");
    reveal_strlit("series");
    reveal_strlit("series_index:02");
    let none = Seq::<char>::empty();
    let input = "series_index:02"@;
    let inner = seq!['/'] + seq!['{'] + input + seq!['}'] + seq![' '];
    let section = "{series}/{series_index:02} "@;
    assert(section =~= none + seq!['{'] + "series"@ + seq!['}'] + inner);
    let metadata = MetadataModel {
        title: None,
        author: None,
        authors: None,
        author_sort: None,
        series: None,
        series_index: None,
        language: None,
        identifier: None,
    };
    padded_placeholder(metadata);
    names_differ();
    names_are_plain("series"@);
    names_tell("series"@, metadata);
    no_fields_in(seq![' ']);
    fields_behind(seq!['/'], input, seq![' ']);
    fields_behind(none, "series"@, inner);
    assert(section_fields(section)->Ok_0 =~= seq![Field::Series, Field::SeriesIndex]);
    let bracket = |c: char| c == '[' || c == ']';
    assert(position(section, bracket, 0) == section.len()) by {
        reveal_with_fuel(position, 29);
    }
    position_bounds(section, bracket, 0);
    assert forall|i: int| 0 <= i < section.len() implies #[trigger] section[i] != '[' && section[i]
        != ']' by {
        assert(!bracket(section[i]));
    }
}

proof fn default_template_parts()
    ensures
        "{author}/[{series}/{series_index:02} ]{title}.epub"@ == Seq::<char>::empty() + seq!['{']
            + "author"@ + seq!['}'] + (seq!['/'] + seq!['['] + "{series}/{series_index:02} "@ + seq![
            ']',
        ] + "{title}.epub"@),
{
    reveal_strlit("{author}/[{series}/{series_index:02} ]{title}.epub");
    reveal_strlit("author");
    reveal_strlit("{series}/{series_index:02} ");
    reveal_strlit("{title}.epub");
    assert("{author}/[{series}/{series_index:02} ]{title}.epub"@ =~= Seq::<char>::empty() + seq!['{']
        + "author"@ + seq!['}'] + (seq!['/'] + seq!['['] + "{series}/{series_index:02} "@ + seq![
        ']',
    ] + "{title}.epub"@));
}

/// A book of a series goes into a folder of its series in a folder of its author,
/// under its number and its title, where all of them are fit to be segments.
pub proof fn books_of_a_series_are_numbered(
    metadata: MetadataModel,
    author: Seq<char>,
    series: Seq<char>,
    zeros: Seq<char>,
    digits: Seq<char>,
    title: Seq<char>,
)
    requires
        told(metadata, "author"@) == Some(author),
        told(metadata, "series"@) == Some(series),
        told(metadata, "series_index"@) == Some(zeros + digits),
        told(metadata, "title"@) == Some(title),
        is_fit(author) && author.len() <= 180,
        is_fit(series) && series.len() <= 180,
        is_fit(title),
        forall|i: int| 0 <= i < zeros.len() ==> #[trigger] zeros[i] == '0',
        forall|i: int| 0 <= i < digits.len() ==> '0' <= #[trigger] digits[i] <= '9',
        digits.len() > 0 ==> digits[0] != '0',
        digits.len() + title.len() <= 172,
    ensures
        ({
            let number = if digits.len() == 0 {
                "00"@
            } else if digits.len() == 1 {
                seq!['0', digits[0]]
            } else {
                digits
            };
            output_path("{author}/[{series}/{series_index:02} ]{title}.epub"@, metadata) == Ok::<
                Rendered,
                Seq<char>,
            >(
                Rendered {
                    text: author + seq!['/'] + series + seq!['/'] + (number + seq![' '] + (title
                        + ".epub"@)),
                    warnings: Seq::empty(),
                },
            )
        }),
{
    let number = if digits.len() == 0 {
        "00"@
    } else if digits.len() == 1 {
        seq!['0', digits[0]]
    } else {
        digits
    };
    reveal_strlit("00");
    assert forall|i: int| 0 <= i < number.len() implies '0' <= #[trigger] number[i] <= '9' by {
        if digits.len() > 1 {
            assert(number[i] == digits[i]);
        }
    }
    let file = number + seq![' '] + (title + ".epub"@);
    safe_texts_are_kept(author);
    safe_texts_are_kept(series);
    safe_texts_are_kept(title);
    whole_template_shows(metadata, zeros, digits);
    let name = title + ".epub"@;
    assert(author + (seq!['/'] + (series + (seq!['/'] + number + seq![' '])) + name) =~= author
        + seq!['/'] + (series + seq!['/'] + file));
    assert(file.len() <= 180) by {
        reveal_strlit(".epub");
    }
    numbered_files_are_fit(number, title);
    three_levels(author, series, file);
}

proof fn whole_template_shows(metadata: MetadataModel, zeros: Seq<char>, digits: Seq<char>)
    requires
        told(metadata, "author"@) is Some,
        told(metadata, "series"@) is Some,
        told(metadata, "series_index"@) == Some(zeros + digits),
        told(metadata, "title"@) is Some,
        forall|i: int| 0 <= i < zeros.len() ==> #[trigger] zeros[i] == '0',
        forall|i: int| 0 <= i < digits.len() ==> '0' <= #[trigger] digits[i] <= '9',
        digits.len() > 0 ==> digits[0] != '0',
        digits.len() <= 180,
    ensures
        ({
            let number = if digits.len() == 0 {
                "00"@
            } else if digits.len() == 1 {
                seq!['0', digits[0]]
            } else {
                digits
            };
            template_text("{author}/[{series}/{series_index:02} ]{title}.epub"@, metadata, false)
                == Ok::<Rendered, Seq<char>>(
                Rendered {
                    text: segment(told(metadata, "author"@)->0) + (seq!['/'] + (segment(
                        told(metadata, "series"@)->0,
                    ) + (seq!['/'] + number + seq![' '])) + (segment(told(metadata, "title"@)->0)
                        + ".epub"@)),
                    warnings: Seq::empty(),
                },
            )
        }),
{
    let none = Seq::<char>::empty();
    let quiet = Seq::<Seq<char>>::empty();
    let section = "{series}/{series_index:02} "@;
    let rest = seq!['/'] + seq!['['] + section + seq![']'] + "{title}.epub"@;
    title_part_renders(metadata);
    series_part_shows(metadata, zeros, digits);
    series_part_fields();
    default_template_parts();
    names_differ();
    names_tell("series"@, metadata);
    padded_placeholder(metadata);
    let fields = seq![Field::Series, Field::SeriesIndex];
    assert(fields[0].has_value(metadata) && fields[1].has_value(metadata));
    section_behind(seq!['/'], section, "{title}.epub"@, metadata, false);
    names_stand_for_what_a_book_says(none, "author"@, rest, metadata, false);
    let author = segment(told(metadata, "author"@)->0);
    assert(none + author =~= author);
    assert(quiet + quiet =~= quiet);
}

proof fn three_levels(author: Seq<char>, series: Seq<char>, file: Seq<char>)
    requires
        is_fit(author) && author.len() <= 180,
        is_fit(series) && series.len() <= 180,
        is_fit(file) && file.len() <= 180,
    ensures
        join(segments(author + seq!['/'] + (series + seq!['/'] + file)), "/"@) == author + seq![
            '/',
        ] + series + seq!['/'] + file,
{
    safe_texts_are_kept(author);
    safe_texts_are_kept(series);
    safe_texts_are_kept(file);
    split_behind(author, '/', series + seq!['/'] + file);
    split_behind(series, '/', file);
    split_of_one(file);
    reveal_strlit("/");
    assert("/"@ =~= seq!['/']);
    let parts = seq![author] + (seq![series] + seq![file]);
    assert(parts.drop_last().drop_last() =~= seq![author]);
    assert(join(parts.drop_last().drop_last(), "/"@) == author);
    assert(join(parts.drop_last(), "/"@) == author + "/"@ + series);
    assert(join(parts, "/"@) == author + "/"@ + series + "/"@ + file);
}

/// A book without a series, or without a place in it, goes into the folder of its
/// author, under its title.
pub proof fn other_books_go_under_their_author(
    metadata: MetadataModel,
    author: Seq<char>,
    title: Seq<char>,
)
    requires
        told(metadata, "author"@) == Some(author),
        told(metadata, "title"@) == Some(title),
        told(metadata, "series"@) is None || told(metadata, "series_index"@) is None,
        is_fit(author) && author.len() <= 180,
        is_fit(title) && title.len() <= 175,
    ensures
        output_path("{author}/[{series}/{series_index:02} ]{title}.epub"@, metadata) == Ok::<
            Rendered,
            Seq<char>,
        >(
            Rendered {
                text: author + seq!['/'] + (title + ".epub"@),
                warnings: Seq::empty(),
            },
        ),
{
    reveal_strlit(".epub");
    let none = Seq::<char>::empty();
    let quiet = Seq::<Seq<char>>::empty();
    let section = "{series}/{series_index:02} "@;
    let rest = seq!['/'] + seq!['['] + section + seq![']'] + "{title}.epub"@;
    safe_texts_are_kept(author);
    safe_texts_are_kept(title);
    title_part_renders(metadata);
    series_part_fields();
    default_template_parts();
    names_differ();
    names_tell("series"@, metadata);
    padded_placeholder(metadata);
    let fields = seq![Field::Series, Field::SeriesIndex];
    assert(!fields[0].has_value(metadata) || !fields[1].has_value(metadata));
    section_behind(seq!['/'], section, "{title}.epub"@, metadata, false);
    names_stand_for_what_a_book_says(none, "author"@, rest, metadata, false);
    assert(none + author =~= author);
    assert(quiet + quiet =~= quiet);
    let file = title + ".epub"@;
    let rendered = author + seq!['/'] + file;
    assert(author + (seq!['/'] + file) =~= rendered);
    files_are_fit(title);
    safe_texts_are_kept(file);
    split_behind(author, '/', file);
    split_of_one(file);
    reveal_strlit("/");
    assert("/"@ =~= seq!['/']);
    let parts = seq![author] + seq![file];
    assert(segments(rendered) == parts);
    assert(parts.drop_last() =~= seq![author]);
    assert(join(parts.drop_last(), "/"@) == author);
}

/// A text that is fit to be a segment is not blank and has no white space at its
/// ends.
pub proof fn fit_texts_are_told(s: Seq<char>)
    requires
        is_fit(s),
    ensures
        trim(s) == s,
        !is_blank(s),
{
    trim_keeps(s, |c: char| is_space(c));
}


proof fn brackets_are_passed(s: Seq<char>, from: int, to: int, depth: int)
    requires
        0 <= from <= to <= s.len(),
        forall|i: int| from <= i < to ==> #[trigger] s[i] != '[' && s[i] != ']',
    ensures
        closing_bracket(s, from, depth) == closing_bracket(s, to, depth),
    decreases to - from,
{
    if from < to {
        assert(s[from] != '[' && s[from] != ']');
        brackets_are_passed(s, from + 1, to, depth);
    }
}

proof fn outer_brackets_close_last(a: Seq<char>, inner: Seq<char>, b: Seq<char>, after: Seq<char>)
    requires
        has_no_brackets(a),
        has_no_brackets(inner),
        has_no_brackets(b),
    ensures
        ({
            let section = a + seq!['['] + inner + seq![']'] + b;
            closing_bracket(seq!['['] + section + seq![']'] + after, 0, 0) == Some(
                section.len() as int + 1,
            )
        }),
{
    let section = a + seq!['['] + inner + seq![']'] + b;
    let s = seq!['['] + section + seq![']'] + after;
    let open = a.len() as int + 1;
    let close = open + 1 + inner.len();
    let end = section.len() as int + 1;
    assert(s[0] == '[' && s[open] == '[' && s[close] == ']' && s[end] == ']');
    assert forall|i: int| 1 <= i < open implies #[trigger] s[i] != '[' && s[i] != ']' by {
        assert(s[i] == a[i - 1]);
    }
    assert forall|i: int| open + 1 <= i < close implies #[trigger] s[i] != '[' && s[i] != ']' by {
        assert(s[i] == inner[i - open - 1]);
    }
    assert forall|i: int| close + 1 <= i < end implies #[trigger] s[i] != '[' && s[i] != ']' by {
        assert(s[i] == b[i - close - 1]);
    }
    brackets_are_passed(s, 1, open, 1);
    brackets_are_passed(s, open + 1, close, 2);
    brackets_are_passed(s, close + 1, end, 1);
    assert(closing_bracket(s, 0, 0) == closing_bracket(s, 1, 1));
    assert(closing_bracket(s, open, 1) == closing_bracket(s, open + 1, 2));
    assert(closing_bracket(s, close, 2) == closing_bracket(s, close + 1, 1));
}

/// An optional section may hold another. The outer one ends where its own bracket
/// closes, and it shows where the book says something under its own names and under
/// those of the inner one.
pub proof fn sections_may_hold_sections(
    before: Seq<char>,
    a: Seq<char>,
    first: Seq<char>,
    b: Seq<char>,
    c: Seq<char>,
    second: Seq<char>,
    d: Seq<char>,
    e: Seq<char>,
    after: Seq<char>,
    metadata: MetadataModel,
    optional: bool,
)
    requires
        is_literal(before),
        is_literal(a) && has_no_brackets(a),
        is_literal(b) && has_no_brackets(b),
        is_literal(c) && has_no_brackets(c),
        is_literal(d) && has_no_brackets(d),
        is_literal(e) && has_no_brackets(e),
        is_field_name(first),
        is_field_name(second),
    ensures
        ({
            let inner = c + seq!['{'] + second + seq!['}'] + d;
            let middle = b + seq!['['] + inner + seq![']'] + e;
            let section = a + seq!['{'] + first + seq!['}'] + middle;
            let template = before + seq!['['] + section + seq![']'] + after;
            let rest = template_text(after, metadata, optional);
            template_text(template, metadata, optional) == if told(metadata, first) is Some && told(
                metadata,
                second,
            ) is Some {
                followed_by(
                    before + (a + segment(told(metadata, first)->0) + (b + (c + segment(
                        told(metadata, second)->0,
                    ) + d) + e)),
                    Seq::empty(),
                    rest,
                )
            } else {
                followed_by(before, Seq::empty(), rest)
            }
        }),
{
    let inner = c + seq!['{'] + second + seq!['}'] + d;
    let middle = b + seq!['['] + inner + seq![']'] + e;
    let section = a + seq!['{'] + first + seq!['}'] + middle;
    nested_fields(a, first, b, c, second, d, e, metadata);
    let fields = section_fields(section)->Ok_0;
    names_tell(first, metadata);
    names_tell(second, metadata);
    names_are_plain(first);
    names_are_plain(second);
    if told(metadata, first) is Some && told(metadata, second) is Some {
        sections_show_what_a_book_says(b, c, second, d, e, metadata, true);
        plain_text_stands_for_itself(e, metadata, true);
        names_stand_for_what_a_book_says(a, first, middle, metadata, true);
        let none = Seq::<Seq<char>>::empty();
        assert(none + none =~= none);
        assert(shows(fields, metadata));
    } else {
        assert(!fields[0].has_value(metadata) || !fields[1].has_value(metadata));
    }
    parts_have_no_brackets(c, second, d);
    let start = a + seq!['{'] + first + seq!['}'] + b;
    parts_have_no_brackets(a, first, b);
    assert(section =~= start + seq!['['] + inner + seq![']'] + e);
    outer_brackets_close_last(start, inner, e, after);
    closed_section_behind(before, section, after, metadata, optional);
}

proof fn nested_fields(
    a: Seq<char>,
    first: Seq<char>,
    b: Seq<char>,
    c: Seq<char>,
    second: Seq<char>,
    d: Seq<char>,
    e: Seq<char>,
    metadata: MetadataModel,
)
    requires
        is_literal(a),
        is_literal(b),
        is_literal(c),
        is_literal(d),
        is_literal(e),
        is_field_name(first),
        is_field_name(second),
    ensures
        ({
            let inner = c + seq!['{'] + second + seq!['}'] + d;
            let middle = b + seq!['['] + inner + seq![']'] + e;
            section_fields(a + seq!['{'] + first + seq!['}'] + middle) == Ok::<
                Seq<Field>,
                Seq<char>,
            >(seq![Field::named(first)->0, Field::named(second)->0])
        }),
{
    let inner = c + seq!['{'] + second + seq!['}'] + d;
    let middle = b + seq!['['] + inner + seq![']'] + e;
    let (lead, end) = (b + seq!['['] + c, d + seq![']'] + e);
    names_tell(first, metadata);
    names_tell(second, metadata);
    names_are_plain(first);
    names_are_plain(second);
    assert forall|i: int| 0 <= i < lead.len() implies #[trigger] lead[i] != '{' by {
        if i < b.len() {
            assert(lead[i] == b[i]);
        } else if i > b.len() {
            assert(lead[i] == c[i - b.len() - 1]);
        }
    }
    assert forall|i: int| 0 <= i < end.len() implies #[trigger] end[i] != '[' && end[i] != '{' by {
        if i < d.len() {
            assert(end[i] == d[i]);
        } else if i > d.len() {
            assert(end[i] == e[i - d.len() - 1]);
        }
    }
    assert(middle =~= lead + seq!['{'] + second + seq!['}'] + end);
    no_fields_in(end);
    fields_behind(lead, second, end);
    fields_behind(a, first, middle);
    let (x, y) = (Field::named(first)->0, Field::named(second)->0);
    assert(seq![x] + (seq![y] + Seq::<Field>::empty()) =~= seq![x, y]);
}

} // verus!
