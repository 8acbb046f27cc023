//! The elements that a series is written with, for EPUB 3 readers and for Calibre.

use vstd::prelude::*;

use crate::markup::{
    attribute_from, attribute_text, content_end, is_balanced, is_inert, is_name_end, is_named,
    is_start_tag, is_word, meta_tag, meta_tag_is_a_piece, meta_tag_is_read, open_elements, opens,
    piece, piece_in_context, position_is, tag_end, text_is_passed,
};
use crate::series_metadata::{
    collection_from, has, is_closing_tag, is_other_collection, is_series_type, meaningful_text,
    meta_at, metas, metas_of_both, names_series, no_tag_between, plain_text, referred, refinement,
    series_of, tells_of_series, MetaModel, SeriesText,
};
use crate::text::{
    chars_of, contains, find, find_bounds, is_blank, is_space, position, push_chars, trim,
    trim_keeps, viewed,
};

verus! {

/// A `meta` element with two attributes and a text, on a line of its own.
pub open spec fn property_element(
    first: Seq<char>,
    value: Seq<char>,
    second: Seq<char>,
    other: Seq<char>,
    text: Seq<char>,
) -> Seq<char> {
    "\n    "@ + meta_tag(first, value, second, other, ">"@) + text + "</meta>"@
}

/// A note of Calibre's, on a line of its own.
pub open spec fn note_element(name: Seq<char>, content: Seq<char>) -> Seq<char> {
    "\n    "@ + meta_tag("name"@, name, "content"@, content, "/>"@)
}

pub open spec fn or_nothing(text: Option<Seq<char>>) -> Seq<char> {
    match text {
        Some(inner) => inner,
        None => Seq::empty(),
    }
}

/// The collection that a series is written as.
pub open spec fn collection_element(series: Option<Seq<char>>) -> Seq<char> {
    property_element(
        "property"@,
        "belongs-to-collection"@,
        "id"@,
        "epub-mgr-series"@,
        or_nothing(series),
    )
}

/// A property of that collection.
pub open spec fn refining_element(property: Seq<char>, text: Seq<char>) -> Seq<char> {
    property_element("refines"@, "#epub-mgr-series"@, "property"@, property, text)
}

/// The elements that say that a book belongs to a series. The name and the place are
/// given as they stand in XML.
pub open spec fn series_elements(series: Option<Seq<char>>, index: Option<Seq<char>>) -> Seq<char> {
    collection_element(series) + refining_element("collection-type"@, "series"@) + (match index {
        Some(i) => refining_element("group-position"@, i),
        None => Seq::empty(),
    }) + (match series {
        Some(s) => note_element("calibre:series"@, s),
        None => Seq::empty(),
    }) + (match index {
        Some(i) => note_element("calibre:series_index"@, i),
        None => Seq::empty(),
    }) + "\n"@
}

/// What those elements say.
pub open spec fn written_metas(series: Option<Seq<char>>, index: Option<Seq<char>>) -> Seq<
    MetaModel,
> {
    seq![collecting(series)] + seq![refining("collection-type"@, "series"@)] + (match index {
        Some(i) => seq![refining("group-position"@, i)],
        None => Seq::empty(),
    }) + (match series {
        Some(s) => seq![noting("calibre:series"@, s)],
        None => Seq::empty(),
    }) + (match index {
        Some(i) => seq![noting("calibre:series_index"@, i)],
        None => Seq::empty(),
    })
}

/// The collection that a series is written as.
pub open spec fn collecting(series: Option<Seq<char>>) -> MetaModel {
    MetaModel {
        name: None,
        content: None,
        property: Some("belongs-to-collection"@),
        id: Some("epub-mgr-series"@),
        refines: None,
        text: or_nothing(series),
    }
}

/// A property of the collection that is written.
pub open spec fn refining(property: Seq<char>, text: Seq<char>) -> MetaModel {
    MetaModel {
        name: None,
        content: None,
        property: Some(property),
        id: None,
        refines: Some("#epub-mgr-series"@),
        text,
    }
}

/// A note of Calibre's.
pub open spec fn noting(name: Seq<char>, content: Seq<char>) -> MetaModel {
    MetaModel {
        name: Some(name),
        content: Some(content),
        property: None,
        id: None,
        refines: None,
        text: Seq::empty(),
    }
}

pub open spec fn is_inert_or_none(text: Option<Seq<char>>) -> bool {
    match text {
        Some(inner) => is_inert(inner),
        None => true,
    }
}

fn push_text(out: &mut Vec<char>, text: &str)
    ensures
        final(out)@ == old(out)@ + text@,
{
    push_chars(out, chars_of(text).as_slice());
}

fn push_attribute(out: &mut Vec<char>, name: &str, value: &[char])
    ensures
        final(out)@ == old(out)@ + attribute_text(name@, value@),
{
    push_text(out, " ");
    push_text(out, name);
    push_text(out, "=\"");
    push_chars(out, value);
    push_text(out, "\"");
    assert(out@ =~= old(out)@ + attribute_text(name@, value@));
}

fn push_property(
    out: &mut Vec<char>,
    first: &str,
    value: &str,
    second: &str,
    other: &str,
    text: &[char],
)
    ensures
        final(out)@ == old(out)@ + property_element(first@, value@, second@, other@, text@),
{
    push_text(out, "\n    ");
    push_text(out, "<meta");
    push_attribute(out, first, chars_of(value).as_slice());
    push_attribute(out, second, chars_of(other).as_slice());
    push_text(out, ">");
    push_chars(out, text);
    push_text(out, "</meta>");
    assert(out@ =~= old(out)@ + property_element(first@, value@, second@, other@, text@));
}

fn push_note(out: &mut Vec<char>, name: &str, content: &[char])
    ensures
        final(out)@ == old(out)@ + note_element(name@, content@),
{
    push_text(out, "\n    ");
    push_text(out, "<meta");
    push_attribute(out, "name", chars_of(name).as_slice());
    push_attribute(out, "content", content);
    push_text(out, "/>");
    assert(out@ =~= old(out)@ + note_element(name@, content@));
}

/// Adds the elements that say that a book belongs to a series.
pub fn push_series_elements(
    metadata: &mut Vec<char>,
    series: &Option<Vec<char>>,
    index: &Option<Vec<char>>,
)
    ensures
        final(metadata)@ == old(metadata)@ + series_elements(viewed(*series), viewed(*index)),
{
    let mut out: Vec<char> = Vec::new();
    let nothing: Vec<char> = Vec::new();
    let name = match series {
        Some(inner) => inner.as_slice(),
        None => nothing.as_slice(),
    };
    assert(name@ =~= or_nothing(viewed(*series)));
    push_property(
        &mut out,
        "property",
        "belongs-to-collection",
        "id",
        "epub-mgr-series",
        name,
    );
    let ghost collection = property_element(
        "property"@,
        "belongs-to-collection"@,
        "id"@,
        "epub-mgr-series"@,
        name@,
    );
    assert(out@ =~= collection);
    push_property(
        &mut out,
        "refines",
        "#epub-mgr-series",
        "property",
        "collection-type",
        chars_of("series").as_slice(),
    );
    let ghost before = out@;
    match index {
        Some(place) => push_property(
            &mut out,
            "refines",
            "#epub-mgr-series",
            "property",
            "group-position",
            place.as_slice(),
        ),
        None => {},
    }
    assert(index is None ==> out@ =~= before + Seq::<char>::empty());
    let ghost before = out@;
    match series {
        Some(inner) => push_note(&mut out, "calibre:series", inner.as_slice()),
        None => {},
    }
    assert(series is None ==> out@ =~= before + Seq::<char>::empty());
    let ghost before = out@;
    match index {
        Some(place) => push_note(&mut out, "calibre:series_index", place.as_slice()),
        None => {},
    }
    assert(index is None ==> out@ =~= before + Seq::<char>::empty());
    push_text(&mut out, "\n");
    push_chars(metadata, out.as_slice());
}

proof fn metas_pass_text(s: Seq<char>, from: int, to: int)
    requires
        0 <= from <= to <= s.len(),
        forall|i: int| from <= i < to ==> #[trigger] s[i] != '<',
    ensures
        metas(s, from) == metas(s, to),
    decreases to - from,
{
    if from < to {
        metas_pass_text(s, from + 1, to);
    }
}

proof fn content_passes_text(s: Seq<char>, from: int, to: int)
    requires
        0 <= from <= to <= s.len(),
        forall|i: int| from <= i < to ==> #[trigger] s[i] != '<',
    ensures
        content_end(s, from, 0) == content_end(s, to, 0),
        plain_text(s, from, to) == s.subrange(from, to),
    decreases to - from,
{
    if from < to {
        content_passes_text(s, from + 1, to);
        assert(seq![s[from]] + s.subrange(from + 1, to) =~= s.subrange(from, to));
    } else {
        assert(s.subrange(from, to) =~= Seq::empty());
    }
}

/// What the tag at `at` says of its element.
pub open spec fn tag_reads(tag: Seq<char>, meta: MetaModel) -> bool {
    &&& meta.name == attribute_from(tag, "name"@, 0, None)
    &&& meta.content == attribute_from(tag, "content"@, 0, None)
    &&& meta.property == attribute_from(tag, "property"@, 0, None)
    &&& meta.id == attribute_from(tag, "id"@, 0, None)
    &&& meta.refines == attribute_from(tag, "refines"@, 0, None)
}

proof fn is_called_meta(s: Seq<char>)
    requires
        s.len() > 11,
        s[5] == '<',
        s[6] == 'm',
        s[7] == 'e',
        s[8] == 't',
        s[9] == 'a',
        s[10] == ' ',
    ensures
        is_named(s, 5, "meta"@),
{
    reveal_strlit("meta");
    position_is(s, |c: char| is_name_end(c), 6, 10);
    assert(s.subrange(6, 10) =~= "meta"@);
}

/// Where the parts of a written element end, and that they are what they seem.
spec fn is_laid_out(s: Seq<char>, tag: Seq<char>, text: Seq<char>, a: int, b: int) -> bool {
    &&& 7 < a <= b
    &&& b + 2 <= s.len()
    &&& s.subrange(5, a) == tag
    &&& s.subrange(a, b) == text
    &&& is_named(s, 5, "meta"@)
    &&& is_start_tag(s, 5)
    &&& s[a - 2] != '/'
    &&& s[b] == '<'
    &&& s[b + 1] == '/'
    &&& piece(s, 5) == Some(a)
    &&& piece(s, b) == Some(s.len() as int)
    &&& forall|i: int| 0 <= i < 5 ==> #[trigger] s[i] != '<'
    &&& forall|i: int| a <= i < b ==> #[trigger] s[i] != '<'
}

proof fn property_is_laid_out(
    first: Seq<char>,
    value: Seq<char>,
    second: Seq<char>,
    other: Seq<char>,
    text: Seq<char>,
)
    requires
        is_word(first),
        is_word(second),
        is_inert(value),
        is_inert(other),
        is_inert(text),
    ensures
        ({
            let tag = meta_tag(first, value, second, other, ">"@);
            let a: int = 5 + tag.len() as int;
            is_laid_out(
                property_element(first, value, second, other, text),
                tag,
                text,
                a,
                a + text.len(),
            )
        }),
{
    reveal_strlit("\n    ");
    reveal_strlit("</meta>");
    reveal_strlit(">");
    reveal_strlit("/>");
    let tag = meta_tag(first, value, second, other, ">"@);
    let s = property_element(first, value, second, other, text);
    meta_tag_is_a_piece(first, value, second, other, ">"@);
    let a: int = 5 + tag.len() as int;
    let b: int = a + text.len();
    let end = s.len() as int;
    assert(s.subrange(5, a) =~= tag);
    assert(s.subrange(a, b) =~= text);
    assert(s.subrange(b, end) =~= "</meta>"@);
    assert forall|i: int| 0 <= i < 5 implies #[trigger] s[i] != '<' by {
        assert(s[i] == "\n    "@[i]);
    }
    assert forall|i: int| a <= i < b implies #[trigger] s[i] != '<' by {
        assert(s[i] == text[i - a]);
    }
    assert(s[5] == tag[0] && s[6] == tag[1] && s[7] == tag[2] && s[8] == tag[3] && s[9] == tag[4]
        && s[10] == tag[5] && s[a - 2] == tag[tag.len() - 2]);
    assert(s[b] == "</meta>"@[0] && s[b + 1] == "</meta>"@[1]);
    piece_in_context(s, 5, a, 0);
    closing_tag_is_a_piece();
    piece_in_context(s, b, end, 0);
    is_called_meta(s);
}

proof fn laid_out_is_balanced(s: Seq<char>, tag: Seq<char>, text: Seq<char>, a: int, b: int)
    requires
        is_laid_out(s, tag, text, a, b),
    ensures
        is_balanced(s),
{
    text_is_passed(s, 0, 5, 0);
    text_is_passed(s, a, b, 1);
    assert(open_elements(s, s.len() as int, 0) == Some(0nat));
    assert(open_elements(s, b, 1) == Some(0nat));
    assert(opens(s, 5, a));
}

proof fn laid_out_is_read(
    s: Seq<char>,
    tag: Seq<char>,
    text: Seq<char>,
    a: int,
    b: int,
    meta: MetaModel,
)
    requires
        is_laid_out(s, tag, text, a, b),
        tag_reads(tag, meta),
        meta.text == text,
    ensures
        metas(s, 0) == seq![meta],
{
    metas_pass_text(s, 0, 5);
    metas_pass_text(s, a, b);
    content_passes_text(s, a, b);
    assert(content_end(s, b, 0) == Some(b));
    assert(opens(s, 5, a));
    assert(meta_at(s, 5) =~= meta);
    assert(metas(s, s.len() as int) =~= Seq::empty());
    assert(!is_start_tag(s, b));
    assert(metas(s, b) =~= Seq::empty());
    assert(metas(s, 5) =~= seq![meta]);
}

/// An element with a text is read as it is written.
proof fn property_is_read(
    first: Seq<char>,
    value: Seq<char>,
    second: Seq<char>,
    other: Seq<char>,
    text: Seq<char>,
    meta: MetaModel,
)
    requires
        is_word(first),
        is_word(second),
        is_inert(value),
        is_inert(other),
        is_inert(text),
        tag_reads(meta_tag(first, value, second, other, ">"@), meta),
        meta.text == text,
    ensures
        is_balanced(property_element(first, value, second, other, text)),
        metas(property_element(first, value, second, other, text), 0) == seq![meta],
{
    let tag = meta_tag(first, value, second, other, ">"@);
    let s = property_element(first, value, second, other, text);
    let a: int = 5 + tag.len() as int;
    property_is_laid_out(first, value, second, other, text);
    laid_out_is_balanced(s, tag, text, a, a + text.len());
    laid_out_is_read(s, tag, text, a, a + text.len(), meta);
}

proof fn closing_tag_is_a_piece()
    ensures
        piece("</meta>"@, 0) == Some(7int),
{
    let s = "</meta>"@;
    reveal_strlit("</meta>");
    reveal_strlit("<!--");
    reveal_strlit("<![CDATA[");
    reveal_strlit("<?");
    assert(s.subrange(0, 4)[1] == '/');
    assert(s.subrange(0, 2)[1] == '/');
    reveal_with_fuel(tag_end, 8);
}

/// A note is read as it is written.
proof fn note_is_read(name: Seq<char>, content: Seq<char>)
    requires
        is_inert(name),
        is_inert(content),
    ensures
        is_balanced(note_element(name, content)),
        metas(note_element(name, content), 0) == seq![noting(name, content)],
{
    reveal_strlit("\n    ");
    reveal_strlit("/>");
    reveal_strlit(">");
    attribute_names();
    let meta = noting(name, content);
    let tag = meta_tag("name"@, name, "content"@, content, "/>"@);
    let s = note_element(name, content);
    meta_tag_is_a_piece("name"@, name, "content"@, content, "/>"@);
    meta_tag_is_read("name"@, name, "content"@, content, "/>"@, "name"@);
    meta_tag_is_read("name"@, name, "content"@, content, "/>"@, "content"@);
    meta_tag_is_read("name"@, name, "content"@, content, "/>"@, "property"@);
    meta_tag_is_read("name"@, name, "content"@, content, "/>"@, "id"@);
    meta_tag_is_read("name"@, name, "content"@, content, "/>"@, "refines"@);
    let end = s.len() as int;
    assert(s.subrange(5, end) =~= tag);
    assert forall|i: int| 0 <= i < 5 implies #[trigger] s[i] != '<' by {
        assert(s[i] == "\n    "@[i]);
    }
    assert forall|i: int| 5 <= i < end implies #[trigger] s[i] == tag[i - 5] by {
    }
    piece_in_context(s, 5, end, 0);
    is_called_meta(s);
    metas_pass_text(s, 0, 5);
    assert(is_start_tag(s, 5));
    assert(s[end - 2] == tag[tag.len() - 2]);
    assert(plain_text(s, end, end) =~= Seq::empty());
    assert(meta_at(s, 5) =~= meta);
    assert(metas(s, end) =~= Seq::empty());
    assert(metas(s, 5) =~= seq![meta]);
    text_is_passed(s, 0, 5, 0);
    assert(open_elements(s, end, 0) == Some(0nat));
}

/// The names of attributes that are written differ, and are words.
proof fn attribute_names()
    ensures
        is_word("name"@),
        is_word("content"@),
        is_word("property"@),
        is_word("id"@),
        is_word("refines"@),
        "name"@ != "content"@,
        "name"@ != "property"@,
        "name"@ != "id"@,
        "name"@ != "refines"@,
        "content"@ != "property"@,
        "content"@ != "id"@,
        "content"@ != "refines"@,
        "property"@ != "id"@,
        "property"@ != "refines"@,
        "id"@ != "refines"@,
{
    reveal_strlit("name");
    reveal_strlit("content");
    reveal_strlit("property");
    reveal_strlit("id");
    reveal_strlit("refines");
    assert("name"@.len() == 4 && "content"@.len() == 7 && "property"@.len() == 8 && "id"@.len()
        == 2 && "refines"@.len() == 7);
    assert("content"@[0] != "refines"@[0]);
}

proof fn refinement_is_read(property: Seq<char>, text: Seq<char>)
    requires
        is_inert(property),
        is_inert(text),
    ensures
        is_balanced(refining_element(property, text)),
        metas(refining_element(property, text), 0) == seq![refining(property, text)],
{
    attribute_names();
    reveal_strlit("#epub-mgr-series");
    let own = "#epub-mgr-series"@;
    assert(is_inert(own));
    let end = ">"@;
    meta_tag_is_read("refines"@, own, "property"@, property, end, "name"@);
    meta_tag_is_read("refines"@, own, "property"@, property, end, "content"@);
    meta_tag_is_read("refines"@, own, "property"@, property, end, "property"@);
    meta_tag_is_read("refines"@, own, "property"@, property, end, "id"@);
    meta_tag_is_read("refines"@, own, "property"@, property, end, "refines"@);
    property_is_read("refines"@, own, "property"@, property, text, refining(property, text));
}

proof fn collection_is_read(series: Option<Seq<char>>)
    requires
        is_inert_or_none(series),
    ensures
        is_balanced(collection_element(series)),
        metas(collection_element(series), 0) == seq![collecting(series)],
{
    attribute_names();
    reveal_strlit("belongs-to-collection");
    reveal_strlit("epub-mgr-series");
    let value = "belongs-to-collection"@;
    let own = "epub-mgr-series"@;
    assert(is_inert(value));
    assert(is_inert(own));
    let end = ">"@;
    meta_tag_is_read("property"@, value, "id"@, own, end, "name"@);
    meta_tag_is_read("property"@, value, "id"@, own, end, "content"@);
    meta_tag_is_read("property"@, value, "id"@, own, end, "property"@);
    meta_tag_is_read("property"@, value, "id"@, own, end, "id"@);
    meta_tag_is_read("property"@, value, "id"@, own, end, "refines"@);
    property_is_read("property"@, value, "id"@, own, or_nothing(series), collecting(series));
}

proof fn nothing_is_balanced()
    ensures
        is_balanced(Seq::empty()),
        metas(Seq::empty(), 0) == Seq::<MetaModel>::empty(),
        is_balanced("\n"@),
        metas("\n"@, 0) == Seq::<MetaModel>::empty(),
{
    reveal_strlit("\n");
    reveal_with_fuel(open_elements, 2);
    reveal_with_fuel(metas, 2);
}

/// Two parts that are read one after the other.
proof fn read_on(
    first: Seq<char>,
    read: Seq<MetaModel>,
    second: Seq<char>,
    more: Seq<MetaModel>,
)
    requires
        is_balanced(first),
        metas(first, 0) == read,
        is_balanced(second),
        metas(second, 0) == more,
    ensures
        is_balanced(first + second),
        metas(first + second, 0) == read + more,
{
    metas_of_both(first, second);
}

proof fn values_are_inert()
    ensures
        is_inert("collection-type"@),
        is_inert("group-position"@),
        is_inert("series"@),
        is_inert("calibre:series"@),
        is_inert("calibre:series_index"@),
{
    reveal_strlit("collection-type");
    reveal_strlit("group-position");
    reveal_strlit("series");
    reveal_strlit("calibre:series");
    reveal_strlit("calibre:series_index");
}

/// The elements that a series is written with are read as they are written.
pub proof fn series_elements_are_read(series: Option<Seq<char>>, index: Option<Seq<char>>)
    requires
        is_inert_or_none(series),
        is_inert_or_none(index),
    ensures
        is_balanced(series_elements(series, index)),
        metas(series_elements(series, index), 0) == written_metas(series, index),
{
    values_are_inert();
    nothing_is_balanced();
    let no_text = Seq::<char>::empty();
    let no_meta = Seq::<MetaModel>::empty();
    let a = collection_element(series);
    let b = refining_element("collection-type"@, "series"@);
    let ma = seq![collecting(series)];
    let mb = seq![refining("collection-type"@, "series"@)];
    collection_is_read(series);
    refinement_is_read("collection-type"@, "series"@);
    read_on(a, ma, b, mb);
    let (c, mc) = match index {
        Some(i) => {
            refinement_is_read("group-position"@, i);
            (refining_element("group-position"@, i), seq![refining("group-position"@, i)])
        },
        None => (no_text, no_meta),
    };
    read_on(a + b, ma + mb, c, mc);
    let (d, md) = match series {
        Some(s) => {
            note_is_read("calibre:series"@, s);
            (note_element("calibre:series"@, s), seq![noting("calibre:series"@, s)])
        },
        None => (no_text, no_meta),
    };
    read_on(a + b + c, ma + mb + mc, d, md);
    let (e, me) = match index {
        Some(i) => {
            note_is_read("calibre:series_index"@, i);
            (note_element("calibre:series_index"@, i), seq![noting("calibre:series_index"@, i)])
        },
        None => (no_text, no_meta),
    };
    read_on(a + b + c + d, ma + mb + mc + md, e, me);
    let all = ma + mb + mc + md + me;
    read_on(a + b + c + d + e, all, "\n"@, no_meta);
    assert(all + no_meta =~= all);
}

proof fn property_closes_nothing(
    first: Seq<char>,
    value: Seq<char>,
    second: Seq<char>,
    other: Seq<char>,
    text: Seq<char>,
)
    requires
        is_word(first),
        is_word(second),
        is_inert(value),
        is_inert(other),
        is_inert(text),
    ensures
        !contains(property_element(first, value, second, other, text), "</metadata>"@),
{
    reveal_strlit("\n    ");
    reveal_strlit("</meta>");
    reveal_strlit("</metadata>");
    let close = "</metadata>"@;
    let tag = meta_tag(first, value, second, other, ">"@);
    let s = property_element(first, value, second, other, text);
    meta_tag_is_a_piece(first, value, second, other, ">"@);
    find_bounds(s, close, 0);
    if contains(s, close) {
        let k = find(s, close, 0)->0;
        let all = s.subrange(k, k + close.len());
        assert(all[0] == s[k] && all[1] == s[k + 1] && all[6] == s[k + 6]);
        let a: int = 5 + tag.len() as int;
        let b: int = a + text.len();
        if k < 5 {
            assert(s[k] == "\n    "@[k]);
        } else if k < a {
            assert(s[k] == tag[k - 5]);
            assert(s[6] == tag[1]);
        } else if k < b {
            assert(s[k] == text[k - a]);
        } else {
            assert(s[k] == "</meta>"@[k - b]);
        }
    }
}

proof fn note_closes_nothing(name: Seq<char>, content: Seq<char>)
    requires
        is_inert(name),
        is_inert(content),
    ensures
        !contains(note_element(name, content), "</metadata>"@),
{
    reveal_strlit("\n    ");
    reveal_strlit("</metadata>");
    attribute_names();
    let close = "</metadata>"@;
    let tag = meta_tag("name"@, name, "content"@, content, "/>"@);
    let s = note_element(name, content);
    meta_tag_is_a_piece("name"@, name, "content"@, content, "/>"@);
    find_bounds(s, close, 0);
    if contains(s, close) {
        let k = find(s, close, 0)->0;
        let all = s.subrange(k, k + close.len());
        assert(all[0] == s[k] && all[1] == s[k + 1]);
        if k < 5 {
            assert(s[k] == "\n    "@[k]);
        } else {
            assert(s[k] == tag[k - 5]);
            assert(s[6] == tag[1]);
        }
    }
}

pub proof fn metadata_is_closed_by_a_tag()
    ensures
        is_closing_tag("</metadata>"@),
{
    reveal_strlit("</metadata>");
}

/// Two parts that close nothing close nothing one after the other.
proof fn closes_nothing_on(first: Seq<char>, second: Seq<char>)
    requires
        is_balanced(first),
        is_balanced(second),
        !contains(first, "</metadata>"@),
        !contains(second, "</metadata>"@),
    ensures
        is_balanced(first + second),
        !contains(first + second, "</metadata>"@),
{
    metadata_is_closed_by_a_tag();
    metas_of_both(first, second);
    no_tag_between(first, second, "</metadata>"@, 0);
}

/// The elements that a series is written with do not close the `metadata` element.
pub proof fn series_elements_close_nothing(series: Option<Seq<char>>, index: Option<Seq<char>>)
    requires
        is_inert_or_none(series),
        is_inert_or_none(index),
    ensures
        !contains(series_elements(series, index), "</metadata>"@),
{
    values_are_inert();
    attribute_names();
    nothing_is_balanced();
    reveal_strlit("belongs-to-collection");
    reveal_strlit("epub-mgr-series");
    reveal_strlit("#epub-mgr-series");
    assert(is_inert("belongs-to-collection"@));
    assert(is_inert("epub-mgr-series"@));
    assert(is_inert("#epub-mgr-series"@));
    let nothing = Seq::<char>::empty();
    let line = "\n"@;
    short_texts_close_nothing();
    let a = collection_element(series);
    let b = refining_element("collection-type"@, "series"@);
    collection_is_read(series);
    refinement_is_read("collection-type"@, "series"@);
    property_closes_nothing(
        "property"@,
        "belongs-to-collection"@,
        "id"@,
        "epub-mgr-series"@,
        or_nothing(series),
    );
    property_closes_nothing(
        "refines"@,
        "#epub-mgr-series"@,
        "property"@,
        "collection-type"@,
        "series"@,
    );
    closes_nothing_on(a, b);
    let c = match index {
        Some(i) => {
            refinement_is_read("group-position"@, i);
            property_closes_nothing(
                "refines"@,
                "#epub-mgr-series"@,
                "property"@,
                "group-position"@,
                i,
            );
            refining_element("group-position"@, i)
        },
        None => nothing,
    };
    closes_nothing_on(a + b, c);
    let d = match series {
        Some(s) => {
            note_is_read("calibre:series"@, s);
            note_closes_nothing("calibre:series"@, s);
            note_element("calibre:series"@, s)
        },
        None => nothing,
    };
    closes_nothing_on(a + b + c, d);
    let e = match index {
        Some(i) => {
            note_is_read("calibre:series_index"@, i);
            note_closes_nothing("calibre:series_index"@, i);
            note_element("calibre:series_index"@, i)
        },
        None => nothing,
    };
    closes_nothing_on(a + b + c + d, e);
    closes_nothing_on(a + b + c + d + e, line);
}

proof fn short_texts_close_nothing()
    ensures
        !contains(Seq::<char>::empty(), "</metadata>"@),
        !contains("\n"@, "</metadata>"@),
{
    reveal_strlit("</metadata>");
    reveal_strlit("\n");
    find_bounds(Seq::<char>::empty(), "</metadata>"@, 0);
    find_bounds("\n"@, "</metadata>"@, 0);
}

/// The elements of a part that say something of a series.
pub open spec fn telling(all: Seq<MetaModel>, part: Seq<MetaModel>) -> Seq<MetaModel>
    decreases part.len(),
{
    if part.len() == 0 {
        part
    } else if tells_of_series(all, part.last()) {
        telling(all, part.drop_last()).push(part.last())
    } else {
        telling(all, part.drop_last())
    }
}

proof fn none_of_them_tells(all: Seq<MetaModel>, part: Seq<MetaModel>)
    requires
        forall|i: int| 0 <= i < part.len() ==> !tells_of_series(all, #[trigger] part[i]),
    ensures
        telling(all, part) == Seq::<MetaModel>::empty(),
    decreases part.len(),
{
    if part.len() > 0 {
        assert(!tells_of_series(all, part[part.len() - 1]));
        assert forall|i: int| 0 <= i < part.drop_last().len() implies !tells_of_series(
            all,
            #[trigger] part.drop_last()[i],
        ) by {
            assert(part.drop_last()[i] == part[i]);
        }
        none_of_them_tells(all, part.drop_last());
    }
}

proof fn all_of_them_tell(all: Seq<MetaModel>, first: Seq<MetaModel>, second: Seq<MetaModel>)
    requires
        telling(all, first) == Seq::<MetaModel>::empty(),
        forall|i: int| 0 <= i < second.len() ==> tells_of_series(all, #[trigger] second[i]),
    ensures
        telling(all, first + second) == second,
    decreases second.len(),
{
    let both = first + second;
    if second.len() == 0 {
        assert(both =~= first);
        assert(second =~= Seq::empty());
    } else {
        assert(both.drop_last() =~= first + second.drop_last());
        assert(both.last() == second[second.len() - 1]);
        assert forall|i: int| 0 <= i < second.drop_last().len() implies tells_of_series(
            all,
            #[trigger] second.drop_last()[i],
        ) by {
            assert(second.drop_last()[i] == second[i]);
        }
        all_of_them_tell(all, first, second.drop_last());
        assert(second.drop_last().push(second.last()) =~= second);
    }
}

pub open spec fn gives(meta: MetaModel, property: Seq<char>, id: Seq<char>) -> bool {
    meta.property == Some(property) && meta.subject() == Some(id)
}

/// What the first element says that gives a property.
proof fn refinement_is_first(all: Seq<MetaModel>, property: Seq<char>, id: Seq<char>, n: int)
    requires
        0 <= n <= all.len(),
        forall|i: int| 0 <= i < n ==> !gives(#[trigger] all[i], property, id),
    ensures
        n == all.len() ==> refinement(all, property, id) is None,
        n < all.len() && gives(all[n], property, id) ==> refinement(all, property, id) == Some(
            all[n].text,
        ),
    decreases all.len(),
{
    if n > 0 {
        assert(!gives(all[0], property, id));
        let rest = all.drop_first();
        assert forall|i: int| 0 <= i < n - 1 implies !gives(#[trigger] rest[i], property, id) by {
            assert(rest[i] == all[i + 1]);
        }
        refinement_is_first(rest, property, id, n - 1);
        assert(n < all.len() ==> rest[n - 1] == all[n]);
    }
}

proof fn refinement_comes_from(all: Seq<MetaModel>, property: Seq<char>, id: Seq<char>) -> (n: int)
    ensures
        0 <= n <= all.len(),
        forall|i: int| 0 <= i < n ==> !gives(#[trigger] all[i], property, id),
        n < all.len() ==> gives(all[n], property, id),
        n < all.len() ==> refinement(all, property, id) == Some(all[n].text),
        n == all.len() ==> refinement(all, property, id) is None,
    decreases all.len(),
{
    if all.len() == 0 || gives(all[0], property, id) {
        0
    } else {
        let rest = all.drop_first();
        let n = refinement_comes_from(rest, property, id) + 1;
        assert forall|i: int| 0 <= i < n implies !gives(#[trigger] all[i], property, id) by {
            if i > 0 {
                assert(rest[i - 1] == all[i]);
            }
        }
        n
    }
}

proof fn a_part_of_itself(text: Seq<char>)
    ensures
        has(Some(text), text),
{
    assert(text.subrange(0, text.len() as int) =~= text);
    find_bounds(text, text, 0);
}

proof fn written_names_differ()
    ensures
        "belongs-to-collection"@ != "collection-type"@,
        "belongs-to-collection"@ != "group-position"@,
        "collection-type"@ != "group-position"@,
        "calibre:series"@ != "calibre:series_index"@,
        referred("#epub-mgr-series"@) == "epub-mgr-series"@,
        is_series_type("series"@),
        has(Some("calibre:series_index"@), "calibre:series"@),
{
    reveal_strlit("belongs-to-collection");
    reveal_strlit("collection-type");
    reveal_strlit("group-position");
    reveal_strlit("calibre:series");
    reveal_strlit("calibre:series_index");
    reveal_strlit("#epub-mgr-series");
    reveal_strlit("epub-mgr-series");
    reveal_strlit("series");
    assert("belongs-to-collection"@.len() == 21 && "collection-type"@.len() == 15
        && "group-position"@.len() == 14);
    assert("calibre:series"@.len() == 14 && "calibre:series_index"@.len() == 20);
    assert("#epub-mgr-series"@.skip(1) =~= "epub-mgr-series"@);
    trim_keeps("series"@, |c: char| is_space(c));
    let long = "calibre:series_index"@;
    assert(long.subrange(0, 14) =~= "calibre:series"@);
    find_bounds(long, "calibre:series"@, 0);
}

/// What is written about a series does not change what collections are.
proof fn collections_stay_what_they_are(
    rest: Seq<MetaModel>,
    series: Option<Seq<char>>,
    index: Option<Seq<char>>,
    id: Option<Seq<char>>,
)
    ensures
        is_other_collection(rest + written_metas(series, index), id) == is_other_collection(
            rest,
            id,
        ),
{
    if id is Some && id->0 != "epub-mgr-series"@ {
        written_names_differ();
        let written = written_metas(series, index);
        let all = rest + written;
        let kind = "collection-type"@;
        let n = refinement_comes_from(rest, kind, id->0);
        assert forall|i: int| 0 <= i < n implies !gives(#[trigger] all[i], kind, id->0) by {
            assert(all[i] == rest[i]);
        }
        if n < rest.len() {
            assert(all[n] == rest[n]);
            refinement_is_first(all, kind, id->0, n);
        } else {
            assert forall|i: int| 0 <= i < all.len() implies !gives(
                #[trigger] all[i],
                kind,
                id->0,
            ) by {
                if i >= rest.len() {
                    assert(all[i] == written[i - rest.len()]);
                }
            }
            refinement_is_first(all, kind, id->0, all.len() as int);
        }
    }
}

/// Where no other element says anything of a series, those that are written are all
/// that do.
pub proof fn written_metas_stand_alone(
    rest: Seq<MetaModel>,
    series: Option<Seq<char>>,
    index: Option<Seq<char>>,
)
    requires
        forall|i: int| 0 <= i < rest.len() ==> !tells_of_series(rest, #[trigger] rest[i]),
    ensures
        ({
            let all = rest + written_metas(series, index);
            telling(all, all) == written_metas(series, index)
        }),
{
    written_names_differ();
    let written = written_metas(series, index);
    let all = rest + written;
    assert forall|i: int| 0 <= i < rest.len() implies !tells_of_series(all, #[trigger] rest[i]) by {
        collections_stay_what_they_are(rest, series, index, rest[i].id);
        collections_stay_what_they_are(rest, series, index, rest[i].subject());
    }
    none_of_them_tells(all, rest);
    a_part_of_itself("belongs-to-collection"@);
    a_part_of_itself("collection-type"@);
    a_part_of_itself("group-position"@);
    a_part_of_itself("calibre:series"@);
    all_of_them_tell(all, rest, written);
}

proof fn collection_is_first(all: Seq<MetaModel>, from: int, n: int)
    requires
        0 <= from <= n < all.len(),
        forall|i: int| from <= i < n ==> !names_series(all, #[trigger] all[i]),
        names_series(all, all[n]),
    ensures
        collection_from(all, from) == collection_from(all, n),
    decreases n - from,
{
    if from < n {
        assert(!names_series(all, all[from]));
        collection_is_first(all, from + 1, n);
    }
}

/// Where no other element says anything of a series, the one that is written is
/// found.
pub proof fn written_metas_are_found(rest: Seq<MetaModel>, series: Seq<char>, index: Option<Seq<char>>)
    requires
        forall|i: int| 0 <= i < rest.len() ==> !tells_of_series(rest, #[trigger] rest[i]),
        !is_blank(series),
    ensures
        series_of(rest + written_metas(Some(series), index)) == Some(
            SeriesText { series: trim(series), index: meaningful_text(index) },
        ),
{
    written_names_differ();
    a_part_of_itself("belongs-to-collection"@);
    a_part_of_itself("collection-type"@);
    a_part_of_itself("group-position"@);
    let own = "epub-mgr-series"@;
    let written = written_metas(Some(series), index);
    let all = rest + written;
    let n = rest.len() as int;
    assert(all[n] == written[0] && all[n + 1] == written[1] && all[n + 2] == written[2]);
    assert forall|i: int| 0 <= i < n implies !gives(#[trigger] all[i], "collection-type"@, own)
        && !gives(all[i], "group-position"@, own) && !names_series(all, all[i]) by {
        assert(all[i] == rest[i]);
        assert(!tells_of_series(rest, rest[i]));
        collections_stay_what_they_are(rest, Some(series), index, rest[i].id);
    }
    refinement_is_first(all, "collection-type"@, own, n + 1);
    collection_is_first(all, 0, n);
    match index {
        Some(place) => {
            refinement_is_first(all, "group-position"@, own, n + 2);
        },
        None => {
            assert forall|i: int| 0 <= i < all.len() implies !gives(
                #[trigger] all[i],
                "group-position"@,
                own,
            ) by {
                if i >= n {
                    assert(all[i] == written[i - n]);
                }
            }
            refinement_is_first(all, "group-position"@, own, all.len() as int);
        },
    }
}

proof fn written_texts(series: Seq<char>, index: Seq<char>)
    ensures
        collection_element(Some(series))
            == "\n    <meta property=\"belongs-to-collection\" id=\"epub-mgr-series\">"@ + series
            + "</meta>"@,
        collection_element(None)
            == "\n    <meta property=\"belongs-to-collection\" id=\"epub-mgr-series\"></meta>"@,
        refining_element("collection-type"@, "series"@)
            == "\n    <meta refines=\"#epub-mgr-series\" property=\"collection-type\">series</meta>"@,
        refining_element("group-position"@, index)
            == "\n    <meta refines=\"#epub-mgr-series\" property=\"group-position\">"@ + index
            + "</meta>"@,
        note_element("calibre:series"@, series) == "\n    <meta name=\"calibre:series\" content=\""@
            + series + "\"/>"@,
        note_element("calibre:series_index"@, index)
            == "\n    <meta name=\"calibre:series_index\" content=\""@ + index + "\"/>"@,
{
    let collection = "\n    <meta property=\"belongs-to-collection\" id=\"epub-mgr-series\">"@;
    assert("\n    "@ + ("<meta"@ + (" "@ + "property"@ + "=\""@ + "belongs-to-collection"@ + "\""@)
        + (" "@ + "id"@ + "=\""@ + "epub-mgr-series"@ + "\""@) + ">"@) =~= collection) by {
        reveal_strlit("\n    ");
        reveal_strlit("<meta");
        reveal_strlit(" ");
        reveal_strlit("property");
        reveal_strlit("=\"");
        reveal_strlit("belongs-to-collection");
        reveal_strlit("\"");
        reveal_strlit("id");
        reveal_strlit("epub-mgr-series");
        reveal_strlit(">");
        reveal_strlit("\n    <meta property=\"belongs-to-collection\" id=\"epub-mgr-series\">");
    }
    assert(collection + "</meta>"@
        =~= "\n    <meta property=\"belongs-to-collection\" id=\"epub-mgr-series\"></meta>"@) by {
        reveal_strlit("</meta>");
        reveal_strlit("\n    <meta property=\"belongs-to-collection\" id=\"epub-mgr-series\">");
        reveal_strlit(
            "\n    <meta property=\"belongs-to-collection\" id=\"epub-mgr-series\"></meta>",
        );
    }
    assert(collection + Seq::<char>::empty() =~= collection);
    let kind = "\n    <meta refines=\"#epub-mgr-series\" property=\"collection-type\">"@;
    assert("\n    "@ + ("<meta"@ + (" "@ + "refines"@ + "=\""@ + "#epub-mgr-series"@ + "\""@) + (" "@
        + "property"@ + "=\""@ + "collection-type"@ + "\""@) + ">"@) =~= kind) by {
        reveal_strlit("\n    ");
        reveal_strlit("<meta");
        reveal_strlit(" ");
        reveal_strlit("property");
        reveal_strlit("=\"");
        reveal_strlit("collection-type");
        reveal_strlit("\"");
        reveal_strlit("refines");
        reveal_strlit("#epub-mgr-series");
        reveal_strlit(">");
        reveal_strlit("\n    <meta refines=\"#epub-mgr-series\" property=\"collection-type\">");
    }
    assert(kind + "series"@ + "</meta>"@
        =~= "\n    <meta refines=\"#epub-mgr-series\" property=\"collection-type\">series</meta>"@) by {
        reveal_strlit("series");
        reveal_strlit("</meta>");
        reveal_strlit("\n    <meta refines=\"#epub-mgr-series\" property=\"collection-type\">");
        reveal_strlit(
            "\n    <meta refines=\"#epub-mgr-series\" property=\"collection-type\">series</meta>",
        );
    }
    let place = "\n    <meta refines=\"#epub-mgr-series\" property=\"group-position\">"@;
    assert("\n    "@ + ("<meta"@ + (" "@ + "refines"@ + "=\""@ + "#epub-mgr-series"@ + "\""@) + (" "@
        + "property"@ + "=\""@ + "group-position"@ + "\""@) + ">"@) =~= place) by {
        reveal_strlit("\n    ");
        reveal_strlit("<meta");
        reveal_strlit(" ");
        reveal_strlit("property");
        reveal_strlit("=\"");
        reveal_strlit("group-position");
        reveal_strlit("\"");
        reveal_strlit("refines");
        reveal_strlit("#epub-mgr-series");
        reveal_strlit(">");
        reveal_strlit("\n    <meta refines=\"#epub-mgr-series\" property=\"group-position\">");
    }
    let named = "\n    <meta name=\"calibre:series\" content=\""@;
    assert("\n    "@ + ("<meta"@ + (" "@ + "name"@ + "=\""@ + "calibre:series"@ + "\""@) + (" "@
        + "content"@ + "=\""@)) =~= named) by {
        reveal_strlit("\n    ");
        reveal_strlit("<meta");
        reveal_strlit(" ");
        reveal_strlit("name");
        reveal_strlit("=\"");
        reveal_strlit("calibre:series");
        reveal_strlit("\"");
        reveal_strlit("content");
        reveal_strlit("\n    <meta name=\"calibre:series\" content=\"");
    }
    let numbered = "\n    <meta name=\"calibre:series_index\" content=\""@;
    assert("\n    "@ + ("<meta"@ + (" "@ + "name"@ + "=\""@ + "calibre:series_index"@ + "\""@) + (
    " "@ + "content"@ + "=\""@)) =~= numbered) by {
        reveal_strlit("\n    ");
        reveal_strlit("<meta");
        reveal_strlit(" ");
        reveal_strlit("name");
        reveal_strlit("=\"");
        reveal_strlit("calibre:series_index");
        reveal_strlit("\"");
        reveal_strlit("content");
        reveal_strlit("\n    <meta name=\"calibre:series_index\" content=\"");
    }
    assert("\""@ + "/>"@ =~= "\"/>"@) by {
        reveal_strlit("\"");
        reveal_strlit("/>");
        reveal_strlit("\"/>");
    }
    note_in_parts("calibre:series"@, series);
    note_in_parts("calibre:series_index"@, index);
}

proof fn note_in_parts(name: Seq<char>, content: Seq<char>)
    ensures
        note_element(name, content) == "\n    "@ + ("<meta"@ + (" "@ + "name"@ + "=\""@ + name
            + "\""@) + (" "@ + "content"@ + "=\""@)) + content + ("\""@ + "/>"@),
{
    assert(note_element(name, content) =~= "\n    "@ + ("<meta"@ + (" "@ + "name"@ + "=\""@ + name
        + "\""@) + (" "@ + "content"@ + "=\""@)) + content + ("\""@ + "/>"@));
}

/// A series is written twice: as a collection that is a series, with the place in it,
/// for EPUB 3 readers, and as Calibre's two notes. What is not known is left out, but
/// for the collection itself.
pub proof fn series_are_written_for_both_kinds_of_readers(series: Seq<char>, index: Seq<char>)
    ensures
        ({
            let collection =
                "\n    <meta property=\"belongs-to-collection\" id=\"epub-mgr-series\">"@ + series
                + "</meta>"@;
            let nameless =
                "\n    <meta property=\"belongs-to-collection\" id=\"epub-mgr-series\"></meta>"@;
            let kind =
                "\n    <meta refines=\"#epub-mgr-series\" property=\"collection-type\">series</meta>"@;
            let place = "\n    <meta refines=\"#epub-mgr-series\" property=\"group-position\">"@
                + index + "</meta>"@;
            let named = "\n    <meta name=\"calibre:series\" content=\""@ + series + "\"/>"@;
            let numbered = "\n    <meta name=\"calibre:series_index\" content=\""@ + index
                + "\"/>"@;
            &&& series_elements(Some(series), Some(index)) == collection + kind + place + named
                + numbered + "\n"@
            &&& series_elements(Some(series), None) == collection + kind + named + "\n"@
            &&& series_elements(None, Some(index)) == nameless + kind + place + numbered + "\n"@
        }),
{
    written_texts(series, index);
    let collection = collection_element(Some(series));
    let nameless = collection_element(None);
    let kind = refining_element("collection-type"@, "series"@);
    let place = refining_element("group-position"@, index);
    let named = note_element("calibre:series"@, series);
    let none = Seq::<char>::empty();
    assert(collection + kind + none =~= collection + kind);
    assert(collection + kind + named + none =~= collection + kind + named);
    assert(nameless + kind + place + none =~= nameless + kind + place);
}

} // verus!
