//! The `meta` elements of a package document that say something of a series, read
//! as text.

use vstd::prelude::*;
use vstd::slice::slice_subrange;

use crate::epub_writer::{escape_chars, escaped, escaped_text_is_inert};
use crate::markup::{
    attribute_from, attributes_hold_no_tags, content_end, content_end_bounds, element_at,
    element_bounds, element_in_context, elements_are_closed, find_attribute, find_element,
    find_next_piece, find_piece, has_name, is_balanced, is_character_data, is_comment, is_end_tag,
    is_named, is_reached, is_start_tag, next_piece, next_piece_bounds, open_elements,
    open_elements_of_both, opens, piece, piece_bounds, piece_in_context, starts_character_data,
    starts_comment, tag_end_bounds, text_is_passed, Element,
};
use crate::text::{
    chars_of, contains, contains_chars, find, find_bounds, is_blank, is_space, position,
    position_bounds, position_of, push_chars, pushed_view, same_but_case, same_but_case_chars,
    same_chars, stands_at, stands_nowhere, trim, trim_chars, trim_end, trim_range, viewed, views,
};

verus! {

/// At `at` a `meta` element starts.
pub open spec fn is_meta(s: Seq<char>, at: int) -> bool {
    element_at(s, at) is Some && is_named(s, at, "meta"@)
}

/// The text in a part of a document, as it stands in XML without character data.
pub open spec fn plain_text(s: Seq<char>, from: int, to: int) -> Seq<char>
    decreases s.len() - from,
{
    let next = next_piece(s, from);
    if from < 0 || from >= to || !(from < next <= s.len()) {
        Seq::empty()
    } else if s[from] != '<' {
        seq![s[from]] + plain_text(s, next, to)
    } else if is_character_data(s, from) && from + 12 <= next {
        escaped(s.subrange(from + 9, next - 3)) + plain_text(s, next, to)
    } else {
        plain_text(s, next, to)
    }
}

/// What a `meta` element says: some of its attributes, and its text.
#[verifier::ext_equal]
pub struct MetaModel {
    pub name: Option<Seq<char>>,
    pub content: Option<Seq<char>>,
    pub property: Option<Seq<char>>,
    pub id: Option<Seq<char>>,
    pub refines: Option<Seq<char>>,
    pub text: Seq<char>,
}

/// The `meta` element that starts at `at`.
pub open spec fn meta_at(s: Seq<char>, at: int) -> MetaModel {
    let element = element_at(s, at)->0;
    let tag = s.subrange(at, element.tag_end);
    MetaModel {
        name: attribute_from(tag, "name"@, 0, None),
        content: attribute_from(tag, "content"@, 0, None),
        property: attribute_from(tag, "property"@, 0, None),
        id: attribute_from(tag, "id"@, 0, None),
        refines: attribute_from(tag, "refines"@, 0, None),
        text: plain_text(s, element.tag_end, element.content_end),
    }
}

/// The `meta` elements that start at `from` or later, in order.
pub open spec fn metas(s: Seq<char>, from: int) -> Seq<MetaModel>
    decreases s.len() - from,
{
    if from < 0 || from >= s.len() || !(from < next_piece(s, from) <= s.len()) {
        Seq::empty()
    } else if is_meta(s, from) {
        seq![meta_at(s, from)] + metas(s, next_piece(s, from))
    } else {
        metas(s, next_piece(s, from))
    }
}

/// The identifier that a reference such as `#id` is to.
pub open spec fn referred(reference: Seq<char>) -> Seq<char> {
    if reference.len() > 0 && reference[0] == '#' {
        reference.skip(1)
    } else {
        reference
    }
}

impl MetaModel {
    /// The identifier of the element that this one says something of.
    pub open spec fn subject(self) -> Option<Seq<char>> {
        match self.refines {
            Some(reference) => Some(referred(reference)),
            None => None,
        }
    }
}

/// A property of the element of an identifier, as the first element gives it that
/// does.
pub open spec fn refinement(
    all: Seq<MetaModel>,
    property: Seq<char>,
    id: Seq<char>,
) -> Option<Seq<char>>
    decreases all.len(),
{
    if all.len() == 0 {
        None
    } else if all[0].property == Some(property) && all[0].subject() == Some(id) {
        Some(all[0].text)
    } else {
        refinement(all.drop_first(), property, id)
    }
}

pub open spec fn is_series_type(value: Seq<char>) -> bool {
    same_but_case(trim(value), "series"@)
}

/// The collection of this identifier is a series.
pub open spec fn is_series_collection(all: Seq<MetaModel>, id: Option<Seq<char>>) -> bool {
    match id {
        Some(inner) => match refinement(all, "collection-type"@, inner) {
            Some(value) => is_series_type(value),
            None => false,
        },
        None => false,
    }
}

/// The collection of this identifier is something else than a series, such as a
/// set. The identifier that a series is written with is that of a series.
pub open spec fn is_other_collection(all: Seq<MetaModel>, id: Option<Seq<char>>) -> bool {
    match id {
        Some(inner) => inner != "epub-mgr-series"@ && match refinement(
            all,
            "collection-type"@,
            inner,
        ) {
            Some(value) => !is_series_type(value),
            None => false,
        },
        None => false,
    }
}

pub open spec fn has(value: Option<Seq<char>>, part: Seq<char>) -> bool {
    match value {
        Some(inner) => contains(inner, part),
        None => false,
    }
}

/// An element says something of a series: Calibre's notes do, and so do collections
/// and what refines them, unless they are something else.
pub open spec fn tells_of_series(all: Seq<MetaModel>, meta: MetaModel) -> bool {
    ||| has(meta.name, "calibre:series"@)
    ||| has(meta.property, "belongs-to-collection"@) && !is_other_collection(all, meta.id)
    ||| (has(meta.property, "collection-type"@) || has(meta.property, "group-position"@))
        && !is_other_collection(all, meta.subject())
}

/// The text names an element that says something of a series.
pub open spec fn mentions_series(s: Seq<char>) -> bool {
    ||| contains(s, "calibre:series"@)
    ||| contains(s, "belongs-to-collection"@)
    ||| contains(s, "collection-type"@)
    ||| contains(s, "group-position"@)
}

/// The lines of a text that name no element that says something of a series.
pub open spec fn other_lines(s: Seq<char>) -> Seq<char>
    decreases s.len(),
{
    let end = position(s, |c: char| c == '\n', 0) + 1;
    if end <= 0 || end >= s.len() {
        if mentions_series(s) {
            Seq::empty()
        } else {
            s
        }
    } else if mentions_series(s.take(end)) {
        other_lines(s.skip(end))
    } else {
        s.take(end) + other_lines(s.skip(end))
    }
}

/// A comment of this text, if it is one; nothing where the text is blank.
pub open spec fn comment_of(text: Seq<char>) -> Seq<char> {
    let comment = "<!--"@ + text + "-->"@;
    if is_blank(text) || piece(comment, 0) != Some(comment.len() as int) {
        Seq::empty()
    } else {
        comment
    }
}

/// What at `at` is about a series: where it ends, and what takes its place. An
/// element that says something of a series goes; a comment loses the lines that
/// name one.
pub open spec fn taken_out(s: Seq<char>, at: int) -> Option<(int, Seq<char>)> {
    if is_comment(s, at) {
        match piece(s, at) {
            Some(end) => {
                let text = s.subrange(at + 4, end - 3);
                if other_lines(text) == text {
                    None
                } else {
                    Some((end, comment_of(other_lines(text))))
                }
            },
            None => None,
        }
    } else if is_meta(s, at) && tells_of_series(metas(s, 0), meta_at(s, at)) {
        Some((element_at(s, at)->0.end, Seq::empty()))
    } else {
        None
    }
}

pub open spec fn is_line_blank(c: char) -> bool {
    c == ' ' || c == '\t' || c == '\r'
}

/// A text without the blanks at its end.
pub open spec fn without_blanks(s: Seq<char>) -> Seq<char> {
    trim_end(s, |c: char| is_line_blank(c))
}

/// The last line of a text is blank.
pub open spec fn ends_in_blank_line(s: Seq<char>) -> bool {
    without_blanks(s).len() == 0 || without_blanks(s).last() == '\n'
}

/// Where the next line starts, if the rest of the line from `from` on is blank.
pub open spec fn line_rest(s: Seq<char>, from: int) -> Option<int> {
    let next = position(s, |c: char| !is_line_blank(c), from);
    if next >= s.len() {
        Some(next)
    } else if s[next] == '\n' {
        Some(next + 1)
    } else {
        None
    }
}

/// What is kept of a text, of which `out` is kept up to `at`.
pub open spec fn kept(s: Seq<char>, at: int, out: Seq<char>) -> Seq<char>
    decreases s.len() - at,
{
    if at < 0 || at >= s.len() {
        out
    } else {
        match taken_out(s, at) {
            Some((end, left)) => if !(at < end <= s.len()) {
                out
            } else if left.len() == 0 && ends_in_blank_line(out) && line_rest(s, end) is Some {
                let next = line_rest(s, end)->0;
                if !(end <= next <= s.len()) {
                    out
                } else {
                    kept(s, next, without_blanks(out))
                }
            } else {
                kept(s, end, out + left)
            },
            None => {
                let next = next_piece(s, at);
                if !(at < next <= s.len()) {
                    out
                } else {
                    kept(s, next, out + s.subrange(at, next))
                }
            },
        }
    }
}

/// A text without what is about a series. A line that holds nothing else goes, too.
pub open spec fn without_series(s: Seq<char>) -> Seq<char>
    decreases s.len(),
{
    let left = kept(s, 0, Seq::empty());
    if left.len() < s.len() {
        without_series(left)
    } else {
        s
    }
}

/// A series and the place in it, as a text has them.
pub struct SeriesText {
    pub series: Seq<char>,
    pub index: Option<Seq<char>>,
}

pub open spec fn meaningful_text(value: Option<Seq<char>>) -> Option<Seq<char>> {
    match value {
        Some(inner) => if is_blank(inner) {
            None
        } else {
            Some(trim(inner))
        },
        None => None,
    }
}

/// An element is a collection that is a series and has a name.
pub open spec fn names_series(all: Seq<MetaModel>, meta: MetaModel) -> bool {
    &&& meta.property == Some("belongs-to-collection"@)
    &&& is_series_collection(all, meta.id)
    &&& !is_blank(meta.text)
}

/// The first collection, `from` or later, that is a series.
pub open spec fn collection_from(all: Seq<MetaModel>, from: int) -> Option<SeriesText>
    decreases all.len() - from,
{
    if from < 0 || from >= all.len() {
        None
    } else if names_series(all, all[from]) {
        Some(
            SeriesText {
                series: trim(all[from].text),
                index: meaningful_text(refinement(all, "group-position"@, all[from].id->0)),
            },
        )
    } else {
        collection_from(all, from + 1)
    }
}

/// The content of the first note of a name.
pub open spec fn note(all: Seq<MetaModel>, name: Seq<char>) -> Option<Seq<char>>
    decreases all.len(),
{
    if all.len() == 0 {
        None
    } else if all[0].name == Some(name) && all[0].content is Some {
        all[0].content
    } else {
        note(all.drop_first(), name)
    }
}

/// The series that elements name: the first collection that is one, else what
/// Calibre has noted.
pub open spec fn series_of(all: Seq<MetaModel>) -> Option<SeriesText> {
    match collection_from(all, 0) {
        Some(found) => Some(found),
        None => match meaningful_text(note(all, "calibre:series"@)) {
            Some(series) => Some(
                SeriesText { series, index: meaningful_text(note(all, "calibre:series_index"@)) },
            ),
            None => None,
        },
    }
}

/// The series that a text names.
pub open spec fn existing_series(s: Seq<char>) -> Option<SeriesText> {
    series_of(metas(s, 0))
}

/// An element is not empty, and what takes the place of a comment is shorter.
proof fn taken_out_bounds(s: Seq<char>, at: int)
    requires
        taken_out(s, at) is Some,
    ensures
        ({
            let (end, left) = taken_out(s, at)->0;
            0 <= at < end <= s.len() && left.len() < end - at
        }),
{
    if is_comment(s, at) {
        reveal_strlit("<!--");
        reveal_strlit("-->");
        piece_bounds(s, at);
        let part = s.subrange(at, at + 4);
        assert(part[0] == '<' && part[1] == '!' && part[2] == '-' && part[3] == '-');
        assert(s[at] == '<');
        find_bounds(s, "-->"@, at + 4);
        let end = piece(s, at)->0;
        other_lines_length(s.subrange(at + 4, end - 3));
    } else {
        element_bounds(s, at);
    }
}

proof fn other_lines_length(s: Seq<char>)
    ensures
        other_lines(s).len() <= s.len(),
        other_lines(s).len() == s.len() ==> other_lines(s) == s,
    decreases s.len(),
{
    position_bounds(s, |c: char| c == '\n', 0);
    let end = position(s, |c: char| c == '\n', 0) + 1;
    if end < s.len() {
        other_lines_length(s.skip(end));
        assert(s.take(end) + s.skip(end) =~= s);
    }
}

proof fn without_blanks_length(s: Seq<char>)
    ensures
        without_blanks(s).len() <= s.len(),
        without_blanks(s) == s.take(without_blanks(s).len() as int),
        forall|i: int| without_blanks(s).len() <= i < s.len() ==> is_line_blank(#[trigger] s[i]),
    decreases s.len(),
{
    let f = |c: char| is_line_blank(c);
    if s.len() > 0 && f(s.last()) {
        without_blanks_length(s.drop_last());
        let n = without_blanks(s).len() as int;
        assert(s.drop_last().take(n) =~= s.take(n));
        assert forall|i: int| n <= i < s.len() implies is_line_blank(#[trigger] s[i]) by {
            if i < s.len() - 1 {
                assert(s.drop_last()[i] == s[i]);
            }
        }
    } else {
        assert(s.take(s.len() as int) =~= s);
    }
}

proof fn line_rest_bounds(s: Seq<char>, from: int)
    requires
        0 <= from <= s.len(),
        line_rest(s, from) is Some,
    ensures
        from <= line_rest(s, from)->0 <= s.len(),
        forall|i: int| from <= i < line_rest(s, from)->0 ==> is_line_blank(#[trigger] s[i]) || s[i] == '\n',
{
    let f = |c: char| !is_line_blank(c);
    position_bounds(s, f, from);
    assert forall|i: int| from <= i < line_rest(s, from)->0 implies is_line_blank(#[trigger] s[i]) || s[i]
        == '\n' by {
        if i < position(s, f, from) {
            assert(!f(s[i]));
        }
    }
}

proof fn kept_length(s: Seq<char>, at: int, out: Seq<char>)
    requires
        0 <= at <= s.len(),
    ensures
        kept(s, at, out).len() <= out.len() + s.len() - at,
        kept(s, at, out).len() == out.len() + s.len() - at ==> forall|i: int|
            is_reached(s, at, i) ==> #[trigger] taken_out(s, i) is None,
    decreases s.len() - at,
{
    if at < s.len() {
        match taken_out(s, at) {
            Some((end, left)) => {
                taken_out_bounds(s, at);
                without_blanks_length(out);
                if left.len() == 0 && ends_in_blank_line(out) && line_rest(s, end) is Some {
                    line_rest_bounds(s, end);
                    kept_length(s, line_rest(s, end)->0, without_blanks(out));
                } else {
                    kept_length(s, end, out + left);
                }
            },
            None => {
                next_piece_bounds(s, at);
                let next = next_piece(s, at);
                kept_length(s, next, out + s.subrange(at, next));
            },
        }
    } else {
        assert forall|i: int| is_reached(s, at, i) implies #[trigger] taken_out(s, i) is None by {
            if taken_out(s, i) is Some {
                taken_out_bounds(s, i);
            }
        }
    }
}

/// Once what is about a series is taken out, nothing is left of it: no element that
/// says something of one, and no line of a comment that names one.
pub proof fn series_metadata_is_gone(s: Seq<char>)
    ensures
        forall|at: int|
            is_reached(without_series(s), 0, at) ==> #[trigger] taken_out(without_series(s), at) is None,
    decreases s.len(),
{
    let left = kept(s, 0, Seq::empty());
    kept_length(s, 0, Seq::empty());
    if left.len() < s.len() {
        series_metadata_is_gone(left);
    }
}

proof fn plain_text_in_context(x: Seq<char>, p: int, q: int, from: int, inner: nat, to: int)
    requires
        0 <= p <= q <= x.len(),
        0 <= from,
        content_end(x.subrange(p, q), from, inner) == Some(to),
    ensures
        plain_text(x, p + from, p + to) == plain_text(x.subrange(p, q), from, to),
    decreases q - p - from,
{
    let part = x.subrange(p, q);
    content_end_bounds(part, from, inner);
    piece_in_context(x, p, q, from);
    piece_bounds(part, from);
    let end = piece(part, from)->0;
    assert(part[from] == x[p + from]);
    if from < to {
        if is_end_tag(part, from) {
            plain_text_in_context(x, p, q, end, (inner - 1) as nat, to);
        } else if opens(part, from, end) {
            plain_text_in_context(x, p, q, end, inner + 1, to);
        } else {
            plain_text_in_context(x, p, q, end, inner, to);
        }
        reveal_strlit("<![CDATA[");
        if from + 9 <= part.len() {
            assert(part.subrange(from, from + 9) =~= x.subrange(p + from, p + from + 9));
        } else if is_character_data(x, p + from) {
            assert(p + end - p - from < 12);
        }
        if is_character_data(part, from) && from + 12 <= end {
            assert(part.subrange(from + 9, end - 3) =~= x.subrange(p + from + 9, p + end - 3));
        }
    }
}

/// An element of a part in which all elements are closed is the same in whatever
/// text it stands.
proof fn meta_in_context(x: Seq<char>, p: int, q: int, k: int, open: nat)
    requires
        0 <= p <= q <= x.len(),
        0 <= k <= q - p,
        open_elements(x.subrange(p, q), k, open) == Some(0nat),
        is_start_tag(x.subrange(p, q), k),
    ensures
        element_at(x.subrange(p, q), k) is Some,
        element_at(x, p + k) is Some,
        element_at(x, p + k)->0.end == p + element_at(x.subrange(p, q), k)->0.end,
        open_elements(x.subrange(p, q), element_at(x.subrange(p, q), k)->0.end, open) == Some(0nat),
        is_meta(x, p + k) == is_meta(x.subrange(p, q), k),
        is_meta(x, p + k) ==> meta_at(x, p + k) == meta_at(x.subrange(p, q), k),
{
    let part = x.subrange(p, q);
    let end = piece(part, k)->0;
    if opens(part, k, end) {
        elements_are_closed(part, end, 0, open, 0);
    }
    element_in_context(x, p, q, k, "meta"@);
    element_bounds(part, k);
    let inside = element_at(part, k)->0;
    assert(part.subrange(k, inside.tag_end) =~= x.subrange(p + k, p + inside.tag_end));
    if opens(part, k, end) {
        plain_text_in_context(x, p, q, end, 0, inside.content_end);
    }
}

/// The `meta` elements of a part in which all elements are closed are the same in
/// whatever text it stands.
proof fn metas_in_context(x: Seq<char>, p: int, q: int, k: int, open: nat)
    requires
        0 <= p <= q <= x.len(),
        0 <= k <= q - p,
        open_elements(x.subrange(p, q), k, open) == Some(0nat),
    ensures
        metas(x, p + k) == metas(x.subrange(p, q), k) + metas(x, q),
    decreases q - p - k,
{
    let part = x.subrange(p, q);
    if k < part.len() {
        piece_in_context(x, p, q, k);
        piece_bounds(part, k);
        let end = piece(part, k)->0;
        assert(part[k] == x[p + k]);
        assert(part[k] == '<' ==> part[k + 1] == x[p + k + 1] && part[end - 2] == x[p + end - 2]);
        if is_end_tag(part, k) {
            metas_in_context(x, p, q, end, (open - 1) as nat);
        } else if opens(part, k, end) {
            metas_in_context(x, p, q, end, open + 1);
        } else {
            metas_in_context(x, p, q, end, open);
        }
        if is_start_tag(part, k) {
            meta_in_context(x, p, q, k, open);
        }
        let more = metas(part, end);
        let rest = metas(x, q);
        if is_meta(part, k) {
            assert(seq![meta_at(part, k)] + (more + rest) =~= (seq![meta_at(part, k)] + more)
                + rest);
        }
    } else {
        assert(metas(part, k) + metas(x, q) =~= metas(x, q));
    }
}

/// The `meta` elements of two texts, one after the other, are those of the first
/// and then those of the second.
pub proof fn metas_of_both(a: Seq<char>, b: Seq<char>)
    requires
        is_balanced(a),
        is_balanced(b),
    ensures
        is_balanced(a + b),
        metas(a + b, 0) == metas(a, 0) + metas(b, 0),
{
    let x = a + b;
    let n = a.len() as int;
    assert(x.subrange(0, n) =~= a);
    assert(x.subrange(n, x.len() as int) =~= b);
    open_elements_of_both(a, b, 0);
    metas_in_context(x, 0, n, 0, 0);
    metas_in_context(x, n, x.len() as int, 0, 0);
    assert(metas(b, 0) + metas(x, x.len() as int) =~= metas(b, 0));
}

/// Every `meta` element starts where the walk comes to.
proof fn metas_are_reached(s: Seq<char>, from: int, i: int) -> (at: int)
    requires
        0 <= from,
        0 <= i < metas(s, from).len(),
    ensures
        is_reached(s, from, at),
        is_meta(s, at),
        meta_at(s, at) == metas(s, from)[i],
    decreases s.len() - from,
{
    let next = next_piece(s, from);
    if is_meta(s, from) {
        if i == 0 {
            from
        } else {
            let at = metas_are_reached(s, next, i - 1);
            reached_bounds(s, next, at);
            at
        }
    } else {
        let at = metas_are_reached(s, next, i);
        reached_bounds(s, next, at);
        at
    }
}

proof fn reached_bounds(s: Seq<char>, from: int, at: int)
    requires
        is_reached(s, from, at),
    ensures
        from <= at,
    decreases s.len() - from,
{
}

/// Once what is about a series is taken out, no element says anything of one.
pub proof fn no_element_tells_of_series(s: Seq<char>)
    ensures
        forall|i: int|
            0 <= i < metas(without_series(s), 0).len() ==> !tells_of_series(
                metas(without_series(s), 0),
                #[trigger] metas(without_series(s), 0)[i],
            ),
{
    series_metadata_is_gone(s);
    let left = without_series(s);
    assert forall|i: int| 0 <= i < metas(left, 0).len() implies !tells_of_series(
        metas(left, 0),
        #[trigger] metas(left, 0)[i],
    ) by {
        let at = metas_are_reached(left, 0, i);
        assert(taken_out(left, at) is None);
        reveal_strlit("<!--");
        if is_comment(left, at) {
            assert(left.subrange(at, at + 4)[1] == left[at + 1]);
        }
    }
}

proof fn text_at_end_is_dropped(s: Seq<char>, n: int, k: int, open: nat)
    requires
        0 <= k <= n <= s.len(),
        forall|i: int| n <= i < s.len() ==> #[trigger] s[i] != '<' && s[i] != '>',
        open_elements(s, k, open) is Some,
    ensures
        open_elements(s.take(n), k, open) == open_elements(s, k, open),
    decreases n - k,
{
    let part = s.subrange(0, n);
    assert(part =~= s.take(n));
    if k < n {
        piece_in_context(s, 0, n, k);
        piece_bounds(s, k);
        let end = piece(s, k)->0;
        assert(part[k] == s[k]);
        assert(end <= n);
        assert(part[k] == '<' ==> part[k + 1] == s[k + 1] && part[end - 2] == s[end - 2]);
        if is_end_tag(s, k) {
            text_at_end_is_dropped(s, n, end, (open - 1) as nat);
        } else if opens(s, k, end) {
            text_at_end_is_dropped(s, n, end, open + 1);
        } else {
            text_at_end_is_dropped(s, n, end, open);
        }
    } else {
        text_is_passed(s, n, s.len() as int, open);
    }
}

/// How many elements are open behind a piece.
spec fn open_after(s: Seq<char>, at: int, end: int, open: nat) -> nat {
    if is_end_tag(s, at) {
        (open - 1) as nat
    } else if opens(s, at, end) {
        open + 1
    } else {
        open
    }
}

proof fn piece_is_counted(s: Seq<char>, at: int, out: Seq<char>, open: nat)
    requires
        piece(s, at) is Some,
        is_end_tag(s, at) ==> open > 0,
        open_elements(out, 0, 0) == Some(open),
    ensures
        open_elements(out + s.subrange(at, piece(s, at)->0), 0, 0) == Some(
            open_after(s, at, piece(s, at)->0, open),
        ),
{
    piece_bounds(s, at);
    let next = piece(s, at)->0;
    let part = s.subrange(at, next);
    piece_in_context(s, at, next, 0);
    assert(part[0] == s[at]);
    assert(part[0] == '<' ==> part[1] == s[at + 1] && part[next - at - 2] == s[next - 2]);
    let after = open_after(s, at, next, open);
    assert(open_elements(part, next - at, after) == Some(after));
    assert(open_elements(part, 0, open) == Some(after));
    open_elements_of_both(out, part, 0);
}

proof fn comment_is_counted(text: Seq<char>, out: Seq<char>, open: nat)
    requires
        open_elements(out, 0, 0) == Some(open),
    ensures
        open_elements(out + comment_of(text), 0, 0) == Some(open),
{
    reveal_strlit("<!--");
    let left = comment_of(text);
    if left.len() == 0 {
        assert(out + left =~= out);
    } else {
        assert(left[0] == '<' && left[1] == '!');
        assert(open_elements(left, left.len() as int, open) == Some(open));
        assert(open_elements(left, 0, open) == Some(open));
        open_elements_of_both(out, left, 0);
    }
}

proof fn left_is_counted(s: Seq<char>, at: int, out: Seq<char>, open: nat)
    requires
        taken_out(s, at) is Some,
        open_elements(out, 0, 0) == Some(open),
    ensures
        ({
            let (end, left) = taken_out(s, at)->0;
            open_elements(out + left, 0, 0) == Some(open)
        }),
        open_elements(without_blanks(out), 0, 0) == Some(open),
{
    if is_comment(s, at) {
        let end = piece(s, at)->0;
        comment_is_counted(other_lines(s.subrange(at + 4, end - 3)), out, open);
    } else {
        assert(out + Seq::<char>::empty() =~= out);
    }
    without_blanks_length(out);
    text_at_end_is_dropped(out, without_blanks(out).len() as int, 0, 0);
}

/// What is taken out is closed.
proof fn taken_out_is_closed(s: Seq<char>, at: int, open: nat)
    requires
        taken_out(s, at) is Some,
        open_elements(s, at, open) == Some(0nat),
    ensures
        ({
            let (end, left) = taken_out(s, at)->0;
            &&& open_elements(s, end, open) == Some(0nat)
            &&& line_rest(s, end) is Some ==> open_elements(s, line_rest(s, end)->0, open) == Some(
                0nat,
            )
        }),
{
    taken_out_bounds(s, at);
    piece_bounds(s, at);
    let (end, left) = taken_out(s, at)->0;
    let next = piece(s, at)->0;
    if is_comment(s, at) {
        reveal_strlit("<!--");
        let start = s.subrange(at, at + 4);
        assert(start[0] == s[at] && start[1] == s[at + 1]);
    } else if opens(s, at, next) {
        elements_are_closed(s, next, 0, open, 0);
    }
    if line_rest(s, end) is Some {
        line_rest_bounds(s, end);
        text_is_passed(s, end, line_rest(s, end)->0, open);
    }
}

proof fn kept_is_balanced(s: Seq<char>, at: int, out: Seq<char>, open: nat)
    requires
        0 <= at <= s.len(),
        open_elements(s, at, open) == Some(0nat),
        open_elements(out, 0, 0) == Some(open),
    ensures
        is_balanced(kept(s, at, out)),
    decreases s.len() - at,
{
    if at < s.len() {
        match taken_out(s, at) {
            Some((end, left)) => {
                taken_out_bounds(s, at);
                taken_out_is_closed(s, at, open);
                left_is_counted(s, at, out, open);
                if left.len() == 0 && ends_in_blank_line(out) && line_rest(s, end) is Some {
                    line_rest_bounds(s, end);
                    kept_is_balanced(s, line_rest(s, end)->0, without_blanks(out), open);
                } else {
                    kept_is_balanced(s, end, out + left, open);
                }
            },
            None => {
                piece_bounds(s, at);
                piece_is_counted(s, at, out, open);
                let next = piece(s, at)->0;
                kept_is_balanced(
                    s,
                    next,
                    out + s.subrange(at, next),
                    open_after(s, at, next, open),
                );
            },
        }
    }
}

/// Where all elements are closed, they still are once what is about a series is
/// taken out.
pub proof fn what_is_left_is_balanced(s: Seq<char>)
    requires
        is_balanced(s),
    ensures
        is_balanced(without_series(s)),
    decreases s.len(),
{
    let left = kept(s, 0, Seq::empty());
    if left.len() < s.len() {
        assert(open_elements(Seq::<char>::empty(), 0, 0) == Some(0nat));
        kept_is_balanced(s, 0, Seq::empty(), 0);
        what_is_left_is_balanced(left);
    }
}

/// An element may say something of a series.
pub open spec fn may_tell_of_series(meta: MetaModel) -> bool {
    ||| has(meta.name, "calibre:series"@)
    ||| has(meta.property, "belongs-to-collection"@)
    ||| has(meta.property, "collection-type"@)
    ||| has(meta.property, "group-position"@)
}

/// Elements, from the sign that opens the first to the sign that closes the last,
/// all of them closed, of which none can say anything of a series.
pub open spec fn is_other_markup(markup: Seq<char>) -> bool {
    &&& markup.len() > 0
    &&& markup[0] == '<'
    &&& markup.last() == '>'
    &&& is_balanced(markup)
    &&& forall|at: int|
        #[trigger] is_reached(markup, 0, at) ==> if is_comment(markup, at) {
            taken_out(markup, at) is None
        } else {
            is_meta(markup, at) ==> !may_tell_of_series(meta_at(markup, at))
        }
}

proof fn reached_further(s: Seq<char>, from: int, at: int)
    requires
        0 <= from,
        is_reached(s, from, at),
        0 <= at < s.len(),
    ensures
        is_reached(s, from, next_piece(s, at)),
    decreases s.len() - from,
{
    next_piece_bounds(s, at);
    reached_bounds(s, from, at);
    if from < at {
        reached_further(s, next_piece(s, from), at);
    } else {
        reveal_with_fuel(is_reached, 2);
    }
}

proof fn comment_in_context(x: Seq<char>, p: int, q: int, k: int)
    requires
        0 <= p <= q <= x.len(),
        0 <= k < q - p,
        piece(x.subrange(p, q), k) is Some,
    ensures
        is_comment(x, p + k) == is_comment(x.subrange(p, q), k),
        is_comment(x, p + k) ==> (taken_out(x, p + k) is None) == (taken_out(x.subrange(p, q), k)
            is None),
        is_comment(x, p + k) && taken_out(x, p + k) is Some ==> ({
            let (end, left) = taken_out(x, p + k)->0;
            taken_out(x.subrange(p, q), k) == Some((end - p, left))
        }),
{
    let part = x.subrange(p, q);
    reveal_strlit("<!--");
    reveal_strlit("-->");
    piece_in_context(x, p, q, k);
    piece_bounds(part, k);
    let end = piece(part, k)->0;
    if k + 4 <= part.len() {
        assert(part.subrange(k, k + 4) =~= x.subrange(p + k, p + k + 4));
    }
    if is_comment(x, p + k) {
        assert(x.subrange(p + k, p + k + 4)[0] == x[p + k]);
        find_bounds(x, "-->"@, p + k + 4);
        assert(part.subrange(k + 4, end - 3) =~= x.subrange(p + k + 4, p + end - 3));
    }
}

/// What is taken out of a part in which all elements are closed, and before other
/// markup, is closed in it.
proof fn taken_out_within(s: Seq<char>, n: int, at: int, open: nat)
    requires
        0 <= at < n < s.len(),
        s[n] == '<',
        open_elements(s.subrange(0, n), at, open) == Some(0nat),
        taken_out(s, at) is Some,
    ensures
        ({
            let (end, left) = taken_out(s, at)->0;
            &&& at < end <= n
            &&& open_elements(s.subrange(0, n), end, open) == Some(0nat)
            &&& line_rest(s, end) is Some ==> end <= line_rest(s, end)->0 <= n && open_elements(
                s.subrange(0, n),
                line_rest(s, end)->0,
                open,
            ) == Some(0nat)
        }),
{
    let part = s.subrange(0, n);
    let (end, left) = taken_out(s, at)->0;
    taken_out_bounds(s, at);
    piece_in_context(s, 0, n, at);
    piece_bounds(part, at);
    comment_in_context(s, 0, n, at);
    assert(part[at] == s[at]);
    assert(part[at] == '<' ==> part[at + 1] == s[at + 1]);
    if is_comment(s, at) {
        reveal_strlit("<!--");
        let start = s.subrange(at, at + 4);
        assert(start[0] == s[at] && start[1] == s[at + 1]);
    } else {
        meta_in_context(s, 0, n, at, open);
        element_bounds(part, at);
    }
    if line_rest(s, end) is Some {
        let rest = line_rest(s, end)->0;
        line_rest_bounds(s, end);
        assert(rest <= n) by {
            if rest > n {
                assert(is_line_blank(s[n]) || s[n] == '\n');
            }
        }
        assert forall|i: int| end <= i < rest implies #[trigger] part[i] != '<' by {
            assert(part[i] == s[i]);
        }
        text_is_passed(part, end, rest, open);
    }
}

proof fn piece_within(s: Seq<char>, n: int, at: int, open: nat)
    requires
        0 <= at < n <= s.len(),
        open_elements(s.subrange(0, n), at, open) == Some(0nat),
    ensures
        piece(s, at) is Some,
        at < piece(s, at)->0 <= n,
        is_end_tag(s, at) ==> open > 0,
        open_elements(
            s.subrange(0, n),
            piece(s, at)->0,
            open_after(s, at, piece(s, at)->0, open),
        ) == Some(0nat),
{
    let part = s.subrange(0, n);
    piece_in_context(s, 0, n, at);
    piece_bounds(part, at);
    let next = piece(part, at)->0;
    assert(part[at] == s[at]);
    assert(part[at] == '<' ==> part[at + 1] == s[at + 1] && part[next - 2] == s[next - 2]);
}

/// What is kept of a part in which all elements are closed, and before other markup.
proof fn kept_up_to(s: Seq<char>, n: int, at: int, out: Seq<char>, open: nat) -> (before: Seq<char>)
    requires
        0 <= at <= n < s.len(),
        s[n] == '<',
        open_elements(s.subrange(0, n), at, open) == Some(0nat),
        open_elements(out, 0, 0) == Some(open),
    ensures
        kept(s, at, out) == kept(s, n, before),
        is_balanced(before),
    decreases n - at,
{
    if at == n {
        let part = s.subrange(0, n);
        assert(open_elements(part, n, open) == Some(open));
        out
    } else {
        match taken_out(s, at) {
            Some((end, left)) => {
                taken_out_within(s, n, at, open);
                left_is_counted(s, at, out, open);
                if left.len() == 0 && ends_in_blank_line(out) && line_rest(s, end) is Some {
                    kept_up_to(s, n, line_rest(s, end)->0, without_blanks(out), open)
                } else {
                    kept_up_to(s, n, end, out + left, open)
                }
            },
            None => {
                piece_within(s, n, at, open);
                piece_is_counted(s, at, out, open);
                let next = piece(s, at)->0;
                kept_up_to(
                    s,
                    n,
                    next,
                    out + s.subrange(at, next),
                    open_after(s, at, next, open),
                )
            },
        }
    }
}

#[verifier::opaque]
spec fn is_other_part(s: Seq<char>, n: int, m: int) -> bool {
    is_other_markup(s.subrange(n, m))
}

proof fn nothing_is_taken_out(s: Seq<char>, n: int, m: int, k: int, open: nat)
    requires
        0 <= n <= m <= s.len(),
        is_other_part(s, n, m),
        0 <= k < m - n,
        is_reached(s.subrange(n, m), 0, k),
        open_elements(s.subrange(n, m), k, open) == Some(0nat),
    ensures
        taken_out(s, n + k) is None,
        next_piece(s, n + k) == n + piece(s.subrange(n, m), k)->0,
{
    reveal(is_other_part);
    let part = s.subrange(n, m);
    piece_in_context(s, n, m, k);
    piece_bounds(part, k);
    comment_in_context(s, n, m, k);
    assert(part[k] == s[n + k]);
    assert(part[k] == '<' ==> part[k + 1] == s[n + k + 1]);
    if is_start_tag(part, k) {
        meta_in_context(s, n, m, k, open);
    }
}

/// Other markup is kept as it is.
proof fn markup_is_passed(s: Seq<char>, n: int, m: int, k: int, out: Seq<char>, open: nat)
    requires
        0 <= n <= m <= s.len(),
        is_other_part(s, n, m),
        0 <= k <= m - n,
        is_reached(s.subrange(n, m), 0, k),
        open_elements(s.subrange(n, m), k, open) == Some(0nat),
    ensures
        kept(s, n + k, out) == kept(s, m, out + s.subrange(n + k, m)),
    decreases m - n - k,
{
    let part = s.subrange(n, m);
    if k == m - n {
        assert(out + s.subrange(n + k, m) =~= out);
    } else {
        piece_bounds(part, k);
        nothing_is_taken_out(s, n, m, k, open);
        reached_further(part, 0, k);
        let end = piece(part, k)->0;
        let more = out + s.subrange(n + k, n + end);
        let after: nat = if is_end_tag(part, k) {
            (open - 1) as nat
        } else if opens(part, k, end) {
            open + 1
        } else {
            open
        };
        markup_is_passed(s, n, m, end, more, after);
        assert(kept(s, n + k, out) == kept(s, n + end, more));
        assert(more + s.subrange(n + end, m) =~= out + s.subrange(n + k, m));
    }
}

/// What is kept up to something that is no blank stays.
proof fn kept_starts_with(s: Seq<char>, at: int, out: Seq<char>, n: int)
    requires
        0 <= at <= s.len(),
        0 < n <= out.len(),
        !is_line_blank(out[n - 1]),
    ensures
        n <= kept(s, at, out).len(),
        kept(s, at, out).take(n) == out.take(n),
    decreases s.len() - at,
{
    if at < s.len() {
        match taken_out(s, at) {
            Some((end, left)) => {
                taken_out_bounds(s, at);
                if left.len() == 0 && ends_in_blank_line(out) && line_rest(s, end) is Some {
                    line_rest_bounds(s, end);
                    without_blanks_length(out);
                    let bare = without_blanks(out);
                    assert(n <= bare.len());
                    kept_starts_with(s, line_rest(s, end)->0, bare, n);
                    assert(bare.take(n) =~= out.take(n));
                } else {
                    kept_starts_with(s, end, out + left, n);
                    assert((out + left).take(n) =~= out.take(n));
                }
            },
            None => {
                next_piece_bounds(s, at);
                let next = next_piece(s, at);
                let more = out + s.subrange(at, next);
                kept_starts_with(s, next, more, n);
                assert(more.take(n) =~= out.take(n));
            },
        }
    }
}

proof fn kept_around(s: Seq<char>, n: int, m: int) -> (start: Seq<char>)
    requires
        0 <= n <= m <= s.len(),
        is_balanced(s.subrange(0, n)),
        is_other_markup(s.subrange(n, m)),
    ensures
        is_balanced(start),
        stands_at(kept(s, 0, Seq::empty()), s.subrange(n, m), start.len() as int),
        kept(s, 0, Seq::empty()).take(start.len() as int) == start,
{
    let markup = s.subrange(n, m);
    let left = kept(s, 0, Seq::empty());
    assert(open_elements(Seq::<char>::empty(), 0, 0) == Some(0nat));
    assert(s[n] == markup[0]);
    let start = kept_up_to(s, n, 0, Seq::empty(), 0);
    assert(is_other_part(s, n, m)) by {
        reveal(is_other_part);
    }
    markup_is_passed(s, n, m, 0, start, 0);
    let out = start + markup;
    assert(out[out.len() - 1] == markup.last());
    kept_starts_with(s, m, out, out.len() as int);
    assert(left.take(out.len() as int) == out);
    assert(left.subrange(start.len() as int, out.len() as int) =~= left.take(
        out.len() as int,
    ).skip(start.len() as int));
    assert(out.skip(start.len() as int) =~= markup);
    assert(left.take(start.len() as int) =~= left.take(out.len() as int).take(start.len() as int));
    assert(out.take(start.len() as int) =~= start);
    start
}

proof fn markup_is_kept(s: Seq<char>, n: int, m: int)
    requires
        0 <= n <= m <= s.len(),
        is_balanced(s.subrange(0, n)),
        is_other_markup(s.subrange(n, m)),
    ensures
        contains(without_series(s), s.subrange(n, m)),
    decreases s.len(),
{
    let markup = s.subrange(n, m);
    let left = kept(s, 0, Seq::empty());
    if left.len() < s.len() {
        let start = kept_around(s, n, m);
        let at = start.len() as int;
        assert(left.subrange(0, at) =~= start);
        assert(left.subrange(at, at + markup.len()) == markup);
        markup_is_kept(left, at, at + markup.len());
    } else {
        find_bounds(s, markup, 0);
        assert(stands_at(s, markup, n));
    }
}

/// Elements that can say nothing of a series are kept where the series is taken out,
/// on whatever line they stand: a title, say, or an identifier. What stands before
/// them has to be closed, so that they stand in no element that is about a series.
pub proof fn other_markup_is_kept(before: Seq<char>, markup: Seq<char>, after: Seq<char>)
    requires
        is_balanced(before),
        is_other_markup(markup),
    ensures
        contains(without_series(before + markup + after), markup),
{
    let s = before + markup + after;
    let n = before.len() as int;
    let m = n + markup.len();
    assert(s.subrange(0, n) =~= before);
    assert(s.subrange(n, m) =~= markup);
    markup_is_kept(s, n, m);
}

/// A closing tag as it is written: the sign that ends it is its last.
pub open spec fn is_closing_tag(tag: Seq<char>) -> bool {
    &&& tag.len() > 3
    &&& tag[0] == '<'
    &&& tag[1] == '/'
    &&& tag[tag.len() - 2] != '-'
    &&& tag.last() == '>'
    &&& forall|i: int|
        1 <= i < tag.len() - 1 ==> #[trigger] tag[i] != '<' && tag[i] != '>' && tag[i] != '\n'
}

/// In markup in which all is closed, a sign that opens something is followed by one
/// that closes.
proof fn signs_are_closed(s: Seq<char>, from: int, open: nat, k: int) -> (j: int)
    requires
        0 <= from <= k < s.len(),
        open_elements(s, from, open) is Some,
        s[k] == '<',
    ensures
        k < j < s.len(),
        s[j] == '>',
    decreases s.len() - from,
{
    piece_bounds(s, from);
    let end = piece(s, from)->0;
    if k < end {
        end - 1
    } else if is_end_tag(s, from) {
        signs_are_closed(s, end, (open - 1) as nat, k)
    } else if opens(s, from, end) {
        signs_are_closed(s, end, open + 1, k)
    } else {
        signs_are_closed(s, end, open, k)
    }
}

proof fn stands_in_both(a: Seq<char>, b: Seq<char>, tag: Seq<char>, k: int)
    requires
        0 <= k,
        stands_at(a + b, tag, k),
    ensures
        k + tag.len() <= a.len() ==> stands_at(a, tag, k),
        k >= a.len() ==> stands_at(b, tag, k - a.len()),
{
    let x = a + b;
    if k + tag.len() <= a.len() {
        assert(a.subrange(k, k + tag.len()) =~= x.subrange(k, k + tag.len()));
    }
    if k >= a.len() {
        let m = k - a.len();
        assert(b.subrange(m, m + tag.len()) =~= x.subrange(k, k + tag.len()));
    }
}

/// A closing tag that stands neither in markup in which all is closed nor in what
/// follows it stands nowhere in both.
pub proof fn no_tag_between(a: Seq<char>, b: Seq<char>, tag: Seq<char>, open: nat)
    requires
        is_closing_tag(tag),
        open_elements(a, 0, open) is Some,
        !contains(a, tag),
        !contains(b, tag),
    ensures
        !contains(a + b, tag),
{
    let x = a + b;
    find_bounds(a, tag, 0);
    find_bounds(b, tag, 0);
    find_bounds(x, tag, 0);
    if contains(x, tag) {
        let k = find(x, tag, 0)->0;
        stands_in_both(a, b, tag, k);
        assert(k < a.len() < k + tag.len());
        let all = x.subrange(k, k + tag.len());
        assert(all[0] == x[k] && x[k] == a[k]);
        let j = signs_are_closed(a, 0, open, k);
        assert(all[j - k] == x[j]);
    }
}

proof fn part_contains(s: Seq<char>, from: int, to: int, tag: Seq<char>)
    requires
        0 <= from <= to <= s.len(),
        contains(s.subrange(from, to), tag),
    ensures
        contains(s, tag),
{
    let part = s.subrange(from, to);
    find_bounds(part, tag, 0);
    find_bounds(s, tag, 0);
    let k = find(part, tag, 0)->0;
    assert(part.subrange(k, k + tag.len()) =~= s.subrange(from + k, from + k + tag.len()));
    assert(stands_at(s, tag, from + k));
}

/// Lines that are left of a text hold no closing tag that it does not hold.
proof fn other_lines_hold(s: Seq<char>, tag: Seq<char>)
    requires
        is_closing_tag(tag),
        contains(other_lines(s), tag),
    ensures
        contains(s, tag),
    decreases s.len(),
{
    let f = |c: char| c == '\n';
    position_bounds(s, f, 0);
    let end = position(s, f, 0) + 1;
    if end < s.len() {
        let line = s.take(end);
        let rest = s.skip(end);
        assert(rest =~= s.subrange(end, s.len() as int));
        assert(line =~= s.subrange(0, end));
        if contains(other_lines(rest), tag) {
            other_lines_hold(rest, tag);
            part_contains(s, end, s.len() as int, tag);
        } else if contains(line, tag) {
            part_contains(s, 0, end, tag);
        } else {
            let both = line + other_lines(rest);
            find_bounds(both, tag, 0);
            find_bounds(line, tag, 0);
            find_bounds(other_lines(rest), tag, 0);
            let k = find(both, tag, 0)->0;
            stands_in_both(line, other_lines(rest), tag, k);
            let all = both.subrange(k, k + tag.len());
            assert(all[end - 1 - k] == both[end - 1]);
            assert(both[end - 1] == s[end - 1]);
            assert(f(s[end - 1]));
        }
    } else if mentions_series(s) {
        find_bounds(Seq::<char>::empty(), tag, 0);
    }
}

proof fn comments_hold(text: Seq<char>, tag: Seq<char>)
    requires
        is_closing_tag(tag),
        contains(comment_of(text), tag),
    ensures
        contains(text, tag),
{
    reveal_strlit("<!--");
    reveal_strlit("-->");
    let s = comment_of(text);
    find_bounds(s, tag, 0);
    let k = find(s, tag, 0)->0;
    let all = s.subrange(k, k + tag.len());
    let end: int = 4 + text.len() as int;
    assert(all[0] == s[k] && all[1] == s[k + 1]);
    assert(all[tag.len() - 1] == s[k + tag.len() - 1]);
    assert(all[tag.len() - 2] == s[k + tag.len() - 2]);
    assert(s.len() == end + 3);
    assert(s[0] == '<' && s[1] == '!' && s[2] == '-' && s[3] == '-');
    assert(s[end] == '-' && s[end + 1] == '-' && s[end + 2] == '>');
    assert(k >= 4);
    assert(k + tag.len() <= end) by {
        if k + tag.len() == end + 3 {
            assert(s[k + tag.len() - 2] == '-');
        }
    }
    assert(text =~= s.subrange(4, end));
    assert(text.subrange(k - 4, k - 4 + tag.len()) =~= all);
    find_bounds(text, tag, 0);
    assert(stands_at(text, tag, k - 4));
}

proof fn left_holds_no_tag(s: Seq<char>, at: int, tag: Seq<char>)
    requires
        is_closing_tag(tag),
        !contains(s, tag),
        taken_out(s, at) is Some,
    ensures
        ({
            let (end, left) = taken_out(s, at)->0;
            !contains(left, tag)
        }),
{
    let (end, left) = taken_out(s, at)->0;
    taken_out_bounds(s, at);
    if left.len() == 0 {
        find_bounds(left, tag, 0);
    } else if contains(left, tag) {
        reveal_strlit("<!--");
        reveal_strlit("-->");
        assert(s.subrange(at, at + 4)[0] == s[at]);
        find_bounds(s, "-->"@, at + 4);
        let text = s.subrange(at + 4, end - 3);
        comments_hold(other_lines(text), tag);
        other_lines_hold(text, tag);
        part_contains(s, at + 4, end - 3, tag);
    }
}

proof fn kept_holds_no_tag(s: Seq<char>, at: int, out: Seq<char>, open: nat, tag: Seq<char>)
    requires
        is_closing_tag(tag),
        0 <= at <= s.len(),
        open_elements(s, at, open) == Some(0nat),
        open_elements(out, 0, 0) == Some(open),
        !contains(s, tag),
        !contains(out, tag),
    ensures
        !contains(kept(s, at, out), tag),
    decreases s.len() - at,
{
    if at < s.len() {
        match taken_out(s, at) {
            Some((end, left)) => {
                taken_out_bounds(s, at);
                taken_out_is_closed(s, at, open);
                left_is_counted(s, at, out, open);
                if left.len() == 0 && ends_in_blank_line(out) && line_rest(s, end) is Some {
                    line_rest_bounds(s, end);
                    without_blanks_length(out);
                    let n = without_blanks(out).len() as int;
                    assert(out.take(n) =~= out.subrange(0, n));
                    if contains(without_blanks(out), tag) {
                        part_contains(out, 0, n, tag);
                    }
                    kept_holds_no_tag(s, line_rest(s, end)->0, without_blanks(out), open, tag);
                } else {
                    left_holds_no_tag(s, at, tag);
                    no_tag_between(out, left, tag, 0);
                    kept_holds_no_tag(s, end, out + left, open, tag);
                }
            },
            None => {
                piece_bounds(s, at);
                piece_is_counted(s, at, out, open);
                let next = piece(s, at)->0;
                let part = s.subrange(at, next);
                if contains(part, tag) {
                    part_contains(s, at, next, tag);
                }
                no_tag_between(out, part, tag, 0);
                kept_holds_no_tag(s, next, out + part, open_after(s, at, next, open), tag);
            },
        }
    }
}

/// A closing tag that does not stand in markup in which all is closed does not stand
/// in it once what is about a series is taken out.
pub proof fn what_is_left_holds_no_tag(s: Seq<char>, tag: Seq<char>)
    requires
        is_closing_tag(tag),
        is_balanced(s),
        !contains(s, tag),
    ensures
        !contains(without_series(s), tag),
    decreases s.len(),
{
    let left = kept(s, 0, Seq::empty());
    if left.len() < s.len() {
        let nothing = Seq::<char>::empty();
        assert(open_elements(nothing, 0, 0) == Some(0nat));
        find_bounds(nothing, tag, 0);
        kept_is_balanced(s, 0, nothing, 0);
        kept_holds_no_tag(s, 0, nothing, 0, tag);
        what_is_left_holds_no_tag(left, tag);
    }
}

pub open spec fn holds_no_tags(text: Seq<char>) -> bool {
    forall|i: int| 0 <= i < text.len() ==> #[trigger] text[i] != '<'
}

proof fn plain_text_holds_no_tags(s: Seq<char>, from: int, to: int)
    ensures
        holds_no_tags(plain_text(s, from, to)),
    decreases s.len() - from,
{
    let next = next_piece(s, from);
    if !(from < 0 || from >= to || !(from < next <= s.len())) {
        plain_text_holds_no_tags(s, next, to);
        if s[from] == '<' && is_character_data(s, from) && from + 12 <= next {
            escaped_text_is_inert(s.subrange(from + 9, next - 3));
        }
    }
}

proof fn trimmed_text_holds_no_tags(text: Seq<char>)
    requires
        holds_no_tags(text),
    ensures
        holds_no_tags(trim(text)),
{
    let (start, end) = trim_range(text, |c: char| is_space(c));
    assert forall|i: int| 0 <= i < trim(text).len() implies #[trigger] trim(text)[i] != '<' by {
        assert(trim(text)[i] == text[start + i]);
    }
}

proof fn metas_hold_no_tags(s: Seq<char>, i: int)
    requires
        0 <= i < metas(s, 0).len(),
    ensures
        holds_no_tags(metas(s, 0)[i].text),
        metas(s, 0)[i].content is Some ==> holds_no_tags(metas(s, 0)[i].content->0),
{
    let at = metas_are_reached(s, 0, i);
    let element = element_at(s, at)->0;
    plain_text_holds_no_tags(s, element.tag_end, element.content_end);
    reveal_strlit("<!--");
    reveal_strlit("<![CDATA[");
    reveal_strlit("<?");
    if is_comment(s, at) {
        assert(s.subrange(at, at + 4)[1] == s[at + 1]);
    }
    if is_character_data(s, at) {
        assert(s.subrange(at, at + 9)[1] == s[at + 1]);
    }
    if stands_at(s, "<?"@, at) {
        assert(s.subrange(at, at + 2)[1] == s[at + 1]);
    }
    tag_end_bounds(s, at + 1, None);
    let tag = s.subrange(at, element.tag_end);
    assert forall|k: int| 0 < k < tag.len() implies #[trigger] tag[k] != '<' by {
        assert(tag[k] == s[at + k]);
    }
    if meta_at(s, at).content is Some {
        attributes_hold_no_tags(tag, "content"@, 0, None);
    }
}

proof fn refinement_is_some_text(all: Seq<MetaModel>, property: Seq<char>, id: Seq<char>) -> (i: int)
    requires
        refinement(all, property, id) is Some,
    ensures
        0 <= i < all.len(),
        refinement(all, property, id) == Some(all[i].text),
    decreases all.len(),
{
    if all[0].property == Some(property) && all[0].subject() == Some(id) {
        0
    } else {
        let i = refinement_is_some_text(all.drop_first(), property, id);
        assert(all.drop_first()[i] == all[i + 1]);
        i + 1
    }
}

proof fn note_is_some_content(all: Seq<MetaModel>, name: Seq<char>) -> (i: int)
    requires
        note(all, name) is Some,
    ensures
        0 <= i < all.len(),
        note(all, name) == all[i].content,
    decreases all.len(),
{
    if all[0].name == Some(name) && all[0].content is Some {
        0
    } else {
        let i = note_is_some_content(all.drop_first(), name);
        assert(all.drop_first()[i] == all[i + 1]);
        i + 1
    }
}

proof fn collection_holds_no_tags(s: Seq<char>, from: int)
    requires
        0 <= from,
        collection_from(metas(s, 0), from) is Some,
    ensures
        holds_no_tags(collection_from(metas(s, 0), from)->0.series),
        collection_from(metas(s, 0), from)->0.index is Some ==> holds_no_tags(
            collection_from(metas(s, 0), from)->0.index->0,
        ),
    decreases metas(s, 0).len() - from,
{
    let all = metas(s, 0);
    if names_series(all, all[from]) {
        metas_hold_no_tags(s, from);
        trimmed_text_holds_no_tags(all[from].text);
        let index = refinement(all, "group-position"@, all[from].id->0);
        if index is Some {
            let i = refinement_is_some_text(all, "group-position"@, all[from].id->0);
            metas_hold_no_tags(s, i);
            trimmed_text_holds_no_tags(index->0);
        }
    } else {
        collection_holds_no_tags(s, from + 1);
    }
}

/// The series that a text names, and the place in it, hold no sign that opens a tag.
pub proof fn existing_series_holds_no_tags(s: Seq<char>)
    ensures
        match existing_series(s) {
            Some(found) => holds_no_tags(found.series) && (found.index is Some ==> holds_no_tags(
                found.index->0,
            )),
            None => true,
        },
{
    let all = metas(s, 0);
    if collection_from(all, 0) is Some {
        collection_holds_no_tags(s, 0);
    } else {
        let series = note(all, "calibre:series"@);
        let index = note(all, "calibre:series_index"@);
        if series is Some {
            let i = note_is_some_content(all, "calibre:series"@);
            metas_hold_no_tags(s, i);
            trimmed_text_holds_no_tags(series->0);
        }
        if index is Some {
            let i = note_is_some_content(all, "calibre:series_index"@);
            metas_hold_no_tags(s, i);
            trimmed_text_holds_no_tags(index->0);
        }
    }
}

fn find_meta(s: &[char], at: usize) -> (element: Option<Element>)
    ensures
        match element {
            Some(found) => is_meta(s@, at as int) && element_at(s@, at as int) == Some(found@),
            None => !is_meta(s@, at as int),
        },
{
    match find_element(s, at) {
        Some(element) => {
            proof {
                element_bounds(s@, at as int);
            }
            if has_name(s, at, "meta") {
                Some(element)
            } else {
                None
            }
        },
        None => None,
    }
}

fn find_plain_text(s: &[char], from: usize, to: usize) -> (text: Vec<char>)
    requires
        from <= to <= s@.len(),
    ensures
        text@ == plain_text(s@, from as int, to as int),
{
    let mut text: Vec<char> = Vec::new();
    let mut i: usize = from;
    assert(text@ + plain_text(s@, from as int, to as int) =~= plain_text(
        s@,
        from as int,
        to as int,
    ));
    while i < to
        invariant
            i <= s.len(),
            to <= s@.len(),
            plain_text(s@, from as int, to as int) == text@ + plain_text(s@, i as int, to as int),
        decreases s.len() - i,
    {
        let next = find_next_piece(s, i);
        let ghost rest = plain_text(s@, next as int, to as int);
        if s[i] != '<' {
            assert(text@ + (seq![s@[i as int]] + rest) =~= text@.push(s@[i as int]) + rest);
            text.push(s[i]);
        } else if starts_character_data(s, i) && next - i >= 12 {
            let data = escape_chars(slice_subrange(s, i + 9, next - 3));
            assert(text@ + (data@ + rest) =~= text@ + data@ + rest);
            push_chars(&mut text, data.as_slice());
        }
        i = next;
    }
    assert(text@ + Seq::<char>::empty() =~= text@);
    text
}

/// What a `meta` element says.
struct Meta {
    name: Option<Vec<char>>,
    content: Option<Vec<char>>,
    property: Option<Vec<char>>,
    id: Option<Vec<char>>,
    refines: Option<Vec<char>>,
    text: Vec<char>,
}

impl View for Meta {
    type V = MetaModel;

    closed spec fn view(&self) -> MetaModel {
        MetaModel {
            name: viewed(self.name),
            content: viewed(self.content),
            property: viewed(self.property),
            id: viewed(self.id),
            refines: viewed(self.refines),
            text: self.text@,
        }
    }
}

fn read_meta(s: &[char], at: usize, element: &Element) -> (meta: Meta)
    requires
        element_at(s@, at as int) == Some(element@),
    ensures
        meta@ == meta_at(s@, at as int),
{
    proof {
        element_bounds(s@, at as int);
    }
    let tag = slice_subrange(s, at, element.tag_end);
    Meta {
        name: find_attribute(tag, "name"),
        content: find_attribute(tag, "content"),
        property: find_attribute(tag, "property"),
        id: find_attribute(tag, "id"),
        refines: find_attribute(tag, "refines"),
        text: find_plain_text(s, element.tag_end, element.content_end),
    }
}

fn read_metas(s: &[char]) -> (all: Vec<Meta>)
    ensures
        views(all@) == metas(s@, 0),
{
    let mut all: Vec<Meta> = Vec::new();
    let mut i: usize = 0;
    assert(views(all@) + metas(s@, 0) =~= metas(s@, 0));
    while i < s.len()
        invariant
            i <= s.len(),
            metas(s@, 0) == views(all@) + metas(s@, i as int),
        decreases s.len() - i,
    {
        let next = find_next_piece(s, i);
        match find_meta(s, i) {
            Some(element) => {
                let meta = read_meta(s, i, &element);
                proof {
                    pushed_view(all@, meta);
                    let rest = metas(s@, next as int);
                    assert(views(all@) + (seq![meta@] + rest) =~= views(all@).push(meta@) + rest);
                }
                all.push(meta);
            },
            None => {},
        }
        i = next;
    }
    assert(views(all@) + Seq::<MetaModel>::empty() =~= views(all@));
    all
}

fn is_text(value: &Option<Vec<char>>, text: &str) -> (yes: bool)
    ensures
        yes == (viewed(*value) == Some(text@)),
{
    match value {
        Some(inner) => same_chars(inner.as_slice(), chars_of(text).as_slice()),
        None => false,
    }
}

fn has_text(value: &Option<Vec<char>>, part: &str) -> (yes: bool)
    ensures
        yes == has(viewed(*value), part@),
{
    match value {
        Some(inner) => contains_chars(inner.as_slice(), chars_of(part).as_slice()),
        None => false,
    }
}

fn copy_text(value: &Option<Vec<char>>) -> (copy: Option<Vec<char>>)
    ensures
        viewed(copy) == viewed(*value),
{
    match value {
        Some(inner) => Some(copy_chars(inner)),
        None => None,
    }
}

fn copy_chars(chars: &Vec<char>) -> (copy: Vec<char>)
    ensures
        copy@ == chars@,
{
    let mut copy: Vec<char> = Vec::new();
    push_chars(&mut copy, chars.as_slice());
    assert(copy@ =~= chars@);
    copy
}

fn referred_id(reference: &Vec<char>) -> (id: Vec<char>)
    ensures
        id@ == referred(reference@),
{
    let mut id: Vec<char> = Vec::new();
    if reference.len() > 0 && reference[0] == '#' {
        push_chars(&mut id, slice_subrange(reference.as_slice(), 1, reference.len()));
    } else {
        push_chars(&mut id, reference.as_slice());
    }
    assert(id@ =~= referred(reference@));
    id
}

impl Meta {
    fn subject_id(&self) -> (id: Option<Vec<char>>)
        ensures
            viewed(id) == self@.subject(),
    {
        match &self.refines {
            Some(reference) => Some(referred_id(reference)),
            None => None,
        }
    }
}

fn find_refinement(all: &Vec<Meta>, property: &str, id: &[char]) -> (value: Option<Vec<char>>)
    ensures
        viewed(value) == refinement(views(all@), property@, id@),
{
    let mut i: usize = 0;
    assert(views(all@).skip(0) =~= views(all@));
    while i < all.len()
        invariant
            i <= all.len(),
            refinement(views(all@), property@, id@) == refinement(
                views(all@).skip(i as int),
                property@,
                id@,
            ),
        decreases all.len() - i,
    {
        let meta = &all[i];
        assert(views(all@).skip(i as int)[0] == meta@);
        assert(views(all@).skip(i as int).drop_first() =~= views(all@).skip(i + 1));
        if is_text(&meta.property, property) {
            match meta.subject_id() {
                Some(subject) => {
                    if same_chars(subject.as_slice(), id) {
                        return Some(copy_chars(&meta.text));
                    }
                },
                None => {},
            }
        }
        i += 1;
    }
    None
}

fn names_series_type(value: &[char]) -> (yes: bool)
    ensures
        yes == is_series_type(value@),
{
    same_but_case_chars(trim_chars(value), chars_of("series").as_slice())
}

fn names_other_collection(all: &Vec<Meta>, id: &Option<Vec<char>>) -> (yes: bool)
    ensures
        yes == is_other_collection(views(all@), viewed(*id)),
{
    match id {
        Some(inner) => {
            if same_chars(inner.as_slice(), chars_of("epub-mgr-series").as_slice()) {
                return false;
            }
            match find_refinement(all, "collection-type", inner.as_slice()) {
                Some(value) => !names_series_type(value.as_slice()),
                None => false,
            }
        },
        None => false,
    }
}

fn says_something_of_series(all: &Vec<Meta>, meta: &Meta) -> (yes: bool)
    ensures
        yes == tells_of_series(views(all@), meta@),
{
    if has_text(&meta.name, "calibre:series") {
        return true;
    }
    if has_text(&meta.property, "belongs-to-collection") && !names_other_collection(all, &meta.id) {
        return true;
    }
    (has_text(&meta.property, "collection-type") || has_text(&meta.property, "group-position"))
        && !names_other_collection(all, &meta.subject_id())
}

fn names_series_element(s: &[char]) -> (yes: bool)
    ensures
        yes == mentions_series(s@),
{
    contains_chars(s, chars_of("calibre:series").as_slice()) || contains_chars(
        s,
        chars_of("belongs-to-collection").as_slice(),
    ) || contains_chars(s, chars_of("collection-type").as_slice()) || contains_chars(
        s,
        chars_of("group-position").as_slice(),
    )
}

fn keep_other_lines(s: &[char]) -> (out: Vec<char>)
    ensures
        out@ == other_lines(s@),
{
    let mut out: Vec<char> = Vec::new();
    let mut start: usize = 0;
    assert(s@.skip(0) =~= s@);
    assert(out@ + other_lines(s@) =~= other_lines(s@));
    loop
        invariant
            start <= s.len(),
            other_lines(s@) == out@ + other_lines(s@.skip(start as int)),
        decreases s.len() - start,
    {
        let rest = slice_subrange(s, start, s.len());
        assert(rest@ =~= s@.skip(start as int));
        proof {
            position_bounds(rest@, |c: char| c == '\n', 0);
        }
        let at = position_of(rest, '\n', 0);
        if at >= rest.len() || at + 1 >= rest.len() {
            if !names_series_element(rest) {
                push_chars(&mut out, rest);
            } else {
                assert(out@ + Seq::<char>::empty() =~= out@);
            }
            return out;
        }
        let line = slice_subrange(rest, 0, at + 1);
        assert(line@ =~= rest@.take(at + 1));
        let ghost more = other_lines(rest@.skip(at + 1));
        assert(rest@.skip(at + 1) =~= s@.skip(start + at + 1));
        if !names_series_element(line) {
            assert(out@ + (line@ + more) =~= out@ + line@ + more);
            push_chars(&mut out, line);
        }
        start = start + at + 1;
    }
}

fn make_comment(text: &[char]) -> (comment: Vec<char>)
    ensures
        comment@ == comment_of(text@),
{
    if trim_chars(text).len() == 0 {
        return Vec::new();
    }
    let mut comment = chars_of("<!--");
    push_chars(&mut comment, text);
    push_chars(&mut comment, chars_of("-->").as_slice());
    match find_piece(comment.as_slice(), 0) {
        Some(end) => if end == comment.len() {
            comment
        } else {
            Vec::new()
        },
        None => Vec::new(),
    }
}

fn find_taken_out(s: &[char], at: usize, all: &Vec<Meta>) -> (found: Option<
    (usize, Vec<char>),
>)
    requires
        views(all@) == metas(s@, 0),
    ensures
        match found {
            Some((end, left)) => taken_out(s@, at as int) == Some((end as int, left@)),
            None => taken_out(s@, at as int) is None,
        },
{
    if starts_comment(s, at) {
        return match find_piece(s, at) {
            Some(end) => {
                proof {
                    reveal_strlit("<!--");
                    reveal_strlit("-->");
                    assert(s@.subrange(at as int, at + 4)[0] == '<');
                    find_bounds(s@, "-->"@, at + 4);
                }
                let text = slice_subrange(s, at + 4, end - 3);
                let left = keep_other_lines(text);
                proof {
                    other_lines_length(text@);
                }
                if left.len() == text.len() {
                    None
                } else {
                    Some((end, make_comment(left.as_slice())))
                }
            },
            None => None,
        };
    }
    match find_meta(s, at) {
        Some(element) => {
            let meta = read_meta(s, at, &element);
            if says_something_of_series(all, &meta) {
                Some((element.end, Vec::new()))
            } else {
                None
            }
        },
        None => None,
    }
}

fn find_line_rest(s: &[char], from: usize) -> (next: Option<usize>)
    requires
        from <= s@.len(),
    ensures
        match next {
            Some(at) => line_rest(s@, from as int) == Some(at as int),
            None => line_rest(s@, from as int) is None,
        },
{
    let mut i: usize = from;
    while i < s.len() && (s[i] == ' ' || s[i] == '\t' || s[i] == '\r')
        invariant
            i <= s@.len(),
            position(s@, |c: char| !is_line_blank(c), from as int) == position(
                s@,
                |c: char| !is_line_blank(c),
                i as int,
            ),
        decreases s.len() - i,
    {
        i += 1;
    }
    if i >= s.len() {
        Some(i)
    } else if s[i] == '\n' {
        Some(i + 1)
    } else {
        None
    }
}

fn drop_blanks(s: &Vec<char>) -> (out: Vec<char>)
    ensures
        out@ == without_blanks(s@),
{
    let mut n: usize = s.len();
    assert(s@.take(n as int) =~= s@);
    while n > 0 && (s[n - 1] == ' ' || s[n - 1] == '\t' || s[n - 1] == '\r')
        invariant
            n <= s@.len(),
            without_blanks(s@) == without_blanks(s@.take(n as int)),
        decreases n,
    {
        assert(s@.take(n as int).drop_last() =~= s@.take(n - 1));
        n -= 1;
    }
    let mut out: Vec<char> = Vec::new();
    push_chars(&mut out, slice_subrange(s.as_slice(), 0, n));
    assert(out@ =~= s@.take(n as int));
    out
}

fn keep_others(s: &[char]) -> (out: Vec<char>)
    ensures
        out@ == kept(s@, 0, Seq::empty()),
{
    let all = read_metas(s);
    let mut out: Vec<char> = Vec::new();
    let mut at: usize = 0;
    while at < s.len()
        invariant
            at <= s.len(),
            views(all@) == metas(s@, 0),
            kept(s@, 0, Seq::empty()) == kept(s@, at as int, out@),
        decreases s.len() - at,
    {
        match find_taken_out(s, at, &all) {
            Some((end, left)) => {
                proof {
                    taken_out_bounds(s@, at as int);
                    if line_rest(s@, end as int) is Some {
                        line_rest_bounds(s@, end as int);
                    }
                }
                let rest = find_line_rest(s, end);
                let bare = drop_blanks(&out);
                if left.len() == 0 && (bare.len() == 0 || bare[bare.len() - 1] == '\n')
                    && rest.is_some() {
                    at = rest.unwrap();
                    out = bare;
                } else {
                    push_chars(&mut out, left.as_slice());
                    at = end;
                }
            },
            None => {
                let next = find_next_piece(s, at);
                push_chars(&mut out, slice_subrange(s, at, next));
                at = next;
            },
        }
    }
    out
}

/// A text without what is about a series: see
/// [`without_series`].
pub fn remove_existing_series_metadata(metadata: &Vec<char>) -> (out: Vec<char>)
    ensures
        out@ == without_series(metadata@),
{
    let mut out: Vec<char> = Vec::new();
    push_chars(&mut out, metadata.as_slice());
    assert(out@ =~= metadata@);
    loop
        invariant
            without_series(metadata@) == without_series(out@),
        decreases out@.len(),
    {
        let shorter = keep_others(out.as_slice());
        if shorter.len() >= out.len() {
            return out;
        }
        out = shorter;
    }
}

/// A series and the place in it, as a text has them.
pub struct ExistingSeries {
    pub series: Vec<char>,
    pub index: Option<Vec<char>>,
}

impl View for ExistingSeries {
    type V = SeriesText;

    open spec fn view(&self) -> SeriesText {
        SeriesText {
            series: self.series@,
            index: viewed(self.index),
        }
    }
}

fn trimmed_text(value: &Option<Vec<char>>) -> (out: Option<Vec<char>>)
    ensures
        viewed(out) == meaningful_text(viewed(*value)),
{
    match value {
        Some(inner) => {
            let text = trim_chars(inner.as_slice());
            if text.len() == 0 {
                None
            } else {
                let mut out: Vec<char> = Vec::new();
                push_chars(&mut out, text);
                assert(out@ =~= trim(inner@));
                Some(out)
            }
        },
        None => None,
    }
}

fn find_collection(all: &Vec<Meta>) -> (found: Option<ExistingSeries>)
    ensures
        viewed(found) == collection_from(views(all@), 0),
{
    let mut i: usize = 0;
    while i < all.len()
        invariant
            i <= all.len(),
            collection_from(views(all@), 0) == collection_from(views(all@), i as int),
        decreases all.len() - i,
    {
        let meta = &all[i];
        assert(views(all@)[i as int] == meta@);
        if is_text(&meta.property, "belongs-to-collection") {
            match &meta.id {
                Some(id) => {
                    let is_series = match find_refinement(all, "collection-type", id.as_slice()) {
                        Some(value) => names_series_type(value.as_slice()),
                        None => false,
                    };
                    let text = trim_chars(meta.text.as_slice());
                    if is_series && text.len() > 0 {
                        let mut series: Vec<char> = Vec::new();
                        push_chars(&mut series, text);
                        assert(series@ =~= trim(meta@.text));
                        let index = trimmed_text(
                            &find_refinement(all, "group-position", id.as_slice()),
                        );
                        return Some(ExistingSeries { series, index });
                    }
                },
                None => {},
            }
        }
        i += 1;
    }
    None
}

fn find_note(all: &Vec<Meta>, name: &str) -> (content: Option<Vec<char>>)
    ensures
        viewed(content) == note(views(all@), name@),
{
    let mut i: usize = 0;
    assert(views(all@).skip(0) =~= views(all@));
    while i < all.len()
        invariant
            i <= all.len(),
            note(views(all@), name@) == note(views(all@).skip(i as int), name@),
        decreases all.len() - i,
    {
        let meta = &all[i];
        assert(views(all@).skip(i as int)[0] == meta@);
        assert(views(all@).skip(i as int).drop_first() =~= views(all@).skip(i + 1));
        if is_text(&meta.name, name) && meta.content.is_some() {
            return copy_text(&meta.content);
        }
        i += 1;
    }
    None
}

/// The series that a text names: see [`existing_series`].
pub fn find_existing_series(s: &[char]) -> (found: Option<ExistingSeries>)
    ensures
        viewed(found) == existing_series(s@),
{
    let all = read_metas(s);
    match find_collection(&all) {
        Some(found) => Some(found),
        None => match trimmed_text(&find_note(&all, "calibre:series")) {
            Some(series) => {
                let index = trimmed_text(&find_note(&all, "calibre:series_index"));
                Some(ExistingSeries { series, index })
            },
            None => None,
        },
    }
}

/// None of the names stands in a text by which elements say something of a series.
pub open spec fn is_silent(s: Seq<char>) -> bool {
    &&& stands_nowhere(s, "calibre:series"@)
    &&& stands_nowhere(s, "belongs-to-collection"@)
    &&& stands_nowhere(s, "collection-type"@)
    &&& stands_nowhere(s, "group-position"@)
}

/// Whether an element says something of the element of an identifier, by the
/// identifier itself or with a hash before it.
pub open spec fn is_about(meta: MetaModel, id: Seq<char>) -> bool {
    ||| meta.refines == Some(seq!['#'] + id)
    ||| meta.refines == Some(id) && !(id.len() > 0 && id[0] == '#')
}

/// Whether an element is the first that gives a property of the element of an
/// identifier.
pub open spec fn gives_first(
    all: Seq<MetaModel>,
    property: Seq<char>,
    id: Seq<char>,
    place: int,
) -> bool {
    &&& 0 <= place < all.len()
    &&& all[place].property == Some(property)
    &&& is_about(all[place], id)
    &&& forall|i: int|
        0 <= i < place ==> !((#[trigger] all[i]).property == Some(property) && is_about(all[i], id))
}

/// Whether a collection is something else than a series by the first type that it is
/// given, and has another identifier than the one that series are written with.
pub open spec fn is_of_another_kind(all: Seq<MetaModel>, id: Seq<char>) -> bool {
    &&& id != "epub-mgr-series"@
    &&& exists|place: int| #[trigger]
        gives_first(all, "collection-type"@, id, place) && !same_but_case(
            trim(all[place].text),
            "series"@,
        )
}

proof fn subjects_are_referred_to(meta: MetaModel, id: Seq<char>)
    ensures
        meta.subject() == Some(id) <==> is_about(meta, id),
{
    if meta.refines is Some {
        let reference = meta.refines->0;
        if reference.len() > 0 && reference[0] == '#' {
            assert(reference =~= seq!['#'] + reference.skip(1));
            assert((seq!['#'] + id).skip(1) =~= id);
        } else {
            assert((seq!['#'] + id)[0] == '#');
        }
    }
}

proof fn the_first_element_gives_it(all: Seq<MetaModel>, property: Seq<char>, id: Seq<char>)
    ensures
        forall|place: int| #[trigger]
            gives_first(all, property, id, place) ==> refinement(all, property, id) == Some(
                all[place].text,
            ),
        refinement(all, property, id) is Some ==> exists|place: int| #[trigger]
            gives_first(all, property, id, place),
    decreases all.len(),
{
    if all.len() > 0 {
        let rest = all.drop_first();
        the_first_element_gives_it(rest, property, id);
        subjects_are_referred_to(all[0], id);
        let first = all[0].property == Some(property) && is_about(all[0], id);
        assert forall|place: int| #[trigger] gives_first(all, property, id, place)
            implies refinement(all, property, id) == Some(all[place].text) by {
            if place > 0 {
                assert(!first);
                assert(rest[place - 1] == all[place]);
                assert forall|i: int| 0 <= i < place - 1 implies !((#[trigger] rest[i]).property
                    == Some(property) && is_about(rest[i], id)) by {
                    assert(rest[i] == all[i + 1]);
                }
                assert(gives_first(rest, property, id, place - 1));
            }
        }
        if refinement(all, property, id) is Some {
            if first {
                assert(gives_first(all, property, id, 0));
            } else {
                let place = choose|place: int| #[trigger] gives_first(rest, property, id, place);
                assert(all[place + 1] == rest[place]);
                assert forall|i: int| 0 <= i < place + 1 implies !((#[trigger] all[i]).property
                    == Some(property) && is_about(all[i], id)) by {
                    if i > 0 {
                        assert(all[i] == rest[i - 1]);
                    }
                }
                assert(gives_first(all, property, id, place + 1));
            }
        }
    }
}

proof fn other_kinds_are_other_collections(all: Seq<MetaModel>, id: Seq<char>)
    ensures
        is_other_collection(all, Some(id)) <==> is_of_another_kind(all, id),
{
    the_first_element_gives_it(all, "collection-type"@, id);
    if is_other_collection(all, Some(id)) {
        let place = choose|place: int| #[trigger]
            gives_first(all, "collection-type"@, id, place);
        assert(refinement(all, "collection-type"@, id) == Some(all[place].text));
    }
}

proof fn found_or_nowhere(s: Seq<char>, part: Seq<char>)
    ensures
        contains(s, part) <==> !stands_nowhere(s, part),
{
    find_bounds(s, part, 0);
}

/// Once what is about a series is taken out, no note of Calibre's about one is left;
/// and a collection, or what refines one, is left only where that is something else
/// than a series.
pub proof fn nothing_is_left_of_a_series(s: Seq<char>, index: int)
    requires
        0 <= index < metas(without_series(s), 0).len(),
    ensures
        ({
            let all = metas(without_series(s), 0);
            let meta = all[index];
            &&& meta.name is Some ==> stands_nowhere(meta.name->0, "calibre:series"@)
            &&& meta.property is Some && !stands_nowhere(
                meta.property->0,
                "belongs-to-collection"@,
            ) ==> meta.id is Some && is_of_another_kind(all, meta.id->0)
            &&& meta.property is Some && (!stands_nowhere(meta.property->0, "collection-type"@)
                || !stands_nowhere(meta.property->0, "group-position"@)) ==> exists|id: Seq<char>|
                #[trigger]
                is_about(meta, id) && is_of_another_kind(all, id)
        }),
{
    let all = metas(without_series(s), 0);
    let meta = all[index];
    no_element_tells_of_series(s);
    assert(!tells_of_series(all, meta));
    if meta.name is Some {
        found_or_nowhere(meta.name->0, "calibre:series"@);
    }
    if meta.property is Some {
        found_or_nowhere(meta.property->0, "belongs-to-collection"@);
        found_or_nowhere(meta.property->0, "collection-type"@);
        found_or_nowhere(meta.property->0, "group-position"@);
    }
    if meta.id is Some {
        other_kinds_are_other_collections(all, meta.id->0);
    }
    if meta.refines is Some {
        let id = referred(meta.refines->0);
        subjects_are_referred_to(meta, id);
        other_kinds_are_other_collections(all, id);
        assert(is_about(meta, id));
    }
}

proof fn kept_lines_are_silent(s: Seq<char>, part: Seq<char>)
    requires
        other_lines(s) == s,
        part.len() > 0,
        forall|i: int| 0 <= i < part.len() ==> part[i] != '\n',
        forall|line: Seq<char>| #[trigger] contains(line, part) ==> mentions_series(line),
    ensures
        stands_nowhere(s, part),
    decreases s.len(),
{
    let newline = |c: char| c == '\n';
    position_bounds(s, newline, 0);
    let end = position(s, newline, 0) + 1;
    if end <= 0 || end >= s.len() {
        found_or_nowhere(s, part);
    } else {
        let (line, rest) = (s.take(end), s.skip(end));
        other_lines_length(rest);
        if mentions_series(line) {
            assert(other_lines(s) == other_lines(rest));
        }
        assert(other_lines(s) == line + other_lines(rest));
        assert(other_lines(rest) =~= rest) by {
            assert(other_lines(s).skip(end) =~= other_lines(rest));
        }
        kept_lines_are_silent(rest, part);
        found_or_nowhere(line, part);
        assert(s[end - 1] == '\n');
        assert forall|i: int| !#[trigger] stands_at(s, part, i) by {
            if stands_at(s, part, i) {
                let found = s.subrange(i, i + part.len());
                if i + part.len() <= end {
                    assert(line.subrange(i, i + part.len()) =~= found);
                    assert(stands_at(line, part, i));
                } else if i >= end {
                    assert(rest.subrange(i - end, i - end + part.len()) =~= found);
                    assert(stands_at(rest, part, i - end));
                } else {
                    assert(found[end - 1 - i] == s[end - 1]);
                }
            }
        }
    }
}

proof fn silent_texts_keep_their_lines(s: Seq<char>)
    requires
        is_silent(s),
    ensures
        other_lines(s) == s,
    decreases s.len(),
{
    let newline = |c: char| c == '\n';
    position_bounds(s, newline, 0);
    let end = position(s, newline, 0) + 1;
    if end <= 0 || end >= s.len() {
        silent_texts_mention_nothing(s);
    } else {
        let (line, rest) = (s.take(end), s.skip(end));
        parts_are_silent(s, 0, end);
        parts_are_silent(s, end, s.len() as int);
        assert(s.subrange(0, end) =~= line);
        assert(s.subrange(end, s.len() as int) =~= rest);
        silent_texts_mention_nothing(line);
        silent_texts_keep_their_lines(rest);
        assert(line + rest =~= s);
    }
}

proof fn silent_texts_mention_nothing(s: Seq<char>)
    requires
        is_silent(s),
    ensures
        !mentions_series(s),
{
    found_or_nowhere(s, "calibre:series"@);
    found_or_nowhere(s, "belongs-to-collection"@);
    found_or_nowhere(s, "collection-type"@);
    found_or_nowhere(s, "group-position"@);
}

proof fn part_is_nowhere(s: Seq<char>, from: int, to: int, part: Seq<char>)
    requires
        0 <= from <= to <= s.len(),
        stands_nowhere(s, part),
    ensures
        stands_nowhere(s.subrange(from, to), part),
{
    let piece = s.subrange(from, to);
    assert forall|i: int| !#[trigger] stands_at(piece, part, i) by {
        if stands_at(piece, part, i) {
            assert(s.subrange(from + i, from + i + part.len()) =~= piece.subrange(
                i,
                i + part.len(),
            ));
            assert(stands_at(s, part, from + i));
        }
    }
}

proof fn parts_are_silent(s: Seq<char>, from: int, to: int)
    requires
        0 <= from <= to <= s.len(),
        is_silent(s),
    ensures
        is_silent(s.subrange(from, to)),
{
    part_is_nowhere(s, from, to, "calibre:series"@);
    part_is_nowhere(s, from, to, "belongs-to-collection"@);
    part_is_nowhere(s, from, to, "collection-type"@);
    part_is_nowhere(s, from, to, "group-position"@);
}

proof fn names_have_no_newline(part: Seq<char>)
    requires
        part == "calibre:series"@ || part == "belongs-to-collection"@ || part
            == "collection-type"@ || part == "group-position"@,
    ensures
        part.len() > 0,
        forall|i: int| 0 <= i < part.len() ==> part[i] != '\n',
{
    reveal_strlit("calibre:series");
    reveal_strlit("belongs-to-collection");
    reveal_strlit("collection-type");
    reveal_strlit("group-position");
    let newline = |c: char| c == '\n';
    assert(position(part, newline, 0) == part.len()) by {
        reveal_with_fuel(position, 23);
    }
    position_bounds(part, newline, 0);
    assert forall|i: int| 0 <= i < part.len() implies part[i] != '\n' by {
        assert(!newline(part[i]));
    }
}

/// Once what is about a series is taken out, no comment names an element that says
/// something of one.
pub proof fn comments_are_silent_about_series(s: Seq<char>, at: int)
    requires
        is_reached(without_series(s), 0, at),
        is_comment(without_series(s), at),
        piece(without_series(s), at) is Some,
    ensures
        is_silent(without_series(s).subrange(at + 4, piece(without_series(s), at)->0 - 3)),
{
    let left = without_series(s);
    series_metadata_is_gone(s);
    assert(taken_out(left, at) is None);
    let text = left.subrange(at + 4, piece(left, at)->0 - 3);
    assert(other_lines(text) == text);
    names_have_no_newline("calibre:series"@);
    names_have_no_newline("belongs-to-collection"@);
    names_have_no_newline("collection-type"@);
    names_have_no_newline("group-position"@);
    kept_lines_are_silent(text, "calibre:series"@);
    kept_lines_are_silent(text, "belongs-to-collection"@);
    kept_lines_are_silent(text, "collection-type"@);
    kept_lines_are_silent(text, "group-position"@);
}

/// Closed elements are kept where the series is taken out, whatever else they say,
/// where no comment in them names an element that says something of a series, no
/// `meta` in them is a note of Calibre's about one by its name, and none is a
/// collection, the type of one or the place in one by its property.
pub proof fn elements_about_other_things_are_kept(
    before: Seq<char>,
    markup: Seq<char>,
    after: Seq<char>,
)
    requires
        is_balanced(before),
        markup.len() > 0,
        markup[0] == '<',
        markup.last() == '>',
        is_balanced(markup),
        forall|at: int| #[trigger]
            is_reached(markup, 0, at) && is_comment(markup, at) && piece(markup, at) is Some
                ==> is_silent(markup.subrange(at + 4, piece(markup, at)->0 - 3)),
        forall|at: int| #[trigger]
            is_reached(markup, 0, at) && is_meta(markup, at) ==> {
                let meta = meta_at(markup, at);
                &&& meta.name is Some ==> stands_nowhere(meta.name->0, "calibre:series"@)
                &&& meta.property is Some ==> stands_nowhere(
                    meta.property->0,
                    "belongs-to-collection"@,
                ) && stands_nowhere(meta.property->0, "collection-type"@) && stands_nowhere(
                    meta.property->0,
                    "group-position"@,
                )
            },
    ensures
        contains(without_series(before + markup + after), markup),
{
    assert forall|at: int| #[trigger] is_reached(markup, 0, at) implies if is_comment(markup, at) {
        taken_out(markup, at) is None
    } else {
        is_meta(markup, at) ==> !may_tell_of_series(meta_at(markup, at))
    } by {
        if is_comment(markup, at) {
            if piece(markup, at) is Some {
                silent_texts_keep_their_lines(markup.subrange(at + 4, piece(markup, at)->0 - 3));
            }
        } else if is_meta(markup, at) {
            let meta = meta_at(markup, at);
            if meta.name is Some {
                found_or_nowhere(meta.name->0, "calibre:series"@);
            }
            if meta.property is Some {
                found_or_nowhere(meta.property->0, "belongs-to-collection"@);
                found_or_nowhere(meta.property->0, "collection-type"@);
                found_or_nowhere(meta.property->0, "group-position"@);
            }
        }
    }
    other_markup_is_kept(before, markup, after);
}

/// Whether an element is a collection with a name, and a series by the first type
/// that it is given.
pub open spec fn is_named_series(all: Seq<MetaModel>, meta: MetaModel) -> bool {
    &&& meta.property == Some("belongs-to-collection"@)
    &&& meta.id is Some
    &&& !is_blank(meta.text)
    &&& exists|place: int| #[trigger]
        gives_first(all, "collection-type"@, meta.id->0, place) && same_but_case(
            trim(all[place].text),
            "series"@,
        )
}

proof fn named_series_are_found(all: Seq<MetaModel>, meta: MetaModel)
    ensures
        names_series(all, meta) <==> is_named_series(all, meta),
{
    if meta.id is Some {
        the_first_element_gives_it(all, "collection-type"@, meta.id->0);
        if names_series(all, meta) {
            let place = choose|place: int| #[trigger]
                gives_first(all, "collection-type"@, meta.id->0, place);
            assert(refinement(all, "collection-type"@, meta.id->0) == Some(all[place].text));
        }
    }
}

proof fn collections_are_passed(all: Seq<MetaModel>, from: int, to: int)
    requires
        0 <= from <= to <= all.len(),
        forall|i: int| from <= i < to ==> !names_series(all, #[trigger] all[i]),
    ensures
        collection_from(all, from) == collection_from(all, to),
    decreases to - from,
{
    if from < to {
        assert(!names_series(all, all[from]));
        collections_are_passed(all, from + 1, to);
    }
}

/// The series that metadata name is the first collection that is one, with the whole
/// of its first group-position for the place, both without the white space at their
/// ends alone.
pub proof fn the_first_named_series_is_found(s: Seq<char>, place: int)
    requires
        0 <= place < metas(s, 0).len(),
        is_named_series(metas(s, 0), metas(s, 0)[place]),
        forall|i: int|
            0 <= i < place ==> !is_named_series(metas(s, 0), #[trigger] metas(s, 0)[i]),
    ensures
        ({
            let all = metas(s, 0);
            let id = all[place].id->0;
            &&& existing_series(s) is Some
            &&& existing_series(s)->0.series == trim(all[place].text)
            &&& forall|i: int| #[trigger]
                gives_first(all, "group-position"@, id, i) ==> existing_series(s)->0.index
                    == if is_blank(all[i].text) {
                    None
                } else {
                    Some(trim(all[i].text))
                }
            &&& (forall|i: int|
                0 <= i < all.len() ==> !((#[trigger] all[i]).property == Some("group-position"@)
                    && is_about(all[i], id))) ==> existing_series(s)->0.index is None
        }),
{
    let all = metas(s, 0);
    let id = all[place].id->0;
    assert forall|i: int| 0 <= i < place implies !names_series(all, #[trigger] all[i]) by {
        named_series_are_found(all, all[i]);
    }
    named_series_are_found(all, all[place]);
    collections_are_passed(all, 0, place);
    the_first_element_gives_it(all, "group-position"@, id);
}

/// Whether an element is the first note of a name that has a content.
pub open spec fn notes_first(all: Seq<MetaModel>, name: Seq<char>, place: int) -> bool {
    &&& 0 <= place < all.len()
    &&& all[place].name == Some(name)
    &&& all[place].content is Some
    &&& forall|i: int|
        0 <= i < place ==> !((#[trigger] all[i]).name == Some(name) && all[i].content is Some)
}

proof fn the_first_note_counts(all: Seq<MetaModel>, name: Seq<char>)
    ensures
        forall|place: int| #[trigger]
            notes_first(all, name, place) ==> note(all, name) == all[place].content,
        (forall|i: int|
            0 <= i < all.len() ==> !((#[trigger] all[i]).name == Some(name) && all[i].content
                is Some)) ==> note(all, name) is None,
    decreases all.len(),
{
    if all.len() > 0 {
        let rest = all.drop_first();
        the_first_note_counts(rest, name);
        assert forall|place: int| #[trigger] notes_first(all, name, place) implies note(all, name)
            == all[place].content by {
            if place > 0 {
                assert(!(all[0].name == Some(name) && all[0].content is Some));
                assert(rest[place - 1] == all[place]);
                assert forall|i: int| 0 <= i < place - 1 implies !((#[trigger] rest[i]).name
                    == Some(name) && rest[i].content is Some) by {
                    assert(rest[i] == all[i + 1]);
                }
                assert(notes_first(rest, name, place - 1));
            }
        }
        if forall|i: int|
            0 <= i < all.len() ==> !((#[trigger] all[i]).name == Some(name) && all[i].content
                is Some) {
            assert(!(all[0].name == Some(name) && all[0].content is Some));
            assert forall|i: int| 0 <= i < rest.len() implies !((#[trigger] rest[i]).name == Some(
                name,
            ) && rest[i].content is Some) by {
                assert(rest[i] == all[i + 1]);
            }
        }
    }
}

/// Where no collection is a series, the series that metadata name is the one that
/// Calibre has noted first, and the place in it what Calibre has noted first of that.
pub proof fn calibre_notes_stand_in_for_collections(s: Seq<char>, series: int, index: int)
    requires
        forall|i: int|
            0 <= i < metas(s, 0).len() ==> !is_named_series(
                metas(s, 0),
                #[trigger] metas(s, 0)[i],
            ),
    ensures
        ({
            let all = metas(s, 0);
            let found = existing_series(s);
            &&& notes_first(all, "calibre:series"@, series) && !is_blank(all[series].content->0)
                ==> found is Some && found->0.series == trim(all[series].content->0) && (
            notes_first(all, "calibre:series_index"@, index) ==> found->0.index == if is_blank(
                all[index].content->0,
            ) {
                None
            } else {
                Some(trim(all[index].content->0))
            })
            &&& notes_first(all, "calibre:series"@, series) && is_blank(all[series].content->0)
                ==> found is None
            &&& (forall|i: int|
                0 <= i < all.len() ==> !((#[trigger] all[i]).name == Some("calibre:series"@)
                    && all[i].content is Some)) ==> found is None
        }),
{
    let all = metas(s, 0);
    assert forall|i: int| 0 <= i < all.len() implies !names_series(all, #[trigger] all[i]) by {
        named_series_are_found(all, all[i]);
    }
    collections_are_passed(all, 0, all.len() as int);
    the_first_note_counts(all, "calibre:series"@);
    the_first_note_counts(all, "calibre:series_index"@);
}

proof fn all_is_kept(s: Seq<char>, at: int, out: Seq<char>)
    requires
        0 <= at <= s.len(),
        is_reached(s, 0, at),
        forall|k: int| #[trigger] is_reached(s, 0, k) ==> taken_out(s, k) is None,
    ensures
        kept(s, at, out) == out + s.skip(at),
    decreases s.len() - at,
{
    if at < s.len() {
        assert(taken_out(s, at) is None);
        next_piece_bounds(s, at);
        reached_further(s, 0, at);
        let next = next_piece(s, at);
        let more = out + s.subrange(at, next);
        all_is_kept(s, next, more);
        assert(more + s.skip(next) =~= out + s.skip(at));
    } else {
        assert(out + s.skip(at) =~= out);
    }
}

/// Metadata that say nothing of a series stay as they are, sign by sign, where it is
/// taken out: those in which no comment names an element that does, no `meta` is a
/// note of Calibre's about one by its name, and none is a collection, the type of one
/// or the place in one by its property.
pub proof fn metadata_without_a_series_stay_as_they_are(s: Seq<char>)
    requires
        forall|at: int| #[trigger]
            is_reached(s, 0, at) && is_comment(s, at) && piece(s, at) is Some ==> is_silent(
                s.subrange(at + 4, piece(s, at)->0 - 3),
            ),
        forall|at: int| #[trigger]
            is_reached(s, 0, at) && is_meta(s, at) ==> {
                let meta = meta_at(s, at);
                &&& meta.name is Some ==> stands_nowhere(meta.name->0, "calibre:series"@)
                &&& meta.property is Some ==> stands_nowhere(
                    meta.property->0,
                    "belongs-to-collection"@,
                ) && stands_nowhere(meta.property->0, "collection-type"@) && stands_nowhere(
                    meta.property->0,
                    "group-position"@,
                )
            },
    ensures
        without_series(s) == s,
{
    assert forall|at: int| #[trigger] is_reached(s, 0, at) implies taken_out(s, at) is None by {
        if is_comment(s, at) {
            if piece(s, at) is Some {
                silent_texts_keep_their_lines(s.subrange(at + 4, piece(s, at)->0 - 3));
            }
        } else if is_meta(s, at) {
            let meta = meta_at(s, at);
            if meta.name is Some {
                found_or_nowhere(meta.name->0, "calibre:series"@);
            }
            if meta.property is Some {
                found_or_nowhere(meta.property->0, "belongs-to-collection"@);
                found_or_nowhere(meta.property->0, "collection-type"@);
                found_or_nowhere(meta.property->0, "group-position"@);
            }
        }
    }
    all_is_kept(s, 0, Seq::empty());
    assert(Seq::<char>::empty() + s.skip(0) =~= s);
}

/// What is about a series is taken out at once: there is nothing left to take out a
/// second time.
pub proof fn taking_out_twice_is_taking_out_once(s: Seq<char>)
    ensures
        without_series(without_series(s)) == without_series(s),
        without_series(s).len() <= s.len(),
{
    let left = without_series(s);
    series_metadata_is_gone(s);
    assert forall|at: int| #[trigger] is_reached(left, 0, at) implies taken_out(left, at)
        is None by {}
    all_is_kept(left, 0, Seq::empty());
    assert(Seq::<char>::empty() + left.skip(0) =~= left);
    nothing_is_added(s);
}

proof fn nothing_is_added(s: Seq<char>)
    ensures
        without_series(s).len() <= s.len(),
    decreases s.len(),
{
    let left = kept(s, 0, Seq::empty());
    if left.len() < s.len() {
        nothing_is_added(left);
    }
}

/// Text without tags is read as it is, and character data as the text that they stand
/// for.
pub proof fn text_is_read_as_it_stands(
    s: Seq<char>,
    from: int,
    to: int,
    data: Seq<char>,
)
    requires
        0 <= from <= to <= s.len(),
    ensures
        (forall|i: int| from <= i < to ==> #[trigger] s[i] != '<') ==> plain_text(s, from, to)
            == s.subrange(from, to),
        s.subrange(from, to) == "<![CDATA["@ + data + "]]>"@ && stands_nowhere(
            data + "]]"@,
            "]]>"@,
        ) ==> plain_text(s, from, to) == escaped(data),
{
    if forall|i: int| from <= i < to ==> #[trigger] s[i] != '<' {
        text_is_passed_on(s, from, to);
    }
    if s.subrange(from, to) == "<![CDATA["@ + data + "]]>"@ && stands_nowhere(
        data + "]]"@,
        "]]>"@,
    ) {
        reveal_strlit("<![CDATA[");
        reveal_strlit("]]>");
        reveal_strlit("]]");
        reveal_strlit("<!--");
        let whole = s.subrange(from, to);
        let (mark, end) = ("<![CDATA["@, "]]>"@);
        assert(whole.len() == data.len() + 12);
        assert(s[from] == whole[0]);
        assert(s.subrange(from, from + 9) =~= whole.subrange(0, 9));
        assert(whole.subrange(0, 9) =~= mark);
        assert(is_character_data(s, from));
        assert(!is_comment(s, from)) by {
            if is_comment(s, from) {
                assert(s.subrange(from, from + 4)[2] == s[from + 2]);
                assert(s[from + 2] == whole[2]);
                assert("<!--"@[2] == '-');
            }
        }
        let start = from + 9;
        let stop = start + data.len();
        assert(s.subrange(stop, stop + 3) =~= end) by {
            assert(whole.subrange(9 + data.len() as int, 12 + data.len() as int) =~= end);
            assert(s.subrange(stop, stop + 3) =~= whole.subrange(
                9 + data.len() as int,
                12 + data.len() as int,
            ));
        }
        let held = data + "]]"@;
        assert forall|j: int| start <= j < stop implies !stands_at(s, end, j) by {
            if stands_at(s, end, j) {
                let k = j - start;
                assert forall|i: int| 0 <= i < 3 implies held[k + i] == end[i] by {
                    assert(s.subrange(j, j + 3)[i] == s[j + i]);
                    assert(s[j + i] == whole[9 + k + i]);
                    assert(whole[9 + k + i] == held[k + i]);
                }
                assert(held.subrange(k, k + 3) =~= end);
                assert(stands_at(held, end, k));
            }
        }
        assert(end.len() == 3);
        assert(stands_at(s, end, stop));
        find_bounds(s, end, start);
        assert(find(s, end, start) == Some(stop));
        assert(next_piece(s, from) == to);
        assert(s.subrange(start, to - 3) =~= data) by {
            assert forall|i: int| 0 <= i < data.len() implies s[start + i] == data[i] by {
                assert(s[start + i] == whole[9 + i]);
            }
        }
        assert(plain_text(s, to, to) == Seq::<char>::empty());
        assert(escaped(data) + Seq::<char>::empty() =~= escaped(data));
    }
}

proof fn text_is_passed_on(s: Seq<char>, from: int, to: int)
    requires
        0 <= from <= to <= s.len(),
        forall|i: int| from <= i < to ==> #[trigger] s[i] != '<',
    ensures
        plain_text(s, from, to) == s.subrange(from, to),
    decreases to - from,
{
    if from < to {
        assert(s[from] != '<');
        text_is_passed_on(s, from + 1, to);
        assert(seq![s[from]] + s.subrange(from + 1, to) =~= s.subrange(from, to));
    } else {
        assert(s.subrange(from, to) =~= Seq::empty());
    }
}

/// Markup, all of it closed, that says nothing of a series: no comment in it names an
/// element that does, no `meta` is a note of Calibre's about one by its name, and none
/// is a collection, the type of one or the place in one by its property.
pub open spec fn says_nothing_of_series(markup: Seq<char>) -> bool {
    &&& is_balanced(markup)
    &&& forall|at: int| #[trigger]
        is_reached(markup, 0, at) && is_comment(markup, at) && piece(markup, at) is Some
            ==> is_silent(markup.subrange(at + 4, piece(markup, at)->0 - 3))
    &&& forall|at: int| #[trigger]
        is_reached(markup, 0, at) && is_meta(markup, at) ==> {
            let meta = meta_at(markup, at);
            &&& meta.name is Some ==> stands_nowhere(meta.name->0, "calibre:series"@)
            &&& meta.property is Some ==> stands_nowhere(
                meta.property->0,
                "belongs-to-collection"@,
            ) && stands_nowhere(meta.property->0, "collection-type"@) && stands_nowhere(
                meta.property->0,
                "group-position"@,
            )
        }
}

#[verifier::opaque]
spec fn is_quiet(markup: Seq<char>) -> bool {
    forall|at: int| #[trigger]
        is_reached(markup, 0, at) ==> if is_comment(markup, at) {
            taken_out(markup, at) is None
        } else {
            is_meta(markup, at) ==> !may_tell_of_series(meta_at(markup, at))
        }
}

proof fn nothing_said_is_quiet(markup: Seq<char>)
    requires
        says_nothing_of_series(markup),
    ensures
        is_quiet(markup),
{
    reveal(is_quiet);
    assert forall|at: int| #[trigger] is_reached(markup, 0, at) implies if is_comment(markup, at) {
        taken_out(markup, at) is None
    } else {
        is_meta(markup, at) ==> !may_tell_of_series(meta_at(markup, at))
    } by {
        if is_comment(markup, at) {
            if piece(markup, at) is Some {
                silent_texts_keep_their_lines(markup.subrange(at + 4, piece(markup, at)->0 - 3));
            }
        } else if is_meta(markup, at) {
            let meta = meta_at(markup, at);
            if meta.name is Some {
                found_or_nowhere(meta.name->0, "calibre:series"@);
            }
            if meta.property is Some {
                found_or_nowhere(meta.property->0, "belongs-to-collection"@);
                found_or_nowhere(meta.property->0, "collection-type"@);
                found_or_nowhere(meta.property->0, "group-position"@);
            }
        }
    }
}

proof fn quiet_place(s: Seq<char>, n: int, m: int, k: int, open: nat)
    requires
        0 <= n <= m <= s.len(),
        is_quiet(s.subrange(n, m)),
        0 <= k < m - n,
        is_reached(s.subrange(n, m), 0, k),
        open_elements(s.subrange(n, m), k, open) == Some(0nat),
    ensures
        taken_out(s, n + k) is None,
        next_piece(s, n + k) == n + piece(s.subrange(n, m), k)->0,
{
    reveal(is_quiet);
    let part = s.subrange(n, m);
    piece_in_context(s, n, m, k);
    piece_bounds(part, k);
    comment_in_context(s, n, m, k);
    assert(part[k] == s[n + k]);
    assert(part[k] == '<' ==> part[k + 1] == s[n + k + 1]);
    if is_start_tag(part, k) {
        meta_in_context(s, n, m, k, open);
    }
}

proof fn quiet_part_is_kept(s: Seq<char>, n: int, m: int, k: int, out: Seq<char>, open: nat)
    requires
        0 <= n <= m <= s.len(),
        is_quiet(s.subrange(n, m)),
        0 <= k <= m - n,
        is_reached(s.subrange(n, m), 0, k),
        open_elements(s.subrange(n, m), k, open) == Some(0nat),
    ensures
        kept(s, n + k, out) == kept(s, m, out + s.subrange(n + k, m)),
    decreases m - n - k,
{
    let part = s.subrange(n, m);
    if k == m - n {
        assert(out + s.subrange(n + k, m) =~= out);
    } else {
        piece_bounds(part, k);
        quiet_place(s, n, m, k, open);
        reached_further(part, 0, k);
        let end = piece(part, k)->0;
        let more = out + s.subrange(n + k, n + end);
        let after: nat = if is_end_tag(part, k) {
            (open - 1) as nat
        } else if opens(part, k, end) {
            open + 1
        } else {
            open
        };
        quiet_part_is_kept(s, n, m, end, more, after);
        assert(kept(s, n + k, out) == kept(s, n + end, more));
        assert(more + s.subrange(n + end, m) =~= out + s.subrange(n + k, m));
    }
}

proof fn blanks_are_kept(s: Seq<char>, from: int, to: int, out: Seq<char>)
    requires
        0 <= from <= to <= s.len(),
        forall|i: int| from <= i < to ==> is_line_blank(#[trigger] s[i]),
    ensures
        kept(s, from, out) == kept(s, to, out + s.subrange(from, to)),
    decreases to - from,
{
    if from < to {
        assert(is_line_blank(s[from]));
        reveal_strlit("<!--");
        assert(!is_comment(s, from)) by {
            if is_comment(s, from) {
                assert(s.subrange(from, from + 4)[0] == s[from]);
            }
        }
        assert(next_piece(s, from) == from + 1);
        let more = out + s.subrange(from, from + 1);
        blanks_are_kept(s, from + 1, to, more);
        assert(more + s.subrange(from + 1, to) =~= out + s.subrange(from, to));
    } else {
        assert(out + s.subrange(from, to) =~= out);
    }
}

proof fn blanks_are_dropped(line: Seq<char>, blanks: Seq<char>)
    requires
        line.len() == 0 || line.last() == '\n',
        forall|i: int| 0 <= i < blanks.len() ==> is_line_blank(#[trigger] blanks[i]),
    ensures
        without_blanks(line + blanks) == line,
        ends_in_blank_line(line + blanks),
    decreases blanks.len(),
{
    if blanks.len() > 0 {
        let shorter = blanks.drop_last();
        assert forall|i: int| 0 <= i < shorter.len() implies is_line_blank(
            #[trigger] shorter[i],
        ) by {
            assert(shorter[i] == blanks[i]);
        }
        blanks_are_dropped(line, shorter);
        assert(is_line_blank(blanks[blanks.len() - 1]));
        assert((line + blanks).last() == blanks.last());
        assert((line + blanks).drop_last() =~= line + shorter);
    } else {
        assert(line + blanks =~= line);
    }
}

/// A note of Calibre's about a series that stands on a line of its own goes with the
/// line; the lines before and after it stay as they are.
pub proof fn lines_about_a_series_go(
    before: Seq<char>,
    indent: Seq<char>,
    note: Seq<char>,
    blanks: Seq<char>,
    after: Seq<char>,
)
    requires
        says_nothing_of_series(before),
        before.len() == 0 || before.last() == '\n',
        forall|i: int|
            0 <= i < indent.len() ==> #[trigger] indent[i] == ' ' || indent[i] == '\t' || indent[i]
                == '\r',
        is_balanced(note),
        is_meta(note, 0),
        element_at(note, 0)->0.end == note.len(),
        meta_at(note, 0).name is Some,
        !stands_nowhere(meta_at(note, 0).name->0, "calibre:series"@),
        forall|i: int|
            0 <= i < blanks.len() ==> #[trigger] blanks[i] == ' ' || blanks[i] == '\t' || blanks[i]
                == '\r',
        says_nothing_of_series(after),
    ensures
        without_series(before + indent + note + blanks + seq!['\n'] + after) == before + after,
{
    nothing_said_is_quiet(before);
    nothing_said_is_quiet(after);
    let s = before + indent + note + blanks + seq!['\n'] + after;
    let n = before.len() as int;
    let start = n + indent.len();
    let end = start + note.len();
    let stop = end + blanks.len();
    assert(s.subrange(0, n) =~= before);
    assert(s.subrange(n, start) =~= indent);
    assert(s.subrange(start, end) =~= note);
    assert(s.subrange(end, stop) =~= blanks);
    assert(s[stop] == '\n');
    assert(s.subrange(stop + 1, s.len() as int) =~= after);
    assert forall|i: int| 0 <= i < indent.len() implies is_line_blank(#[trigger] indent[i]) by {}
    assert forall|i: int| 0 <= i < blanks.len() implies is_line_blank(#[trigger] blanks[i]) by {}
    note_is_taken_out(s, start, end, note);
    line_is_dropped(s, n, start, end, stop, before);
    quiet_parts_are_kept(s, n, stop + 1, before, after);
    quiet_texts_stay(before, after);
}

proof fn line_is_dropped(
    s: Seq<char>,
    n: int,
    start: int,
    end: int,
    stop: int,
    before: Seq<char>,
)
    requires
        0 <= n <= start < end <= stop < s.len(),
        before.len() == 0 || before.last() == '\n',
        forall|i: int|
            0 <= i < s.subrange(n, start).len() ==> is_line_blank(#[trigger] s.subrange(n, start)[i]),
        taken_out(s, start) == Some((end, Seq::<char>::empty())),
        forall|i: int|
            0 <= i < s.subrange(end, stop).len() ==> is_line_blank(
                #[trigger] s.subrange(end, stop)[i],
            ),
        s[stop] == '\n',
    ensures
        kept(s, n, before) == kept(s, stop + 1, before),
{
    let indent = s.subrange(n, start);
    assert forall|i: int| n <= i < start implies is_line_blank(#[trigger] s[i]) by {
        assert(s[i] == indent[i - n]);
    }
    blanks_are_kept(s, n, start, before);
    blanks_are_dropped(before, indent);
    let other = |c: char| !is_line_blank(c);
    assert forall|i: int| end <= i < stop implies !other(s[i]) by {
        assert(s[i] == s.subrange(end, stop)[i - end]);
    }
    position_bounds(s, other, end);
    assert(position(s, other, end) == stop);
    assert(line_rest(s, end) == Some(stop + 1));
}

proof fn quiet_parts_are_kept(
    s: Seq<char>,
    n: int,
    next: int,
    before: Seq<char>,
    after: Seq<char>,
)
    requires
        0 <= n <= next <= s.len(),
        s.subrange(0, n) == before,
        s.subrange(next, s.len() as int) == after,
        is_quiet(before) && is_balanced(before),
        is_quiet(after) && is_balanced(after),
        kept(s, n, before) == kept(s, next, before),
    ensures
        kept(s, 0, Seq::empty()) == before + after,
{
    let none = Seq::<char>::empty();
    quiet_part_is_kept(s, 0, n, 0, none, 0);
    assert(none + before =~= before);
    quiet_part_is_kept(s, next, s.len() as int, 0, before, 0);
}

proof fn quiet_texts_stay(before: Seq<char>, after: Seq<char>)
    requires
        is_quiet(before) && is_balanced(before),
        is_quiet(after) && is_balanced(after),
    ensures
        without_series(before + after) == before + after,
{
    let both = before + after;
    let n = before.len() as int;
    assert(both.subrange(0, n) =~= before);
    assert(both.subrange(n, both.len() as int) =~= after);
    quiet_parts_are_kept(both, n, n, before, after);
}

proof fn note_is_taken_out(s: Seq<char>, start: int, end: int, note: Seq<char>)
    requires
        0 <= start <= end <= s.len(),
        s.subrange(start, end) == note,
        is_balanced(note),
        is_meta(note, 0),
        element_at(note, 0)->0.end == note.len(),
        meta_at(note, 0).name is Some,
        !stands_nowhere(meta_at(note, 0).name->0, "calibre:series"@),
    ensures
        taken_out(s, start) == Some((end, Seq::<char>::empty())),
        start < end,
{
    reveal_strlit("<!--");
    meta_in_context(s, start, end, 0, 0);
    found_or_nowhere(meta_at(note, 0).name->0, "calibre:series"@);
    assert(note[0] == s[start] && note[1] == s[start + 1]);
    assert(!is_comment(s, start)) by {
        if is_comment(s, start) {
            assert(s.subrange(start, start + 4)[1] == s[start + 1]);
        }
    }
}

} // verus!
