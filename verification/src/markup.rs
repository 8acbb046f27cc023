//! XML markup as a walk over a text: characters, comments, character data,
//! instructions and tags, one after the other.

use vstd::prelude::*;
use vstd::slice::slice_subrange;

use crate::text::{
    chars_of, find, find_bounds, find_from, is_space, is_space_char, matches_at, position,
    position_bounds, position_of, push_chars, same_but_case, same_but_case_chars, stands_at,
};

verus! {

pub open spec fn is_quote(c: char) -> bool {
    c == '"' || c == '\''
}

/// A character that ends the name of an element.
pub open spec fn is_name_end(c: char) -> bool {
    is_space(c) || c == '/' || c == '>' || c == '<'
}

/// A character that ends the name of an attribute.
pub open spec fn is_word_end(c: char) -> bool {
    is_space(c) || is_quote(c) || c == '=' || c == '/' || c == '>'
}

/// Where the tag ends that `from` stands in, and in it, if `quote` is given, in a
/// value that this quote closes. No tag holds another.
pub open spec fn tag_end(s: Seq<char>, from: int, quote: Option<char>) -> Option<int>
    decreases s.len() - from,
{
    if from < 0 || from >= s.len() || s[from] == '<' {
        None
    } else {
        match quote {
            Some(q) => tag_end(
                s,
                from + 1,
                if s[from] == q {
                    None
                } else {
                    quote
                },
            ),
            None => if s[from] == '>' {
                Some(from + 1)
            } else {
                tag_end(
                    s,
                    from + 1,
                    if is_quote(s[from]) {
                        Some(s[from])
                    } else {
                        None
                    },
                )
            },
        }
    }
}

/// Where the first copy of `mark`, `from` or later, ends.
pub open spec fn end_of(s: Seq<char>, mark: Seq<char>, from: int) -> Option<int> {
    match find(s, mark, from) {
        Some(at) => Some(at + mark.len()),
        None => None,
    }
}

/// Where the piece of markup ends that starts at `at`: a comment, character data,
/// an instruction, a tag, or a character that is none of these. There is none
/// where a comment, a tag and the like is not closed.
pub open spec fn piece(s: Seq<char>, at: int) -> Option<int> {
    if at < 0 || at >= s.len() {
        None
    } else if s[at] != '<' {
        Some(at + 1)
    } else if is_comment(s, at) {
        end_of(s, "-->"@, at + 4)
    } else if is_character_data(s, at) {
        end_of(s, "]]>"@, at + 9)
    } else if stands_at(s, "<?"@, at) {
        end_of(s, "?>"@, at + 2)
    } else {
        tag_end(s, at + 1, None)
    }
}

pub open spec fn is_comment(s: Seq<char>, at: int) -> bool {
    stands_at(s, "<!--"@, at)
}

pub open spec fn is_character_data(s: Seq<char>, at: int) -> bool {
    stands_at(s, "<![CDATA["@, at)
}

/// Where the next piece starts. A sign that opens something that is not closed
/// stands for itself.
pub open spec fn next_piece(s: Seq<char>, at: int) -> int {
    match piece(s, at) {
        Some(end) => end,
        None => at + 1,
    }
}

/// `at` is a place that the walk comes to that starts at `from`.
pub open spec fn is_reached(s: Seq<char>, from: int, at: int) -> bool
    decreases s.len() - from,
{
    ||| from == at
    ||| 0 <= from < at && from < next_piece(s, from) <= s.len() && is_reached(
        s,
        next_piece(s, from),
        at,
    )
}

/// At `at` a tag starts that opens an element.
pub open spec fn is_start_tag(s: Seq<char>, at: int) -> bool {
    &&& 0 <= at
    &&& at + 1 < s.len()
    &&& s[at] == '<'
    &&& s[at + 1] != '/'
    &&& s[at + 1] != '!'
    &&& s[at + 1] != '?'
}

pub open spec fn is_end_tag(s: Seq<char>, at: int) -> bool {
    0 <= at && at + 1 < s.len() && s[at] == '<' && s[at + 1] == '/'
}

/// The tag from `at` to `end` opens an element that another tag closes.
pub open spec fn opens(s: Seq<char>, at: int, end: int) -> bool {
    is_start_tag(s, at) && s[end - 2] != '/'
}

/// How many elements are open at the end of a text, of which `open` are open at
/// `from`. There is no such number where something is not closed, or is closed
/// that is not open.
pub open spec fn open_elements(s: Seq<char>, from: int, open: nat) -> Option<nat>
    decreases s.len() - from,
{
    if from < 0 || from >= s.len() {
        Some(open)
    } else {
        match piece(s, from) {
            None => None,
            Some(end) => if !(from < end <= s.len()) {
                None
            } else if is_end_tag(s, from) {
                if open == 0 {
                    None
                } else {
                    open_elements(s, end, (open - 1) as nat)
                }
            } else if opens(s, from, end) {
                open_elements(s, end, open + 1)
            } else {
                open_elements(s, end, open)
            },
        }
    }
}

/// Markup in which whatever is opened is closed.
pub open spec fn is_balanced(s: Seq<char>) -> bool {
    open_elements(s, 0, 0) == Some(0nat)
}

/// Where the tag starts that closes an element in which `from` stands, with `inner`
/// elements open in it.
pub open spec fn content_end(s: Seq<char>, from: int, inner: nat) -> Option<int>
    decreases s.len() - from,
{
    if from < 0 || from >= s.len() {
        None
    } else {
        match piece(s, from) {
            None => None,
            Some(end) => if !(from < end <= s.len()) {
                None
            } else if is_end_tag(s, from) {
                if inner == 0 {
                    Some(from)
                } else {
                    content_end(s, end, (inner - 1) as nat)
                }
            } else if opens(s, from, end) {
                content_end(s, end, inner + 1)
            } else {
                content_end(s, end, inner)
            },
        }
    }
}

/// A name, with a prefix or without.
pub open spec fn is_local_name(word: Seq<char>, name: Seq<char>) -> bool {
    ||| word == name
    ||| word.len() > name.len() && word.skip(word.len() - name.len() - 1) == ":"@ + name
}

/// Where the name of the element ends that starts at `at`.
pub open spec fn name_end(s: Seq<char>, at: int) -> int {
    position(s, |c: char| is_name_end(c), at + 1)
}

/// Where the parts of an element end: its opening tag, its contents, and the whole.
pub struct ElementModel {
    pub tag_end: int,
    pub content_end: int,
    pub end: int,
}

/// The element that starts at `at`. Where nothing closes it, its tag is all of it.
pub open spec fn element_at(s: Seq<char>, at: int) -> Option<ElementModel> {
    if !is_start_tag(s, at) {
        None
    } else {
        match piece(s, at) {
            None => None,
            Some(end) => {
                let alone = ElementModel { tag_end: end, content_end: end, end };
                if !opens(s, at, end) {
                    Some(alone)
                } else {
                    match content_end(s, end, 0) {
                        None => Some(alone),
                        Some(close) => Some(
                            ElementModel {
                                tag_end: end,
                                content_end: close,
                                end: next_piece(s, close),
                            },
                        ),
                    }
                }
            },
        }
    }
}

/// Where the value ends that a quote closes.
pub open spec fn value_end(tag: Seq<char>, quote: char, start: int) -> int
    decreases tag.len() - start,
{
    if start < 0 || start >= tag.len() {
        tag.len() as int
    } else if tag[start] == quote {
        start
    } else {
        value_end(tag, quote, start + 1)
    }
}

/// Where the name of the attribute ends that starts at `from`.
pub open spec fn word_end(tag: Seq<char>, from: int) -> int {
    position(tag, |c: char| is_word_end(c), from)
}

/// Where, from `from` on, something else than white space stands.
pub open spec fn after_space(tag: Seq<char>, from: int) -> int {
    position(tag, |c: char| !is_space(c), from)
}

/// Where the value starts of the attribute whose name ends at `from`.
pub open spec fn value_start(tag: Seq<char>, from: int) -> Option<int> {
    let sign = after_space(tag, from);
    let mark = after_space(tag, sign + 1);
    if sign < tag.len() && tag[sign] == '=' && mark < tag.len() && is_quote(tag[mark]) {
        Some(mark + 1)
    } else {
        None
    }
}

/// At `from` an attribute of a tag starts that has this name.
pub open spec fn is_attribute(tag: Seq<char>, name: Seq<char>, from: int) -> bool {
    &&& 0 < from <= tag.len()
    &&& is_space(tag[from - 1])
    &&& is_local_name(tag.subrange(from, word_end(tag, from)), name)
    &&& value_start(tag, word_end(tag, from)) is Some
}

/// The value of an attribute in a tag, from `from` on, which stands in a value that
/// `quote` closes, if that is given.
pub open spec fn attribute_from(
    tag: Seq<char>,
    name: Seq<char>,
    from: int,
    quote: Option<char>,
) -> Option<Seq<char>>
    decreases tag.len() - from,
{
    if from < 0 || from >= tag.len() {
        None
    } else {
        match quote {
            Some(q) => attribute_from(
                tag,
                name,
                from + 1,
                if tag[from] == q {
                    None
                } else {
                    quote
                },
            ),
            None => if is_attribute(tag, name, from) {
                let start = value_start(tag, word_end(tag, from))->0;
                Some(tag.subrange(start, value_end(tag, tag[start - 1], start)))
            } else {
                attribute_from(
                    tag,
                    name,
                    from + 1,
                    if is_quote(tag[from]) {
                        Some(tag[from])
                    } else {
                        None
                    },
                )
            },
        }
    }
}

pub proof fn tag_end_bounds(s: Seq<char>, from: int, quote: Option<char>)
    requires
        0 <= from,
        tag_end(s, from, quote) is Some,
    ensures
        from < tag_end(s, from, quote)->0 <= s.len(),
        s[tag_end(s, from, quote)->0 - 1] == '>',
        forall|i: int| from <= i < tag_end(s, from, quote)->0 ==> #[trigger] s[i] != '<',
    decreases s.len() - from,
{
    match quote {
        Some(q) => {
            tag_end_bounds(
                s,
                from + 1,
                if s[from] == q {
                    None
                } else {
                    quote
                },
            );
        },
        None => {
            if s[from] != '>' {
                tag_end_bounds(
                    s,
                    from + 1,
                    if is_quote(s[from]) {
                        Some(s[from])
                    } else {
                        None
                    },
                );
            }
        },
    }
}

/// A piece is not empty, and one that opens with a sign closes with one.
pub proof fn piece_bounds(s: Seq<char>, at: int)
    requires
        piece(s, at) is Some,
    ensures
        0 <= at < piece(s, at)->0 <= s.len(),
        s[at] == '<' ==> at + 2 <= piece(s, at)->0 && s[piece(s, at)->0 - 1] == '>',
{
    reveal_strlit("-->");
    reveal_strlit("]]>");
    reveal_strlit("?>");
    let end = piece(s, at)->0;
    if s[at] == '<' {
        if is_comment(s, at) {
            find_bounds(s, "-->"@, at + 4);
            assert(s.subrange(end - 3, end)[2] == '>');
        } else if is_character_data(s, at) {
            find_bounds(s, "]]>"@, at + 9);
            assert(s.subrange(end - 3, end)[2] == '>');
        } else if stands_at(s, "<?"@, at) {
            find_bounds(s, "?>"@, at + 2);
            assert(s.subrange(end - 2, end)[1] == '>');
        } else {
            tag_end_bounds(s, at + 1, None);
        }
    }
}

pub proof fn next_piece_bounds(s: Seq<char>, at: int)
    requires
        0 <= at < s.len(),
    ensures
        at < next_piece(s, at) <= s.len(),
{
    if piece(s, at) is Some {
        piece_bounds(s, at);
    }
}

pub proof fn content_end_bounds(s: Seq<char>, from: int, inner: nat)
    requires
        content_end(s, from, inner) is Some,
    ensures
        0 <= from <= content_end(s, from, inner)->0 < s.len(),
        is_end_tag(s, content_end(s, from, inner)->0),
        piece(s, content_end(s, from, inner)->0) is Some,
    decreases s.len() - from,
{
    let end = piece(s, from)->0;
    if is_end_tag(s, from) {
        if inner > 0 {
            content_end_bounds(s, end, (inner - 1) as nat);
        }
    } else if opens(s, from, end) {
        content_end_bounds(s, end, inner + 1);
    } else {
        content_end_bounds(s, end, inner);
    }
}

/// The parts of an element follow one another.
pub proof fn element_bounds(s: Seq<char>, at: int)
    requires
        element_at(s, at) is Some,
    ensures
        0 <= at,
        at + 2 <= element_at(s, at)->0.tag_end <= element_at(s, at)->0.content_end
            <= element_at(s, at)->0.end <= s.len(),
        s[element_at(s, at)->0.end - 1] == '>',
{
    piece_bounds(s, at);
    let end = piece(s, at)->0;
    if opens(s, at, end) && content_end(s, end, 0) is Some {
        content_end_bounds(s, end, 0);
        piece_bounds(s, content_end(s, end, 0)->0);
    }
}

/// The value ends at the first copy of the quote.
pub proof fn value_end_is(tag: Seq<char>, quote: char, start: int, end: int)
    requires
        0 <= start <= end <= tag.len(),
        end < tag.len() ==> tag[end] == quote,
        forall|i: int| start <= i < end ==> #[trigger] tag[i] != quote,
    ensures
        value_end(tag, quote, start) == end,
    decreases end - start,
{
    if start < end {
        value_end_is(tag, quote, start + 1, end);
    }
}

proof fn stands_in_context(x: Seq<char>, p: int, q: int, pattern: Seq<char>, k: int)
    requires
        0 <= p <= q <= x.len(),
        0 <= k,
    ensures
        stands_at(x.subrange(p, q), pattern, k) == (stands_at(x, pattern, p + k) && p + k
            + pattern.len() <= q),
{
    if p + k + pattern.len() <= q {
        assert(x.subrange(p, q).subrange(k, k + pattern.len()) =~= x.subrange(
            p + k,
            p + k + pattern.len(),
        ));
    }
}

proof fn tag_end_in_context(x: Seq<char>, p: int, q: int, k: int, quote: Option<char>)
    requires
        0 <= p <= q <= x.len(),
        0 <= k,
    ensures
        tag_end(x.subrange(p, q), k, quote) is Some ==> tag_end(x, p + k, quote) == Some(
            p + tag_end(x.subrange(p, q), k, quote)->0,
        ),
        tag_end(x, p + k, quote) is Some && tag_end(x, p + k, quote)->0 <= q ==> tag_end(
            x.subrange(p, q),
            k,
            quote,
        ) == Some(tag_end(x, p + k, quote)->0 - p),
    decreases q - p - k,
{
    let part = x.subrange(p, q);
    if k < part.len() {
        let c = part[k];
        assert(c == x[p + k]);
        if c != '<' {
            match quote {
                Some(mark) => {
                    tag_end_in_context(
                        x,
                        p,
                        q,
                        k + 1,
                        if c == mark {
                            None
                        } else {
                            quote
                        },
                    );
                },
                None => {
                    if c != '>' {
                        tag_end_in_context(
                            x,
                            p,
                            q,
                            k + 1,
                            if is_quote(c) {
                                Some(c)
                            } else {
                                None
                            },
                        );
                    }
                },
            }
        }
    } else if tag_end(x, p + k, quote) is Some {
        tag_end_bounds(x, p + k, quote);
    }
}

proof fn end_in_context(x: Seq<char>, p: int, q: int, mark: Seq<char>, k: int)
    requires
        0 <= p <= q <= x.len(),
        0 <= k,
    ensures
        end_of(x.subrange(p, q), mark, k) is Some ==> end_of(x, mark, p + k) == Some(
            p + end_of(x.subrange(p, q), mark, k)->0,
        ),
        end_of(x, mark, p + k) is Some && end_of(x, mark, p + k)->0 <= q ==> end_of(
            x.subrange(p, q),
            mark,
            k,
        ) == Some(end_of(x, mark, p + k)->0 - p),
{
    let part = x.subrange(p, q);
    find_bounds(part, mark, k);
    find_bounds(x, mark, p + k);
    if find(part, mark, k) is Some {
        let at = find(part, mark, k)->0;
        stands_in_context(x, p, q, mark, at);
        let found = find(x, mark, p + k)->0;
        assert(find(x, mark, p + k) is Some);
        assert(found <= p + at);
        stands_in_context(x, p, q, mark, found - p);
        assert(found - p >= at);
    }
    if find(x, mark, p + k) is Some && find(x, mark, p + k)->0 + mark.len() <= q {
        stands_in_context(x, p, q, mark, find(x, mark, p + k)->0 - p);
    }
}

/// A piece is the same in whatever text the part stands that holds it.
pub proof fn piece_in_context(x: Seq<char>, p: int, q: int, k: int)
    requires
        0 <= p <= q <= x.len(),
        0 <= k,
    ensures
        piece(x.subrange(p, q), k) is Some ==> piece(x, p + k) == Some(
            p + piece(x.subrange(p, q), k)->0,
        ),
        piece(x, p + k) is Some && piece(x, p + k)->0 <= q ==> piece(x.subrange(p, q), k) == Some(
            piece(x, p + k)->0 - p,
        ),
{
    reveal_strlit("<!--");
    reveal_strlit("<![CDATA[");
    reveal_strlit("<?");
    let part = x.subrange(p, q);
    if piece(x, p + k) is Some {
        piece_bounds(x, p + k);
    }
    if k < part.len() {
        assert(part[k] == x[p + k]);
        if part[k] == '<' {
            stands_in_context(x, p, q, "<!--"@, k);
            stands_in_context(x, p, q, "<![CDATA["@, k);
            stands_in_context(x, p, q, "<?"@, k);
            end_in_context(x, p, q, "-->"@, k + 4);
            end_in_context(x, p, q, "]]>"@, k + 9);
            end_in_context(x, p, q, "?>"@, k + 2);
            tag_end_in_context(x, p, q, k + 1, None);
            if piece(part, k) is Some && !is_comment(part, k) && !is_character_data(part, k)
                && !stands_at(part, "<?"@, k) {
                let end = piece(part, k)->0;
                tag_end_bounds(part, k + 1, None);
                assert(x[p + end - 1] == '>');
                assert(part[end - 1] == '>');
                if is_comment(x, p + k) {
                    let all = x.subrange(p + k, p + k + 4);
                    if end - 1 < k + 4 {
                        assert(all[end - 1 - k] == '>');
                    }
                }
                if is_character_data(x, p + k) {
                    let all = x.subrange(p + k, p + k + 9);
                    if end - 1 < k + 9 {
                        assert(all[end - 1 - k] == '>');
                    }
                }
                if stands_at(x, "<?"@, p + k) {
                    let all = x.subrange(p + k, p + k + 2);
                    if end - 1 < k + 2 {
                        assert(all[end - 1 - k] == '>');
                    }
                }
            }
            if piece(part, k) is Some && is_character_data(part, k) {
                assert(!is_comment(x, p + k)) by {
                    if is_comment(x, p + k) {
                        assert(x.subrange(p + k, p + k + 4)[2] == x[p + k + 2]);
                        assert(x.subrange(p + k, p + k + 9)[2] == x[p + k + 2]);
                    }
                }
            }
            if piece(part, k) is Some && stands_at(part, "<?"@, k) {
                assert(x.subrange(p + k, p + k + 2)[1] == x[p + k + 1]);
                if is_comment(x, p + k) {
                    assert(x.subrange(p + k, p + k + 4)[1] == x[p + k + 1]);
                }
                if is_character_data(x, p + k) {
                    assert(x.subrange(p + k, p + k + 9)[1] == x[p + k + 1]);
                }
            }
            if piece(x, p + k) is Some && piece(x, p + k)->0 <= q {
                if is_comment(x, p + k) {
                    find_bounds(x, "-->"@, p + k + 4);
                } else if is_character_data(x, p + k) {
                    find_bounds(x, "]]>"@, p + k + 9);
                } else if stands_at(x, "<?"@, p + k) {
                    find_bounds(x, "?>"@, p + k + 2);
                }
            }
        }
    }
}

proof fn position_in_context(x: Seq<char>, p: int, q: int, f: spec_fn(char) -> bool, k: int)
    requires
        0 <= p <= q <= x.len(),
        0 <= k,
        position(x.subrange(p, q), f, k) < q - p,
    ensures
        position(x, f, p + k) == p + position(x.subrange(p, q), f, k),
    decreases q - p - k,
{
    let part = x.subrange(p, q);
    if k < part.len() {
        assert(part[k] == x[p + k]);
        if !f(part[k]) {
            position_in_context(x, p, q, f, k + 1);
        }
    }
}

pub proof fn content_end_in_context(x: Seq<char>, p: int, q: int, k: int, inner: nat)
    requires
        0 <= p <= q <= x.len(),
        0 <= k,
        content_end(x.subrange(p, q), k, inner) is Some,
    ensures
        content_end(x, p + k, inner) == Some(p + content_end(x.subrange(p, q), k, inner)->0),
    decreases q - p - k,
{
    let part = x.subrange(p, q);
    piece_in_context(x, p, q, k);
    piece_bounds(part, k);
    let end = piece(part, k)->0;
    assert(part[k] == x[p + k]);
    assert(part[k] == '<' ==> part[k + 1] == x[p + k + 1] && part[end - 2] == x[p + end - 2]);
    if is_end_tag(part, k) {
        if inner > 0 {
            content_end_in_context(x, p, q, end, (inner - 1) as nat);
        }
    } else if opens(part, k, end) {
        content_end_in_context(x, p, q, end, inner + 1);
    } else {
        content_end_in_context(x, p, q, end, inner);
    }
}

/// An element that is closed, or needs not to be.
pub open spec fn is_closed(s: Seq<char>, at: int) -> bool {
    &&& element_at(s, at) is Some
    &&& opens(s, at, piece(s, at)->0) ==> content_end(s, piece(s, at)->0, 0) is Some
}

/// A closed element is the same in whatever text the part stands that holds it.
pub proof fn element_in_context(x: Seq<char>, p: int, q: int, k: int, name: Seq<char>)
    requires
        0 <= p <= q <= x.len(),
        is_closed(x.subrange(p, q), k),
    ensures
        ({
            let inside = element_at(x.subrange(p, q), k)->0;
            element_at(x, p + k) == Some(
                ElementModel {
                    tag_end: p + inside.tag_end,
                    content_end: p + inside.content_end,
                    end: p + inside.end,
                },
            )
        }),
        is_named(x, p + k, name) == is_named(x.subrange(p, q), k, name),
{
    let part = x.subrange(p, q);
    piece_in_context(x, p, q, k);
    piece_bounds(part, k);
    let end = piece(part, k)->0;
    assert(part[k] == x[p + k] && part[k + 1] == x[p + k + 1] && part[end - 2] == x[p + end - 2]);
    if opens(part, k, end) {
        content_end_in_context(x, p, q, end, 0);
        content_end_bounds(part, end, 0);
        piece_in_context(x, p, q, content_end(part, end, 0)->0);
    }
    let f = |c: char| is_name_end(c);
    position_bounds(part, f, k + 1);
    assert(f(part[end - 1]));
    position_in_context(x, p, q, f, k + 1);
    assert(part.subrange(k + 1, name_end(part, k)) =~= x.subrange(p + k + 1, name_end(x, p + k)));
}

/// Where `outer` elements are open at the end of a text, those are closed before
/// that were open in them.
pub proof fn elements_are_closed(s: Seq<char>, from: int, inner: nat, outer: nat, left: nat)
    requires
        0 <= from,
        open_elements(s, from, outer + inner + 1) == Some(left),
        left <= outer,
    ensures
        content_end(s, from, inner) is Some,
        open_elements(s, next_piece(s, content_end(s, from, inner)->0), outer) == Some(left),
    decreases s.len() - from,
{
    let end = piece(s, from)->0;
    if is_end_tag(s, from) {
        if inner > 0 {
            elements_are_closed(s, end, (inner - 1) as nat, outer, left);
        }
    } else if opens(s, from, end) {
        elements_are_closed(s, end, inner + 1, outer, left);
    } else {
        elements_are_closed(s, end, inner, outer, left);
    }
}

/// What is open at the end of a part is open where the rest starts.
pub proof fn open_elements_in_context(x: Seq<char>, p: int, q: int, k: int, open: nat)
    requires
        0 <= p <= q <= x.len(),
        0 <= k <= q - p,
        open_elements(x.subrange(p, q), k, open) is Some,
    ensures
        open_elements(x, p + k, open) == open_elements(
            x,
            q,
            open_elements(x.subrange(p, q), k, open)->0,
        ),
    decreases q - p - k,
{
    let part = x.subrange(p, q);
    if k < part.len() {
        piece_in_context(x, p, q, k);
        piece_bounds(part, k);
        let end = piece(part, k)->0;
        assert(part[k] == x[p + k]);
        assert(part[k] == '<' ==> part[k + 1] == x[p + k + 1] && part[end - 2] == x[p + end - 2]);
        if is_end_tag(part, k) {
            open_elements_in_context(x, p, q, end, (open - 1) as nat);
        } else if opens(part, k, end) {
            open_elements_in_context(x, p, q, end, open + 1);
        } else {
            open_elements_in_context(x, p, q, end, open);
        }
    }
}

/// Text opens and closes nothing.
pub proof fn text_is_passed(s: Seq<char>, from: int, to: int, open: nat)
    requires
        0 <= from <= to <= s.len(),
        forall|i: int| from <= i < to ==> #[trigger] s[i] != '<',
    ensures
        open_elements(s, from, open) == open_elements(s, to, open),
    decreases to - from,
{
    if from < to {
        text_is_passed(s, from + 1, to, open);
    }
}

/// What is open at the end of two texts, one after the other.
pub proof fn open_elements_of_both(a: Seq<char>, b: Seq<char>, open: nat)
    requires
        open_elements(a, 0, open) is Some,
    ensures
        open_elements(a + b, 0, open) == open_elements(b, 0, open_elements(a, 0, open)->0) || open_elements(
            b,
            0,
            open_elements(a, 0, open)->0,
        ) is None,
{
    let x = a + b;
    assert(x.subrange(0, a.len() as int) =~= a);
    assert(x.subrange(a.len() as int, x.len() as int) =~= b);
    open_elements_in_context(x, 0, a.len() as int, 0, open);
    let between = open_elements(a, 0, open)->0;
    if open_elements(b, 0, between) is Some {
        open_elements_in_context(x, a.len() as int, x.len() as int, 0, between);
    }
}

pub proof fn position_is(s: Seq<char>, f: spec_fn(char) -> bool, from: int, at: int)
    requires
        0 <= from <= at < s.len(),
        f(s[at]),
        forall|i: int| from <= i < at ==> !f(#[trigger] s[i]),
    ensures
        position(s, f, from) == at,
    decreases at - from,
{
    if from < at {
        position_is(s, f, from + 1, at);
    }
}

/// A name of an attribute.
pub open spec fn is_word(name: Seq<char>) -> bool {
    &&& name.len() > 0
    &&& forall|i: int|
        0 <= i < name.len() ==> !is_word_end(#[trigger] name[i]) && name[i] != '<' && name[i] != ':'
}

/// A text that can stand in double quotes and between tags.
pub open spec fn is_inert(value: Seq<char>) -> bool {
    forall|i: int| 0 <= i < value.len() ==> #[trigger] value[i] != '<' && value[i] != '"'
}

/// An attribute as it is written.
pub open spec fn attribute_text(name: Seq<char>, value: Seq<char>) -> Seq<char> {
    " "@ + name + "=\""@ + value + "\""@
}

/// The characters of an attribute as it is written.
proof fn attribute_chars(tag: Seq<char>, from: int, name: Seq<char>, value: Seq<char>)
    requires
        stands_at(tag, attribute_text(name, value), from),
    ensures
        attribute_text(name, value).len() == name.len() + value.len() + 4,
        tag[from] == ' ',
        forall|i: int| 0 <= i < name.len() ==> tag[from + 1 + i] == #[trigger] name[i],
        tag[from + 1 + name.len()] == '=',
        tag[from + 2 + name.len()] == '"',
        forall|i: int|
            0 <= i < value.len() ==> tag[from + 3 + name.len() + i] == #[trigger] value[i],
        tag[from + 3 + name.len() + value.len()] == '"',
{
    reveal_strlit(" ");
    reveal_strlit("=\"");
    reveal_strlit("\"");
    let text = attribute_text(name, value);
    assert forall|i: int| 0 <= i < text.len() implies tag[from + i] == #[trigger] text[i] by {
        assert(tag.subrange(from, from + text.len())[i] == tag[from + i]);
    }
    assert(text[0] == ' ');
    assert(text[1 + name.len() as int] == '=');
    assert(text[2 + name.len() as int] == '"');
    assert(text[3 + name.len() as int + value.len()] == '"');
    assert forall|i: int| 0 <= i < name.len() implies tag[from + 1 + i] == #[trigger] name[i] by {
        assert(text[1 + i] == name[i]);
    }
    assert forall|i: int| 0 <= i < value.len() implies tag[from + 3 + name.len() + i]
        == #[trigger] value[i] by {
        assert(text[3 + name.len() + i] == value[i]);
    }
}

proof fn tag_goes_on(tag: Seq<char>, from: int, to: int, quote: Option<char>)
    requires
        0 <= from <= to <= tag.len(),
        forall|i: int|
            from <= i < to ==> #[trigger] tag[i] != '<' && match quote {
                Some(q) => tag[i] != q,
                None => tag[i] != '>' && !is_quote(tag[i]),
            },
    ensures
        tag_end(tag, from, quote) == tag_end(tag, to, quote),
    decreases to - from,
{
    if from < to {
        tag_goes_on(tag, from + 1, to, quote);
    }
}

/// A tag does not end in an attribute.
pub proof fn tag_passes_attribute(tag: Seq<char>, from: int, name: Seq<char>, value: Seq<char>)
    requires
        stands_at(tag, attribute_text(name, value), from),
        is_word(name),
        is_inert(value),
    ensures
        tag_end(tag, from, None) == tag_end(
            tag,
            from + attribute_text(name, value).len(),
            None,
        ),
{
    attribute_chars(tag, from, name, value);
    let mark = from + 2 + name.len();
    let close = mark + 1 + value.len();
    assert forall|i: int| from <= i < mark implies #[trigger] tag[i] != '<' && tag[i] != '>'
        && !is_quote(tag[i]) by {
        if from < i < mark - 1 {
            assert(tag[from + 1 + (i - from - 1)] == name[i - from - 1]);
        }
    }
    tag_goes_on(tag, from, mark, None);
    assert forall|i: int| mark + 1 <= i < close implies #[trigger] tag[i] != '<' && tag[i]
        != '"' by {
        assert(tag[mark + 1 + (i - mark - 1)] == value[i - mark - 1]);
    }
    tag_goes_on(tag, mark + 1, close, Some('"'));
}

/// No attribute and no value starts or ends at this place in a tag.
spec fn is_passed_over(tag: Seq<char>, i: int, quote: Option<char>) -> bool {
    match quote {
        Some(q) => tag[i] != q,
        None => !is_quote(tag[i]) && !is_space(tag[i - 1]),
    }
}

proof fn attributes_go_on(
    tag: Seq<char>,
    wanted: Seq<char>,
    from: int,
    to: int,
    quote: Option<char>,
)
    requires
        0 < from <= to <= tag.len(),
        forall|i: int| from <= i < to ==> #[trigger] is_passed_over(tag, i, quote),
    ensures
        attribute_from(tag, wanted, from, quote) == attribute_from(tag, wanted, to, quote),
    decreases to - from,
{
    if from < to {
        assert(is_passed_over(tag, from, quote));
        attributes_go_on(tag, wanted, from + 1, to, quote);
    }
}

/// A name without a prefix is that name alone.
pub proof fn words_are_local_names(word: Seq<char>, name: Seq<char>)
    requires
        is_word(word),
    ensures
        is_local_name(word, name) == (word == name),
{
    reveal_strlit(":");
    if word.len() > name.len() {
        let start = word.len() - name.len() - 1;
        assert(word.skip(start)[0] == word[start]);
        assert((":"@ + name)[0] == ':');
    }
}

/// An attribute is read as it is written.
pub proof fn attribute_is_read(
    tag: Seq<char>,
    wanted: Seq<char>,
    from: int,
    name: Seq<char>,
    value: Seq<char>,
)
    requires
        0 < from,
        !is_space(tag[from - 1]),
        stands_at(tag, attribute_text(name, value), from),
        is_word(name),
        is_inert(value),
    ensures
        attribute_from(tag, wanted, from, None) == if name == wanted {
            Some(value)
        } else {
            attribute_from(tag, wanted, from + attribute_text(name, value).len(), None)
        },
{
    attribute_chars(tag, from, name, value);
    let start = from + 1;
    let sign = start + name.len();
    let mark = sign + 1;
    let close = mark + 1 + value.len();
    let f = |c: char| is_word_end(c);
    assert forall|i: int| start <= i < sign implies !f(#[trigger] tag[i]) by {
        assert(tag[from + 1 + (i - start)] == name[i - start]);
    }
    position_is(tag, f, start, sign);
    assert(tag.subrange(start, sign) =~= name) by {
        assert forall|i: int| 0 <= i < name.len() implies tag.subrange(start, sign)[i]
            == name[i] by {
            assert(tag[from + 1 + i] == name[i]);
        }
    }
    position_is(tag, |c: char| !is_space(c), sign, sign);
    position_is(tag, |c: char| !is_space(c), mark, mark);
    assert(value_start(tag, sign) == Some(mark + 1));
    assert forall|i: int| mark + 1 <= i < close implies #[trigger] tag[i] != '"' by {
        assert(tag[from + 3 + name.len() + (i - mark - 1)] == value[i - mark - 1]);
    }
    value_end_is(tag, '"', mark + 1, close);
    assert(tag.subrange(mark + 1, close) =~= value) by {
        assert forall|i: int| 0 <= i < value.len() implies tag.subrange(mark + 1, close)[i]
            == value[i] by {
            assert(tag[from + 3 + name.len() + i] == value[i]);
        }
    }
    words_are_local_names(name, wanted);
    assert(attribute_from(tag, wanted, from, None) == attribute_from(tag, wanted, start, None));
    if name != wanted {
        assert(!is_attribute(tag, wanted, start));
        assert(!is_quote(tag[start])) by {
            assert(tag[from + 1 + 0] == name[0]);
        }
        assert(attribute_from(tag, wanted, start, None) == attribute_from(
            tag,
            wanted,
            start + 1,
            None,
        ));
        assert forall|i: int| start + 1 <= i < mark implies #[trigger] is_passed_over(
            tag,
            i,
            None,
        ) by {
            assert(tag[from + 1 + (i - 1 - start)] == name[i - 1 - start]);
            if i < sign {
                assert(tag[from + 1 + (i - start)] == name[i - start]);
            }
        }
        attributes_go_on(tag, wanted, start + 1, mark, None);
        assert(attribute_from(tag, wanted, mark, None) == attribute_from(
            tag,
            wanted,
            mark + 1,
            Some('"'),
        ));
        assert forall|i: int| mark + 1 <= i < close implies #[trigger] is_passed_over(
            tag,
            i,
            Some('"'),
        ) by {
            assert(tag[i] != '"');
        }
        attributes_go_on(tag, wanted, mark + 1, close, Some('"'));
    }
}

/// A tag of the name `meta` with two attributes, up to its end.
pub open spec fn meta_tag(
    first: Seq<char>,
    value: Seq<char>,
    second: Seq<char>,
    other: Seq<char>,
    end: Seq<char>,
) -> Seq<char> {
    "<meta"@ + attribute_text(first, value) + attribute_text(second, other) + end
}

/// A tag of the name `meta`, in which two attributes end at `middle` and `last`.
spec fn has_two_attributes(
    tag: Seq<char>,
    first: Seq<char>,
    value: Seq<char>,
    second: Seq<char>,
    other: Seq<char>,
    middle: int,
    last: int,
) -> bool {
    &&& 5 < middle < last < tag.len()
    &&& tag[0] == '<'
    &&& tag[1] == 'm'
    &&& tag[2] == 'e'
    &&& tag[3] == 't'
    &&& tag[4] == 'a'
    &&& tag[5] == ' '
    &&& stands_at(tag, attribute_text(first, value), 5)
    &&& middle == 5 + attribute_text(first, value).len()
    &&& stands_at(tag, attribute_text(second, other), middle)
    &&& last == middle + attribute_text(second, other).len()
    &&& tag[middle - 1] == '"'
    &&& tag[last - 1] == '"'
    &&& tag.last() == '>'
    &&& tag.len() == last + 1 || (tag.len() == last + 2 && tag[last] == '/')
}

proof fn parts_stand_in_order(p: Seq<char>, a: Seq<char>, b: Seq<char>, e: Seq<char>)
    ensures
        ({
            let s = p + a + b + e;
            let middle: int = p.len() + a.len() as int;
            let last: int = middle + b.len();
            &&& s.len() == last + e.len()
            &&& s.subrange(0, p.len() as int) == p
            &&& stands_at(s, a, p.len() as int)
            &&& stands_at(s, b, middle)
            &&& forall|i: int| 0 <= i < p.len() ==> #[trigger] s[i] == p[i]
            &&& forall|i: int| 0 <= i < e.len() ==> s[last + i] == #[trigger] e[i]
        }),
{
    let s = p + a + b + e;
    let n = p.len() as int;
    let middle: int = n + a.len();
    assert(s.subrange(0, n) =~= p);
    assert(s.subrange(n, middle) =~= a);
    assert(s.subrange(middle, middle + b.len()) =~= b);
}

#[verifier::rlimit(40)]
proof fn meta_tag_has_two_attributes(
    first: Seq<char>,
    value: Seq<char>,
    second: Seq<char>,
    other: Seq<char>,
    end: Seq<char>,
) -> (ends: (int, int))
    requires
        end == ">"@ || end == "/>"@,
    ensures
        has_two_attributes(
            meta_tag(first, value, second, other, end),
            first,
            value,
            second,
            other,
            ends.0,
            ends.1,
        ),
        end == ">"@ ==> meta_tag(first, value, second, other, end).len() == ends.1 + 1,
        end == "/>"@ ==> meta_tag(first, value, second, other, end).len() == ends.1 + 2,
{
    reveal_strlit("<meta");
    reveal_strlit(">");
    reveal_strlit("/>");
    let tag = meta_tag(first, value, second, other, end);
    let a = attribute_text(first, value);
    let b = attribute_text(second, other);
    let middle: int = 5 + a.len() as int;
    let last: int = middle + b.len();
    parts_stand_in_order("<meta"@, a, b, end);
    assert(tag == "<meta"@ + a + b + end);
    attribute_chars(tag, 5, first, value);
    attribute_chars(tag, middle, second, other);
    assert(tag[last + 0] == end[0]);
    assert(end.len() == 2 ==> tag[last + 1] == end[1]);
    (middle, last)
}

proof fn tag_of_two_attributes_ends(
    tag: Seq<char>,
    first: Seq<char>,
    value: Seq<char>,
    second: Seq<char>,
    other: Seq<char>,
    middle: int,
    last: int,
)
    requires
        has_two_attributes(tag, first, value, second, other, middle, last),
        is_word(first),
        is_word(second),
        is_inert(value),
        is_inert(other),
    ensures
        piece(tag, 0) == Some(tag.len() as int),
        forall|i: int| 1 <= i < tag.len() ==> #[trigger] tag[i] != '<',
{
    assert(tag_end(tag, last, None) == Some(tag.len() as int)) by {
        reveal_with_fuel(tag_end, 3);
    }
    tag_passes_attribute(tag, middle, second, other);
    tag_passes_attribute(tag, 5, first, value);
    tag_goes_on(tag, 1, 5, None);
    tag_end_bounds(tag, 1, None);
    assert(piece(tag, 0) == tag_end(tag, 1, None)) by {
        reveal_strlit("<!--");
        reveal_strlit("<![CDATA[");
        reveal_strlit("<?");
        assert(tag.subrange(0, 4)[1] == 'm');
        assert(tag.len() >= 9 ==> tag.subrange(0, 9)[1] == 'm');
        assert(tag.subrange(0, 2)[1] == 'm');
    }
}

proof fn two_attributes_are_read(
    tag: Seq<char>,
    first: Seq<char>,
    value: Seq<char>,
    second: Seq<char>,
    other: Seq<char>,
    middle: int,
    last: int,
    wanted: Seq<char>,
)
    requires
        has_two_attributes(tag, first, value, second, other, middle, last),
        is_word(first),
        is_word(second),
        is_inert(value),
        is_inert(other),
    ensures
        attribute_from(tag, wanted, 0, None) == if first == wanted {
            Some(value)
        } else if second == wanted {
            Some(other)
        } else {
            None
        },
{
    assert(attribute_from(tag, wanted, last, None) is None) by {
        assert(is_passed_over(tag, last, None));
        assert(tag.len() > last + 1 ==> is_passed_over(tag, last + 1, None));
        attributes_go_on(tag, wanted, last, tag.len() as int, None);
    }
    attribute_is_read(tag, wanted, middle, second, other);
    attribute_is_read(tag, wanted, 5, first, value);
    assert(attribute_from(tag, wanted, 1, None) == attribute_from(tag, wanted, 5, None)) by {
        assert(is_passed_over(tag, 1, None) && is_passed_over(tag, 2, None) && is_passed_over(
            tag,
            3,
            None,
        ) && is_passed_over(tag, 4, None));
        attributes_go_on(tag, wanted, 1, 5, None);
    }
}

/// Such a tag is one piece.
#[verifier::rlimit(40)]
pub proof fn meta_tag_is_a_piece(
    first: Seq<char>,
    value: Seq<char>,
    second: Seq<char>,
    other: Seq<char>,
    end: Seq<char>,
)
    requires
        is_word(first),
        is_word(second),
        is_inert(value),
        is_inert(other),
        end == ">"@ || end == "/>"@,
    ensures
        ({
            let tag = meta_tag(first, value, second, other, end);
            &&& tag.len() > 6
            &&& tag[0] == '<'
            &&& tag[1] == 'm'
            &&& tag[2] == 'e'
            &&& tag[3] == 't'
            &&& tag[4] == 'a'
            &&& tag[5] == ' '
            &&& end == ">"@ ==> tag[tag.len() - 2] != '/'
            &&& end == "/>"@ ==> tag[tag.len() - 2] == '/'
            &&& piece(tag, 0) == Some(tag.len() as int)
            &&& forall|i: int| 1 <= i < tag.len() ==> #[trigger] tag[i] != '<'
        }),
{
    let (middle, last) = meta_tag_has_two_attributes(first, value, second, other, end);
    let tag = meta_tag(first, value, second, other, end);
    tag_of_two_attributes_ends(tag, first, value, second, other, middle, last);
}

/// The attributes of such a tag are read as they are written.
pub proof fn meta_tag_is_read(
    first: Seq<char>,
    value: Seq<char>,
    second: Seq<char>,
    other: Seq<char>,
    end: Seq<char>,
    wanted: Seq<char>,
)
    requires
        is_word(first),
        is_word(second),
        is_inert(value),
        is_inert(other),
        end == ">"@ || end == "/>"@,
    ensures
        attribute_from(meta_tag(first, value, second, other, end), wanted, 0, None) == if first
            == wanted {
            Some(value)
        } else if second == wanted {
            Some(other)
        } else {
            None
        },
{
    let (middle, last) = meta_tag_has_two_attributes(first, value, second, other, end);
    let tag = meta_tag(first, value, second, other, end);
    two_attributes_are_read(tag, first, value, second, other, middle, last, wanted);
}

/// The value of an attribute holds no sign that opens a tag.
pub proof fn attributes_hold_no_tags(
    tag: Seq<char>,
    name: Seq<char>,
    from: int,
    quote: Option<char>,
)
    requires
        forall|i: int| 0 < i < tag.len() ==> #[trigger] tag[i] != '<',
        attribute_from(tag, name, from, quote) is Some,
    ensures
        forall|i: int|
            0 <= i < attribute_from(tag, name, from, quote)->0.len() ==> #[trigger] attribute_from(
                tag,
                name,
                from,
                quote,
            )->0[i] != '<',
    decreases tag.len() - from,
{
    match quote {
        Some(q) => {
            attributes_hold_no_tags(
                tag,
                name,
                from + 1,
                if tag[from] == q {
                    None
                } else {
                    quote
                },
            );
        },
        None => {
            if is_attribute(tag, name, from) {
                position_bounds(tag, |c: char| is_word_end(c), from);
                let end = word_end(tag, from);
                position_bounds(tag, |c: char| !is_space(c), end);
                let sign = after_space(tag, end);
                position_bounds(tag, |c: char| !is_space(c), sign + 1);
                let start = value_start(tag, end)->0;
                value_end_bounds(tag, tag[start - 1], start);
                let value = tag.subrange(start, value_end(tag, tag[start - 1], start));
                assert forall|i: int| 0 <= i < value.len() implies #[trigger] value[i] != '<' by {
                    assert(value[i] == tag[start + i]);
                }
            } else {
                attributes_hold_no_tags(
                    tag,
                    name,
                    from + 1,
                    if is_quote(tag[from]) {
                        Some(tag[from])
                    } else {
                        None
                    },
                );
            }
        },
    }
}

proof fn value_end_bounds(tag: Seq<char>, quote: char, start: int)
    requires
        0 <= start <= tag.len(),
    ensures
        start <= value_end(tag, quote, start) <= tag.len(),
    decreases tag.len() - start,
{
    if start < tag.len() && tag[start] != quote {
        value_end_bounds(tag, quote, start + 1);
    }
}

fn is_quote_char(c: char) -> (yes: bool)
    ensures
        yes == is_quote(c),
{
    c == '"' || c == '\''
}

fn find_name_end(s: &[char], from: usize) -> (at: usize)
    ensures
        at == position(s@, |c: char| is_name_end(c), from as int),
{
    let mut i: usize = from;
    while i < s.len()
        invariant
            position(s@, |c: char| is_name_end(c), from as int) == position(
                s@,
                |c: char| is_name_end(c),
                i as int,
            ),
        decreases s.len() - i,
    {
        let c = s[i];
        if is_space_char(c) || c == '/' || c == '>' || c == '<' {
            return i;
        }
        i += 1;
    }
    s.len()
}

fn find_word_end(s: &[char], from: usize) -> (at: usize)
    ensures
        at == word_end(s@, from as int),
{
    let mut i: usize = from;
    while i < s.len()
        invariant
            word_end(s@, from as int) == word_end(s@, i as int),
        decreases s.len() - i,
    {
        let c = s[i];
        if is_space_char(c) || is_quote_char(c) || c == '=' || c == '/' || c == '>' {
            return i;
        }
        i += 1;
    }
    s.len()
}

fn find_after_space(s: &[char], from: usize) -> (at: usize)
    ensures
        at == after_space(s@, from as int),
{
    let mut i: usize = from;
    while i < s.len()
        invariant
            after_space(s@, from as int) == after_space(s@, i as int),
        decreases s.len() - i,
    {
        if !is_space_char(s[i]) {
            return i;
        }
        i += 1;
    }
    s.len()
}

fn find_tag_end(s: &[char], from: usize) -> (end: Option<usize>)
    ensures
        match end {
            Some(at) => tag_end(s@, from as int, None) == Some(at as int),
            None => tag_end(s@, from as int, None) is None,
        },
{
    let mut quote: Option<char> = None;
    let mut i: usize = from;
    while i < s.len()
        invariant
            tag_end(s@, from as int, None) == tag_end(s@, i as int, quote),
        decreases s.len() - i,
    {
        let c = s[i];
        if c == '<' {
            return None;
        }
        match quote {
            Some(q) => {
                if c == q {
                    quote = None;
                }
            },
            None => {
                if c == '>' {
                    return Some(i + 1);
                }
                if is_quote_char(c) {
                    quote = Some(c);
                }
            },
        }
        i += 1;
    }
    None
}

fn find_end_of(s: &[char], mark: &str, from: usize) -> (end: Option<usize>)
    ensures
        match end {
            Some(at) => end_of(s@, mark@, from as int) == Some(at as int),
            None => end_of(s@, mark@, from as int) is None,
        },
{
    let pattern = chars_of(mark);
    match find_from(s, pattern.as_slice(), from) {
        Some(at) => {
            proof {
                find_bounds(s@, pattern@, from as int);
            }
            assert(at + pattern@.len() <= s.len());
            Some(at + pattern.len())
        },
        None => None,
    }
}

/// Whether a comment starts at `at`.
pub fn starts_comment(s: &[char], at: usize) -> (yes: bool)
    ensures
        yes == is_comment(s@, at as int),
{
    matches_at(s, chars_of("<!--").as_slice(), at)
}

/// Whether character data start at `at`.
pub fn starts_character_data(s: &[char], at: usize) -> (yes: bool)
    ensures
        yes == is_character_data(s@, at as int),
{
    matches_at(s, chars_of("<![CDATA[").as_slice(), at)
}

/// Where a piece of markup ends: see [`piece`].
pub fn find_piece(s: &[char], at: usize) -> (end: Option<usize>)
    ensures
        match end {
            Some(to) => piece(s@, at as int) == Some(to as int) && at < to <= s@.len(),
            None => piece(s@, at as int) is None,
        },
{
    proof {
        reveal_strlit("<!--");
        reveal_strlit("<![CDATA[");
        reveal_strlit("<?");
        if piece(s@, at as int) is Some {
            piece_bounds(s@, at as int);
        }
    }
    if at >= s.len() {
        None
    } else if s[at] != '<' {
        Some(at + 1)
    } else if starts_comment(s, at) {
        find_end_of(s, "-->", at + 4)
    } else if starts_character_data(s, at) {
        find_end_of(s, "]]>", at + 9)
    } else if matches_at(s, chars_of("<?").as_slice(), at) {
        find_end_of(s, "?>", at + 2)
    } else {
        find_tag_end(s, at + 1)
    }
}

/// Where the next piece starts: see [`next_piece`].
pub(crate) fn find_next_piece(s: &[char], at: usize) -> (next: usize)
    requires
        at < s@.len(),
    ensures
        next == next_piece(s@, at as int),
        at < next <= s@.len(),
{
    assert(at < s.len());
    match find_piece(s, at) {
        Some(end) => end,
        None => at + 1,
    }
}

fn starts_element(s: &[char], at: usize) -> (yes: bool)
    ensures
        yes == is_start_tag(s@, at as int),
{
    at < s.len() && s.len() - at > 1 && s[at] == '<' && s[at + 1] != '/' && s[at + 1] != '!' && s[at
        + 1] != '?'
}

fn find_content_end(s: &[char], from: usize) -> (close: Option<usize>)
    ensures
        match close {
            Some(at) => content_end(s@, from as int, 0) == Some(at as int),
            None => content_end(s@, from as int, 0) is None,
        },
{
    let mut inner: usize = 0;
    let mut i: usize = from;
    while i < s.len()
        invariant
            from <= i,
            inner <= i - from,
            content_end(s@, from as int, 0) == content_end(s@, i as int, inner as nat),
        decreases s.len() - i,
    {
        match find_piece(s, i) {
            None => {
                return None;
            },
            Some(end) => {
                proof {
                    piece_bounds(s@, i as int);
                }
                if s[i] == '<' && s[i + 1] == '/' {
                    if inner == 0 {
                        return Some(i);
                    }
                    inner -= 1;
                } else if starts_element(s, i) && s[end - 2] != '/' {
                    inner += 1;
                }
                i = end;
            },
        }
    }
    None
}

/// Where the parts of an element end.
pub struct Element {
    pub tag_end: usize,
    pub content_end: usize,
    pub end: usize,
}

impl View for Element {
    type V = ElementModel;

    open spec fn view(&self) -> ElementModel {
        ElementModel {
            tag_end: self.tag_end as int,
            content_end: self.content_end as int,
            end: self.end as int,
        }
    }
}

/// The element that starts at `at`: see [`element_at`].
pub fn find_element(s: &[char], at: usize) -> (element: Option<Element>)
    ensures
        match element {
            Some(found) => element_at(s@, at as int) == Some(found@),
            None => element_at(s@, at as int) is None,
        },
{
    if !starts_element(s, at) {
        return None;
    }
    match find_piece(s, at) {
        None => None,
        Some(end) => {
            proof {
                piece_bounds(s@, at as int);
            }
            if s[end - 2] == '/' {
                return Some(Element { tag_end: end, content_end: end, end });
            }
            match find_content_end(s, end) {
                None => Some(Element { tag_end: end, content_end: end, end }),
                Some(close) => {
                    proof {
                        content_end_bounds(s@, end as int, 0);
                    }
                    Some(Element { tag_end: end, content_end: close, end: find_next_piece(s, close) })
                },
            }
        },
    }
}

/// Whether the element that starts at `at` has this name, with a prefix or without,
/// in letters of any case.
pub open spec fn is_named(s: Seq<char>, at: int, name: Seq<char>) -> bool {
    let word = s.subrange(at + 1, name_end(s, at));
    ||| same_but_case(word, name)
    ||| word.len() > name.len() && same_but_case(word.skip(word.len() - name.len() - 1), ":"@
        + name)
}

pub(crate) fn has_name(s: &[char], at: usize, name: &str) -> (yes: bool)
    requires
        at < s@.len(),
    ensures
        yes == is_named(s@, at as int, name@),
{
    proof {
        position_bounds(s@, |c: char| is_name_end(c), at + 1);
        reveal_strlit(":");
    }
    assert(at < s.len());
    let word = slice_subrange(s, at + 1, find_name_end(s, at + 1));
    let wanted = chars_of(name);
    if same_but_case_chars(word, wanted.as_slice()) {
        return true;
    }
    if word.len() <= wanted.len() {
        return false;
    }
    let mut local = chars_of(":");
    push_chars(&mut local, wanted.as_slice());
    let tail = slice_subrange(word, word.len() - wanted.len() - 1, word.len());
    assert(tail@ =~= word@.skip(word@.len() - wanted@.len() - 1));
    same_but_case_chars(tail, local.as_slice())
}

fn names_attribute(word: &[char], name: &[char]) -> (yes: bool)
    ensures
        yes == is_local_name(word@, name@),
{
    if word.len() == name.len() {
        let yes = matches_at(word, name, 0);
        assert(word@.subrange(0, name@.len() as int) =~= word@);
        return yes;
    }
    if word.len() < name.len() {
        return false;
    }
    proof {
        reveal_strlit(":");
    }
    let mut local = chars_of(":");
    push_chars(&mut local, name);
    let start = word.len() - name.len() - 1;
    assert(word@.subrange(start as int, start + local@.len()) =~= word@.skip(start as int));
    matches_at(word, local.as_slice(), start)
}

fn find_value_start(tag: &[char], from: usize) -> (start: Option<usize>)
    requires
        from <= tag@.len(),
    ensures
        match start {
            Some(at) => value_start(tag@, from as int) == Some(at as int) && 0 < at <= tag@.len(),
            None => value_start(tag@, from as int) is None,
        },
{
    proof {
        position_bounds(tag@, |c: char| !is_space(c), from as int);
    }
    let sign = find_after_space(tag, from);
    if sign >= tag.len() || tag[sign] != '=' {
        return None;
    }
    let mark = find_after_space(tag, sign + 1);
    if mark < tag.len() && is_quote_char(tag[mark]) {
        Some(mark + 1)
    } else {
        None
    }
}

/// The value of an attribute in a tag: see [`attribute_from`].
pub fn find_attribute(tag: &[char], name: &str) -> (value: Option<Vec<char>>)
    ensures
        match value {
            Some(found) => attribute_from(tag@, name@, 0, None) == Some(found@),
            None => attribute_from(tag@, name@, 0, None) is None,
        },
{
    let wanted = chars_of(name);
    let mut quote: Option<char> = None;
    let mut i: usize = 0;
    while i < tag.len()
        invariant
            i <= tag.len(),
            wanted@ == name@,
            attribute_from(tag@, name@, 0, None) == attribute_from(tag@, name@, i as int, quote),
        decreases tag.len() - i,
    {
        let c = tag[i];
        match quote {
            Some(q) => {
                if c == q {
                    quote = None;
                }
            },
            None => {
                if i > 0 && is_space_char(tag[i - 1]) {
                    proof {
                        position_bounds(tag@, |c: char| is_word_end(c), i as int);
                    }
                    let end = find_word_end(tag, i);
                    if names_attribute(slice_subrange(tag, i, end), wanted.as_slice()) {
                        match find_value_start(tag, end) {
                            Some(start) => {
                                let mark = tag[start - 1];
                                let close = position_of(tag, mark, start);
                                proof {
                                    value_end_is(tag@, mark, start as int, close as int);
                                }
                                let mut value: Vec<char> = Vec::new();
                                push_chars(&mut value, slice_subrange(tag, start, close));
                                assert(value@ =~= tag@.subrange(start as int, close as int));
                                return Some(value);
                            },
                            None => {},
                        }
                    }
                }
                if is_quote_char(c) {
                    quote = Some(c);
                }
            },
        }
        i += 1;
    }
    None
}

proof fn no_attribute_yet(tag: Seq<char>, name: Seq<char>, from: int, to: int)
    requires
        0 <= from <= to < tag.len(),
        name.len() > 0,
        forall|i: int| from <= i < to ==> !is_quote(#[trigger] tag[i]),
        forall|i: int| from <= i < to ==> !is_attribute(tag, name, i),
    ensures
        attribute_from(tag, name, from, None) == attribute_from(tag, name, to, None),
    decreases to - from,
{
    if from < to {
        assert(!is_quote(tag[from]));
        assert(!is_attribute(tag, name, from));
        no_attribute_yet(tag, name, from + 1, to);
    }
}

/// The first attribute of a tag is read by its name, with a prefix or without, however
/// much white space stands around its equals sign, and whichever quotes its value
/// stands in; the value is all that stands between them.
pub proof fn first_attributes_are_read(
    start: Seq<char>,
    gap: Seq<char>,
    prefix: Seq<char>,
    name: Seq<char>,
    a: Seq<char>,
    b: Seq<char>,
    quote: char,
    value: Seq<char>,
    after: Seq<char>,
)
    requires
        start.len() > 0,
        forall|i: int|
            0 <= i < start.len() ==> !is_space(#[trigger] start[i]) && start[i] != '"' && start[i]
                != '\'',
        gap.len() > 0,
        forall|i: int| 0 <= i < gap.len() ==> is_space(#[trigger] gap[i]),
        prefix.len() == 0 || prefix.last() == ':',
        forall|i: int| 0 <= i < prefix.len() ==> !is_word_end(#[trigger] prefix[i]),
        name.len() > 0,
        forall|i: int| 0 <= i < name.len() ==> !is_word_end(#[trigger] name[i]),
        forall|i: int| 0 <= i < a.len() ==> is_space(#[trigger] a[i]),
        forall|i: int| 0 <= i < b.len() ==> is_space(#[trigger] b[i]),
        quote == '"' || quote == '\'',
        forall|i: int| 0 <= i < value.len() ==> #[trigger] value[i] != quote,
    ensures
        attribute_from(
            start + gap + (prefix + name) + a + seq!['='] + b + seq![quote] + value + seq![quote]
                + after,
            name,
            0,
            None,
        ) == Some(value),
{
    let word = prefix + name;
    let lead = start + gap;
    let tag = lead + word + a + seq!['='] + b + seq![quote] + value + seq![quote] + after;
    let from = lead.len() as int;
    assert forall|i: int| 0 <= i < word.len() implies !is_word_end(#[trigger] word[i]) by {
        if i < prefix.len() {
            assert(word[i] == prefix[i]);
        } else {
            assert(word[i] == name[i - prefix.len()]);
        }
    }
    prefixed_names_are_local(prefix, name);
    assert(lead.last() == gap.last());
    attribute_stands(lead, word, name, a, b, quote, value, after);
    assert forall|i: int| 0 <= i < from implies tag[i] == lead[i] by {}
    assert forall|i: int| 0 <= i < from implies !is_quote(#[trigger] tag[i]) && !is_attribute(
        tag,
        name,
        i,
    ) by {
        assert(tag[i] == lead[i]);
        if i < start.len() {
            assert(lead[i] == start[i]);
            if i > 0 {
                assert(tag[i - 1] == start[i - 1]);
            }
        } else {
            assert(lead[i] == gap[i - start.len()]);
            position_is(tag, |c: char| is_word_end(c), i, i);
            assert(tag.subrange(i, i) =~= Seq::empty());
        }
    }
    no_attribute_yet(tag, name, 0, from);
}

proof fn prefixed_names_are_local(prefix: Seq<char>, name: Seq<char>)
    requires
        prefix.len() == 0 || prefix.last() == ':',
    ensures
        is_local_name(prefix + name, name),
{
    reveal_strlit(":");
    let word = prefix + name;
    if prefix.len() > 0 {
        let at = word.len() - name.len() - 1;
        assert(word[at] == prefix.last());
        assert(word.skip(at) =~= ":"@ + name);
    } else {
        assert(word =~= name);
    }
}

proof fn attribute_stands(
    lead: Seq<char>,
    word: Seq<char>,
    name: Seq<char>,
    a: Seq<char>,
    b: Seq<char>,
    quote: char,
    value: Seq<char>,
    after: Seq<char>,
)
    requires
        lead.len() > 0,
        is_space(lead.last()),
        forall|i: int| 0 <= i < word.len() ==> !is_word_end(#[trigger] word[i]),
        is_local_name(word, name),
        forall|i: int| 0 <= i < a.len() ==> is_space(#[trigger] a[i]),
        forall|i: int| 0 <= i < b.len() ==> is_space(#[trigger] b[i]),
        quote == '"' || quote == '\'',
        forall|i: int| 0 <= i < value.len() ==> #[trigger] value[i] != quote,
    ensures
        attribute_from(
            lead + word + a + seq!['='] + b + seq![quote] + value + seq![quote] + after,
            name,
            lead.len() as int,
            None,
        ) == Some(value),
{
    let tag = lead + word + a + seq!['='] + b + seq![quote] + value + seq![quote] + after;
    let from = lead.len() as int;
    let word_stop = from + word.len();
    let sign = word_stop + a.len();
    let mark = sign + 1 + b.len();
    let close = mark + 1 + value.len();
    assert(tag[sign] == '=' && tag[mark] == quote && tag[close] == quote);
    assert(tag.subrange(from, word_stop) =~= word);
    assert(tag.subrange(word_stop, sign) =~= a);
    assert(tag.subrange(sign + 1, mark) =~= b);
    assert(tag.subrange(mark + 1, close) =~= value);
    assert(tag[from - 1] == lead.last());
    word_stops(tag, word, a, from, word_stop);
    spaces_are_passed(tag, a, word_stop, sign);
    spaces_are_passed(tag, b, sign + 1, mark);
    assert(value_start(tag, word_stop) == Some(mark + 1));
    assert forall|i: int| mark + 1 <= i < close implies #[trigger] tag[i] != quote by {
        assert(tag.subrange(mark + 1, close)[i - mark - 1] == tag[i]);
    }
    value_end_is(tag, quote, mark + 1, close);
    assert(is_attribute(tag, name, from));
}

proof fn word_stops(tag: Seq<char>, word: Seq<char>, gap: Seq<char>, from: int, to: int)
    requires
        0 <= from <= to,
        to + gap.len() < tag.len(),
        tag.subrange(from, to) == word,
        tag.subrange(to, to + gap.len()) == gap,
        tag[to + gap.len()] == '=',
        forall|i: int| 0 <= i < word.len() ==> !is_word_end(#[trigger] word[i]),
        forall|i: int| 0 <= i < gap.len() ==> is_space(#[trigger] gap[i]),
    ensures
        word_end(tag, from) == to,
{
    assert forall|i: int| from <= i < to implies !is_word_end(#[trigger] tag[i]) by {
        assert(tag.subrange(from, to)[i - from] == tag[i]);
    }
    assert(is_word_end(tag[to])) by {
        if gap.len() > 0 {
            assert(tag.subrange(to, to + gap.len())[0] == tag[to]);
        }
    }
    position_is(tag, |c: char| is_word_end(c), from, to);
}

proof fn spaces_are_passed(tag: Seq<char>, gap: Seq<char>, from: int, to: int)
    requires
        0 <= from <= to < tag.len(),
        to == from + gap.len(),
        tag.subrange(from, to) == gap,
        forall|i: int| 0 <= i < gap.len() ==> is_space(#[trigger] gap[i]),
        !is_space(tag[to]),
    ensures
        after_space(tag, from) == to,
{
    assert forall|i: int| from <= i < to implies !(|c: char| !is_space(c))(#[trigger] tag[i]) by {
        assert(tag.subrange(from, to)[i - from] == tag[i]);
    }
    position_is(tag, |c: char| !is_space(c), from, to);
}

} // verus!
