//! Text as sequences of characters: the vocabulary that the contracts of the
//! other modules are written in, and the executable functions that go with it.
//!
//! A `&str` or `String` is seen through its view, a `Seq<char>`; the functions
//! here work on slices of characters, whose view is the same sequence.

use vstd::prelude::*;
use vstd::slice::slice_subrange;
use vstd::utf8::{encode_utf8, encode_utf8_decode_utf8};

verus! {

/// `String::push` puts one character at the end of the text.
pub assume_specification[ String::push ](s: &mut String, ch: char)
    ensures
        final(s)@ == old(s)@.push(ch),
;

/// What `{:?}` writes for a text: the text in double quotes, with escapes.
pub uninterp spec fn debug_form(s: Seq<char>) -> Seq<char>;

/// Formats a text with `{:?}`, through `<str as Debug>::fmt`. The result depends
/// on the text alone; which characters are escaped is left unsaid.
#[verifier::external_body]
pub(crate) fn debug_text(s: &str) -> (out: String)
    ensures
        out@ == debug_form(s@),
{
    format!("{:?}", s)
}

/// The characters with Unicode's White_Space property.
pub open spec fn is_space(c: char) -> bool {
    ||| 0x09 <= c as u32 <= 0x0d
    ||| c as u32 == 0x20
    ||| c as u32 == 0x85
    ||| c as u32 == 0xa0
    ||| c as u32 == 0x1680
    ||| 0x2000 <= c as u32 <= 0x200a
    ||| 0x2028 <= c as u32 <= 0x2029
    ||| c as u32 == 0x202f
    ||| c as u32 == 0x205f
    ||| c as u32 == 0x3000
}

/// The characters of Unicode's general category Cc.
pub open spec fn is_control(c: char) -> bool {
    c as u32 <= 0x1f || 0x7f <= c as u32 <= 0x9f
}

pub open spec fn is_digit(c: char) -> bool {
    '0' <= c <= '9'
}

/// `c` with an ASCII capital letter made small.
pub open spec fn lower(c: char) -> char {
    if 'A' <= c <= 'Z' {
        (c as u32 + 32) as char
    } else {
        c
    }
}

/// `c` with a small ASCII letter made a capital one.
pub open spec fn upper(c: char) -> char {
    if 'a' <= c <= 'z' {
        (c as u32 - 32) as char
    } else {
        c
    }
}

pub open spec fn lower_all(s: Seq<char>) -> Seq<char> {
    s.map_values(|c: char| lower(c))
}

pub open spec fn upper_all(s: Seq<char>) -> Seq<char> {
    s.map_values(|c: char| upper(c))
}

/// The two texts are the same but for the case of ASCII letters.
pub open spec fn same_but_case(a: Seq<char>, b: Seq<char>) -> bool {
    lower_all(a) == lower_all(b)
}

/// `pattern` stands in `s` at position `at`.
pub open spec fn stands_at(s: Seq<char>, pattern: Seq<char>, at: int) -> bool {
    0 <= at && at + pattern.len() <= s.len() && s.subrange(at, at + pattern.len()) == pattern
}

/// `pattern` stands nowhere in `s`.
pub open spec fn stands_nowhere(s: Seq<char>, pattern: Seq<char>) -> bool {
    forall|i: int| !#[trigger] stands_at(s, pattern, i)
}

/// The first position, `from` or later, at which `pattern` stands in `s`.
pub open spec fn find(s: Seq<char>, pattern: Seq<char>, from: int) -> Option<int>
    decreases s.len() + 1 - from,
{
    if from < 0 || from + pattern.len() > s.len() {
        None
    } else if stands_at(s, pattern, from) {
        Some(from)
    } else {
        find(s, pattern, from + 1)
    }
}

pub open spec fn contains(s: Seq<char>, pattern: Seq<char>) -> bool {
    find(s, pattern, 0) is Some
}

/// The first position, `from` or later, of a character that `f` holds of; the
/// length of `s` where there is none.
pub open spec fn position(s: Seq<char>, f: spec_fn(char) -> bool, from: int) -> int
    decreases s.len() - from,
{
    if from < 0 || from >= s.len() {
        s.len() as int
    } else if f(s[from]) {
        from
    } else {
        position(s, f, from + 1)
    }
}

/// `s` without the leading characters that `f` holds of.
pub open spec fn trim_start(s: Seq<char>, f: spec_fn(char) -> bool) -> Seq<char>
    decreases s.len(),
{
    if s.len() > 0 && f(s.first()) {
        trim_start(s.drop_first(), f)
    } else {
        s
    }
}

/// `s` without the trailing characters that `f` holds of.
pub open spec fn trim_end(s: Seq<char>, f: spec_fn(char) -> bool) -> Seq<char>
    decreases s.len(),
{
    if s.len() > 0 && f(s.last()) {
        trim_end(s.drop_last(), f)
    } else {
        s
    }
}

/// `s` without leading and trailing white space.
pub open spec fn trim(s: Seq<char>) -> Seq<char> {
    trim_end(trim_start(s, |c: char| is_space(c)), |c: char| is_space(c))
}

/// White space and nothing else, the empty text included.
pub open spec fn is_blank(s: Seq<char>) -> bool {
    trim(s).len() == 0
}

/// `s` without the characters that `f` holds of.
pub open spec fn without(s: Seq<char>, f: spec_fn(char) -> bool) -> Seq<char>
    decreases s.len(),
{
    if s.len() == 0 {
        s
    } else if f(s.last()) {
        without(s.drop_last(), f)
    } else {
        without(s.drop_last(), f).push(s.last())
    }
}

/// `s` without as many copies of `prefix` as it starts with.
pub open spec fn strip_prefixes(s: Seq<char>, prefix: Seq<char>) -> Seq<char>
    decreases s.len(),
{
    if prefix.len() > 0 && stands_at(s, prefix, 0) {
        strip_prefixes(s.skip(prefix.len() as int), prefix)
    } else {
        s
    }
}

/// The parts of `s` between the characters that `f` holds of.
pub open spec fn split(s: Seq<char>, f: spec_fn(char) -> bool) -> Seq<Seq<char>>
    decreases s.len(),
{
    let at = position(s, f, 0);
    if 0 <= at < s.len() {
        seq![s.take(at)] + split(s.skip(at + 1), f)
    } else {
        seq![s]
    }
}

/// The texts in order, with `separator` between each two.
pub open spec fn join(parts: Seq<Seq<char>>, separator: Seq<char>) -> Seq<char>
    decreases parts.len(),
{
    if parts.len() == 0 {
        Seq::empty()
    } else if parts.len() == 1 {
        parts[0]
    } else {
        join(parts.drop_last(), separator) + separator + parts.last()
    }
}

/// The decimal digits of `n`, without leading zeros but for zero itself.
pub open spec fn decimal(n: nat) -> Seq<char>
    decreases n,
{
    if n < 10 {
        seq![(n + 48) as char]
    } else {
        decimal(n / 10).push((n % 10 + 48) as char)
    }
}

/// The views of the items of a sequence.
pub open spec fn views<T: View>(items: Seq<T>) -> Seq<T::V> {
    items.map_values(|item: T| item@)
}

/// The view of an optional item.
pub open spec fn viewed<T: View>(item: Option<T>) -> Option<T::V> {
    match item {
        Some(inner) => Some(inner@),
        None => None,
    }
}

pub proof fn pushed_view<T: View>(items: Seq<T>, item: T)
    ensures
        views(items.push(item)) == views(items).push(item@),
{
    assert(views(items.push(item)) =~= views(items).push(item@));
}

/// The characters of a text.
pub fn chars_of(s: &str) -> (chars: Vec<char>)
    ensures
        chars@ == s@,
{
    let mut chars: Vec<char> = Vec::new();
    for c in it: s.chars()
        invariant
            it.seq() == s@,
            chars@ == s@.take(it.index()),
    {
        chars.push(c);
    }
    chars
}

/// The text that consists of the given characters.
pub fn string_of(chars: &[char]) -> (s: String)
    ensures
        s@ == chars@,
{
    let mut s = String::new();
    let mut i: usize = 0;
    while i < chars.len()
        invariant
            i <= chars.len(),
            s@ == chars@.take(i as int),
        decreases chars.len() - i,
    {
        s.push(chars[i]);
        i += 1;
    }
    s
}

/// The two texts, one after the other.
pub fn pair(a: &str, b: &str) -> (s: String)
    ensures
        s@ == a@ + b@,
{
    let mut s = a.to_owned();
    s.append(b);
    s
}

/// The three texts, one after another.
pub fn glue(a: &str, b: &str, c: &str) -> (s: String)
    ensures
        s@ == a@ + b@ + c@,
{
    let mut s = a.to_owned();
    s.append(b);
    s.append(c);
    s
}

/// Adds `more` to the end of `chars`.
pub fn push_chars(chars: &mut Vec<char>, more: &[char])
    ensures
        final(chars)@ == old(chars)@ + more@,
{
    let ghost before = chars@;
    let mut i: usize = 0;
    while i < more.len()
        invariant
            i <= more.len(),
            chars@ == before + more@.take(i as int),
        decreases more.len() - i,
    {
        chars.push(more[i]);
        i += 1;
    }
}

pub fn is_space_char(c: char) -> (yes: bool)
    ensures
        yes == is_space(c),
{
    let code: u32 = c as u32;
    (0x09 <= code && code <= 0x0d) || code == 0x20 || code == 0x85 || code == 0xa0 || code == 0x1680
        || (0x2000 <= code && code <= 0x200a) || code == 0x2028 || code == 0x2029 || code == 0x202f
        || code == 0x205f || code == 0x3000
}

pub fn is_control_char(c: char) -> (yes: bool)
    ensures
        yes == is_control(c),
{
    let code: u32 = c as u32;
    code <= 0x1f || (0x7f <= code && code <= 0x9f)
}

pub fn lower_char(c: char) -> (small: char)
    ensures
        small == lower(c),
{
    if 'A' <= c && c <= 'Z' {
        ((c as u8) + 32) as char
    } else {
        c
    }
}

pub fn upper_char(c: char) -> (capital: char)
    ensures
        capital == upper(c),
{
    if 'a' <= c && c <= 'z' {
        ((c as u8) - 32) as char
    } else {
        c
    }
}

pub fn same_chars(a: &[char], b: &[char]) -> (yes: bool)
    ensures
        yes == (a@ == b@),
{
    if a.len() != b.len() {
        return false;
    }
    let mut i: usize = 0;
    while i < a.len()
        invariant
            i <= a.len() == b.len(),
            forall|j: int| 0 <= j < i ==> a@[j] == b@[j],
        decreases a.len() - i,
    {
        if a[i] != b[i] {
            return false;
        }
        i += 1;
    }
    assert(a@ =~= b@);
    true
}

pub fn same_text(a: &str, b: &str) -> (yes: bool)
    ensures
        yes == (a@ == b@),
{
    let a_bytes = a.as_bytes();
    let b_bytes = b.as_bytes();
    proof {
        encode_utf8_decode_utf8(a@);
        encode_utf8_decode_utf8(b@);
    }
    if a_bytes.len() != b_bytes.len() {
        return false;
    }
    let mut i: usize = 0;
    while i < a_bytes.len()
        invariant
            i <= a_bytes.len() == b_bytes.len(),
            forall|j: int| 0 <= j < i ==> a_bytes@[j] == b_bytes@[j],
            a_bytes@ == encode_utf8(a@),
            b_bytes@ == encode_utf8(b@),
        decreases a_bytes.len() - i,
    {
        if a_bytes[i] != b_bytes[i] {
            return false;
        }
        i += 1;
    }
    assert(a_bytes@ =~= b_bytes@);
    true
}

pub fn same_but_case_chars(a: &[char], b: &[char]) -> (yes: bool)
    ensures
        yes == same_but_case(a@, b@),
{
    if a.len() != b.len() {
        assert(lower_all(a@).len() != lower_all(b@).len());
        return false;
    }
    let mut i: usize = 0;
    while i < a.len()
        invariant
            i <= a.len() == b.len(),
            forall|j: int| 0 <= j < i ==> lower(a@[j]) == lower(b@[j]),
        decreases a.len() - i,
    {
        if lower_char(a[i]) != lower_char(b[i]) {
            assert(lower_all(a@)[i as int] != lower_all(b@)[i as int]);
            return false;
        }
        i += 1;
    }
    assert(lower_all(a@) =~= lower_all(b@));
    true
}

pub fn upper_chars(s: &[char]) -> (capitals: Vec<char>)
    ensures
        capitals@ == upper_all(s@),
{
    let mut capitals: Vec<char> = Vec::new();
    let mut i: usize = 0;
    while i < s.len()
        invariant
            i <= s.len(),
            capitals@ == upper_all(s@.take(i as int)),
        decreases s.len() - i,
    {
        capitals.push(upper_char(s[i]));
        i += 1;
        assert(capitals@ =~= upper_all(s@.take(i as int)));
    }
    assert(s@.take(i as int) =~= s@);
    capitals
}

pub fn lower_chars(s: &[char]) -> (small: Vec<char>)
    ensures
        small@ == lower_all(s@),
{
    let mut small: Vec<char> = Vec::new();
    let mut i: usize = 0;
    while i < s.len()
        invariant
            i <= s.len(),
            small@ == lower_all(s@.take(i as int)),
        decreases s.len() - i,
    {
        small.push(lower_char(s[i]));
        i += 1;
        assert(small@ =~= lower_all(s@.take(i as int)));
    }
    assert(s@.take(i as int) =~= s@);
    small
}

/// Whether `pattern` stands in `s` at position `at`.
pub fn matches_at(s: &[char], pattern: &[char], at: usize) -> (yes: bool)
    ensures
        yes == stands_at(s@, pattern@, at as int),
{
    if at > s.len() || pattern.len() > s.len() - at {
        return false;
    }
    let mut i: usize = 0;
    while i < pattern.len()
        invariant
            i <= pattern.len(),
            at + pattern.len() <= s.len(),
            forall|j: int| 0 <= j < i ==> s@[at + j] == pattern@[j],
        decreases pattern.len() - i,
    {
        if s[at + i] != pattern[i] {
            assert(s@.subrange(at as int, at + pattern@.len())[i as int] != pattern@[i as int]);
            return false;
        }
        i += 1;
    }
    assert(s@.subrange(at as int, at + pattern@.len()) =~= pattern@);
    true
}

/// The first position, `from` or later, at which `pattern` stands in `s`.
pub fn find_from(s: &[char], pattern: &[char], from: usize) -> (at: Option<usize>)
    ensures
        match at {
            Some(i) => find(s@, pattern@, from as int) == Some(i as int),
            None => find(s@, pattern@, from as int) is None,
        },
{
    let mut i: usize = from;
    while i <= s.len() && pattern.len() <= s.len() - i
        invariant
            find(s@, pattern@, from as int) == find(s@, pattern@, i as int),
        decreases s.len() + 1 - i,
    {
        if matches_at(s, pattern, i) {
            return Some(i);
        }
        assert(pattern@.len() > 0) by {
            assert(pattern@.len() == 0 ==> s@.subrange(i as int, i as int) =~= pattern@);
        }
        i += 1;
    }
    None
}

pub fn contains_chars(s: &[char], pattern: &[char]) -> (yes: bool)
    ensures
        yes == contains(s@, pattern@),
{
    find_from(s, pattern, 0).is_some()
}

/// The first position, `from` or later, of the character `c`; the length of `s`
/// where there is none.
pub fn position_of(s: &[char], c: char, from: usize) -> (at: usize)
    ensures
        at == position(s@, |d: char| d == c, from as int),
        from <= s@.len() ==> from <= at <= s@.len() && (at < s@.len() ==> s@[at as int] == c),
        forall|i: int| from <= i < at ==> #[trigger] s@[i] != c,
{
    let mut i: usize = from;
    while i < s.len()
        invariant
            from <= i,
            forall|j: int| from <= j < i ==> #[trigger] s@[j] != c,
            from <= s@.len() ==> i <= s@.len(),
            position(s@, |d: char| d == c, from as int) == position(
                s@,
                |d: char| d == c,
                i as int,
            ),
        decreases s.len() - i,
    {
        if s[i] == c {
            return i;
        }
        i += 1;
    }
    s.len()
}

pub proof fn position_bounds(s: Seq<char>, f: spec_fn(char) -> bool, from: int)
    requires
        0 <= from <= s.len(),
    ensures
        from <= position(s, f, from) <= s.len(),
        forall|i: int| from <= i < position(s, f, from) ==> !f(s[i]),
        position(s, f, from) < s.len() ==> f(s[position(s, f, from)]),
    decreases s.len() - from,
{
    if from < s.len() && !f(s[from]) {
        position_bounds(s, f, from + 1);
    }
}

pub proof fn find_bounds(s: Seq<char>, pattern: Seq<char>, from: int)
    requires
        0 <= from,
    ensures
        match find(s, pattern, from) {
            Some(i) => from <= i && stands_at(s, pattern, i) && forall|j: int|
                from <= j < i ==> !stands_at(s, pattern, j),
            None => forall|j: int| from <= j ==> !stands_at(s, pattern, j),
        },
    decreases s.len() + 1 - from,
{
    if from + pattern.len() <= s.len() && !stands_at(s, pattern, from) {
        find_bounds(s, pattern, from + 1);
    }
}

pub proof fn trim_start_skips(s: Seq<char>, f: spec_fn(char) -> bool, n: int)
    requires
        0 <= n <= s.len(),
        forall|i: int| 0 <= i < n ==> f(s[i]),
        n < s.len() ==> !f(s[n]),
    ensures
        trim_start(s, f) == s.skip(n),
    decreases n,
{
    if n > 0 {
        trim_start_skips(s.drop_first(), f, n - 1);
        assert(s.drop_first().skip(n - 1) =~= s.skip(n));
    } else {
        assert(s.skip(0) =~= s);
    }
}

proof fn trim_end_takes(s: Seq<char>, f: spec_fn(char) -> bool, n: int)
    requires
        0 <= n <= s.len(),
        forall|i: int| n <= i < s.len() ==> f(s[i]),
        n > 0 ==> !f(s[n - 1]),
    ensures
        trim_end(s, f) == s.take(n),
    decreases s.len() - n,
{
    if n < s.len() {
        trim_end_takes(s.drop_last(), f, n);
        assert(s.drop_last().take(n) =~= s.take(n));
    } else {
        assert(s.take(n) =~= s);
    }
}

/// What `trim_start` followed by `trim_end` leaves, by its two ends.
pub proof fn trim_is_subrange(s: Seq<char>, f: spec_fn(char) -> bool, start: int, end: int)
    requires
        0 <= start <= end <= s.len(),
        forall|i: int| 0 <= i < start ==> f(s[i]),
        forall|i: int| end <= i < s.len() ==> f(s[i]),
        start < end ==> !f(s[start]) && !f(s[end - 1]),
        start == end ==> start == s.len(),
    ensures
        trim_end(trim_start(s, f), f) == s.subrange(start, end),
{
    trim_start_skips(s, f, start);
    trim_end_takes(s.skip(start), f, end - start);
    assert(s.skip(start).take(end - start) =~= s.subrange(start, end));
}

/// What `trim_start` followed by `trim_end` leaves is a part of the text, and it
/// neither starts nor ends with a character that `f` holds of.
pub proof fn trim_range(s: Seq<char>, f: spec_fn(char) -> bool) -> (range: (int, int))
    ensures
        0 <= range.0 <= range.1 <= s.len(),
        trim_end(trim_start(s, f), f) == s.subrange(range.0, range.1),
        range.0 < range.1 ==> !f(s[range.0]) && !f(s[range.1 - 1]),
    decreases s.len(),
{
    if s.len() > 0 && f(s.first()) {
        let inner = trim_range(s.drop_first(), f);
        assert(s.drop_first().subrange(inner.0, inner.1) =~= s.subrange(
            inner.0 + 1,
            inner.1 + 1,
        ));
        (inner.0 + 1, inner.1 + 1)
    } else {
        let end = trim_end_length(s, f);
        assert(s.take(end) =~= s.subrange(0, end));
        (0, end)
    }
}

proof fn trim_end_length(s: Seq<char>, f: spec_fn(char) -> bool) -> (end: int)
    ensures
        0 <= end <= s.len(),
        trim_end(s, f) == s.take(end),
        end > 0 ==> !f(s[end - 1]),
    decreases s.len(),
{
    if s.len() > 0 && f(s.last()) {
        let end = trim_end_length(s.drop_last(), f);
        assert(s.drop_last().take(end) =~= s.take(end));
        end
    } else {
        assert(s.take(s.len() as int) =~= s);
        s.len() as int
    }
}

/// Text that neither starts nor ends with what `f` holds of is left as it is.
pub proof fn trim_keeps(s: Seq<char>, f: spec_fn(char) -> bool)
    requires
        s.len() > 0 ==> !f(s.first()) && !f(s.last()),
    ensures
        trim_end(trim_start(s, f), f) == s,
{
}

/// The parts that were joined come back from splitting at the separator, where
/// none of them holds it.
pub proof fn split_undoes_join(parts: Seq<Seq<char>>, separator: char)
    requires
        parts.len() > 0,
        forall|i: int, j: int|
            0 <= i < parts.len() && 0 <= j < parts[i].len() ==> parts[i][j] != separator,
    ensures
        split(join(parts, seq![separator]), |c: char| c == separator) == parts,
    decreases parts.len(),
{
    let f = |c: char| c == separator;
    let whole = join(parts, seq![separator]);
    if parts.len() == 1 {
        position_bounds(whole, f, 0);
        assert(parts =~= seq![whole]);
    } else {
        let rest = parts.drop_first();
        join_first(parts, seq![separator]);
        assert forall|i: int, j: int|
            0 <= i < rest.len() && 0 <= j < rest[i].len() implies rest[i][j] != separator by {
            assert(rest[i] == parts[i + 1]);
        }
        split_undoes_join(rest, separator);
        let first = parts[0];
        position_bounds(whole, f, 0);
        assert(whole[first.len() as int] == separator);
        assert forall|j: int| 0 <= j < first.len() implies whole[j] != separator by {
            assert(whole[j] == first[j]);
        }
        assert(position(whole, f, 0) == first.len());
        assert(whole.take(first.len() as int) =~= first);
        assert(whole.skip(first.len() as int + 1) =~= join(rest, seq![separator]));
        assert(seq![first] + rest =~= parts);
    }
}

/// Splitting two texts with the separator between them splits each.
pub proof fn split_of_both(a: Seq<char>, b: Seq<char>, separator: char)
    ensures
        split(a + seq![separator] + b, |c: char| c == separator) == split(
            a,
            |c: char| c == separator,
        ) + split(b, |c: char| c == separator),
    decreases a.len(),
{
    let f = |c: char| c == separator;
    let whole = a + seq![separator] + b;
    position_bounds(whole, f, 0);
    position_bounds(a, f, 0);
    let at = position(a, f, 0);
    if at < a.len() {
        assert(whole[at] == a[at]);
        assert forall|i: int| 0 <= i < at implies whole[i] != separator by {
            assert(whole[i] == a[i]);
        }
        assert(position(whole, f, 0) == at);
        assert(whole.take(at) =~= a.take(at));
        assert(whole.skip(at + 1) =~= a.skip(at + 1) + seq![separator] + b);
        split_of_both(a.skip(at + 1), b, separator);
        assert(split(whole, f) =~= split(a, f) + split(b, f));
    } else {
        assert(whole[a.len() as int] == separator);
        assert forall|i: int| 0 <= i < a.len() implies whole[i] != separator by {
            assert(whole[i] == a[i]);
        }
        assert(position(whole, f, 0) == a.len());
        assert(whole.take(a.len() as int) =~= a);
        assert(whole.skip(a.len() as int + 1) =~= b);
        assert(split(whole, f) =~= split(a, f) + split(b, f));
    }
}

/// A text is split into at least one part.
pub proof fn split_is_not_empty(s: Seq<char>, f: spec_fn(char) -> bool)
    ensures
        split(s, f).len() > 0,
    decreases s.len(),
{
}

/// Joining, seen from the first part.
pub proof fn join_first(parts: Seq<Seq<char>>, separator: Seq<char>)
    requires
        parts.len() > 1,
    ensures
        join(parts, separator) == parts[0] + separator + join(parts.drop_first(), separator),
    decreases parts.len(),
{
    if parts.len() > 2 {
        join_first(parts.drop_last(), separator);
        assert(parts.drop_last().drop_first() =~= parts.drop_first().drop_last());
        let middle = join(parts.drop_first().drop_last(), separator);
        assert(parts.drop_first().last() == parts.last());
        assert(join(parts.drop_first(), separator) == middle + separator + parts.last());
        assert(parts[0] + separator + middle + separator + parts.last() =~= parts[0] + separator + (
        middle + separator + parts.last()));
    } else {
        assert(parts.drop_last() =~= seq![parts[0]]);
        assert(parts.drop_first() =~= seq![parts[1]]);
        assert(join(parts.drop_last(), separator) == parts[0]);
        assert(join(parts.drop_first(), separator) == parts[1]);
    }
}

/// The text without its leading and trailing white space.
pub fn trim_chars(s: &[char]) -> (trimmed: &[char])
    ensures
        trimmed@ == trim(s@),
{
    let mut start: usize = 0;
    while start < s.len() && is_space_char(s[start])
        invariant
            start <= s.len(),
            forall|i: int| 0 <= i < start ==> is_space(s@[i]),
        decreases s.len() - start,
    {
        start += 1;
    }
    let mut end: usize = s.len();
    while end > start && is_space_char(s[end - 1])
        invariant
            start <= end <= s.len(),
            start < s.len() ==> !is_space(s@[start as int]),
            forall|i: int| end <= i < s.len() ==> is_space(s@[i]),
        decreases end - start,
    {
        end -= 1;
    }
    proof {
        trim_is_subrange(s@, |c: char| is_space(c), start as int, end as int);
    }
    slice_subrange(s, start, end)
}

pub fn trimmed(s: &str) -> (out: String)
    ensures
        out@ == trim(s@),
{
    let chars = chars_of(s);
    string_of(trim_chars(chars.as_slice()))
}

pub fn is_blank_text(s: &str) -> (yes: bool)
    ensures
        yes == is_blank(s@),
{
    let chars = chars_of(s);
    trim_chars(chars.as_slice()).len() == 0
}

/// The decimal digits of `n`.
pub fn decimal_chars(n: u64) -> (digits: Vec<char>)
    ensures
        digits@ == decimal(n as nat),
    decreases n,
{
    if n < 10 {
        let mut digits: Vec<char> = Vec::new();
        digits.push((n as u8 + 48) as char);
        digits
    } else {
        let mut digits = decimal_chars(n / 10);
        digits.push(((n % 10) as u8 + 48) as char);
        digits
    }
}

/// The parts of a text between the copies of a character.
pub fn split_chars(s: &[char], separator: char) -> (parts: Vec<Vec<char>>)
    ensures
        views(parts@) == split(s@, |c: char| c == separator),
{
    let ghost f = |c: char| c == separator;
    let mut parts: Vec<Vec<char>> = Vec::new();
    let mut start: usize = 0;
    let mut i: usize = 0;
    assert(s@.skip(0) =~= s@);
    assert(views(parts@) + split(s@, f) =~= split(s@, f));
    while i < s.len()
        invariant
            f == (|c: char| c == separator),
            start <= i <= s.len(),
            forall|j: int| start <= j < i ==> s@[j] != separator,
            split(s@, f) == views(parts@) + split(s@.skip(start as int), f),
        decreases s.len() - i,
    {
        if s[i] == separator {
            let piece = slice_subrange(s, start, i);
            let mut part: Vec<char> = Vec::new();
            push_chars(&mut part, piece);
            proof {
                let rest = s@.skip(start as int);
                position_bounds(rest, f, 0);
                assert(rest[i - start] == s@[i as int]);
                assert(position(rest, f, 0) == i - start);
                assert(rest.take(i - start) =~= part@);
                assert(rest.skip(i - start + 1) =~= s@.skip(i + 1));
                pushed_view(parts@, part);
                let tail = split(s@.skip(i + 1), f);
                assert(views(parts@) + (seq![part@] + tail) =~= views(parts@).push(part@) + tail);
            }
            parts.push(part);
            start = i + 1;
        }
        i += 1;
    }
    let piece = slice_subrange(s, start, s.len());
    let mut part: Vec<char> = Vec::new();
    push_chars(&mut part, piece);
    proof {
        let rest = s@.skip(start as int);
        position_bounds(rest, f, 0);
        assert(rest =~= part@);
        pushed_view(parts@, part);
        assert(views(parts@) + seq![part@] =~= views(parts@).push(part@));
    }
    parts.push(part);
    parts
}

/// The texts joined, with `separator` between each two.
pub fn join_texts(parts: &Vec<String>, separator: &str) -> (out: String)
    ensures
        out@ == join(views(parts@), separator@),
{
    let mut out: Vec<char> = Vec::new();
    let gap = chars_of(separator);
    let mut i: usize = 0;
    while i < parts.len()
        invariant
            i <= parts.len(),
            gap@ == separator@,
            out@ == join(views(parts@).take(i as int), separator@),
        decreases parts.len() - i,
    {
        if i > 0 {
            push_chars(&mut out, gap.as_slice());
        }
        let part = chars_of(parts[i].as_str());
        push_chars(&mut out, part.as_slice());
        proof {
            let now = views(parts@).take(i + 1);
            assert(now.drop_last() =~= views(parts@).take(i as int));
            assert(now.last() == parts@[i as int]@);
            assert(out@ =~= join(now, separator@));
        }
        i += 1;
    }
    assert(views(parts@).take(i as int) =~= views(parts@));
    string_of(out.as_slice())
}

/// Copies a list of texts.
pub fn clone_texts(strings: &Vec<String>) -> (copy: Vec<String>)
    ensures
        views(copy@) == views(strings@),
{
    let mut copy: Vec<String> = Vec::new();
    let mut i: usize = 0;
    while i < strings.len()
        invariant
            i <= strings.len(),
            views(copy@) == views(strings@).take(i as int),
        decreases strings.len() - i,
    {
        let ghost before = copy@;
        let string = strings[i].clone();
        copy.push(string);
        proof {
            pushed_view(before, string);
            assert(views(strings@).take(i as int).push(string@) =~= views(strings@).take(i + 1));
        }
        i += 1;
    }
    assert(views(strings@).take(i as int) =~= views(strings@));
    copy
}

/// Copies an optional text.
pub fn clone_text(string: &Option<String>) -> (copy: Option<String>)
    ensures
        viewed(copy) == viewed(*string),
{
    match string {
        Some(s) => Some(s.clone()),
        None => None,
    }
}

/// Trimming takes the white space off both ends of a text and leaves what stands
/// between as it is, white space inside it included.
pub proof fn trimming_keeps_what_stands_between(
    before: Seq<char>,
    kept: Seq<char>,
    after: Seq<char>,
)
    requires
        forall|i: int| 0 <= i < before.len() ==> is_space(before[i]),
        forall|i: int| 0 <= i < after.len() ==> is_space(after[i]),
        kept.len() > 0 ==> !is_space(kept.first()) && !is_space(kept.last()),
    ensures
        trim(before + kept + after) == kept,
{
    let whole = before + kept + after;
    let space = |c: char| is_space(c);
    if kept.len() > 0 {
        let end = before.len() + kept.len();
        assert(whole[before.len() as int] == kept.first());
        assert(whole[end - 1] == kept.last());
        assert forall|i: int| end <= i < whole.len() implies space(whole[i]) by {
            assert(whole[i] == after[i - end]);
        }
        trim_is_subrange(whole, space, before.len() as int, end as int);
        assert(whole.subrange(before.len() as int, end as int) =~= kept);
    } else {
        trim_is_subrange(whole, space, whole.len() as int, whole.len() as int);
        assert(whole.subrange(whole.len() as int, whole.len() as int) =~= kept);
    }
}

/// A text is blank where it holds white space only.
pub proof fn blank_is_white_space_only(s: Seq<char>)
    ensures
        is_blank(s) <==> forall|i: int| 0 <= i < s.len() ==> is_space(#[trigger] s[i]),
{
    let space = |c: char| is_space(c);
    if forall|i: int| 0 <= i < s.len() ==> is_space(#[trigger] s[i]) {
        trim_is_subrange(s, space, s.len() as int, s.len() as int);
    } else if is_blank(s) {
        nothing_is_left(s);
    }
}

proof fn nothing_is_left(s: Seq<char>)
    requires
        is_blank(s),
    ensures
        forall|i: int| 0 <= i < s.len() ==> is_space(#[trigger] s[i]),
    decreases s.len(),
{
    let space = |c: char| is_space(c);
    if s.len() > 0 {
        if is_space(s.first()) {
            nothing_is_left(s.drop_first());
            assert forall|i: int| 0 <= i < s.len() implies is_space(#[trigger] s[i]) by {
                if i > 0 {
                    assert(s[i] == s.drop_first()[i - 1]);
                }
            }
        } else {
            assert(trim_start(s, space) == s);
            trim_end_keeps_the_first(s);
        }
    }
}

proof fn trim_end_keeps_the_first(s: Seq<char>)
    requires
        s.len() > 0,
        !is_space(s.first()),
    ensures
        trim_end(s, |c: char| is_space(c)).len() > 0,
    decreases s.len(),
{
    if is_space(s.last()) {
        assert(s.drop_last().first() == s.first());
        trim_end_keeps_the_first(s.drop_last());
    }
}

/// Two texts are the same but for their case where they are equally long and each
/// two signs in the same place are the same or one ASCII letter in its two cases.
pub proof fn only_the_case_of_letters_is_ignored(a: Seq<char>, b: Seq<char>)
    ensures
        same_but_case(a, b) <==> a.len() == b.len() && forall|i: int|
            0 <= i < a.len() ==> {
                let (x, y) = (#[trigger] a[i], b[i]);
                ||| x == y
                ||| 'A' <= x <= 'Z' && y as u32 == x as u32 + 32
                ||| 'A' <= y <= 'Z' && x as u32 == y as u32 + 32
            },
{
    assert forall|x: char, y: char| #[trigger] lower(x) == #[trigger] lower(y) <==> {
        ||| x == y
        ||| 'A' <= x <= 'Z' && y as u32 == x as u32 + 32
        ||| 'A' <= y <= 'Z' && x as u32 == y as u32 + 32
    } by {}
    if same_but_case(a, b) {
        assert(lower_all(a).len() == a.len() && lower_all(b).len() == b.len());
        assert forall|i: int| 0 <= i < a.len() implies lower(#[trigger] a[i]) == lower(b[i]) by {
            assert(lower_all(a)[i] == lower_all(b)[i]);
        }
    } else if a.len() == b.len() {
        assert(!(lower_all(a) =~= lower_all(b)));
        let i = choose|i: int| 0 <= i < a.len() && lower_all(a)[i] != lower_all(b)[i];
        assert(lower(a[i]) != lower(b[i]));
    }
}

/// Whether a text is one of those between which the signs that `f` holds of stand.
pub open spec fn stands_between(
    s: Seq<char>,
    f: spec_fn(char) -> bool,
    from: int,
    to: int,
) -> bool {
    &&& 0 <= from <= to <= s.len()
    &&& from > 0 ==> f(s[from - 1])
    &&& to < s.len() ==> f(s[to])
    &&& forall|i: int| from <= i < to ==> !f(#[trigger] s[i])
}

/// The parts that a text is split into are the stretches between the signs at which
/// it is split, all of them and nothing else.
pub proof fn splitting_finds_what_stands_between(
    s: Seq<char>,
    f: spec_fn(char) -> bool,
    part: Seq<char>,
)
    ensures
        split(s, f).contains(part) <==> exists|from: int, to: int| #[trigger]
            stands_between(s, f, from, to) && s.subrange(from, to) == part,
    decreases s.len(),
{
    position_bounds(s, f, 0);
    let at = position(s, f, 0);
    if at < s.len() {
        let rest = s.skip(at + 1);
        splitting_finds_what_stands_between(rest, f, part);
        assert(split(s, f) == seq![s.take(at)] + split(rest, f));
        if split(s, f).contains(part) {
            let n = choose|n: int| 0 <= n < split(s, f).len() && split(s, f)[n] == part;
            if n == 0 {
                assert(stands_between(s, f, 0, at));
                assert(s.subrange(0, at) =~= part);
            } else {
                assert(split(rest, f)[n - 1] == part);
                let (from, to) = choose|from: int, to: int| #[trigger]
                    stands_between(rest, f, from, to) && rest.subrange(from, to) == part;
                assert forall|i: int| from + at + 1 <= i < to + at + 1 implies !f(
                    #[trigger] s[i],
                ) by {
                    assert(s[i] == rest[i - at - 1]);
                }
                assert(stands_between(s, f, from + at + 1, to + at + 1)) by {
                    if from > 0 {
                        assert(s[from + at] == rest[from - 1]);
                    }
                    if to < rest.len() {
                        assert(s[to + at + 1] == rest[to]);
                    }
                }
                assert(s.subrange(from + at + 1, to + at + 1) =~= part);
            }
        }
        if exists|from: int, to: int| #[trigger] stands_between(s, f, from, to) && s.subrange(
            from,
            to,
        ) == part {
            let (from, to) = choose|from: int, to: int| #[trigger]
                stands_between(s, f, from, to) && s.subrange(from, to) == part;
            if from == 0 {
                assert(to == at) by {
                    if to > at {
                        assert(!f(s[at]));
                    }
                }
                assert(s.take(at) =~= part);
                assert(split(s, f)[0] == part);
            } else {
                assert(from > at) by {
                    if from <= at {
                        assert(f(s[from - 1]));
                    }
                }
                let (a, b) = (from - at - 1, to - at - 1);
                assert(stands_between(rest, f, a, b)) by {
                    if a > 0 {
                        assert(rest[a - 1] == s[from - 1]);
                    }
                    if b < rest.len() {
                        assert(rest[b] == s[to]);
                    }
                    assert forall|i: int| a <= i < b implies !f(#[trigger] rest[i]) by {
                        assert(rest[i] == s[i + at + 1]);
                    }
                }
                assert(rest.subrange(a, b) =~= part);
                let n = choose|n: int| 0 <= n < split(rest, f).len() && split(rest, f)[n] == part;
                assert(split(s, f)[n + 1] == part);
            }
        }
    } else {
        assert(split(s, f) == seq![s]);
        assert(split(s, f)[0] == s);
        if split(s, f).contains(part) {
            assert(stands_between(s, f, 0, s.len() as int));
            assert(s.subrange(0, s.len() as int) =~= part);
        }
        if exists|from: int, to: int| #[trigger] stands_between(s, f, from, to) && s.subrange(
            from,
            to,
        ) == part {
            let (from, to) = choose|from: int, to: int| #[trigger]
                stands_between(s, f, from, to) && s.subrange(from, to) == part;
            assert(from == 0 && to == s.len());
            assert(s.subrange(0, s.len() as int) =~= s);
        }
    }
}

/// The number that decimal digits stand for.
pub open spec fn number_of(digits: Seq<char>) -> int
    decreases digits.len(),
{
    if digits.len() == 0 {
        0
    } else {
        10 * number_of(digits.drop_last()) + (digits.last() as int - '0' as int)
    }
}

/// A number is written with digits that stand for it, and without zeros before it.
pub proof fn numbers_are_written_in_decimal(n: nat)
    ensures
        number_of(decimal(n)) == n,
        decimal(n).len() > 0,
        forall|i: int| 0 <= i < decimal(n).len() ==> '0' <= #[trigger] decimal(n)[i] <= '9',
        decimal(n).len() > 1 ==> decimal(n)[0] != '0',
    decreases n,
{
    let digits = decimal(n);
    if n < 10 {
        assert(digits.drop_last() =~= Seq::empty());
        assert(number_of(digits.drop_last()) == 0);
        assert(digits.last() as int == n + 48);
    } else {
        numbers_are_written_in_decimal(n / 10);
        let start = decimal(n / 10);
        assert(digits.drop_last() =~= start);
        assert(digits.last() as int == n % 10 + 48);
        assert(digits[0] == start[0]);
        if start.len() == 1 {
            assert(start.drop_last() =~= Seq::empty());
            assert(number_of(start.drop_last()) == 0);
            assert(start.last() == start[0]);
        }
        assert forall|i: int| 0 <= i < digits.len() implies '0' <= #[trigger] digits[i] <= '9' by {
            if i < start.len() {
                assert(digits[i] == start[i]);
            }
        }
    }
}

} // verus!
