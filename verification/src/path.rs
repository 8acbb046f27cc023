//! Paths as texts, with a slash between their parts.

use vstd::prelude::*;
use vstd::slice::slice_subrange;
use vstd::utf8::char_is_scalar;

use crate::text::{
    chars_of, join, join_first, pair, position, position_bounds, pushed_view, same_but_case,
    same_but_case_chars, same_text, split, split_chars, split_is_not_empty, split_of_both,
    split_undoes_join, string_of, viewed, views,
};

verus! {

/// A part of a path.
#[derive(Debug, PartialEq, Eq)]
pub enum PathPart {
    /// A drive or a network share, which is the root of what lies on it.
    Prefix(String),
    Root,
    CurDir,
    ParentDir,
    Normal(String),
}

pub enum PartModel {
    Prefix(Seq<char>),
    Root,
    CurDir,
    ParentDir,
    Normal(Seq<char>),
}

impl View for PathPart {
    type V = PartModel;

    open spec fn view(&self) -> PartModel {
        match self {
            PathPart::Prefix(name) => PartModel::Prefix(name@),
            PathPart::Root => PartModel::Root,
            PathPart::CurDir => PartModel::CurDir,
            PathPart::ParentDir => PartModel::ParentDir,
            PathPart::Normal(name) => PartModel::Normal(name@),
        }
    }
}

impl Clone for PathPart {
    fn clone(&self) -> (copy: Self)
        ensures
            copy@ == self@,
    {
        match self {
            PathPart::Prefix(name) => PathPart::Prefix(name.clone()),
            PathPart::Root => PathPart::Root,
            PathPart::CurDir => PathPart::CurDir,
            PathPart::ParentDir => PathPart::ParentDir,
            PathPart::Normal(name) => PathPart::Normal(name.clone()),
        }
    }
}

/// A drive, such as `C:`, or a network share, which starts with two backslashes.
pub open spec fn is_prefix(piece: Seq<char>) -> bool {
    ||| piece.len() == 2 && is_letter(piece[0]) && piece[1] == ':'
    ||| piece.len() > 2 && piece[0] == '\\' && piece[1] == '\\'
}

pub open spec fn is_letter(c: char) -> bool {
    'a' <= c <= 'z' || 'A' <= c <= 'Z'
}

/// The part that a piece of a path between two slashes is. An empty piece is none,
/// and a drive or a single dot is one of its own only at the start of a path.
pub open spec fn part_of(piece: Seq<char>, first: bool) -> Seq<PartModel> {
    if piece.len() == 0 {
        Seq::empty()
    } else if piece == seq!['.'] {
        if first {
            seq![PartModel::CurDir]
        } else {
            Seq::empty()
        }
    } else if piece == seq!['.', '.'] {
        seq![PartModel::ParentDir]
    } else if first && is_prefix(piece) {
        seq![PartModel::Prefix(piece)]
    } else {
        seq![PartModel::Normal(piece)]
    }
}

pub open spec fn parts_of(pieces: Seq<Seq<char>>) -> Seq<PartModel>
    decreases pieces.len(),
{
    if pieces.len() == 0 {
        Seq::empty()
    } else {
        parts_of(pieces.drop_last()) + part_of(pieces.last(), pieces.len() == 1)
    }
}

pub open spec fn is_absolute(path: Seq<char>) -> bool {
    path.len() > 0 && path[0] == '/'
}

/// The parts of a path.
pub open spec fn path_parts(path: Seq<char>) -> Seq<PartModel> {
    (if is_absolute(path) {
        seq![PartModel::Root]
    } else {
        Seq::empty()
    }) + parts_of(split(path, |c: char| c == '/'))
}

/// The last part of a path, if it is a name.
pub open spec fn file_name(path: Seq<char>) -> Option<Seq<char>> {
    let parts = path_parts(path);
    if parts.len() > 0 && parts.last() is Normal {
        Some(parts.last()->Normal_0)
    } else {
        None
    }
}

/// What stands behind the last dot of a name, unless that dot starts it.
pub open spec fn extension(name: Seq<char>) -> Option<Seq<char>>
    decreases name.len(),
{
    if name.len() <= 1 {
        None
    } else if name.last() == '.' {
        Some(Seq::empty())
    } else {
        match extension(name.drop_last()) {
            Some(start) => Some(start.push(name.last())),
            None => None,
        }
    }
}

/// The name of an EPUB file.
pub open spec fn names_epub(path: Seq<char>) -> bool {
    match file_name(path) {
        Some(name) => match extension(name) {
            Some(end) => same_but_case(end, "epub"@),
            None => false,
        },
        None => false,
    }
}

/// A path below another; an absolute path stands for itself.
pub open spec fn joined(base: Seq<char>, path: Seq<char>) -> Seq<char> {
    if is_absolute(path) {
        path
    } else if base.len() == 0 || base.last() == '/' {
        base + path
    } else {
        base.push('/') + path
    }
}

pub fn join_path(base: &str, path: &str) -> (out: String)
    ensures
        out@ == joined(base@, path@),
{
    let base_chars = chars_of(base);
    let path_chars = chars_of(path);
    if path_chars.len() > 0 && path_chars[0] == '/' {
        return path.to_owned();
    }
    if base_chars.len() == 0 || base_chars[base_chars.len() - 1] == '/' {
        return pair(base, path);
    }
    let mut start = base.to_owned();
    start.push('/');
    pair(start.as_str(), path)
}

fn names_prefix(piece: &[char]) -> (yes: bool)
    ensures
        yes == is_prefix(piece@),
{
    if piece.len() == 2 {
        let c = piece[0];
        return ('a' <= c && c <= 'z' || 'A' <= c && c <= 'Z') && piece[1] == ':';
    }
    piece.len() > 2 && piece[0] == '\\' && piece[1] == '\\'
}

fn push_part(parts: &mut Vec<PathPart>, piece: &[char], first: bool)
    ensures
        views(final(parts)@) == views(old(parts)@) + part_of(piece@, first),
{
    let ghost before = views(parts@);
    assert(before + Seq::<PartModel>::empty() =~= before);
    if piece.len() == 0 {
        return ;
    }
    let is_dot = piece.len() == 1 && piece[0] == '.';
    let is_dots = piece.len() == 2 && piece[0] == '.' && piece[1] == '.';
    assert(is_dot <==> piece@ =~= seq!['.']) by {
        if piece@ =~= seq!['.'] {
            assert(piece@.len() == 1 && piece@[0] == '.');
        }
    }
    assert(is_dots <==> piece@ =~= seq!['.', '.']) by {
        if piece@ =~= seq!['.', '.'] {
            assert(piece@.len() == 2 && piece@[0] == '.' && piece@[1] == '.');
        }
    }
    if is_dot && !first {
        return ;
    }
    let part = if is_dot {
        PathPart::CurDir
    } else if is_dots {
        PathPart::ParentDir
    } else if first && names_prefix(piece) {
        PathPart::Prefix(string_of(piece))
    } else {
        PathPart::Normal(string_of(piece))
    };
    proof {
        pushed_view(parts@, part);
        assert(before.push(part@) =~= before + seq![part@]);
    }
    parts.push(part);
}

/// The parts of a path.
pub fn split_path(path: &str) -> (parts: Vec<PathPart>)
    ensures
        views(parts@) == path_parts(path@),
{
    let chars = chars_of(path);
    let pieces = split_chars(chars.as_slice(), '/');
    let ghost model = views(pieces@);
    let mut parts: Vec<PathPart> = Vec::new();
    if chars.len() > 0 && chars[0] == '/' {
        parts.push(PathPart::Root);
        assert(views(parts@) =~= seq![PartModel::Root]);
    } else {
        assert(views(parts@) =~= Seq::empty());
    }
    let ghost start = views(parts@);
    let mut i: usize = 0;
    assert(start + parts_of(model.take(0)) =~= start);
    while i < pieces.len()
        invariant
            i <= pieces.len(),
            model == views(pieces@),
            views(parts@) == start + parts_of(model.take(i as int)),
        decreases pieces.len() - i,
    {
        proof {
            assert(model.take(i + 1).drop_last() =~= model.take(i as int));
            assert(model.take(i + 1).last() == pieces@[i as int]@);
            let done = parts_of(model.take(i as int));
            let more = part_of(model[i as int], i == 0);
            assert(start + (done + more) =~= start + done + more);
        }
        push_part(&mut parts, pieces[i].as_slice(), i == 0);
        i += 1;
    }
    assert(model.take(i as int) =~= model);
    parts
}

/// Whether a path names an EPUB file.
pub fn is_epub(path: &str) -> (yes: bool)
    ensures
        yes == names_epub(path@),
{
    let parts = split_path(path);
    if parts.len() == 0 {
        return false;
    }
    assert(views(parts@).last() == parts@[parts@.len() - 1]@);
    match &parts[parts.len() - 1] {
        PathPart::Normal(name) => {
            let chars = chars_of(name.as_str());
            let mut dot: usize = chars.len();
            while dot > 0 && chars[dot - 1] != '.'
                invariant
                    dot <= chars.len(),
                    forall|i: int| dot <= i < chars.len() ==> chars@[i] != '.',
                decreases dot,
            {
                dot -= 1;
            }
            proof {
                extension_at(chars@, dot as int);
            }
            if dot <= 1 {
                return false;
            }
            let end = slice_subrange(chars.as_slice(), dot, chars.len());
            same_but_case_chars(end, chars_of("epub").as_slice())
        },
        _ => false,
    }
}

proof fn extension_at(name: Seq<char>, dot: int)
    requires
        0 <= dot <= name.len(),
        dot > 0 ==> name[dot - 1] == '.',
        forall|i: int| dot <= i < name.len() ==> name[i] != '.',
    ensures
        extension(name) == if dot <= 1 {
            None::<Seq<char>>
        } else {
            Some(name.subrange(dot, name.len() as int))
        },
    decreases name.len(),
{
    if name.len() > 1 {
        if dot == name.len() {
            assert(name.subrange(dot, dot) =~= Seq::empty());
        } else {
            extension_at(name.drop_last(), dot);
            if dot > 1 {
                assert(name.drop_last().subrange(dot, name.len() - 1).push(name.last())
                    =~= name.subrange(dot, name.len() as int));
            }
        }
    }
}

/// The parts of a path without dots: a name goes with the two dots behind it.
pub open spec fn lexical(parts: Seq<PartModel>) -> Seq<PartModel>
    decreases parts.len(),
{
    if parts.len() == 0 {
        Seq::empty()
    } else {
        let before = lexical(parts.drop_last());
        match parts.last() {
            PartModel::CurDir => before,
            PartModel::ParentDir => if before.len() > 0 && before.last() is Normal {
                before.drop_last()
            } else {
                before
            },
            part => before.push(part),
        }
    }
}

/// The parts of a path without dots, where a relative path is taken from
/// `current`.
pub fn normalize_path_lexically(path: &str, current: &str) -> (parts: Vec<PathPart>)
    ensures
        views(parts@) == lexical(path_parts(joined(current@, path@))),
{
    let absolute = join_path(current, path);
    let all = split_path(absolute.as_str());
    let ghost model = views(all@);
    let mut parts: Vec<PathPart> = Vec::new();
    let mut i: usize = 0;
    assert(views(parts@) =~= lexical(model.take(0)));
    while i < all.len()
        invariant
            i <= all.len(),
            model == views(all@),
            views(parts@) == lexical(model.take(i as int)),
        decreases all.len() - i,
    {
        let ghost before = parts@;
        proof {
            assert(model.take(i + 1).drop_last() =~= model.take(i as int));
            assert(model.take(i + 1).last() == all@[i as int]@);
        }
        match &all[i] {
            PathPart::CurDir => {},
            PathPart::ParentDir => {
                let mut pops = false;
                if parts.len() > 0 {
                    assert(views(before).last() == before[before.len() - 1]@);
                    pops = match &parts[parts.len() - 1] {
                        PathPart::Normal(_) => true,
                        _ => false,
                    };
                }
                if pops {
                    parts.pop();
                    assert(views(parts@) =~= views(before).drop_last());
                }
            },
            part => {
                let copy = part.clone();
                proof {
                    pushed_view(before, copy);
                }
                parts.push(copy);
            },
        }
        i += 1;
    }
    assert(model.take(i as int) =~= model);
    parts
}

/// A part that is a root: that of all paths, or a drive or a network share.
pub open spec fn is_root(part: PartModel) -> bool {
    part is Root || part is Prefix
}

/// However many dots follow, a path does not leave its root.
pub proof fn roots_are_kept(parts: Seq<PartModel>)
    requires
        parts.len() > 0,
        is_root(parts[0]),
    ensures
        lexical(parts).len() > 0,
        lexical(parts)[0] == parts[0],
    decreases parts.len(),
{
    if parts.len() > 1 {
        roots_are_kept(parts.drop_last());
        let before = lexical(parts.drop_last());
        assert(before[0] == parts[0]);
        if before.len() == 1 {
            assert(before.last() == before[0]);
        }
    } else {
        assert(parts.drop_last() =~= Seq::empty());
        assert(lexical(parts.drop_last()) =~= Seq::empty());
    }
}

/// A name that can stand between two slashes of a path.
pub open spec fn is_name(piece: Seq<char>) -> bool {
    &&& piece.len() > 0
    &&& piece != seq!['.']
    &&& piece != seq!['.', '.']
    &&& !is_prefix(piece)
    &&& forall|i: int| 0 <= i < piece.len() ==> #[trigger] piece[i] != '/'
}

/// Names as parts of a path.
pub open spec fn name_parts(names: Seq<Seq<char>>) -> Seq<PartModel> {
    names.map_values(|name: Seq<char>| PartModel::Normal(name))
}

proof fn names_are_parts(before: Seq<Seq<char>>, names: Seq<Seq<char>>)
    requires
        forall|i: int| 0 <= i < names.len() ==> is_name(#[trigger] names[i]),
    ensures
        parts_of(before + names) == parts_of(before) + name_parts(names),
    decreases names.len(),
{
    let all = before + names;
    if names.len() == 0 {
        assert(all =~= before);
        assert(parts_of(before) + name_parts(names) =~= parts_of(before));
    } else {
        let shorter = names.drop_last();
        assert forall|i: int| 0 <= i < shorter.len() implies is_name(#[trigger] shorter[i]) by {
            assert(shorter[i] == names[i]);
        }
        names_are_parts(before, shorter);
        assert(all.drop_last() =~= before + shorter);
        assert(all.last() == names.last());
        assert(is_name(names[names.len() - 1]));
        assert(part_of(names.last(), all.len() == 1) =~= seq![PartModel::Normal(names.last())]);
        assert(parts_of(all) =~= parts_of(before) + name_parts(names));
    }
}

/// A path that consists of names leads below the path that it is joined to.
pub proof fn joined_paths_lead_below(base: Seq<char>, names: Seq<Seq<char>>)
    requires
        names.len() > 0,
        forall|i: int| 0 <= i < names.len() ==> is_name(#[trigger] names[i]),
    ensures
        path_parts(joined(base, join(names, seq!['/']))) == path_parts(base) + name_parts(names),
{
    let f = |c: char| c == '/';
    let path = join(names, seq!['/']);
    assert forall|i: int, j: int|
        0 <= i < names.len() && 0 <= j < names[i].len() implies names[i][j] != '/' by {
        assert(is_name(names[i]));
    }
    split_undoes_join(names, '/');
    let whole = joined(base, path);
    assert(is_name(names[0]));
    assert(path.len() > 0 && path[0] == names[0][0]) by {
        if names.len() > 1 {
            join_first(names, seq!['/']);
        }
    }
    if base.len() == 0 {
        assert(whole =~= path);
        assert(Seq::<Seq<char>>::empty() + names =~= names);
        names_are_parts(Seq::empty(), names);
        position_bounds(base, f, 0);
        assert(split(base, f) =~= seq![base]);
        assert(parts_of(seq![base]) =~= Seq::empty()) by {
            assert(seq![base].drop_last() =~= Seq::empty());
            assert(parts_of(seq![base].drop_last()) =~= Seq::empty());
        }
        assert(path_parts(base) =~= Seq::empty());
        assert(parts_of(Seq::<Seq<char>>::empty()) =~= Seq::empty());
        assert(path_parts(whole) =~= path_parts(base) + name_parts(names));
    } else if base.last() == '/' {
        let start = base.drop_last();
        assert(base =~= start + seq!['/'] + Seq::empty());
        assert(whole =~= start + seq!['/'] + path);
        split_of_both(start, Seq::empty(), '/');
        split_of_both(start, path, '/');
        let none: Seq<char> = Seq::empty();
        position_bounds(none, f, 0);
        assert(split(none, f) =~= seq![none]);
        let before = split(start, f);
        assert((before + seq![none]).drop_last() =~= before);
        assert((before + seq![none]).last() == none);
        assert(parts_of(before + seq![none]) =~= parts_of(before));
        names_are_parts(before, names);
        assert(whole[0] == base[0]);
        assert(path_parts(whole) =~= path_parts(base) + name_parts(names));
    } else {
        assert(whole =~= base + seq!['/'] + path);
        split_of_both(base, path, '/');
        names_are_parts(split(base, f), names);
        assert(whole[0] == base[0]);
        assert(path_parts(whole) =~= path_parts(base) + name_parts(names));
    }
}

/// One of the two paths, given by their parts, is the other or lies below it.
pub open spec fn overlap(a: Seq<PartModel>, b: Seq<PartModel>) -> bool {
    a.is_prefix_of(b) || b.is_prefix_of(a)
}

fn same_part(a: &PathPart, b: &PathPart) -> (yes: bool)
    ensures
        yes == (a@ == b@),
{
    match (a, b) {
        (PathPart::Root, PathPart::Root) => true,
        (PathPart::CurDir, PathPart::CurDir) => true,
        (PathPart::ParentDir, PathPart::ParentDir) => true,
        (PathPart::Prefix(x), PathPart::Prefix(y)) => same_text(x.as_str(), y.as_str()),
        (PathPart::Normal(x), PathPart::Normal(y)) => same_text(x.as_str(), y.as_str()),
        _ => false,
    }
}

/// Whether one of two paths is the other or lies below it.
pub fn paths_overlap(a: &Vec<PathPart>, b: &Vec<PathPart>) -> (yes: bool)
    ensures
        yes == overlap(views(a@), views(b@)),
{
    let ghost x = views(a@);
    let ghost y = views(b@);
    let mut i: usize = 0;
    while i < a.len() && i < b.len()
        invariant
            i <= a.len(),
            i <= b.len(),
            x == views(a@),
            y == views(b@),
            forall|j: int| 0 <= j < i ==> x[j] == y[j],
        decreases a.len() - i,
    {
        if !same_part(&a[i], &b[i]) {
            assert(x[i as int] != y[i as int]);
            assert(!x.is_prefix_of(y)) by {
                if x.is_prefix_of(y) {
                    assert(x[i as int] == y.subrange(0, x.len() as int)[i as int]);
                }
            }
            assert(!y.is_prefix_of(x)) by {
                if y.is_prefix_of(x) {
                    assert(y[i as int] == x.subrange(0, y.len() as int)[i as int]);
                }
            }
            return false;
        }
        i += 1;
    }
    proof {
        if i == a.len() {
            assert(x =~= y.subrange(0, x.len() as int));
            assert(x.is_prefix_of(y));
        } else {
            assert(y =~= x.subrange(0, y.len() as int));
            assert(y.is_prefix_of(x));
        }
    }
    true
}

/// A folder overlaps itself and whatever lies below it, and overlap goes both
/// ways.
pub proof fn folders_overlap_what_is_below(folder: Seq<PartModel>, below: Seq<PartModel>)
    ensures
        overlap(folder, folder + below),
        overlap(folder + below, folder),
{
    assert(folder =~= (folder + below).subrange(0, folder.len() as int));
}

/// The text of a path of these parts.
pub open spec fn parts_text(parts: Seq<PartModel>) -> Seq<char>
    decreases parts.len(),
{
    if parts.len() == 0 {
        Seq::empty()
    } else {
        joined(
            parts_text(parts.drop_last()),
            match parts.last() {
                PartModel::Prefix(name) => name.push('/'),
                PartModel::Root => seq!['/'],
                PartModel::CurDir => seq!['.'],
                PartModel::ParentDir => seq!['.', '.'],
                PartModel::Normal(name) => name,
            },
        )
    }
}

fn path_text(parts: &Vec<PathPart>, count: usize) -> (text: String)
    ensures
        text@ == parts_text(first_parts(views(parts@), count as int)),
{
    let ghost model = views(parts@);
    let count: usize = if count <= parts.len() {
        count
    } else {
        parts.len()
    };
    let mut text = String::new();
    let mut i: usize = 0;
    assert(text@ =~= parts_text(model.take(0)));
    assert(model.take(model.len() as int) =~= model);
    while i < count
        invariant
            i <= count <= parts@.len(),
            model == views(parts@),
            text@ == parts_text(model.take(i as int)),
        decreases count - i,
    {
        proof {
            reveal_strlit("/");
            reveal_strlit(".");
            reveal_strlit("..");
            assert("/"@ =~= seq!['/']);
            assert("."@ =~= seq!['.']);
            assert(".."@ =~= seq!['.', '.']);
            assert(model.take(i + 1).drop_last() =~= model.take(i as int));
            assert(model.take(i + 1).last() == parts@[i as int]@);
        }
        let name: String = match &parts[i] {
            PathPart::Prefix(name) => {
                let mut root = name.clone();
                root.push('/');
                root
            },
            PathPart::Root => "/".to_owned(),
            PathPart::CurDir => ".".to_owned(),
            PathPart::ParentDir => "..".to_owned(),
            PathPart::Normal(name) => name.clone(),
        };
        text = join_path(text.as_str(), name.as_str());
        i += 1;
    }
    text
}

/// Finding out where a path leads that may not exist yet: the longest part of it
/// that exists is made canonical, and the rest is put behind that.
#[derive(Debug, PartialEq, Eq)]
pub enum Resolution {
    /// Whether the path of the first `count` parts exists is to be found out.
    Probe { parts: Vec<PathPart>, count: usize },
    /// The canonical form of the path of the first `count` parts is to be found
    /// out.
    Canonicalize { parts: Vec<PathPart>, count: usize },
    /// The path leads here.
    Resolved { parts: Vec<PathPart> },
    /// Where the path leads could not be found out.
    Failed,
}

/// The first `count` parts, or all where there are fewer.
pub open spec fn first_parts(parts: Seq<PartModel>, count: int) -> Seq<PartModel> {
    if count <= parts.len() {
        parts.take(count)
    } else {
        parts
    }
}

/// The parts behind the first `count`.
pub open spec fn other_parts(parts: Seq<PartModel>, count: int) -> Seq<PartModel> {
    if count <= parts.len() {
        parts.skip(count)
    } else {
        Seq::empty()
    }
}

pub enum ResolutionModel {
    Probe { parts: Seq<PartModel>, count: int },
    Canonicalize { parts: Seq<PartModel>, count: int },
    Resolved { parts: Seq<PartModel> },
    Failed,
}

impl View for Resolution {
    type V = ResolutionModel;

    open spec fn view(&self) -> ResolutionModel {
        match self {
            Resolution::Probe { parts, count } => ResolutionModel::Probe {
                parts: views(parts@),
                count: *count as int,
            },
            Resolution::Canonicalize { parts, count } => ResolutionModel::Canonicalize {
                parts: views(parts@),
                count: *count as int,
            },
            Resolution::Resolved { parts } => ResolutionModel::Resolved { parts: views(parts@) },
            Resolution::Failed => ResolutionModel::Failed,
        }
    }
}

impl ResolutionModel {
    /// The path that is asked about.
    pub open spec fn path(self) -> Option<Seq<char>> {
        match self {
            ResolutionModel::Probe { parts, count } => Some(parts_text(first_parts(parts, count))),
            ResolutionModel::Canonicalize { parts, count } => Some(
                parts_text(first_parts(parts, count)),
            ),
            _ => None,
        }
    }

    /// What follows from the answer whether the path exists; none where that
    /// could not be found out.
    pub open spec fn probed(self, exists: Option<bool>) -> ResolutionModel {
        match self {
            ResolutionModel::Probe { parts, count } => match exists {
                None => ResolutionModel::Failed,
                Some(true) => ResolutionModel::Canonicalize { parts, count },
                Some(false) => if 0 < count <= parts.len() && parts[count - 1] is Normal {
                    ResolutionModel::Probe { parts, count: count - 1 }
                } else {
                    ResolutionModel::Resolved { parts }
                },
            },
            other => other,
        }
    }

    /// What follows from the canonical form of the path; none where that could
    /// not be found out.
    pub open spec fn canonicalized(self, canonical: Option<Seq<char>>) -> ResolutionModel {
        match self {
            ResolutionModel::Canonicalize { parts, count } => match canonical {
                None => ResolutionModel::Failed,
                Some(path) => ResolutionModel::Resolved {
                    parts: path_parts(path) + other_parts(parts, count),
                },
            },
            other => other,
        }
    }
}

impl Resolution {
    /// Starts to find out where a path leads, given by its parts without dots.
    pub fn start(parts: Vec<PathPart>) -> (state: Resolution)
        ensures
            state@ == (ResolutionModel::Probe {
                parts: views(parts@),
                count: parts@.len() as int,
            }),
    {
        let count = parts.len();
        Resolution::Probe { parts, count }
    }

    /// The path that is asked about.
    pub fn path(&self) -> (path: Option<String>)
        ensures
            viewed(path) == self@.path(),
    {
        match self {
            Resolution::Probe { parts, count } => Some(path_text(parts, *count)),
            Resolution::Canonicalize { parts, count } => Some(path_text(parts, *count)),
            _ => None,
        }
    }

    /// Goes on with the answer whether the path that was asked about exists; none
    /// where that could not be found out.
    pub fn after_probe(self, exists: Option<bool>) -> (state: Resolution)
        ensures
            state@ == self@.probed(exists),
    {
        match self {
            Resolution::Probe { parts, count } => match exists {
                None => Resolution::Failed,
                Some(true) => Resolution::Canonicalize { parts, count },
                Some(false) => {
                    let mut goes_up = false;
                    if count > 0 && count <= parts.len() {
                        assert(views(parts@)[count - 1] == parts@[count - 1]@);
                        goes_up = match &parts[count - 1] {
                            PathPart::Normal(_) => true,
                            _ => false,
                        };
                    }
                    if goes_up {
                        Resolution::Probe { parts, count: count - 1 }
                    } else {
                        Resolution::Resolved { parts }
                    }
                },
            },
            other => other,
        }
    }

    /// Goes on with the canonical form of the path that was asked about; none
    /// where that could not be found out.
    pub fn after_canonicalize(self, canonical: Option<String>) -> (state: Resolution)
        ensures
            state@ == self@.canonicalized(viewed(canonical)),
    {
        match self {
            Resolution::Canonicalize { parts, count } => match canonical {
                None => Resolution::Failed,
                Some(path) => {
                    let mut all = split_path(path.as_str());
                    let ghost start = views(all@);
                    let ghost model = views(parts@);
                    if count > parts.len() {
                        assert(start + Seq::<PartModel>::empty() =~= start);
                        return Resolution::Resolved { parts: all };
                    }
                    let mut i: usize = count;
                    assert(start + model.subrange(count as int, count as int) =~= start);
                    while i < parts.len()
                        invariant
                            count <= i <= parts.len(),
                            model == views(parts@),
                            views(all@) == start + model.subrange(count as int, i as int),
                        decreases parts.len() - i,
                    {
                        let part = parts[i].clone();
                        proof {
                            pushed_view(all@, part);
                            assert(start + model.subrange(count as int, i + 1) =~= (start
                                + model.subrange(count as int, i as int)).push(part@));
                        }
                        all.push(part);
                        i += 1;
                    }
                    assert(model.subrange(count as int, i as int) =~= model.skip(count as int));
                    Resolution::Resolved { parts: all }
                },
            },
            other => other,
        }
    }
}

/// Finding out where a path leads comes to an end: every answer to a probe that
/// leads to another one leaves fewer parts to ask about.
pub proof fn probing_goes_up(state: ResolutionModel, exists: Option<bool>)
    requires
        state is Probe,
        state.probed(exists) is Probe,
    ensures
        0 <= state.probed(exists)->Probe_count < state->Probe_count,
        state.probed(exists)->Probe_parts == state->Probe_parts,
{
}

/// Finding out where a path leads does not go above its root: what is asked about
/// next still starts with it.
pub proof fn probing_keeps_the_root(state: ResolutionModel, exists: Option<bool>)
    requires
        state is Probe,
        0 < state->Probe_count <= state->Probe_parts.len(),
        is_root(state->Probe_parts[0]),
        state.probed(exists) is Probe,
    ensures
        0 < state.probed(exists)->Probe_count,
        first_parts(state->Probe_parts, state.probed(exists)->Probe_count)[0]
            == state->Probe_parts[0],
{
}

/// One sequence of numbers comes before another, or is the same.
pub open spec fn comes_first(a: Seq<u32>, b: Seq<u32>) -> bool
    decreases a.len(),
{
    if a.len() == 0 {
        true
    } else if b.len() == 0 {
        false
    } else {
        a[0] < b[0] || (a[0] == b[0] && comes_first(a.drop_first(), b.drop_first()))
    }
}

/// A name as numbers, each more than zero.
pub open spec fn name_numbers(name: Seq<char>) -> Seq<u32> {
    name.map_values(|c: char| (c as u32 + 1) as u32)
}

/// A part of a path as numbers, with a zero at the end.
pub open spec fn part_numbers(part: PartModel) -> Seq<u32> {
    match part {
        PartModel::Prefix(name) => seq![1u32] + name_numbers(name) + seq![0u32],
        PartModel::Root => seq![2u32, 0u32],
        PartModel::CurDir => seq![3u32, 0u32],
        PartModel::ParentDir => seq![4u32, 0u32],
        PartModel::Normal(name) => seq![5u32] + name_numbers(name) + seq![0u32],
    }
}

/// Parts of a path as numbers. They are ordered part by part, and each part by
/// its code points.
pub open spec fn order_numbers(parts: Seq<PartModel>) -> Seq<u32>
    decreases parts.len(),
{
    if parts.len() == 0 {
        Seq::empty()
    } else {
        order_numbers(parts.drop_last()) + part_numbers(parts.last())
    }
}

/// The path `a` comes before the path `b` in the order of their parts, or has the
/// same parts.
pub open spec fn path_comes_first(a: Seq<char>, b: Seq<char>) -> bool {
    comes_first(order_numbers(path_parts(a)), order_numbers(path_parts(b)))
}

pub proof fn comes_first_is_total(a: Seq<u32>, b: Seq<u32>)
    ensures
        comes_first(a, b) || comes_first(b, a),
    decreases a.len(),
{
    if a.len() > 0 && b.len() > 0 && a[0] == b[0] {
        comes_first_is_total(a.drop_first(), b.drop_first());
    }
}

pub proof fn comes_first_is_transitive(a: Seq<u32>, b: Seq<u32>, c: Seq<u32>)
    requires
        comes_first(a, b),
        comes_first(b, c),
    ensures
        comes_first(a, c),
    decreases a.len(),
{
    if a.len() > 0 && a[0] == b[0] && b[0] == c[0] {
        comes_first_is_transitive(a.drop_first(), b.drop_first(), c.drop_first());
    }
}

fn numbers_come_first(a: &Vec<u32>, b: &Vec<u32>) -> (yes: bool)
    ensures
        yes == comes_first(a@, b@),
{
    let mut i: usize = 0;
    assert(a@.skip(0) =~= a@);
    assert(b@.skip(0) =~= b@);
    while i < a.len()
        invariant
            i <= a.len(),
            i <= b.len(),
            comes_first(a@, b@) == comes_first(a@.skip(i as int), b@.skip(i as int)),
        decreases a.len() - i,
    {
        if i == b.len() {
            return false;
        }
        proof {
            assert(a@.skip(i as int)[0] == a@[i as int]);
            assert(b@.skip(i as int)[0] == b@[i as int]);
            assert(a@.skip(i as int).drop_first() =~= a@.skip(i + 1));
            assert(b@.skip(i as int).drop_first() =~= b@.skip(i + 1));
        }
        if a[i] < b[i] {
            return true;
        }
        if a[i] > b[i] {
            return false;
        }
        i += 1;
    }
    true
}

fn push_name_numbers(numbers: &mut Vec<u32>, kind: u32, name: &String)
    ensures
        final(numbers)@ == old(numbers)@ + (seq![kind] + name_numbers(name@)),
{
    let ghost before = numbers@;
    numbers.push(kind);
    let chars = chars_of(name.as_str());
    let mut k: usize = 0;
    assert(numbers@ =~= before + (seq![kind] + name_numbers(name@.take(0))));
    while k < chars.len()
        invariant
            k <= chars.len(),
            chars@ == name@,
            numbers@ == before + (seq![kind] + name_numbers(name@.take(k as int))),
        decreases chars.len() - k,
    {
        let c: char = chars[k];
        proof {
            char_is_scalar(c);
        }
        numbers.push(c as u32 + 1);
        k += 1;
        assert(numbers@ =~= before + (seq![kind] + name_numbers(name@.take(k as int))));
    }
    assert(name@.take(k as int) =~= name@);
}

fn path_numbers(path: &str) -> (numbers: Vec<u32>)
    ensures
        numbers@ == order_numbers(path_parts(path@)),
{
    let parts = split_path(path);
    let ghost model = views(parts@);
    let mut numbers: Vec<u32> = Vec::new();
    let mut i: usize = 0;
    while i < parts.len()
        invariant
            i <= parts.len(),
            model == views(parts@),
            numbers@ == order_numbers(model.take(i as int)),
        decreases parts.len() - i,
    {
        let ghost before = numbers@;
        proof {
            assert(model.take(i + 1).drop_last() =~= model.take(i as int));
            assert(model.take(i + 1).last() == parts@[i as int]@);
        }
        match &parts[i] {
            PathPart::Prefix(name) => {
                push_name_numbers(&mut numbers, 1, name);
            },
            PathPart::Root => {
                numbers.push(2);
            },
            PathPart::CurDir => {
                numbers.push(3);
            },
            PathPart::ParentDir => {
                numbers.push(4);
            },
            PathPart::Normal(name) => {
                push_name_numbers(&mut numbers, 5, name);
            },
        }
        numbers.push(0);
        assert(numbers@ =~= before + part_numbers(model[i as int]));
        i += 1;
    }
    assert(model.take(i as int) =~= model);
    numbers
}

/// Whether a list of paths is in order.
pub open spec fn in_order(paths: Seq<Seq<char>>) -> bool {
    forall|i: int, j: int|
        0 <= i < j < paths.len() ==> path_comes_first(#[trigger] paths[i], #[trigger] paths[j])
}

/// The list with a path put in behind those that come before it or have the same
/// parts.
pub open spec fn inserted(paths: Seq<Seq<char>>, path: Seq<char>) -> Seq<Seq<char>>
    decreases paths.len(),
{
    if paths.len() == 0 || path_comes_first(paths.last(), path) {
        paths.push(path)
    } else {
        inserted(paths.drop_last(), path).push(paths.last())
    }
}

/// The list in order; paths of the same parts keep theirs.
pub open spec fn sorted(paths: Seq<Seq<char>>) -> Seq<Seq<char>>
    decreases paths.len(),
{
    if paths.len() == 0 {
        paths
    } else {
        inserted(sorted(paths.drop_last()), paths.last())
    }
}

proof fn inserted_at(paths: Seq<Seq<char>>, path: Seq<char>, at: int)
    requires
        0 <= at <= paths.len(),
        at > 0 ==> path_comes_first(paths[at - 1], path),
        forall|i: int| at <= i < paths.len() ==> !path_comes_first(#[trigger] paths[i], path),
    ensures
        inserted(paths, path) == paths.insert(at, path),
    decreases paths.len(),
{
    if at == paths.len() {
        assert(paths.insert(at, path) =~= paths.push(path));
    } else {
        assert(!path_comes_first(paths[paths.len() - 1], path));
        assert forall|i: int| at <= i < paths.drop_last().len() implies !path_comes_first(
            #[trigger] paths.drop_last()[i],
            path,
        ) by {
            assert(paths.drop_last()[i] == paths[i]);
        }
        inserted_at(paths.drop_last(), path, at);
        assert(paths.drop_last().insert(at, path).push(paths.last()) =~= paths.insert(at, path));
    }
}

proof fn insertion_keeps_order(paths: Seq<Seq<char>>, path: Seq<char>)
    requires
        in_order(paths),
    ensures
        in_order(inserted(paths, path)),
        inserted(paths, path).to_multiset() == paths.to_multiset().insert(path),
        inserted(paths, path).len() == paths.len() + 1,
        forall|x: Seq<char>| #[trigger]
            inserted(paths, path).contains(x) ==> x == path || paths.contains(x),
    decreases paths.len(),
{
    let all = inserted(paths, path);
    if paths.len() == 0 || path_comes_first(paths.last(), path) {
        assert forall|i: int, j: int| 0 <= i < j < all.len() implies path_comes_first(
            #[trigger] all[i],
            #[trigger] all[j],
        ) by {
            if j == paths.len() && i < paths.len() - 1 {
                comes_first_is_transitive(
                    order_numbers(path_parts(paths[i])),
                    order_numbers(path_parts(paths.last())),
                    order_numbers(path_parts(path)),
                );
            }
        }
        paths.to_multiset_ensures();
        assert(all.to_multiset() =~= paths.to_multiset().insert(path));
        assert forall|x: Seq<char>| #[trigger] all.contains(x) implies x == path || paths.contains(
            x,
        ) by {
            let i = choose|i: int| 0 <= i < all.len() && all[i] == x;
            if i < paths.len() {
                assert(paths[i] == x);
            }
        }
    } else {
        let before = paths.drop_last();
        insertion_keeps_order(before, path);
        let shorter = inserted(before, path);
        comes_first_is_total(
            order_numbers(path_parts(path)),
            order_numbers(path_parts(paths.last())),
        );
        assert forall|i: int, j: int| 0 <= i < j < all.len() implies path_comes_first(
            #[trigger] all[i],
            #[trigger] all[j],
        ) by {
            if j == shorter.len() {
                assert(shorter.contains(shorter[i]));
                if shorter[i] != path {
                    let k = choose|k: int| 0 <= k < before.len() && before[k] == shorter[i];
                    assert(paths[k] == before[k]);
                    assert(path_comes_first(paths[k], paths[paths.len() - 1]));
                }
            } else {
                assert(all[i] == shorter[i] && all[j] == shorter[j]);
            }
        }
        shorter.to_multiset_ensures();
        before.to_multiset_ensures();
        assert(before.push(paths.last()) =~= paths);
        assert(all.to_multiset() =~= paths.to_multiset().insert(path));
        assert forall|x: Seq<char>| #[trigger] all.contains(x) implies x == path || paths.contains(
            x,
        ) by {
            let i = choose|i: int| 0 <= i < all.len() && all[i] == x;
            if i < shorter.len() {
                assert(shorter.contains(x));
                if x != path {
                    let k = choose|k: int| 0 <= k < before.len() && before[k] == x;
                    assert(paths[k] == x);
                }
            } else {
                assert(paths[paths.len() - 1] == x);
            }
        }
    }
}

/// Sorting puts paths in order and neither loses nor adds any.
pub proof fn sorting_orders(paths: Seq<Seq<char>>)
    ensures
        in_order(sorted(paths)),
        sorted(paths).to_multiset() == paths.to_multiset(),
        sorted(paths).len() == paths.len(),
    decreases paths.len(),
{
    if paths.len() > 0 {
        let before = paths.drop_last();
        sorting_orders(before);
        insertion_keeps_order(sorted(before), paths.last());
        before.to_multiset_ensures();
        assert(before.push(paths.last()) =~= paths);
    }
}

/// Puts paths in order.
pub fn sort_paths(paths: Vec<String>) -> (out: Vec<String>)
    ensures
        views(out@) == sorted(views(paths@)),
{
    let ghost model = views(paths@);
    let mut out: Vec<String> = Vec::new();
    let mut keys: Vec<Vec<u32>> = Vec::new();
    let mut i: usize = 0;
    assert(views(out@) =~= sorted(model.take(0)));
    while i < paths.len()
        invariant
            i <= paths.len(),
            model == views(paths@),
            views(out@) == sorted(model.take(i as int)),
            keys@.len() == out@.len(),
            forall|k: int|
                0 <= k < keys@.len() ==> (#[trigger] keys@[k])@ == order_numbers(
                    path_parts(views(out@)[k]),
                ),
        decreases paths.len() - i,
    {
        let key = path_numbers(paths[i].as_str());
        let ghost now = views(out@);
        let ghost path = model[i as int];
        proof {
            sorting_orders(model.take(i as int));
            assert(model.take(i + 1).drop_last() =~= model.take(i as int));
            assert(model.take(i + 1).last() == path);
        }
        let mut low: usize = 0;
        let mut high: usize = out.len();
        while low < high
            invariant
                low <= high <= out.len(),
                now == views(out@),
                in_order(now),
                keys@.len() == out@.len(),
                key@ == order_numbers(path_parts(path)),
                forall|k: int|
                    0 <= k < keys@.len() ==> (#[trigger] keys@[k])@ == order_numbers(
                        path_parts(now[k]),
                    ),
                forall|k: int| 0 <= k < low ==> path_comes_first(#[trigger] now[k], path),
                forall|k: int| high <= k < now.len() ==> !path_comes_first(#[trigger] now[k], path),
            decreases high - low,
        {
            let middle: usize = low + (high - low) / 2;
            assert(keys@[middle as int]@ == order_numbers(path_parts(now[middle as int])));
            if numbers_come_first(&keys[middle], &key) {
                low = middle + 1;
                assert forall|k: int| 0 <= k < low implies path_comes_first(
                    #[trigger] now[k],
                    path,
                ) by {
                    if k < middle {
                        assert(path_comes_first(now[k], now[middle as int]));
                        comes_first_is_transitive(
                            order_numbers(path_parts(now[k])),
                            order_numbers(path_parts(now[middle as int])),
                            key@,
                        );
                    }
                }
            } else {
                high = middle;
                assert forall|k: int| high <= k < now.len() implies !path_comes_first(
                    #[trigger] now[k],
                    path,
                ) by {
                    if middle < k && path_comes_first(now[k], path) {
                        assert(path_comes_first(now[middle as int], now[k]));
                        comes_first_is_transitive(
                            order_numbers(path_parts(now[middle as int])),
                            order_numbers(path_parts(now[k])),
                            key@,
                        );
                    }
                }
            }
        }
        proof {
            inserted_at(now, path, low as int);
        }
        let ghost before_keys = keys@;
        out.insert(low, paths[i].clone());
        keys.insert(low, key);
        proof {
            assert(views(out@) =~= now.insert(low as int, path));
            assert forall|k: int| 0 <= k < keys@.len() implies (#[trigger] keys@[k])@
                == order_numbers(path_parts(views(out@)[k])) by {
                if k < low {
                    assert(keys@[k] == before_keys[k]);
                    assert(views(out@)[k] == now[k]);
                } else if k > low {
                    assert(keys@[k] == before_keys[k - 1]);
                    assert(views(out@)[k] == now[k - 1]);
                }
            }
        }
        i += 1;
    }
    assert(model.take(i as int) =~= model);
    out
}

proof fn a_last_piece_is_a_part(folder: Seq<char>, name: Seq<char>)
    requires
        folder.len() == 0 || folder.last() == '/',
        name.len() > 0,
        forall|i: int| 0 <= i < name.len() ==> #[trigger] name[i] != '/',
        name != seq!['.'],
        name != seq!['.', '.'],
        !is_prefix(name),
    ensures
        path_parts(folder + name).len() > 0,
        path_parts(folder + name).last() == PartModel::Normal(name),
{
    let slash = |c: char| c == '/';
    let path = folder + name;
    assert(is_name(name));
    if folder.len() == 0 {
        assert(path =~= name);
        assert(name[0] != '/');
        assert forall|i: int| 0 <= i < name.len() implies !slash(name[i]) by {
            assert(name[i] != '/');
        }
        position_bounds(name, slash, 0);
        assert(split(path, slash) =~= seq![name]);
        names_are_parts(Seq::empty(), seq![name]);
        assert(Seq::<Seq<char>>::empty() + seq![name] =~= seq![name]);
        assert(name_parts(seq![name]).last() == PartModel::Normal(name));
    } else {
        let start = folder.drop_last();
        assert(path =~= start + seq!['/'] + name);
        split_of_both(start, name, '/');
        assert forall|i: int| 0 <= i < name.len() implies !slash(name[i]) by {
            assert(name[i] != '/');
        }
        position_bounds(name, slash, 0);
        assert(split(name, slash) =~= seq![name]);
        names_are_parts(split(start, slash), seq![name]);
        assert(name_parts(seq![name]).last() == PartModel::Normal(name));
        assert(split(path, slash) == split(start, slash) + seq![name]);
    }
}

/// A file is taken for an EPUB, in whatever folder it lies, where its name ends with
/// a dot and "epub", in capitals or not, and something stands before the dot.
pub proof fn epubs_are_told_by_their_extension(
    folder: Seq<char>,
    stem: Seq<char>,
    ending: Seq<char>,
)
    requires
        folder.len() == 0 || folder.last() == '/',
        stem.len() > 0,
        stem[0] != '\\',
        forall|i: int| 0 <= i < stem.len() ==> #[trigger] stem[i] != '/',
        ending.len() > 0,
        forall|i: int| 0 <= i < ending.len() ==> #[trigger] ending[i] != '/' && ending[i] != '.',
    ensures
        names_epub(folder + (stem + seq!['.'] + ending)) <==> same_but_case(ending, "epub"@),
{
    let name = stem + seq!['.'] + ending;
    let dot = stem.len() as int + 1;
    assert(name[dot - 1] == '.');
    assert forall|i: int| dot <= i < name.len() implies name[i] != '.' by {
        assert(name[i] == ending[i - dot]);
    }
    assert forall|i: int| 0 <= i < name.len() implies #[trigger] name[i] != '/' by {
        if i < stem.len() {
            assert(name[i] == stem[i]);
        } else if i >= dot {
            assert(name[i] == ending[i - dot]);
        }
    }
    assert(name[0] == stem[0]);
    assert(name.len() >= 3);
    a_last_piece_is_a_part(folder, name);
    extension_at(name, dot);
    assert(name.subrange(dot, name.len() as int) =~= ending);
}

/// A file without a dot in its name, or with one at its start alone, is not taken for
/// an EPUB.
pub proof fn names_without_an_ending_are_no_epubs(folder: Seq<char>, name: Seq<char>)
    requires
        folder.len() == 0 || folder.last() == '/',
        name.len() > 0,
        forall|i: int| 0 <= i < name.len() ==> #[trigger] name[i] != '/',
        forall|i: int| 0 < i < name.len() ==> name[i] != '.',
        name != seq!['.'],
        !is_prefix(name),
    ensures
        !names_epub(folder + name),
{
    assert(name != seq!['.', '.']) by {
        if name == seq!['.', '.'] {
            assert(name[1] == '.');
        }
    }
    a_last_piece_is_a_part(folder, name);
    extension_at(
        name,
        if name[0] == '.' {
            1
        } else {
            0
        },
    );
}

/// A path is put behind another with one slash between them, and stands for itself
/// where it starts with one.
pub proof fn paths_are_joined_with_one_slash(base: Seq<char>, path: Seq<char>)
    ensures
        path.len() > 0 && path[0] == '/' ==> joined(base, path) == path,
        !(path.len() > 0 && path[0] == '/') && base.len() > 0 && base.last() != '/' ==> joined(
            base,
            path,
        ) == base + seq!['/'] + path,
        !(path.len() > 0 && path[0] == '/') && (base.len() == 0 || base.last() == '/') ==> joined(
            base,
            path,
        ) == base + path,
{
    assert(base.push('/') =~= base + seq!['/']);
}

proof fn empty_pieces_are_passed_over(
    before: Seq<Seq<char>>,
    piece: Seq<char>,
    after: Seq<Seq<char>>,
)
    requires
        before.len() > 0,
        piece.len() == 0 || piece == seq!['.'],
    ensures
        parts_of(before + seq![piece] + after) == parts_of(before + after),
    decreases after.len(),
{
    let all = before + seq![piece] + after;
    if after.len() > 0 {
        let shorter = after.drop_last();
        empty_pieces_are_passed_over(before, piece, shorter);
        assert(all.drop_last() =~= before + seq![piece] + shorter);
        assert((before + after).drop_last() =~= before + shorter);
        assert(all.last() == after.last() && (before + after).last() == after.last());
    } else {
        assert(all =~= before.push(piece));
        assert(all.drop_last() =~= before);
        assert(before + after =~= before);
        assert(part_of(piece, false) =~= Seq::empty());
        assert(parts_of(all) =~= parts_of(before));
    }
}

/// Between two parts of a path it does not matter how many slashes stand, nor whether
/// a single dot stands between them.
pub proof fn slashes_and_single_dots_do_not_matter(a: Seq<char>, b: Seq<char>)
    requires
        a.len() > 0,
    ensures
        path_parts(a + seq!['/', '/'] + b) == path_parts(a + seq!['/'] + b),
        path_parts(a + seq!['/', '.', '/'] + b) == path_parts(a + seq!['/'] + b),
{
    let slash = |c: char| c == '/';
    let none = Seq::<char>::empty();
    let one = seq!['.'];
    split_is_not_empty(a, slash);
    split_of_both(a, b, '/');
    split_of_both(a, seq!['/'] + b, '/');
    split_of_both(none, b, '/');
    split_of_both(a, one + seq!['/'] + b, '/');
    split_of_both(one, b, '/');
    assert(none + seq!['/'] + b =~= seq!['/'] + b);
    assert(a + seq!['/', '/'] + b =~= a + seq!['/'] + (seq!['/'] + b));
    assert(a + seq!['/', '.', '/'] + b =~= a + seq!['/'] + (one + seq!['/'] + b));
    assert(split(none, slash) =~= seq![none]);
    assert(split(one, slash) =~= seq![one]) by {
        position_bounds(one, slash, 0);
        assert(one[0] == '.');
    }
    let (x, y) = (split(a, slash), split(b, slash));
    assert(x + (seq![none] + y) =~= x + seq![none] + y);
    assert(x + (seq![one] + y) =~= x + seq![one] + y);
    empty_pieces_are_passed_over(x, none, y);
    empty_pieces_are_passed_over(x, one, y);
    assert((a + seq!['/', '/'] + b)[0] == a[0]);
    assert((a + seq!['/', '.', '/'] + b)[0] == a[0]);
    assert((a + seq!['/'] + b)[0] == a[0]);
}

/// A name behind a path is one more part of it, and two dots are a part of their own.
pub proof fn names_and_double_dots_are_parts(path: Seq<char>, name: Seq<char>)
    requires
        path.len() > 0,
        name.len() > 0,
        forall|i: int| 0 <= i < name.len() ==> #[trigger] name[i] != '/',
        name != seq!['.'],
    ensures
        path_parts(path + seq!['/'] + name) == path_parts(path).push(
            if name == seq!['.', '.'] {
                PartModel::ParentDir
            } else {
                PartModel::Normal(name)
            },
        ),
{
    let slash = |c: char| c == '/';
    let whole = path + seq!['/'] + name;
    split_is_not_empty(path, slash);
    split_of_both(path, name, '/');
    position_bounds(name, slash, 0);
    assert forall|i: int| 0 <= i < name.len() implies !slash(name[i]) by {
        assert(name[i] != '/');
    }
    assert(split(name, slash) =~= seq![name]);
    let pieces = split(path, slash) + seq![name];
    assert(pieces.drop_last() =~= split(path, slash));
    assert(pieces.last() == name);
    assert(whole[0] == path[0]);
    assert(path_parts(whole) =~= path_parts(path) + part_of(name, false));
}

/// Without dots a path is what it was, part by part: a single dot goes, two dots take
/// the name before them along, or nothing where none stands there, and any other part
/// stays.
pub proof fn dots_are_taken_out(parts: Seq<PartModel>, name: Seq<char>)
    ensures
        lexical(Seq::empty()) == Seq::<PartModel>::empty(),
        lexical(parts.push(PartModel::Root)) == lexical(parts).push(PartModel::Root),
        lexical(parts.push(PartModel::Prefix(name))) == lexical(parts).push(
            PartModel::Prefix(name),
        ),
        lexical(parts.push(PartModel::Normal(name))) == lexical(parts).push(
            PartModel::Normal(name),
        ),
        lexical(parts.push(PartModel::CurDir)) == lexical(parts),
        lexical(parts.push(PartModel::Normal(name)).push(PartModel::ParentDir)) == lexical(parts),
        lexical(parts).len() == 0 || is_root(lexical(parts).last()) ==> lexical(
            parts.push(PartModel::ParentDir),
        ) == lexical(parts),
{
    assert(parts.push(PartModel::Root).drop_last() =~= parts);
    assert(parts.push(PartModel::Prefix(name)).drop_last() =~= parts);
    assert(parts.push(PartModel::CurDir).drop_last() =~= parts);
    assert(parts.push(PartModel::ParentDir).drop_last() =~= parts);
    let named = parts.push(PartModel::Normal(name));
    assert(named.drop_last() =~= parts);
    assert(named.push(PartModel::ParentDir).drop_last() =~= named);
    assert(lexical(parts).push(PartModel::Normal(name)).drop_last() =~= lexical(parts));
}

/// Where a path leads is found out from the longest start of it that exists: a start
/// that does not is left for the one above it, and what was left is put behind the
/// canonical form of the start that does. A failure on the way leaves it unknown.
pub proof fn paths_are_resolved_from_what_exists(
    parts: Seq<PartModel>,
    count: int,
    canonical: Seq<char>,
)
    requires
        0 < count <= parts.len(),
    ensures
        ({
            let probe = ResolutionModel::Probe { parts, count };
            let known = ResolutionModel::Canonicalize { parts, count };
            &&& probe.path() == Some(parts_text(parts.take(count)))
            &&& known.path() == Some(parts_text(parts.take(count)))
            &&& probe.probed(None) == ResolutionModel::Failed
            &&& probe.probed(Some(true)) == known
            &&& parts[count - 1] is Normal ==> probe.probed(Some(false)) == (
            ResolutionModel::Probe { parts, count: count - 1 })
            &&& !(parts[count - 1] is Normal) ==> probe.probed(Some(false)) == (
            ResolutionModel::Resolved { parts })
            &&& known.canonicalized(None) == ResolutionModel::Failed
            &&& known.canonicalized(Some(canonical)) == (ResolutionModel::Resolved {
                parts: path_parts(canonical) + parts.skip(count),
            })
        }),
{
}

proof fn numbers_of_both(a: Seq<PartModel>, b: Seq<PartModel>)
    ensures
        order_numbers(a + b) == order_numbers(a) + order_numbers(b),
    decreases b.len(),
{
    if b.len() > 0 {
        numbers_of_both(a, b.drop_last());
        assert((a + b).drop_last() =~= a + b.drop_last());
        assert((a + b).last() == b.last());
        assert(order_numbers(a + b) =~= order_numbers(a) + order_numbers(b));
    } else {
        assert(a + b =~= a);
        assert(order_numbers(a) + order_numbers(b) =~= order_numbers(a));
    }
}

proof fn common_numbers_do_not_matter(common: Seq<u32>, a: Seq<u32>, b: Seq<u32>)
    ensures
        comes_first(common + a, common + b) == comes_first(a, b),
    decreases common.len(),
{
    if common.len() > 0 {
        let rest = common.drop_first();
        common_numbers_do_not_matter(rest, a, b);
        assert((common + a).drop_first() =~= rest + a);
        assert((common + b).drop_first() =~= rest + b);
    } else {
        assert(common + a =~= a);
        assert(common + b =~= b);
    }
}

proof fn parts_are_numbered_first(part: PartModel, rest: Seq<PartModel>)
    ensures
        order_numbers(seq![part] + rest) == part_numbers(part) + order_numbers(rest),
{
    numbers_of_both(seq![part], rest);
    assert(seq![part].drop_last() =~= Seq::empty());
    assert(order_numbers(seq![part].drop_last()) =~= Seq::empty());
    assert(order_numbers(seq![part]) =~= part_numbers(part));
}

/// Whether a name comes before another: at the first sign in which they differ it has
/// the lower code point, or it ends there.
pub open spec fn name_comes_before(a: Seq<char>, b: Seq<char>) -> bool {
    exists|n: int|
        {
            &&& 0 <= n <= a.len()
            &&& n < b.len()
            &&& #[trigger] a.take(n) == b.take(n)
            &&& n < a.len() ==> a[n] < b[n]
        }
}

/// Paths are put in order by their parts. At the first part in which two paths differ,
/// the name that comes before the other decides; a folder comes before what lies in
/// it.
pub proof fn paths_come_in_the_order_of_their_parts(
    a: Seq<char>,
    b: Seq<char>,
    common: Seq<PartModel>,
    x: Seq<char>,
    y: Seq<char>,
    more: Seq<PartModel>,
    other: Seq<PartModel>,
)
    ensures
        path_parts(a) == common + (seq![PartModel::Normal(x)] + more) && path_parts(b) == common + (
        seq![PartModel::Normal(y)] + other) && name_comes_before(x, y) ==> path_comes_first(a, b)
            && !path_comes_first(b, a),
        path_parts(a) == common && path_parts(b) == common + (seq![PartModel::Normal(y)] + other)
            ==> path_comes_first(a, b) && !path_comes_first(b, a),
{
    let (first, second) = (seq![PartModel::Normal(x)] + more, seq![PartModel::Normal(y)] + other);
    parts_are_numbered_first(PartModel::Normal(x), more);
    parts_are_numbered_first(PartModel::Normal(y), other);
    numbers_of_both(common, first);
    numbers_of_both(common, second);
    let base = order_numbers(common);
    let (p, q) = (order_numbers(first), order_numbers(second));
    common_numbers_do_not_matter(base, p, q);
    common_numbers_do_not_matter(base, q, p);
    common_numbers_do_not_matter(base, Seq::empty(), q);
    common_numbers_do_not_matter(base, q, Seq::empty());
    assert(base + Seq::<u32>::empty() =~= base);
    assert(q.len() > 0);
    if name_comes_before(x, y) {
        let n = choose|n: int|
            {
                &&& 0 <= n <= x.len()
                &&& n < y.len()
                &&& #[trigger] x.take(n) == y.take(n)
                &&& n < x.len() ==> x[n] < y[n]
            };
        assert forall|i: int| 0 <= i <= n implies p[i] == q[i] by {
            if i > 0 {
                assert(x.take(n)[i - 1] == y.take(n)[i - 1]);
                assert(x[i - 1] == y[i - 1]);
                assert(p[i] == name_numbers(x)[i - 1]);
                assert(q[i] == name_numbers(y)[i - 1]);
            } else {
                assert(p[0] == 5 && q[0] == 5);
            }
        }
        assert(q[n + 1] == name_numbers(y)[n]);
        char_is_scalar(y[n]);
        assert(q[n + 1] == y[n] as u32 + 1);
        if n < x.len() {
            assert(p[n + 1] == name_numbers(x)[n]);
            char_is_scalar(x[n]);
            assert(p[n + 1] == x[n] as u32 + 1);
            code_points_compare(x[n], y[n]);
        } else {
            assert(p[n + 1] == 0);
        }
        the_first_difference_decides(p, q, n + 1);
    }
}

proof fn code_points_compare(a: char, b: char)
    requires
        a < b,
    ensures
        (a as u32) < (b as u32),
{
}

proof fn the_first_difference_decides(a: Seq<u32>, b: Seq<u32>, at: int)
    requires
        0 <= at < a.len(),
        at < b.len(),
        forall|i: int| 0 <= i < at ==> a[i] == b[i],
        a[at] < b[at],
    ensures
        comes_first(a, b),
        !comes_first(b, a),
    decreases at,
{
    if at > 0 {
        assert(a[0] == b[0]);
        assert forall|i: int| 0 <= i < at - 1 implies a.drop_first()[i] == b.drop_first()[i] by {
            assert(a[i + 1] == b[i + 1]);
        }
        the_first_difference_decides(a.drop_first(), b.drop_first(), at - 1);
    }
}

/// The path that is asked about is written with a slash before each name: behind the
/// root, behind a drive, or behind the first of the names.
pub proof fn parts_are_written_with_slashes(names: Seq<Seq<char>>, drive: Seq<char>)
    requires
        forall|i: int| 0 <= i < names.len() ==> is_name(#[trigger] names[i]),
        drive.len() > 0,
        drive[0] != '/',
    ensures
        parts_text(name_parts(names)) == join(names, seq!['/']),
        parts_text(seq![PartModel::Root] + name_parts(names)) == seq!['/'] + join(names, seq!['/']),
        parts_text(seq![PartModel::Prefix(drive)] + name_parts(names)) == drive + seq!['/'] + join(
            names,
            seq!['/'],
        ),
    decreases names.len(),
{
    let (root, disk) = (seq![PartModel::Root], seq![PartModel::Prefix(drive)]);
    let none = Seq::<char>::empty();
    assert(root.drop_last() =~= Seq::empty());
    assert(disk.drop_last() =~= Seq::empty());
    assert(parts_text(Seq::<PartModel>::empty()) =~= none);
    assert(parts_text(root) =~= seq!['/']);
    assert(parts_text(disk) =~= drive + seq!['/']) by {
        assert(drive.push('/')[0] == drive[0]);
        assert(none + drive.push('/') =~= drive + seq!['/']);
    }
    if names.len() == 0 {
        assert(name_parts(names) =~= Seq::empty());
        assert(root + name_parts(names) =~= root);
        assert(disk + name_parts(names) =~= disk);
        assert(seq!['/'] + none =~= seq!['/']);
        assert(drive + seq!['/'] + none =~= drive + seq!['/']);
    } else {
        let shorter = names.drop_last();
        let last = names.last();
        assert(is_name(names[names.len() - 1]));
        assert(last[0] != '/');
        assert forall|i: int| 0 <= i < shorter.len() implies is_name(#[trigger] shorter[i]) by {
            assert(shorter[i] == names[i]);
        }
        parts_are_written_with_slashes(shorter, drive);
        let parts = name_parts(names);
        assert(parts.drop_last() =~= name_parts(shorter));
        assert((root + parts).drop_last() =~= root + name_parts(shorter));
        assert((disk + parts).drop_last() =~= disk + name_parts(shorter));
        assert(parts.last() == PartModel::Normal(last));
        assert((root + parts).last() == PartModel::Normal(last));
        assert((disk + parts).last() == PartModel::Normal(last));
        let before = join(shorter, seq!['/']);
        if names.len() == 1 {
            assert(before =~= none);
            assert(join(names, seq!['/']) == last);
            assert(none + last =~= last);
            assert(seq!['/'] + none =~= seq!['/']);
            assert(drive + seq!['/'] + none =~= drive + seq!['/']);
        } else {
            joined_names_end_in_a_name(shorter);
            let whole = join(names, seq!['/']);
            assert(whole == before + seq!['/'] + last);
            assert(before.push('/') + last =~= whole);
            let (a, b) = (seq!['/'] + before, drive + seq!['/'] + before);
            assert(a.last() == before.last() && b.last() == before.last());
            assert(a.push('/') + last =~= seq!['/'] + whole);
            assert(b.push('/') + last =~= drive + seq!['/'] + whole);
        }
    }
}

proof fn joined_names_end_in_a_name(names: Seq<Seq<char>>)
    requires
        names.len() > 0,
        forall|i: int| 0 <= i < names.len() ==> is_name(#[trigger] names[i]),
    ensures
        join(names, seq!['/']).len() > 0,
        join(names, seq!['/']).last() != '/',
{
    let last = names[names.len() - 1];
    assert(is_name(last));
    assert(last[last.len() - 1] != '/');
    assert(join(names, seq!['/']).last() == last[last.len() - 1]);
}

/// A path that starts with a letter and a colon starts with a drive; a drive is the
/// root of what lies on it, and a name of that form is none further on.
pub proof fn drives_stand_at_the_start(letter: char, name: Seq<char>)
    requires
        'a' <= letter <= 'z' || 'A' <= letter <= 'Z',
        name.len() > 0,
        forall|i: int| 0 <= i < name.len() ==> #[trigger] name[i] != '/',
        name != seq!['.'],
        name != seq!['.', '.'],
    ensures
        path_parts(seq![letter, ':'] + seq!['/'] + name) == seq![
            PartModel::Prefix(seq![letter, ':']),
            PartModel::Normal(name),
        ],
        path_parts(name + seq!['/'] + seq![letter, ':']).last() == PartModel::Normal(
            seq![letter, ':'],
        ),
{
    let slash = |c: char| c == '/';
    let drive = seq![letter, ':'];
    assert(drive[0] == letter && drive[1] == ':');
    position_bounds(drive, slash, 0);
    assert(position(drive, slash, 0) == 2);
    assert(split(drive, slash) =~= seq![drive]);
    let pieces = seq![drive];
    assert(pieces.drop_last() =~= Seq::empty());
    assert(parts_of(pieces.drop_last()) =~= Seq::empty());
    assert(parts_of(pieces) =~= seq![PartModel::Prefix(drive)]);
    assert(path_parts(drive) =~= seq![PartModel::Prefix(drive)]);
    names_and_double_dots_are_parts(drive, name);
    assert(seq![PartModel::Prefix(drive)].push(PartModel::Normal(name)) =~= seq![
        PartModel::Prefix(drive),
        PartModel::Normal(name),
    ]);
    assert(drive != seq!['.'] && drive != seq!['.', '.']) by {
        assert(seq!['.'].len() == 1);
        assert(seq!['.', '.'][1] == '.');
    }
    names_and_double_dots_are_parts(name, drive);
}

} // verus!
