//! Paths as sequences of bytes or characters: their components, and the rules
//! that keep a relative path inside its root.

use vstd::prelude::*;
use vstd::slice::{slice_subrange, slice_to_vec};

verus! {

// ---------------------------------------------------------------------------
// Components
// ---------------------------------------------------------------------------

/// What a path is made of.
pub trait PathUnit: Copy {
    /// The separator.
    spec fn slash(self) -> bool;

    /// The dot of `.` and `..`.
    spec fn dot(self) -> bool;

    /// Tests for the separator.
    fn is_slash(self) -> (b: bool)
        ensures
            b == self.slash(),
    ;

    /// Tests for the dot.
    fn is_dot(self) -> (b: bool)
        ensures
            b == self.dot(),
    ;
}

impl PathUnit for u8 {
    open spec fn slash(self) -> bool {
        self == 47
    }

    open spec fn dot(self) -> bool {
        self == 46
    }

    fn is_slash(self) -> (b: bool) {
        self == 47
    }

    fn is_dot(self) -> (b: bool) {
        self == 46
    }
}

impl PathUnit for char {
    open spec fn slash(self) -> bool {
        self == '/'
    }

    open spec fn dot(self) -> bool {
        self == '.'
    }

    fn is_slash(self) -> (b: bool) {
        self == '/'
    }

    fn is_dot(self) -> (b: bool) {
        self == '.'
    }
}

/// The first separator from `i` on, or the end.
pub open spec fn slash_from<T: PathUnit>(s: Seq<T>, i: int) -> int
    decreases s.len() - i,
{
    if i < 0 || i >= s.len() {
        s.len() as int
    } else if s[i].slash() {
        i
    } else {
        slash_from(s, i + 1)
    }
}

/// The piece from `i` to `j` is a component: not empty, and not a dot behind
/// the start of the path.
pub open spec fn is_component<T: PathUnit>(s: Seq<T>, i: int, j: int) -> bool {
    i < j && !(0 < i && j == i + 1 && s[i].dot())
}

/// The ranges of the components from position `i` on, where a piece starts.
pub open spec fn spans_from<T: PathUnit>(s: Seq<T>, i: int) -> Seq<(int, int)>
    decreases s.len() - i,
{
    let j = slash_from(s, i);
    let here: Seq<(int, int)> = if is_component(s, i, j) {
        seq![(i, j)]
    } else {
        Seq::empty()
    };
    if i <= j < s.len() {
        here + spans_from(s, j + 1)
    } else {
        here
    }
}

/// The path starts at the root.
pub open spec fn has_root<T: PathUnit>(s: Seq<T>) -> bool {
    s.len() > 0 && s[0].slash()
}

/// The ranges of the components of a path: the root where it starts there,
/// then the pieces between separators, without empty pieces and without dots
/// other than one at the very start.
pub open spec fn component_spans<T: PathUnit>(s: Seq<T>) -> Seq<(int, int)> {
    if has_root(s) {
        seq![(0int, 1int)] + spans_from(s, 0)
    } else {
        spans_from(s, 0)
    }
}

/// The ranges as numbers.
pub open spec fn span_views(v: Seq<(usize, usize)>) -> Seq<(int, int)> {
    Seq::new(v.len(), |i: int| (v[i].0 as int, v[i].1 as int))
}

proof fn lemma_slash_from<T: PathUnit>(s: Seq<T>, i: int)
    requires
        0 <= i <= s.len(),
    ensures
        i <= slash_from(s, i) <= s.len(),
        forall|k: int| i <= k < slash_from(s, i) ==> !(#[trigger] s[k]).slash(),
        slash_from(s, i) < s.len() ==> s[slash_from(s, i)].slash(),
    decreases s.len() - i,
{
    if i < s.len() && !s[i].slash() {
        lemma_slash_from(s, i + 1);
    }
}

/// The ranges of the components of a path.
pub fn components<T: PathUnit>(s: &[T]) -> (spans: Vec<(usize, usize)>)
    ensures
        span_views(spans@) == component_spans(s@),
        forall|k: int|
            0 <= k < spans@.len() ==> (#[trigger] spans@[k]).0 < spans@[k].1 <= s@.len(),
{
    let mut spans: Vec<(usize, usize)> = Vec::new();
    if s.len() > 0 && s[0].is_slash() {
        spans.push((0, 1));
    }
    let mut i: usize = 0;
    let mut done: bool = false;
    assert(span_views(spans@) + spans_from(s@, 0) =~= component_spans(s@));
    while !done
        invariant
            i <= s@.len(),
            !done ==> span_views(spans@) + spans_from(s@, i as int) == component_spans(s@),
            done ==> span_views(spans@) == component_spans(s@),
            forall|k: int|
                0 <= k < spans@.len() ==> (#[trigger] spans@[k]).0 < spans@[k].1 <= s@.len(),
        decreases s@.len() - i, (if done {
                0int
            } else {
                1int
            }),
    {
        let mut j: usize = i;
        while j < s.len() && !s[j].is_slash()
            invariant
                i <= j <= s@.len(),
                slash_from(s@, i as int) == slash_from(s@, j as int),
            decreases s@.len() - j,
        {
            j = j + 1;
        }
        assert(j == slash_from(s@, i as int));
        let ghost before = span_views(spans@);
        let ghost rest: Seq<(int, int)> = if j < s@.len() {
            spans_from(s@, j + 1)
        } else {
            Seq::empty()
        };
        if i < j && !(0 < i && j == i + 1 && s[i].is_dot()) {
            spans.push((i, j));
            assert(span_views(spans@) + rest =~= before + (seq![(i as int, j as int)] + rest));
            assert(seq![(i as int, j as int)] + rest =~= spans_from(s@, i as int));
        } else {
            assert(span_views(spans@) + rest =~= before + (Seq::empty() + rest));
            assert(Seq::empty() + rest =~= spans_from(s@, i as int));
        }
        if j < s.len() {
            i = j + 1;
        } else {
            assert(span_views(spans@) + rest =~= span_views(spans@));
            done = true;
        }
    }
    spans
}

// ---------------------------------------------------------------------------
// Relative paths
// ---------------------------------------------------------------------------

/// Why a path is refused.
#[derive(Debug, Clone, Copy, PartialEq, Eq, Structural)]
pub enum PathError {
    /// The path starts at the root.
    Absolute,
    /// The path has a component `..`.
    ParentDir,
    /// A directory on the way to the path is a symbolic link.
    SymlinkedAncestor,
}

/// The text of a component.
pub open spec fn span_text<T>(s: Seq<T>, span: (int, int)) -> Seq<T> {
    s.subrange(span.0, span.1)
}

/// The component `.`.
pub open spec fn is_cur_dir(name: Seq<u8>) -> bool {
    name.len() == 1 && name[0] == 46
}

/// The component `..`.
pub open spec fn is_parent_dir(name: Seq<u8>) -> bool {
    name.len() == 2 && name[0] == 46 && name[1] == 46
}

/// The texts of the components in a list of ranges, those that are `.` left
/// out.
pub open spec fn names_in(s: Seq<u8>, spans: Seq<(int, int)>) -> Seq<Seq<u8>>
    decreases spans.len(),
{
    if spans.len() == 0 {
        Seq::empty()
    } else if is_cur_dir(span_text(s, spans.last())) {
        names_in(s, spans.drop_last())
    } else {
        names_in(s, spans.drop_last()).push(span_text(s, spans.last()))
    }
}

/// The names on the path, in order.
pub open spec fn names(s: Seq<u8>) -> Seq<Seq<u8>> {
    names_in(s, component_spans(s))
}

/// The names with a separator between them.
pub open spec fn joined(list: Seq<Seq<u8>>) -> Seq<u8>
    decreases list.len(),
{
    if list.len() == 0 {
        Seq::empty()
    } else if list.len() == 1 {
        list[0]
    } else {
        joined(list.drop_last()).push(47) + list.last()
    }
}

/// Some component is `..`.
pub open spec fn climbs(s: Seq<u8>) -> bool {
    exists|i: int|
        0 <= i < names(s).len() && is_parent_dir(#[trigger] names(s)[i])
}

/// A relative path without `.` components and doubled separators; no path that
/// starts at the root or has a component `..`.
pub open spec fn clean(rel: Seq<u8>) -> Result<Seq<u8>, PathError> {
    if has_root(rel) {
        Err(PathError::Absolute)
    } else if climbs(rel) {
        Err(PathError::ParentDir)
    } else {
        Ok(joined(names(rel)))
    }
}

/// `tail` below `base`.
pub open spec fn below(base: Seq<u8>, tail: Seq<u8>) -> Seq<u8> {
    if base.len() == 0 || base.last() == 47 {
        base + tail
    } else {
        base.push(47) + tail
    }
}

/// The contents of a list of byte strings.
pub open spec fn byte_strings(list: Seq<Vec<u8>>) -> Seq<Seq<u8>> {
    Seq::new(list.len(), |i: int| list[i]@)
}

/// Tests for the component `.`.
fn cur_dir(name: &[u8]) -> (b: bool)
    ensures
        b == is_cur_dir(name@),
{
    name.len() == 1 && name[0] == 46
}

/// Tests for the component `..`.
fn parent_dir(name: &[u8]) -> (b: bool)
    ensures
        b == is_parent_dir(name@),
{
    name.len() == 2 && name[0] == 46 && name[1] == 46
}

/// The names on a path, in order.
fn name_list(s: &[u8]) -> (list: Vec<Vec<u8>>)
    ensures
        byte_strings(list@) == names(s@),
{
    let spans = components(s);
    let ghost views = span_views(spans@);
    let mut list: Vec<Vec<u8>> = Vec::new();
    let mut i: usize = 0;
    assert(views.take(0) =~= Seq::empty());
    assert(byte_strings(list@) =~= names_in(s@, views.take(0)));
    while i < spans.len()
        invariant
            i <= spans@.len(),
            views == span_views(spans@),
            forall|k: int|
                0 <= k < spans@.len() ==> (#[trigger] spans@[k]).0 < spans@[k].1 <= s@.len(),
            byte_strings(list@) == names_in(s@, views.take(i as int)),
        decreases spans@.len() - i,
    {
        let name = slice_subrange(s, spans[i].0, spans[i].1);
        assert(views.take(i + 1).drop_last() =~= views.take(i as int));
        assert(name@ == span_text(s@, views[i as int]));
        if !cur_dir(name) {
            let ghost before = byte_strings(list@);
            list.push(slice_to_vec(name));
            assert(byte_strings(list@) =~= before.push(name@));
        }
        i = i + 1;
    }
    assert(views.take(i as int) =~= views);
    list
}

/// The first `n` names with a separator between them.
fn join_names(list: &Vec<Vec<u8>>, n: usize) -> (out: Vec<u8>)
    requires
        n <= list@.len(),
    ensures
        out@ == joined(byte_strings(list@).take(n as int)),
{
    let ghost views = byte_strings(list@);
    let mut out: Vec<u8> = Vec::new();
    let mut i: usize = 0;
    assert(views.take(0) =~= Seq::empty());
    while i < n
        invariant
            i <= n <= list@.len(),
            views == byte_strings(list@),
            out@ == joined(views.take(i as int)),
        decreases n - i,
    {
        assert(views.take(i + 1).drop_last() =~= views.take(i as int));
        if i > 0 {
            out.push(47);
        }
        out.extend_from_slice(list[i].as_slice());
        assert(out@ =~= joined(views.take(i + 1)));
        i = i + 1;
    }
    out
}

/// The cleaned path, or why it is refused.
pub fn clean_rel(rel: &[u8]) -> (r: Result<Vec<u8>, PathError>)
    ensures
        match r {
            Ok(path) => clean(rel@) == Ok::<Seq<u8>, PathError>(path@),
            Err(e) => clean(rel@) == Err::<Seq<u8>, PathError>(e),
        },
{
    match clean_names(rel) {
        Ok(list) => {
            let path: Vec<u8> = join_names(&list, list.len());
            assert(byte_strings(list@).take(list@.len() as int) =~= byte_strings(list@));
            Ok(path)
        },
        Err(e) => Err(e),
    }
}

/// The names of a relative path that may be used, or why it is refused.
fn clean_names(rel: &[u8]) -> (r: Result<Vec<Vec<u8>>, PathError>)
    ensures
        match r {
            Ok(list) => byte_strings(list@) == names(rel@) && clean(rel@) is Ok,
            Err(e) => clean(rel@) == Err::<Seq<u8>, PathError>(e),
        },
{
    if rel.len() > 0 && rel[0] == 47 {
        return Err(PathError::Absolute);
    }
    let list = name_list(rel);
    let mut i: usize = 0;
    while i < list.len()
        invariant
            i <= list@.len(),
            !has_root(rel@),
            byte_strings(list@) == names(rel@),
            forall|k: int| 0 <= k < i ==> !is_parent_dir(#[trigger] names(rel@)[k]),
        decreases list@.len() - i,
    {
        if parent_dir(list[i].as_slice()) {
            assert(is_parent_dir(names(rel@)[i as int]));
            return Err(PathError::ParentDir);
        }
        i = i + 1;
    }
    Ok(list)
}

/// `tail` below `base`.
pub fn join_path(base: &[u8], tail: &[u8]) -> (path: Vec<u8>)
    ensures
        path@ == below(base@, tail@),
{
    let mut path: Vec<u8> = slice_to_vec(base);
    if base.len() > 0 && base[base.len() - 1] != 47 {
        path.push(47);
    }
    path.extend_from_slice(tail);
    assert(path@ =~= below(base@, tail@));
    path
}

/// The texts of the ranges.
pub open spec fn span_texts(s: Seq<u8>, spans: Seq<(int, int)>) -> Seq<Seq<u8>> {
    Seq::new(spans.len(), |i: int| span_text(s, spans[i]))
}

/// The texts of the components of a path, the root among them.
pub open spec fn parts(s: Seq<u8>) -> Seq<Seq<u8>> {
    span_texts(s, component_spans(s))
}

/// The path is the other one, or a directory on the way to it.
pub open spec fn leads_to(path: Seq<u8>, other: Seq<u8>) -> bool {
    parts(path).is_prefix_of(parts(other))
}

/// Components with one separator between them, from the root on or not.
pub open spec fn form_of(rooted: bool, list: Seq<Seq<u8>>) -> Seq<u8> {
    if rooted {
        seq![47u8] + joined(list)
    } else {
        joined(list)
    }
}

/// A path in normal form: its components with one separator between them.
pub open spec fn normal(s: Seq<u8>) -> Seq<u8> {
    form_of(has_root(s), span_texts(s, spans_from(s, 0)))
}

/// The first `n` components of a path, in normal form.
pub open spec fn leading(s: Seq<u8>, n: int) -> Seq<u8> {
    let list = span_texts(s, spans_from(s, 0));
    if !has_root(s) {
        form_of(false, list.take(n))
    } else if n == 0 {
        Seq::empty()
    } else {
        form_of(true, list.take(n - 1))
    }
}

/// The path without its last component. There is none for the root and for the
/// empty path.
pub open spec fn parent(s: Seq<u8>) -> Option<Seq<u8>> {
    let n = component_spans(s).len();
    if n == 0 || (n == 1 && has_root(s)) {
        None
    } else if n == 1 {
        Some(Seq::empty())
    } else {
        Some(s.take(component_spans(s)[n - 2].1))
    }
}

/// The last component of a path, where it is a name.
pub open spec fn last_name(s: Seq<u8>) -> Option<Seq<u8>> {
    let n = component_spans(s).len();
    if n == 0 || (n == 1 && has_root(s)) {
        None
    } else {
        let name = span_text(s, component_spans(s)[n - 1]);
        if is_cur_dir(name) || is_parent_dir(name) {
            None
        } else {
            Some(name)
        }
    }
}

/// The components of a path behind the root.
fn part_list(path: &[u8]) -> (list: Vec<Vec<u8>>)
    ensures
        byte_strings(list@) == span_texts(path@, spans_from(path@, 0)),
{
    let spans = components(path);
    let mut list: Vec<Vec<u8>> = Vec::new();
    let mut i: usize = if path.len() > 0 && path[0] == 47 {
        1
    } else {
        0
    };
    let ghost first = i as int;
    let ghost views = span_views(spans@);
    let ghost wanted = span_texts(path@, spans_from(path@, 0));
    assert(views.skip(first) =~= spans_from(path@, 0));
    assert(byte_strings(list@) =~= wanted.take(0));
    while i < spans.len()
        invariant
            first <= i <= spans@.len(),
            0 <= first,
            views == span_views(spans@),
            views.skip(first) == spans_from(path@, 0),
            wanted == span_texts(path@, spans_from(path@, 0)),
            forall|k: int|
                0 <= k < spans@.len() ==> (#[trigger] spans@[k]).0 < spans@[k].1 <= path@.len(),
            byte_strings(list@) == wanted.take(i - first),
        decreases spans@.len() - i,
    {
        let ghost before = byte_strings(list@);
        let name = slice_subrange(path, spans[i].0, spans[i].1);
        list.push(slice_to_vec(name));
        proof {
            assert(views.skip(first)[i - first] == views[i as int]);
            assert(name@ == wanted[i - first]);
            assert(byte_strings(list@) =~= before.push(name@));
            assert(wanted.take(i + 1 - first) =~= wanted.take(i - first).push(wanted[i - first]));
        }
        i = i + 1;
    }
    assert(wanted.take(i - first) =~= wanted);
    list
}

/// The first `n` of the components with one separator between them, from the
/// root on or not.
fn join_form(rooted: bool, list: &Vec<Vec<u8>>, n: usize) -> (form: Vec<u8>)
    requires
        n <= list@.len(),
    ensures
        form@ == form_of(rooted, byte_strings(list@).take(n as int)),
{
    let mut form: Vec<u8> = Vec::new();
    if rooted {
        form.push(47);
    }
    let rest = join_names(list, n);
    form.extend_from_slice(rest.as_slice());
    assert(form@ =~= form_of(rooted, byte_strings(list@).take(n as int)));
    form
}

/// The path in normal form.
pub fn normal_path(path: &[u8]) -> (form: Vec<u8>)
    ensures
        form@ == normal(path@),
{
    let list = part_list(path);
    assert(byte_strings(list@).take(list@.len() as int) =~= byte_strings(list@));
    join_form(path.len() > 0 && path[0] == 47, &list, list.len())
}

/// The first `n` components of a path, in normal form.
pub fn leading_path(path: &[u8], n: usize) -> (form: Vec<u8>)
    requires
        n <= parts(path@).len(),
    ensures
        form@ == leading(path@, n as int),
{
    let list = part_list(path);
    proof {
        lemma_parts(path@);
        assert(byte_strings(list@).len() == list@.len());
    }
    if path.len() == 0 || path[0] != 47 {
        join_form(false, &list, n)
    } else if n == 0 {
        Vec::new()
    } else {
        join_form(true, &list, n - 1)
    }
}

/// The path without its last component.
pub fn parent_path(path: &[u8]) -> (up: Option<Vec<u8>>)
    ensures
        match up {
            Some(p) => parent(path@) == Some(p@),
            None => parent(path@) is None,
        },
{
    let spans = components(path);
    assert(component_spans(path@).len() == spans@.len());
    let n: usize = spans.len();
    if n == 0 || (n == 1 && path.len() > 0 && path[0] == 47) {
        return None;
    }
    let end: usize = if n == 1 {
        0
    } else {
        assert(span_views(spans@)[n - 2] == component_spans(path@)[n - 2]);
        spans[n - 2].1
    };
    let up = slice_to_vec(slice_subrange(path, 0, end));
    assert(n == 1 ==> up@ =~= Seq::empty());
    assert(up@ =~= path@.take(end as int));
    Some(up)
}

/// The last component of a path, where it is a name.
pub fn file_name(path: &[u8]) -> (name: Option<Vec<u8>>)
    ensures
        match name {
            Some(n) => last_name(path@) == Some(n@),
            None => last_name(path@) is None,
        },
{
    let spans = components(path);
    assert(component_spans(path@).len() == spans@.len());
    let n: usize = spans.len();
    if n == 0 || (n == 1 && path.len() > 0 && path[0] == 47) {
        return None;
    }
    assert(span_views(spans@)[n - 1] == component_spans(path@)[n - 1]);
    let name = slice_subrange(path, spans[n - 1].0, spans[n - 1].1);
    if cur_dir(name) || parent_dir(name) {
        return None;
    }
    Some(slice_to_vec(name))
}

// ---------------------------------------------------------------------------
// Symbolic links on the way
// ---------------------------------------------------------------------------

/// What was found where a directory on the way to a path should be.
#[derive(Debug, Clone, Copy, PartialEq, Eq, Structural)]
pub enum Probe {
    /// A symbolic link.
    Symlink,
    /// Something else.
    Present,
    /// Nothing.
    Missing,
}

/// How a walk along the first `count` directories of a path stands.
pub enum Walk {
    /// Nothing more needs to be looked at.
    Clear,
    /// The directory with this number has to be looked at next.
    Next(int),
    /// The directory with this number is a symbolic link.
    Symlink(int),
}

/// The walk from the directory number `i` on, with what was found so far: it
/// ends at the first symbolic link, or where nothing exists any more.
pub open spec fn walk_from(probes: Seq<Probe>, count: int, i: int) -> Walk
    decreases count - i,
{
    if i >= count {
        Walk::Clear
    } else if i < 0 || i >= probes.len() {
        Walk::Next(i)
    } else {
        match probes[i] {
            Probe::Symlink => Walk::Symlink(i),
            Probe::Present => walk_from(probes, count, i + 1),
            Probe::Missing => Walk::Clear,
        }
    }
}

/// The directory number `i` on the way to `rel` below `base`.
pub open spec fn ancestor(base: Seq<u8>, rel: Seq<u8>, i: int) -> Seq<u8> {
    below(base, joined(names(rel).take(i + 1)))
}

/// Walks along the first `count` of the names. Gives the next directory to
/// look at, or nothing when the way is clear.
fn walk_names(
    base: &[u8],
    list: &Vec<Vec<u8>>,
    count: usize,
    probes: &[Probe],
) -> (r: Result<Option<Vec<u8>>, PathError>)
    requires
        count <= list@.len(),
    ensures
        match walk_from(probes@, count as int, 0) {
            Walk::Clear => r == Ok::<Option<Vec<u8>>, PathError>(None),
            Walk::Next(i) => r matches Ok(Some(path)) && 0 <= i < count && path@ == below(
                base@,
                joined(byte_strings(list@).take(i + 1)),
            ),
            Walk::Symlink(_) => r == Err::<Option<Vec<u8>>, PathError>(
                PathError::SymlinkedAncestor,
            ),
        },
{
    let mut i: usize = 0;
    while i < count
        invariant
            i <= count <= list@.len(),
            walk_from(probes@, count as int, 0) == walk_from(probes@, count as int, i as int),
        decreases count - i,
    {
        if i >= probes.len() {
            let part: Vec<u8> = join_names(list, i + 1);
            return Ok(Some(join_path(base, part.as_slice())));
        }
        match probes[i] {
            Probe::Symlink => {
                return Err(PathError::SymlinkedAncestor);
            },
            Probe::Present => {},
            Probe::Missing => {
                return Ok(None);
            },
        }
        i = i + 1;
    }
    Ok(None)
}

/// What to do next to confine a path: look at a directory, or use the path.
#[derive(Debug, PartialEq, Eq)]
pub enum Confine {
    /// Find out what stands at this path.
    Probe(Vec<u8>),
    /// The confined path.
    Path(Vec<u8>),
}

/// Confines `rel` within `base`: refuses a path that leaves it, or that has a
/// symbolic link among its ancestors below `base`. `probes` tells what was
/// found at the ancestors looked at so far, from the outermost on.
pub fn confine_path(base: &[u8], rel: &[u8], probes: &[Probe]) -> (r: Result<Confine, PathError>)
    ensures
        match clean(rel@) {
            Err(e) => r == Err::<Confine, PathError>(e),
            Ok(path) => match walk_from(probes@, names(rel@).len() - 1, 0) {
                Walk::Clear => r matches Ok(Confine::Path(p)) && p@ == below(base@, path),
                Walk::Next(i) => r matches Ok(Confine::Probe(p)) && p@ == ancestor(base@, rel@, i),
                Walk::Symlink(_) => r == Err::<Confine, PathError>(PathError::SymlinkedAncestor),
            },
        },
{
    let list = match clean_names(rel) {
        Ok(list) => list,
        Err(e) => {
            return Err(e);
        },
    };
    if list.len() > 0 {
        let count: usize = list.len() - 1;
        match walk_names(base, &list, count, probes) {
            Ok(Some(p)) => {
                return Ok(Confine::Probe(p));
            },
            Ok(None) => {},
            Err(e) => {
                return Err(e);
            },
        }
    }
    let path: Vec<u8> = join_names(&list, list.len());
    assert(byte_strings(list@).take(list@.len() as int) =~= byte_strings(list@));
    Ok(Confine::Path(join_path(base, path.as_slice())))
}

/// Checks that no directory on the way to `rel` below `base`, itself among
/// them, is a symbolic link. Gives the next path to look at, or nothing when
/// the check is done; `probes` is as for `confine_path`.
pub fn validate_parent(base: &[u8], rel: &[u8], probes: &[Probe]) -> (r: Result<
    Option<Vec<u8>>,
    PathError,
>)
    ensures
        match clean(rel@) {
            Err(e) => r == Err::<Option<Vec<u8>>, PathError>(e),
            Ok(_) => match walk_from(probes@, names(rel@).len() as int, 0) {
                Walk::Clear => r == Ok::<Option<Vec<u8>>, PathError>(None),
                Walk::Next(i) => r matches Ok(Some(p)) && p@ == ancestor(base@, rel@, i),
                Walk::Symlink(_) => r == Err::<Option<Vec<u8>>, PathError>(
                    PathError::SymlinkedAncestor,
                ),
            },
        },
{
    match clean_names(rel) {
        Ok(list) => walk_names(base, &list, list.len(), probes),
        Err(e) => Err(e),
    }
}

/// How far below its start the first components lead; nothing once they have
/// led above it.
pub open spec fn depth(s: Seq<u8>, spans: Seq<(int, int)>) -> Option<nat>
    decreases spans.len(),
{
    if spans.len() == 0 {
        Some(0)
    } else {
        let name = span_text(s, spans.last());
        match depth(s, spans.drop_last()) {
            None => None,
            Some(d) => if is_parent_dir(name) {
                if d == 0 {
                    None
                } else {
                    Some((d - 1) as nat)
                }
            } else if is_cur_dir(name) {
                Some(d)
            } else {
                Some(d + 1)
            },
        }
    }
}

/// The target of a link is relative and never leads above where it starts.
pub open spec fn stays_inside(target: Seq<u8>) -> bool {
    !has_root(target) && depth(target, component_spans(target)) is Some
}

/// Tests whether a link may have this target.
pub fn safe_symlink_target(target: &[u8]) -> (safe: bool)
    ensures
        safe == stays_inside(target@),
{
    if target.len() > 0 && target[0] == 47 {
        return false;
    }
    let spans = components(target);
    let ghost views = span_views(spans@);
    let mut level: usize = 0;
    let mut i: usize = 0;
    assert(views.take(0) =~= Seq::empty());
    while i < spans.len()
        invariant
            level <= i <= spans@.len(),
            views == span_views(spans@),
            views == component_spans(target@),
            forall|k: int|
                0 <= k < spans@.len() ==> (#[trigger] spans@[k]).0 < spans@[k].1 <= target@.len(),
            depth(target@, views.take(i as int)) == Some(level as nat),
        decreases spans@.len() - i,
    {
        let name = slice_subrange(target, spans[i].0, spans[i].1);
        assert(views.take(i + 1).drop_last() =~= views.take(i as int));
        assert(name@ == span_text(target@, views[i as int]));
        if parent_dir(name) {
            if level == 0 {
                proof {
                    lemma_depth_none(target@, views, i + 1);
                }
                return false;
            }
            level = level - 1;
        } else if !cur_dir(name) {
            level = level + 1;
        }
        i = i + 1;
    }
    assert(views.take(i as int) =~= views);
    true
}

// ---------------------------------------------------------------------------
// Laws
// ---------------------------------------------------------------------------

/// Names as a clean path has them: not empty, neither `.` nor `..`, no
/// separator inside.
pub open spec fn plain_names(list: Seq<Seq<u8>>) -> bool {
    forall|i: int|
        0 <= i < list.len() ==> {
            &&& (#[trigger] list[i]).len() > 0
            &&& !is_cur_dir(list[i])
            &&& !is_parent_dir(list[i])
            &&& !list[i].contains(47)
        }
}

proof fn lemma_names_concat(s: Seq<u8>, a: Seq<(int, int)>, b: Seq<(int, int)>)
    ensures
        names_in(s, a + b) == names_in(s, a) + names_in(s, b),
    decreases b.len(),
{
    if b.len() == 0 {
        assert(a + b =~= a);
        assert(names_in(s, a) + names_in(s, b) =~= names_in(s, a));
    } else {
        assert((a + b).drop_last() =~= a + b.drop_last());
        lemma_names_concat(s, a, b.drop_last());
        assert(names_in(s, a + b) =~= names_in(s, a) + names_in(s, b));
    }
}

proof fn lemma_names_one(s: Seq<u8>, span: (int, int))
    ensures
        names_in(s, seq![span]) == if is_cur_dir(span_text(s, span)) {
            Seq::<Seq<u8>>::empty()
        } else {
            seq![span_text(s, span)]
        },
{
    reveal_with_fuel(names_in, 2);
    assert(seq![span].drop_last() =~= Seq::empty());
    assert(Seq::<Seq<u8>>::empty().push(span_text(s, span)) =~= seq![span_text(s, span)]);
}

proof fn lemma_joined_front(first: Seq<u8>, rest: Seq<Seq<u8>>)
    requires
        rest.len() > 0,
    ensures
        joined(seq![first] + rest) == first.push(47) + joined(rest),
    decreases rest.len(),
{
    reveal_with_fuel(joined, 2);
    let all = seq![first] + rest;
    assert(all.last() == rest.last());
    assert(all.drop_last() =~= seq![first] + rest.drop_last());
    if rest.len() == 1 {
        assert(all.drop_last() =~= seq![first]);
    } else {
        lemma_joined_front(first, rest.drop_last());
    }
    assert(joined(all) =~= first.push(47) + joined(rest));
}

proof fn lemma_slash_at(s: Seq<u8>, i: int, j: int)
    requires
        0 <= i <= j <= s.len(),
        forall|k: int| i <= k < j ==> s[k] != 47,
        j < s.len() ==> s[j] == 47,
    ensures
        slash_from(s, i) == j,
    decreases j - i,
{
    if i < j {
        lemma_slash_at(s, i + 1, j);
    }
}

/// The names that were joined are the names of the path.
proof fn lemma_names_of_joined(s: Seq<u8>, i: int, list: Seq<Seq<u8>>)
    requires
        0 <= i <= s.len(),
        s.skip(i) == joined(list),
        plain_names(list),
    ensures
        names_in(s, spans_from(s, i)) == list,
    decreases list.len(),
{
    let none = Seq::<(int, int)>::empty();
    assert(names_in(s, none) =~= Seq::<Seq<u8>>::empty());
    if list.len() == 0 {
        assert(s.skip(i).len() == s.len() - i);
        lemma_slash_at(s, i, s.len() as int);
        assert(spans_from(s, i) =~= none);
        assert(list =~= Seq::empty());
    } else {
        let first = list[0];
        let rest = list.drop_first();
        let j = i + first.len();
        assert(list =~= seq![first] + rest);
        assert(first.len() > 0 && !first.contains(47) && !is_cur_dir(first));
        if rest.len() > 0 {
            lemma_joined_front(first, rest);
        }
        assert(s.skip(i).len() == s.len() - i);
        assert forall|k: int| i <= k < j implies s[k] == first[k - i] && s[k] != 47 by {
            assert(s.skip(i)[k - i] == s[k]);
            assert(first.contains(first[k - i]));
        }
        if rest.len() > 0 {
            assert(s.skip(i)[first.len() as int] == 47);
            assert(s[j] == 47);
        }
        lemma_slash_at(s, i, j);
        assert(span_text(s, (i, j)) =~= first);
        lemma_names_one(s, (i, j));
        if s[i] == 46 && j == i + 1 {
            assert(first[0] == 46);
        }
        if rest.len() > 0 {
            assert(s.skip(j + 1) =~= joined(rest)) by {
                assert(s.skip(j + 1) =~= s.skip(i).skip((first.len() + 1) as int));
                assert((first.push(47) + joined(rest)).skip((first.len() + 1) as int) =~= joined(rest));
            }
            assert forall|k: int| 0 <= k < rest.len() implies (#[trigger] rest[k]) == list[k + 1] by {
            }
            lemma_names_of_joined(s, j + 1, rest);
            lemma_names_concat(s, seq![(i, j)], spans_from(s, j + 1));
        } else {
            assert(spans_from(s, i) =~= seq![(i, j)]);
        }
    }
}

/// The names on a relative path are not empty, are not `.` and hold no
/// separator.
proof fn lemma_names_plain(s: Seq<u8>, i: int)
    requires
        0 <= i <= s.len(),
    ensures
        forall|k: int|
            0 <= k < names_in(s, spans_from(s, i)).len() ==> {
                let name = #[trigger] names_in(s, spans_from(s, i))[k];
                name.len() > 0 && !is_cur_dir(name) && !name.contains(47)
            },
    decreases s.len() - i,
{
    lemma_slash_from(s, i);
    let j = slash_from(s, i);
    let here: Seq<(int, int)> = if is_component(s, i, j) {
        seq![(i, j)]
    } else {
        Seq::empty()
    };
    let rest = if j < s.len() {
        spans_from(s, j + 1)
    } else {
        Seq::empty()
    };
    assert(spans_from(s, i) =~= here + rest);
    lemma_names_concat(s, here, rest);
    lemma_names_one(s, (i, j));
    assert(names_in(s, Seq::<(int, int)>::empty()) =~= Seq::<Seq<u8>>::empty());
    let text = span_text(s, (i, j));
    assert(!text.contains(47)) by {
        if text.contains(47) {
            let k = choose|k: int| 0 <= k < text.len() && text[k] == 47;
            assert(s[i + k].slash());
        }
    }
    if j < s.len() {
        lemma_names_plain(s, j + 1);
    }
}

/// A cleaned path is relative, has the names of the path it came from and none
/// that is `.` or `..`, and stays as it is when it is cleaned again.
pub proof fn law_clean_is_clean(rel: Seq<u8>)
    requires
        clean(rel) is Ok,
    ensures
        !has_root(clean(rel)->Ok_0),
        names(clean(rel)->Ok_0) == names(rel),
        plain_names(names(rel)),
        clean(clean(rel)->Ok_0) == clean(rel),
{
    let list = names(rel);
    let path = joined(list);
    lemma_names_plain(rel, 0);
    assert(plain_names(list));
    if list.len() > 0 {
        let rest = list.drop_first();
        assert(list =~= seq![list[0]] + rest);
        if rest.len() > 0 {
            lemma_joined_front(list[0], rest);
        }
        assert(path[0] == list[0][0]);
        assert(list[0].contains(list[0][0]));
    }
    assert(path.skip(0) =~= path);
    lemma_names_of_joined(path, 0, list);
    assert(names(path) == list);
}

/// The texts are components as a path has them from position `i` on: not empty,
/// without a separator, and none of them `.` but for one at the very start.
pub open spec fn component_texts(list: Seq<Seq<u8>>, i: int) -> bool {
    forall|k: int|
        0 <= k < list.len() ==> {
            &&& (#[trigger] list[k]).len() > 0
            &&& !list[k].contains(47)
            &&& is_cur_dir(list[k]) ==> i == 0 && k == 0
        }
}

proof fn lemma_texts_split(s: Seq<u8>, a: Seq<(int, int)>, b: Seq<(int, int)>)
    ensures
        span_texts(s, a + b) == span_texts(s, a) + span_texts(s, b),
{
    assert(span_texts(s, a + b) =~= span_texts(s, a) + span_texts(s, b));
}

/// The components of a path are such texts.
proof fn lemma_component_texts(s: Seq<u8>, i: int)
    requires
        0 <= i <= s.len(),
    ensures
        component_texts(span_texts(s, spans_from(s, i)), i),
    decreases s.len() - i,
{
    lemma_slash_from(s, i);
    let j = slash_from(s, i);
    let here: Seq<(int, int)> = if is_component(s, i, j) {
        seq![(i, j)]
    } else {
        Seq::empty()
    };
    let rest = if j < s.len() {
        spans_from(s, j + 1)
    } else {
        Seq::empty()
    };
    assert(spans_from(s, i) =~= here + rest);
    lemma_texts_split(s, here, rest);
    let text = span_text(s, (i, j));
    assert(!text.contains(47)) by {
        if text.contains(47) {
            let k = choose|k: int| 0 <= k < text.len() && text[k] == 47;
            assert(s[i + k].slash());
        }
    }
    if j < s.len() {
        lemma_component_texts(s, j + 1);
    }
    let all = span_texts(s, spans_from(s, i));
    let behind = span_texts(s, rest);
    assert forall|k: int| 0 <= k < all.len() implies {
        &&& (#[trigger] all[k]).len() > 0
        &&& !all[k].contains(47)
        &&& is_cur_dir(all[k]) ==> i == 0 && k == 0
    } by {
        if k < here.len() {
            assert(all[k] == text);
        } else {
            assert(all[k] == behind[k - here.len()]);
        }
    }
}

/// The texts that were joined are the components of the path.
proof fn lemma_texts_of_joined(s: Seq<u8>, i: int, list: Seq<Seq<u8>>)
    requires
        0 <= i <= s.len(),
        s.skip(i) == joined(list),
        component_texts(list, i),
    ensures
        span_texts(s, spans_from(s, i)) == list,
    decreases list.len(),
{
    assert(s.skip(i).len() == s.len() - i);
    if list.len() == 0 {
        lemma_slash_at(s, i, s.len() as int);
        assert(spans_from(s, i) =~= Seq::empty());
        assert(span_texts(s, spans_from(s, i)) =~= list);
    } else {
        let first = list[0];
        let rest = list.drop_first();
        let j = i + first.len();
        assert(list =~= seq![first] + rest);
        if rest.len() > 0 {
            lemma_joined_front(first, rest);
        }
        assert forall|k: int| i <= k < j implies s[k] == first[k - i] && s[k] != 47 by {
            assert(s.skip(i)[k - i] == s[k]);
            assert(first.contains(first[k - i]));
        }
        if rest.len() > 0 {
            assert(s.skip(i)[first.len() as int] == 47);
            assert(s[j] == 47);
        }
        lemma_slash_at(s, i, j);
        assert(span_text(s, (i, j)) =~= first);
        if s[i] == 46 && j == i + 1 {
            assert(first[0] == 46);
        }
        if rest.len() > 0 {
            assert(s.skip(j + 1) =~= joined(rest)) by {
                assert(s.skip(j + 1) =~= s.skip(i).skip((first.len() + 1) as int));
                assert((first.push(47) + joined(rest)).skip((first.len() + 1) as int) =~= joined(
                    rest,
                ));
            }
            assert forall|k: int| 0 <= k < rest.len() implies {
                &&& (#[trigger] rest[k]).len() > 0
                &&& !rest[k].contains(47)
                &&& is_cur_dir(rest[k]) ==> j + 1 == 0 && k == 0
            } by {
                assert(rest[k] == list[k + 1]);
            }
            lemma_texts_of_joined(s, j + 1, rest);
            lemma_texts_split(s, seq![(i, j)], spans_from(s, j + 1));
            assert(span_texts(s, seq![(i, j)]) =~= seq![first]);
        } else {
            assert(spans_from(s, i) =~= seq![(i, j)]);
            assert(span_texts(s, spans_from(s, i)) =~= list);
        }
    }
}

/// The components behind the root, of a path made of components.
proof fn lemma_form(rooted: bool, list: Seq<Seq<u8>>)
    requires
        component_texts(
            list,
            if rooted {
                1
            } else {
                0
            },
        ),
    ensures
        has_root(form_of(rooted, list)) == rooted,
        span_texts(form_of(rooted, list), spans_from(form_of(rooted, list), 0)) == list,
        normal(form_of(rooted, list)) == form_of(rooted, list),
{
    let form = form_of(rooted, list);
    if rooted {
        assert(form.skip(1) =~= joined(list));
        assert(form[0] == 47);
        lemma_texts_of_joined(form, 1, list);
        lemma_slash_at(form, 0, 0);
        assert(spans_from(form, 0) =~= spans_from(form, 1));
    } else {
        assert(form.skip(0) =~= form);
        lemma_texts_of_joined(form, 0, list);
        if list.len() > 0 {
            let more = list.drop_first();
            assert(list =~= seq![list[0]] + more);
            if more.len() > 0 {
                lemma_joined_front(list[0], more);
            }
            assert(form[0] == list[0][0]);
            assert(list[0].contains(list[0][0]));
        }
    }
}

/// The components of a path are such as a path can be made of.
proof fn lemma_own_texts(s: Seq<u8>)
    ensures
        component_texts(
            span_texts(s, spans_from(s, 0)),
            if has_root(s) {
                1
            } else {
                0
            },
        ),
{
    lemma_component_texts(s, 0);
    if has_root(s) {
        lemma_slash_at(s, 0, 0);
        assert(spans_from(s, 0) =~= spans_from(s, 1));
        lemma_component_texts(s, 1);
    }
}

/// The components are the root, where the path starts there, and those behind it,
/// none of which is a separator.
proof fn lemma_parts(s: Seq<u8>)
    ensures
        parts(s) == if has_root(s) {
            seq![seq![47u8]] + span_texts(s, spans_from(s, 0))
        } else {
            span_texts(s, spans_from(s, 0))
        },
        has_root(s) <==> parts(s).len() > 0 && parts(s)[0] == seq![47u8],
{
    let list = span_texts(s, spans_from(s, 0));
    if has_root(s) {
        lemma_texts_split(s, seq![(0int, 1int)], spans_from(s, 0));
        assert(span_text(s, (0int, 1int)) =~= seq![47u8]);
        assert(span_texts(s, seq![(0int, 1int)]) =~= seq![seq![47u8]]);
    } else if list.len() > 0 {
        lemma_component_texts(s, 0);
        assert(!list[0].contains(47));
        assert(seq![47u8][0] == 47u8);
    }
}

/// The first components of a path are those of the path that they make.
pub proof fn lemma_leading(s: Seq<u8>, n: int)
    requires
        0 <= n <= parts(s).len(),
    ensures
        parts(leading(s, n)) == parts(s).take(n),
        normal(leading(s, n)) == leading(s, n),
{
    let list = span_texts(s, spans_from(s, 0));
    let form = leading(s, n);
    lemma_parts(s);
    lemma_parts(form);
    lemma_own_texts(s);
    let taken = if has_root(s) {
        if n == 0 {
            Seq::empty()
        } else {
            list.take(n - 1)
        }
    } else {
        list.take(n)
    };
    let rooted = has_root(s) && n > 0;
    assert(form =~= form_of(rooted, taken));
    assert(forall|k: int| 0 <= k < taken.len() ==> #[trigger] taken[k] == list[k]);
    lemma_form(rooted, taken);
    assert(parts(form) =~= parts(s).take(n));
}

/// Two paths have the same normal form exactly where both start at the root, or
/// neither does, and their components are the same.
pub proof fn law_normal_form_tells_paths_apart(a: Seq<u8>, b: Seq<u8>)
    ensures
        normal(a) == normal(b) <==> has_root(a) == has_root(b) && span_texts(a, spans_from(a, 0))
            == span_texts(b, spans_from(b, 0)),
        normal(a) == normal(b) <==> parts(a) == parts(b),
        normal(normal(a)) == normal(a),
{
    lemma_own_texts(a);
    lemma_own_texts(b);
    lemma_form(has_root(a), span_texts(a, spans_from(a, 0)));
    lemma_form(has_root(b), span_texts(b, spans_from(b, 0)));
    lemma_parts(a);
    lemma_parts(b);
    if parts(a) == parts(b) {
        if has_root(a) {
            assert(span_texts(a, spans_from(a, 0)) =~= parts(a).skip(1));
            assert(span_texts(b, spans_from(b, 0)) =~= parts(b).skip(1));
        }
    }
}

/// What is put below a directory lies below it: its path starts with that of the
/// directory and ends with its own.
pub proof fn law_joined_path_lies_below(base: Seq<u8>, tail: Seq<u8>)
    ensures
        below(base, tail).take(base.len() as int) == base,
        below(base, tail).skip(below(base, tail).len() - tail.len()) == tail,
        base.len() > 0 && base.last() != 47 ==> below(base, tail)[base.len() as int] == 47,
        below(base, tail).len() == base.len() + tail.len() + if base.len() > 0 && base.last() != 47 {
            1int
        } else {
            0int
        },
{
    assert(below(base, tail).take(base.len() as int) =~= base);
    assert(below(base, tail).skip(below(base, tail).len() - tail.len()) =~= tail);
}

/// A way that is clear has no symbolic link on it: each directory was looked
/// at, from the outermost on, and is none, up to the last or to one that does
/// not exist.
pub proof fn law_clear_way_has_no_symlink(probes: Seq<Probe>, count: int)
    requires
        0 <= count,
        walk_from(probes, count, 0) is Clear,
    ensures
        exists|n: int|
            0 <= n <= count && n <= probes.len() && (n < count ==> n < probes.len() && probes[n]
                == Probe::Missing) && (forall|i: int|
                0 <= i < n ==> #[trigger] probes[i] == Probe::Present),
{
    lemma_clear_from(probes, count, 0);
}

proof fn lemma_clear_from(probes: Seq<Probe>, count: int, from: int)
    requires
        0 <= from <= count,
        from <= probes.len(),
        forall|i: int| 0 <= i < from ==> #[trigger] probes[i] == Probe::Present,
        walk_from(probes, count, from) is Clear,
    ensures
        exists|n: int|
            0 <= n <= count && n <= probes.len() && (n < count ==> n < probes.len() && probes[n]
                == Probe::Missing) && (forall|i: int|
                0 <= i < n ==> #[trigger] probes[i] == Probe::Present),
    decreases count - from,
{
    if from < count && probes[from] == Probe::Present {
        lemma_clear_from(probes, count, from + 1);
    }
}

/// How many of the components are `..`.
pub open spec fn steps_up(s: Seq<u8>, spans: Seq<(int, int)>) -> nat
    decreases spans.len(),
{
    if spans.len() == 0 {
        0
    } else {
        steps_up(s, spans.drop_last()) + if is_parent_dir(span_text(s, spans.last())) {
            1nat
        } else {
            0nat
        }
    }
}

/// How many of the components are names.
pub open spec fn steps_down(s: Seq<u8>, spans: Seq<(int, int)>) -> nat
    decreases spans.len(),
{
    if spans.len() == 0 {
        0
    } else {
        let name = span_text(s, spans.last());
        steps_down(s, spans.drop_last()) + if is_parent_dir(name) || is_cur_dir(name) {
            0nat
        } else {
            1nat
        }
    }
}

/// A link may have exactly the relative targets on which, from the start up to
/// each component, there are no more `..` than names.
pub proof fn law_safe_target_stays_inside(target: Seq<u8>)
    ensures
        stays_inside(target) <==> !has_root(target) && forall|n: int|
            0 <= n <= component_spans(target).len() ==> steps_up(
                target,
                #[trigger] component_spans(target).take(n),
            ) <= steps_down(target, component_spans(target).take(n)),
{
    let spans = component_spans(target);
    lemma_depth_counts(target, spans, spans.len() as int);
    assert(spans.take(spans.len() as int) =~= spans);
}

proof fn lemma_depth_counts(s: Seq<u8>, spans: Seq<(int, int)>, m: int)
    requires
        0 <= m <= spans.len(),
    ensures
        depth(s, spans.take(m)) is Some <==> forall|n: int|
            0 <= n <= m ==> steps_up(s, #[trigger] spans.take(n)) <= steps_down(s, spans.take(n)),
        depth(s, spans.take(m)) is Some ==> depth(s, spans.take(m))->0 == steps_down(
            s,
            spans.take(m),
        ) - steps_up(s, spans.take(m)),
    decreases m,
{
    if m > 0 {
        lemma_depth_counts(s, spans, m - 1);
        assert(spans.take(m).drop_last() =~= spans.take(m - 1));
    } else {
        assert(spans.take(0) =~= Seq::empty());
    }
}

/// Once above the start, always above it.
proof fn lemma_depth_none(s: Seq<u8>, spans: Seq<(int, int)>, n: int)
    requires
        0 <= n <= spans.len(),
        depth(s, spans.take(n)) is None,
    ensures
        depth(s, spans) is None,
    decreases spans.len() - n,
{
    if n == spans.len() {
        assert(spans.take(n) =~= spans);
    } else {
        assert(spans.take(n + 1).drop_last() =~= spans.take(n));
        lemma_depth_none(s, spans, n + 1);
    }
}

/// The piece of the path from `k` to `e` lies between separators, or an end and a
/// separator, is not empty, and has no separator in it.
pub open spec fn is_piece<T: PathUnit>(s: Seq<T>, k: int, e: int) -> bool {
    &&& 0 <= k < e <= s.len()
    &&& k == 0 || s[k - 1].slash()
    &&& e == s.len() || s[e].slash()
    &&& forall|q: int| k <= q < e ==> !(#[trigger] s[q]).slash()
}

/// The components of a path are its pieces, however many there are, but for those
/// that are a dot behind the start; one that starts with a separator has the root
/// as well.
pub proof fn law_components_are_the_pieces<T: PathUnit>(s: Seq<T>, k: int, e: int)
    ensures
        component_spans(s).contains((k, e)) <==> {
            ||| is_piece(s, k, e) && !(0 < k && e == k + 1 && s[k].dot())
            ||| s.len() > 0 && s[0].slash() && k == 0 && e == 1
        },
{
    lemma_spans_are_pieces(s, 0);
    let list = spans_from(s, 0);
    let all = component_spans(s);
    if is_piece(s, k, e) && !(0 < k && e == k + 1 && s[k].dot()) {
        lemma_piece_is_span(s, 0, k, e);
        let n = list.index_of((k, e));
        if has_root(s) {
            assert(all[n + 1] == list[n]);
        }
    }
    if has_root(s) {
        assert(all[0] == (0int, 1int));
    }
    if all.contains((k, e)) {
        let n = all.index_of((k, e));
        if has_root(s) {
            if n > 0 {
                assert(all[n] == list[n - 1]);
            }
        } else {
            assert(all[n] == list[n]);
        }
    }
}

/// The components of a path come in the order in which they stand in it, each
/// once.
pub proof fn law_components_are_in_order<T: PathUnit>(s: Seq<T>, m: int, n: int)
    requires
        0 <= m < n < component_spans(s).len(),
    ensures
        component_spans(s)[m].1 <= component_spans(s)[n].0,
{
    lemma_spans_are_pieces(s, 0);
    let list = spans_from(s, 0);
    let all = component_spans(s);
    if has_root(s) {
        assert(all[n] == list[n - 1]);
        let (k, e) = list[n - 1];
        assert(is_piece(s, k, e));
        if k == 0 {
            assert(s[0].slash());
        }
        if m > 0 {
            assert(all[m] == list[m - 1]);
        }
    }
}

proof fn lemma_piece_is_span<T: PathUnit>(s: Seq<T>, i: int, k: int, e: int)
    requires
        0 <= i <= k,
        is_piece(s, k, e),
        !(0 < k && e == k + 1 && s[k].dot()),
    ensures
        spans_from(s, i).contains((k, e)),
    decreases k - i,
{
    lemma_slash_from(s, i);
    let j = slash_from(s, i);
    let list = spans_from(s, i);
    if i == k {
        if e < j {
            assert(s[e].slash());
        }
        if j < e {
            assert(s[j].slash());
        }
        assert(list[0] == (k, e));
    } else {
        if j > k - 1 {
            assert(!s[k - 1].slash());
        }
        lemma_piece_is_span(s, j + 1, k, e);
        let rest = spans_from(s, j + 1);
        let n = rest.index_of((k, e));
        let here = list.len() - rest.len();
        assert(list[here + n] == rest[n]);
    }
}

proof fn lemma_spans_are_pieces<T: PathUnit>(s: Seq<T>, i: int)
    requires
        0 <= i <= s.len(),
        i == 0 || s[i - 1].slash(),
    ensures
        forall|n: int|
            0 <= n < spans_from(s, i).len() ==> ({
                let (k, e) = #[trigger] spans_from(s, i)[n];
                i <= k && is_piece(s, k, e) && !(0 < k && e == k + 1 && s[k].dot())
            }),
        forall|m: int, n: int|
            0 <= m < n < spans_from(s, i).len() ==> (#[trigger] spans_from(s, i)[m]).1 < (
            #[trigger] spans_from(s, i)[n]).0,
    decreases s.len() - i,
{
    lemma_slash_from(s, i);
    let j = slash_from(s, i);
    let list = spans_from(s, i);
    let here: Seq<(int, int)> = if is_component(s, i, j) {
        seq![(i, j)]
    } else {
        Seq::empty()
    };
    let rest: Seq<(int, int)> = if j < s.len() {
        spans_from(s, j + 1)
    } else {
        Seq::empty()
    };
    assert(list =~= here + rest);
    if j < s.len() {
        lemma_spans_are_pieces(s, j + 1);
    }
    assert forall|n: int| 0 <= n < list.len() implies ({
        let (k, e) = #[trigger] list[n];
        i <= k && is_piece(s, k, e) && !(0 < k && e == k + 1 && s[k].dot())
    }) by {
        if n >= here.len() {
            assert(list[n] == rest[n - here.len()]);
        }
    }
    assert forall|m: int, n: int| 0 <= m < n < list.len() implies (#[trigger] list[m]).1 < (
    #[trigger] list[n]).0 by {
        assert(list[n] == rest[n - here.len()]);
        if m >= here.len() {
            assert(list[m] == rest[m - here.len()]);
        }
    }
}

/// The two special components.
pub proof fn law_special_components(name: Seq<u8>)
    ensures
        is_cur_dir(name) <==> name == seq![46u8],
        is_parent_dir(name) <==> name == seq![46u8, 46u8],
{
    if is_cur_dir(name) {
        assert(name =~= seq![46u8]);
    }
    if is_parent_dir(name) {
        assert(name =~= seq![46u8, 46u8]);
    }
}

/// The names on a path that goes on behind a separator are those on its front,
/// then those on the rest, however long both are. A single piece is its own name,
/// unless it is empty or a dot.
pub proof fn law_names_go_on_behind_a_separator(a: Seq<u8>, b: Seq<u8>)
    requires
        b.len() > 0 ==> b[0] != 47,
    ensures
        a.len() > 0 ==> names(a + seq![47u8] + b) == names(a) + names(b),
        !b.contains(47) ==> names(b) == if b.len() == 0 || b == seq![46u8] {
            Seq::<Seq<u8>>::empty()
        } else {
            seq![b]
        },
{
    let s = a + seq![47u8] + b;
    if a.len() > 0 {
        lemma_front_spans(a, b, 0);
        lemma_back_names(a, b, 0);
        assert(s[0] == a[0]);
        assert(has_root(s) == has_root(a));
        let back = spans_from(s, a.len() as int + 1);
        assert(component_spans(s) =~= component_spans(a) + back);
        lemma_names_concat(s, component_spans(a), back);
        lemma_spans_are_pieces(a, 0);
        assert(names_in(s, component_spans(a)) == names_in(a, component_spans(a))) by {
            assert forall|n: int| 0 <= n < component_spans(a).len() implies ({
                let (k, e) = #[trigger] component_spans(a)[n];
                0 <= k <= e <= a.len()
            }) by {
                if has_root(a) && n > 0 {
                    assert(component_spans(a)[n] == spans_from(a, 0)[n - 1]);
                }
            }
            lemma_same_names(s, a, component_spans(a));
        }
    }
    if !b.contains(47) {
        assert forall|q: int| 0 <= q < b.len() implies b[q] != 47 by {
            assert(b.contains(b[q]));
        }
        lemma_slash_at(b, 0, b.len() as int);
        if b.len() == 0 {
            assert(spans_from(b, 0) =~= Seq::empty());
        } else {
            assert(spans_from(b, 0) =~= seq![(0int, b.len() as int)]);
            lemma_names_one(b, (0int, b.len() as int));
            assert(span_text(b, (0int, b.len() as int)) =~= b);
            law_special_components(b);
        }
    }
}

/// Names go by what stands in the ranges alone.
proof fn lemma_same_names(s: Seq<u8>, a: Seq<u8>, spans: Seq<(int, int)>)
    requires
        a.len() <= s.len(),
        forall|q: int| 0 <= q < a.len() ==> #[trigger] s[q] == a[q],
        forall|n: int|
            0 <= n < spans.len() ==> ({
                let (k, e) = #[trigger] spans[n];
                0 <= k <= e <= a.len()
            }),
    ensures
        names_in(s, spans) == names_in(a, spans),
    decreases spans.len(),
{
    if spans.len() > 0 {
        let last = spans[spans.len() - 1];
        assert(span_text(s, last) =~= span_text(a, last));
        assert forall|n: int| 0 <= n < spans.drop_last().len() implies ({
            let (k, e) = #[trigger] spans.drop_last()[n];
            0 <= k <= e <= a.len()
        }) by {
            assert(spans.drop_last()[n] == spans[n]);
        }
        lemma_same_names(s, a, spans.drop_last());
    }
}

proof fn lemma_front_spans(a: Seq<u8>, b: Seq<u8>, i: int)
    requires
        0 <= i <= a.len(),
    ensures
        spans_from(a + seq![47u8] + b, i) == spans_from(a, i) + spans_from(
            a + seq![47u8] + b,
            a.len() as int + 1,
        ),
    decreases a.len() - i,
{
    let s = a + seq![47u8] + b;
    let back = spans_from(s, a.len() as int + 1);
    lemma_slash_from(a, i);
    let j = slash_from(a, i);
    assert forall|q: int| i <= q < j implies s[q] != 47 by {
        assert(!a[q].slash());
    }
    if j < a.len() {
        assert(a[j].slash());
    }
    lemma_slash_at(s, i, j);
    assert(i < j ==> s[i] == a[i]);
    assert(is_component(s, i, j) == is_component(a, i, j));
    if j < a.len() {
        lemma_front_spans(a, b, j + 1);
    }
    assert(spans_from(s, i) =~= spans_from(a, i) + back);
}

/// The names behind the separator are those of the rest by itself.
proof fn lemma_back_names(a: Seq<u8>, b: Seq<u8>, i: int)
    requires
        0 <= i <= b.len(),
        a.len() > 0,
        b.len() > 0 ==> b[0] != 47,
    ensures
        names_in(a + seq![47u8] + b, spans_from(a + seq![47u8] + b, a.len() + 1 + i)) == names_in(
            b,
            spans_from(b, i),
        ),
    decreases b.len() - i,
{
    let s = a + seq![47u8] + b;
    let at = a.len() + 1;
    lemma_slash_from(b, i);
    let j = slash_from(b, i);
    assert forall|q: int| at + i <= q < at + j implies s[q] != 47 by {
        assert(!b[q - at].slash());
        assert(s[q] == b[q - at]);
    }
    if j < b.len() {
        assert(b[j].slash());
        assert(s[at + j] == b[j]);
    }
    lemma_slash_at(s, at + i, at + j);
    let here_s: Seq<(int, int)> = if is_component(s, at + i, at + j) {
        seq![(at + i, at + j)]
    } else {
        Seq::empty()
    };
    let here_b: Seq<(int, int)> = if is_component(b, i, j) {
        seq![(i, j)]
    } else {
        Seq::empty()
    };
    let rest_s: Seq<(int, int)> = if j < b.len() {
        spans_from(s, at + j + 1)
    } else {
        Seq::empty()
    };
    let rest_b: Seq<(int, int)> = if j < b.len() {
        spans_from(b, j + 1)
    } else {
        Seq::empty()
    };
    assert(spans_from(s, at + i) =~= here_s + rest_s);
    assert(spans_from(b, i) =~= here_b + rest_b);
    lemma_names_concat(s, here_s, rest_s);
    lemma_names_concat(b, here_b, rest_b);
    if j < b.len() {
        lemma_back_names(a, b, j + 1);
    }
    let text = span_text(b, (i, j));
    assert(span_text(s, (at + i, at + j)) =~= text);
    lemma_names_one(s, (at + i, at + j));
    lemma_names_one(b, (i, j));
    if i < j {
        assert(s[at + i] == b[i]);
        assert(text[0] == b[i]);
    }
    assert(names_in(s, here_s) == names_in(b, here_b));
}

/// A path is refused exactly where it starts at the root or has `..` among its
/// names; one that is used is its names with a separator between them.
pub proof fn law_clean_goes_by_names(rel: Seq<u8>)
    ensures
        rel.len() > 0 && rel[0] == 47 ==> clean(rel) == Err::<Seq<u8>, PathError>(
            PathError::Absolute,
        ),
        !(rel.len() > 0 && rel[0] == 47) && names(rel).contains(seq![46u8, 46u8]) ==> clean(rel)
            == Err::<Seq<u8>, PathError>(PathError::ParentDir),
        !(rel.len() > 0 && rel[0] == 47) && !names(rel).contains(seq![46u8, 46u8]) ==> clean(rel)
            == Ok::<Seq<u8>, PathError>(joined(names(rel))),
{
    let list = names(rel);
    if list.contains(seq![46u8, 46u8]) {
        let i = list.index_of(seq![46u8, 46u8]);
        assert(is_parent_dir(list[i]));
    }
    if climbs(rel) {
        let i = choose|i: int| 0 <= i < list.len() && is_parent_dir(#[trigger] list[i]);
        law_special_components(list[i]);
        assert(list.contains(list[i]));
    }
}

/// Names are joined one by one, each behind a separator.
pub proof fn law_names_are_joined(list: Seq<Seq<u8>>, name: Seq<u8>)
    ensures
        joined(Seq::<Seq<u8>>::empty()) == Seq::<u8>::empty(),
        joined(seq![name]) == name,
        list.len() > 0 ==> joined(list.push(name)) == joined(list) + seq![47u8] + name,
{
    assert(list.push(name).drop_last() =~= list);
    assert(joined(list).push(47) =~= joined(list) + seq![47u8]);
}

/// A path that is a directory, a separator and a name has that name last and
/// that directory as its parent, however long the directory is.
pub proof fn law_parent_and_last_name(dir: Seq<u8>, name: Seq<u8>)
    requires
        dir.len() > 0,
        dir.last() != 47,
        !(dir.len() >= 2 && dir[dir.len() - 2] == 47 && dir.last() == 46),
        name.len() > 0,
        !name.contains(47),
        name != seq![46u8],
    ensures
        parent(dir + seq![47u8] + name) == Some(dir),
        last_name(dir + seq![47u8] + name) == if name == seq![46u8, 46u8] {
            None
        } else {
            Some(name)
        },
{
    let s = dir + seq![47u8] + name;
    let at = dir.len() + 1;
    let n = s.len() as int;
    assert forall|q: int| at <= q < n implies s[q] != 47 by {
        assert(name.contains(name[q - at]));
    }
    lemma_slash_at(s, at as int, n);
    assert(s[at as int] == name[0]);
    if name.len() == 1 && name[0] == 46 {
        assert(name =~= seq![46u8]);
    }
    assert(spans_from(s, at as int) =~= seq![(at as int, n)]);
    lemma_front_spans(dir, name, 0);
    let front = component_spans(dir);
    let all = component_spans(s);
    assert(s[0] == dir[0]);
    assert(all =~= front.push((at as int, n)));
    assert(span_text(s, (at as int, n)) =~= name);
    law_special_components(name);
    lemma_last_span(dir, 0);
    let last = spans_from(dir, 0).last();
    assert(front.last() == last);
    assert(all[all.len() - 2] == front.last());
    assert(s.take(dir.len() as int) =~= dir);
}

/// The last component of a path that does not end with a separator or a dot of
/// its own ends with it.
proof fn lemma_last_span(s: Seq<u8>, i: int)
    requires
        0 <= i < s.len(),
        i == 0 || s[i - 1] == 47,
        s.last() != 47,
        !(s.len() >= 2 && s[s.len() - 2] == 47 && s.last() == 46),
    ensures
        spans_from(s, i).len() > 0,
        spans_from(s, i).last().1 == s.len(),
    decreases s.len() - i,
{
    lemma_slash_from(s, i);
    let j = slash_from(s, i);
    if j < s.len() {
        assert(s[j].slash());
        assert(j < s.len() - 1);
        lemma_last_span(s, j + 1);
        let rest = spans_from(s, j + 1);
        let list = spans_from(s, i);
        assert(list.last() == rest.last());
    } else {
        assert(i < j);
        if j == i + 1 && s[i] == 46 && 0 < i {
            assert(s[s.len() - 2] == 47);
        }
        assert(spans_from(s, i) =~= seq![(i, j)]);
    }
}

/// A walk along the directories of a path stops where the first that is not
/// simply there decides: at a symbolic link it is refused, where nothing exists
/// it is clear, and what was not looked at yet is looked at next.
pub proof fn law_walk_stops_at_the_first(probes: Seq<Probe>, count: int, i: int)
    requires
        0 <= i <= count,
        forall|k: int| 0 <= k < i ==> k < probes.len() && #[trigger] probes[k] == Probe::Present,
    ensures
        i == count ==> walk_from(probes, count, 0) == Walk::Clear,
        i < count && i >= probes.len() ==> walk_from(probes, count, 0) == Walk::Next(i),
        i < count && i < probes.len() && probes[i] == Probe::Symlink ==> walk_from(
            probes,
            count,
            0,
        ) == Walk::Symlink(i),
        i < count && i < probes.len() && probes[i] == Probe::Missing ==> walk_from(
            probes,
            count,
            0,
        ) == Walk::Clear,
{
    lemma_walk_on(probes, count, 0, i);
}

proof fn lemma_walk_on(probes: Seq<Probe>, count: int, from: int, i: int)
    requires
        0 <= from <= i <= count,
        forall|k: int| 0 <= k < i ==> k < probes.len() && #[trigger] probes[k] == Probe::Present,
    ensures
        walk_from(probes, count, from) == walk_from(probes, count, i),
    decreases i - from,
{
    if from < i {
        assert(probes[from] == Probe::Present);
        lemma_walk_on(probes, count, from + 1, i);
    }
}

/// A path leads to itself and to every path below it, and what it leads to has all
/// of its names first: none beside it, whatever letters they share.
pub proof fn law_path_leads_to_what_is_below(a: Seq<u8>, b: Seq<u8>, other: Seq<u8>)
    ensures
        leads_to(a, a),
        a.len() > 0 ==> leads_to(a, a + seq![47u8] + b),
        leads_to(a, other) ==> names(a).is_prefix_of(names(other)),
{
    assert(parts(a) =~= parts(a).take(parts(a).len() as int));
    if a.len() > 0 {
        let s = a + seq![47u8] + b;
        lemma_front_spans(a, b, 0);
        assert(s[0] == a[0]);
        let back = spans_from(s, a.len() as int + 1);
        assert(component_spans(s) =~= component_spans(a) + back);
        lemma_spans_are_pieces(a, 0);
        assert forall|n: int| 0 <= n < component_spans(a).len() implies parts(s)[n] == parts(
            a,
        )[n] by {
            let (k, e) = component_spans(a)[n];
            assert(component_spans(s)[n] == (k, e));
            if has_root(a) && n > 0 {
                assert(component_spans(a)[n] == spans_from(a, 0)[n - 1]);
            }
            assert(0 <= k <= e <= a.len());
            assert(span_text(s, (k, e)) =~= span_text(a, (k, e)));
        }
        assert(parts(a) =~= parts(s).take(parts(a).len() as int));
    }
    if leads_to(a, other) {
        lemma_names_prefix(a, component_spans(a), other, component_spans(other));
    }
}

proof fn lemma_names_prefix(
    a: Seq<u8>,
    spans_a: Seq<(int, int)>,
    b: Seq<u8>,
    spans_b: Seq<(int, int)>,
)
    requires
        span_texts(a, spans_a).is_prefix_of(span_texts(b, spans_b)),
    ensures
        names_in(a, spans_a).is_prefix_of(names_in(b, spans_b)),
        spans_a.len() == spans_b.len() ==> names_in(a, spans_a) == names_in(b, spans_b),
    decreases spans_b.len(),
{
    let list_a = span_texts(a, spans_a);
    let list_b = span_texts(b, spans_b);
    assert forall|i: int| 0 <= i < spans_a.len() implies list_a[i] == list_b[i] by {
        assert(list_b.take(list_a.len() as int)[i] == list_b[i]);
    }
    if spans_a.len() == spans_b.len() {
        if spans_a.len() > 0 {
            let n = spans_a.len() - 1;
            assert(list_a[n] == list_b[n]);
            let fewer_a = span_texts(a, spans_a.drop_last());
            let fewer_b = span_texts(b, spans_b.drop_last());
            assert forall|i: int| 0 <= i < n implies fewer_a[i] == fewer_b[i] by {
                assert(list_a[i] == list_b[i]);
            }
            assert(fewer_a =~= fewer_b.take(fewer_a.len() as int));
            lemma_names_prefix(a, spans_a.drop_last(), b, spans_b.drop_last());
        }
        assert(names_in(a, spans_a) =~= names_in(b, spans_b).take(
            names_in(a, spans_a).len() as int,
        ));
    } else {
        let fewer_b = span_texts(b, spans_b.drop_last());
        assert forall|i: int| 0 <= i < spans_a.len() implies list_a[i] == fewer_b[i] by {
            assert(list_a[i] == list_b[i]);
        }
        assert(list_a =~= fewer_b.take(list_a.len() as int));
        lemma_names_prefix(a, spans_a, b, spans_b.drop_last());
        let n = names_in(a, spans_a).len() as int;
        let fewer = names_in(b, spans_b.drop_last());
        assert(fewer.take(n) =~= names_in(b, spans_b).take(n));
    }
}

/// The directories on the way to a path are the base with one name more each: the
/// first has the first name behind the base, and each goes on with the next name.
pub proof fn law_way_goes_name_by_name(base: Seq<u8>, rel: Seq<u8>, i: int)
    requires
        0 <= i < names(rel).len(),
    ensures
        i == 0 ==> ancestor(base, rel, i) == below(base, names(rel)[0]),
        i > 0 ==> ancestor(base, rel, i) == ancestor(base, rel, i - 1) + seq![47u8] + names(rel)[i],
{
    let list = names(rel).take(i + 1);
    if i > 0 {
        assert(list.drop_last() =~= names(rel).take(i));
        assert(list.last() == names(rel)[i]);
        let front = joined(names(rel).take(i));
        assert(joined(list) == front.push(47) + names(rel)[i]);
        assert(below(base, front.push(47) + names(rel)[i]) =~= below(base, front) + seq![47u8]
            + names(rel)[i]);
    }
}

} // verus!
