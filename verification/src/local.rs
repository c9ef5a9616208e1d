//! The decisions of a local sync: which entries take part, what is prepared
//! before files are copied, and what is deleted afterwards.

use crate::filter::allowed;
use crate::flist::{EntryKind, EntryKindView, EntryView, FileEntry};
use crate::paths::{
    clean, clean_rel, components, law_clean_is_clean, law_normal_form_tells_paths_apart, leading,
    leading_path, leads_to, lemma_leading, names, normal, normal_path, parent, parent_path, parts,
    plain_names, safe_symlink_target, stays_inside, PathError,
};
use crate::pipeline::{add64, sum64, SyncOpts};
use crate::text::{from_utf8_lossy, lossy_text};
use rustc_hash::FxHashSet;
use vstd::prelude::*;
use vstd::slice::slice_to_vec;

verus! {

// ---------------------------------------------------------------------------
// Sets of paths
// ---------------------------------------------------------------------------

/// The paths that the set holds.
pub uninterp spec fn path_set(set: FxHashSet<Vec<u8>>) -> Set<Seq<u8>>;

/// Calls `FxHashSet::default` of rustc-hash. Claimed: the set is empty.
#[verifier::external_body]
fn set_new() -> (set: FxHashSet<Vec<u8>>)
    ensures
        path_set(set) == Set::<Seq<u8>>::empty(),
{
    FxHashSet::default()
}

/// Calls `insert` on a set of rustc-hash. Claimed: the set then holds the path
/// too, and the result tells whether it did not before.
#[verifier::external_body]
fn set_insert(set: &mut FxHashSet<Vec<u8>>, path: Vec<u8>) -> (added: bool)
    ensures
        path_set(*final(set)) == path_set(*old(set)).insert(path@),
        added == !path_set(*old(set)).contains(path@),
{
    set.insert(path)
}

/// Calls `contains` on a set of rustc-hash. Claimed: the result tells whether
/// the set holds the path.
#[verifier::external_body]
fn set_contains(set: &FxHashSet<Vec<u8>>, path: &Vec<u8>) -> (found: bool)
    ensures
        found == path_set(*set).contains(path@),
{
    set.contains(path)
}

// ---------------------------------------------------------------------------
// Selection
// ---------------------------------------------------------------------------

/// The entries behind a list of references.
pub open spec fn ref_views(list: Seq<&FileEntry>) -> Seq<EntryView> {
    Seq::new(list.len(), |i: int| list[i]@)
}

/// A regular file is neither too large nor too small.
pub open spec fn within_limits(e: EntryView, opts: SyncOpts) -> bool {
    e.kind is Regular ==> {
        &&& opts.max_size matches Some(max) ==> e.size <= max
        &&& opts.min_size matches Some(min) ==> e.size >= min
    }
}

/// The entry takes part: the filter rules let its path through, and it is
/// within the limits on size.
pub open spec fn takes_part(e: EntryView, opts: SyncOpts) -> bool {
    &&& allowed(opts.filter@, lossy_text(e.path), e.kind is Dir)
    &&& within_limits(e, opts)
}

/// The entries that take part, in order.
pub open spec fn selection(entries: Seq<EntryView>, opts: SyncOpts) -> Seq<EntryView>
    decreases entries.len(),
{
    if entries.len() == 0 {
        Seq::empty()
    } else {
        let before = selection(entries.drop_last(), opts);
        if takes_part(entries.last(), opts) {
            before.push(entries.last())
        } else {
            before
        }
    }
}

/// Tests whether an entry takes part.
pub fn is_selected(e: &FileEntry, opts: &SyncOpts) -> (selected: bool)
    ensures
        selected == takes_part(e@, *opts),
{
    let text: String = from_utf8_lossy(e.path.as_slice());
    if !opts.filter.allow(text.as_str(), e.is_dir()) {
        return false;
    }
    if !e.is_regular() {
        return true;
    }
    match opts.max_size {
        Some(max) => {
            if e.size > max {
                return false;
            }
        },
        None => {},
    }
    match opts.min_size {
        Some(min) => {
            if e.size < min {
                return false;
            }
        },
        None => {},
    }
    true
}

/// The entries that take part, in order.
pub fn select_entries<'a>(entries: &'a Vec<FileEntry>, opts: &SyncOpts) -> (list: Vec<
    &'a FileEntry,
>)
    ensures
        ref_views(list@) == selection(crate::flist::entry_views(entries@), *opts),
{
    let ghost views = crate::flist::entry_views(entries@);
    let mut list: Vec<&'a FileEntry> = Vec::new();
    let mut i: usize = 0;
    assert(views.take(0) =~= Seq::empty());
    assert(ref_views(list@) =~= selection(views.take(0), *opts));
    while i < entries.len()
        invariant
            i <= entries@.len(),
            views == crate::flist::entry_views(entries@),
            ref_views(list@) == selection(views.take(i as int), *opts),
        decreases entries@.len() - i,
    {
        assert(views.take(i + 1).drop_last() =~= views.take(i as int));
        let e = &entries[i];
        if is_selected(e, opts) {
            let ghost before = ref_views(list@);
            list.push(e);
            assert(ref_views(list@) =~= before.push(e@));
        }
        i = i + 1;
    }
    assert(views.take(i as int) =~= views);
    list
}

/// The regular files among the entries, in order.
pub open spec fn regulars(entries: Seq<EntryView>) -> Seq<EntryView>
    decreases entries.len(),
{
    if entries.len() == 0 {
        Seq::empty()
    } else {
        let before = regulars(entries.drop_last());
        if entries.last().kind is Regular {
            before.push(entries.last())
        } else {
            before
        }
    }
}

/// The regular files among the entries, in order.
pub fn regular_entries<'a>(entries: &Vec<&'a FileEntry>) -> (list: Vec<&'a FileEntry>)
    ensures
        ref_views(list@) == regulars(ref_views(entries@)),
{
    let ghost views = ref_views(entries@);
    let mut list: Vec<&'a FileEntry> = Vec::new();
    let mut i: usize = 0;
    assert(views.take(0) =~= Seq::empty());
    assert(ref_views(list@) =~= regulars(views.take(0)));
    while i < entries.len()
        invariant
            i <= entries@.len(),
            views == ref_views(entries@),
            ref_views(list@) == regulars(views.take(i as int)),
        decreases entries@.len() - i,
    {
        assert(views.take(i + 1).drop_last() =~= views.take(i as int));
        let e: &'a FileEntry = entries[i];
        if e.is_regular() {
            let ghost before = ref_views(list@);
            list.push(e);
            assert(ref_views(list@) =~= before.push(e@));
        }
        i = i + 1;
    }
    assert(views.take(i as int) =~= views);
    list
}

/// The sizes of the entries together, as far as 64 bits can hold them.
pub open spec fn size_total(entries: Seq<EntryView>) -> int
    decreases entries.len(),
{
    if entries.len() == 0 {
        0
    } else {
        sum64(size_total(entries.drop_last()), entries.last().size as int)
    }
}

/// The sizes of the entries together, the carry dropped.
pub fn total_size(entries: &Vec<&FileEntry>) -> (total: u64)
    ensures
        total == size_total(ref_views(entries@)),
{
    let ghost views = ref_views(entries@);
    let mut total: u64 = 0;
    let mut i: usize = 0;
    assert(views.take(0) =~= Seq::empty());
    while i < entries.len()
        invariant
            i <= entries@.len(),
            views == ref_views(entries@),
            total == size_total(views.take(i as int)),
        decreases entries@.len() - i,
    {
        assert(views.take(i + 1).drop_last() =~= views.take(i as int));
        total = add64(total, entries[i].size);
        i = i + 1;
    }
    assert(views.take(i as int) =~= views);
    total
}

// ---------------------------------------------------------------------------
// Preparation
// ---------------------------------------------------------------------------

/// What is done before files are copied. Paths are relative to the
/// destination.
#[derive(Debug, Clone, PartialEq, Eq)]
pub enum Step {
    /// Create the directory, and those on the way to it.
    MakeDir(Vec<u8>),
    /// Check that no directory on the way to this one, itself among them, is a
    /// symbolic link.
    CheckParent(Vec<u8>),
    /// Put a symbolic link there, in place of what there is, unless that is kept.
    MakeLink { path: Vec<u8>, target: Vec<u8>, mtime: i64 },
    /// Warn that this link is left out.
    SkipLink(Vec<u8>),
    /// Stop: this path is refused.
    Refuse { path: Vec<u8>, error: PathError },
}

/// A step as a value.
pub enum StepView {
    MakeDir(Seq<u8>),
    CheckParent(Seq<u8>),
    MakeLink { path: Seq<u8>, target: Seq<u8>, mtime: i64 },
    SkipLink(Seq<u8>),
    Refuse { path: Seq<u8>, error: PathError },
}

impl View for Step {
    type V = StepView;

    open spec fn view(&self) -> StepView {
        match self {
            Step::MakeDir(path) => StepView::MakeDir(path@),
            Step::CheckParent(path) => StepView::CheckParent(path@),
            Step::MakeLink { path, target, mtime } => StepView::MakeLink {
                path: path@,
                target: target@,
                mtime: *mtime,
            },
            Step::SkipLink(path) => StepView::SkipLink(path@),
            Step::Refuse { path, error } => StepView::Refuse { path: path@, error: *error },
        }
    }
}

/// The steps of a list, as values.
pub open spec fn step_views(steps: Seq<Step>) -> Seq<StepView> {
    Seq::new(steps.len(), |i: int| steps[i]@)
}

/// The step for a directory.
pub open spec fn dir_step(e: EntryView) -> StepView {
    match clean(e.path) {
        Ok(path) => StepView::MakeDir(path),
        Err(error) => StepView::Refuse { path: e.path, error },
    }
}

/// The step for a link: none of those that lead out of the tree is made.
pub open spec fn link_step(e: EntryView, target: Seq<u8>) -> StepView {
    if !stays_inside(target) {
        StepView::SkipLink(e.path)
    } else {
        match clean(e.path) {
            Ok(path) => StepView::MakeLink { path, target, mtime: e.mtime },
            Err(error) => StepView::Refuse { path: e.path, error },
        }
    }
}

/// One step for each directory, in order.
pub open spec fn dir_steps(entries: Seq<EntryView>) -> Seq<StepView>
    decreases entries.len(),
{
    if entries.len() == 0 {
        Seq::empty()
    } else {
        let before = dir_steps(entries.drop_last());
        if entries.last().kind is Dir {
            before.push(dir_step(entries.last()))
        } else {
            before
        }
    }
}

/// The directories of the regular files, other than the root, each once.
pub open spec fn file_parents(entries: Seq<EntryView>) -> Seq<Seq<u8>>
    decreases entries.len(),
{
    if entries.len() == 0 {
        Seq::empty()
    } else {
        let before = file_parents(entries.drop_last());
        let e = entries.last();
        match parent(e.path) {
            Some(dir) => if e.kind is Regular && dir.len() > 0 && !before.contains(dir) {
                before.push(dir)
            } else {
                before
            },
            None => before,
        }
    }
}

/// One check for each directory.
pub open spec fn check_steps(dirs: Seq<Seq<u8>>) -> Seq<StepView> {
    Seq::new(dirs.len(), |i: int| StepView::CheckParent(dirs[i]))
}

/// One step for each link, in order.
pub open spec fn link_steps(entries: Seq<EntryView>) -> Seq<StepView>
    decreases entries.len(),
{
    if entries.len() == 0 {
        Seq::empty()
    } else {
        let before = link_steps(entries.drop_last());
        match entries.last().kind {
            EntryKindView::Symlink { target } => before.push(link_step(entries.last(), target)),
            _ => before,
        }
    }
}

/// Everything that is done before files are copied: first the directories, then
/// the checks, then the links. A dry run does nothing.
pub open spec fn preparation(entries: Seq<EntryView>, dry_run: bool) -> Seq<StepView> {
    if dry_run {
        Seq::empty()
    } else {
        dir_steps(entries) + check_steps(file_parents(entries)) + link_steps(entries)
    }
}

/// Adds the steps for the directories.
fn add_dir_steps(entries: &Vec<&FileEntry>, steps: &mut Vec<Step>)
    ensures
        step_views(final(steps)@) == step_views(old(steps)@) + dir_steps(ref_views(entries@)),
{
    let ghost views = ref_views(entries@);
    let ghost start = step_views(steps@);
    let mut i: usize = 0;
    assert(views.take(0) =~= Seq::empty());
    assert(step_views(steps@) =~= start + dir_steps(views.take(0)));
    while i < entries.len()
        invariant
            i <= entries@.len(),
            views == ref_views(entries@),
            step_views(steps@) == start + dir_steps(views.take(i as int)),
        decreases entries@.len() - i,
    {
        assert(views.take(i + 1).drop_last() =~= views.take(i as int));
        let e = entries[i];
        if e.is_dir() {
            let ghost before = step_views(steps@);
            let step = match clean_rel(e.path.as_slice()) {
                Ok(path) => Step::MakeDir(path),
                Err(error) => Step::Refuse { path: slice_to_vec(e.path.as_slice()), error },
            };
            steps.push(step);
            assert(step_views(steps@) =~= before.push(step@));
        }
        assert(step_views(steps@) =~= start + dir_steps(views.take(i + 1)));
        i = i + 1;
    }
    assert(views.take(i as int) =~= views);
}

/// Adds the checks of the directories of regular files.
fn add_check_steps(entries: &Vec<&FileEntry>, steps: &mut Vec<Step>)
    ensures
        step_views(final(steps)@) == step_views(old(steps)@) + check_steps(
            file_parents(ref_views(entries@)),
        ),
{
    let ghost views = ref_views(entries@);
    let ghost start = step_views(steps@);
    let mut seen: FxHashSet<Vec<u8>> = set_new();
    let mut i: usize = 0;
    assert(views.take(0) =~= Seq::empty());
    assert(step_views(steps@) =~= start + check_steps(file_parents(views.take(0))));
    while i < entries.len()
        invariant
            i <= entries@.len(),
            views == ref_views(entries@),
            step_views(steps@) == start + check_steps(file_parents(views.take(i as int))),
            forall|dir: Seq<u8>|
                path_set(seen).contains(dir) <==> file_parents(
                    views.take(i as int),
                ).contains(dir),
        decreases entries@.len() - i,
    {
        assert(views.take(i + 1).drop_last() =~= views.take(i as int));
        let ghost dirs = file_parents(views.take(i as int));
        let ghost before = step_views(steps@);
        let e = entries[i];
        if e.is_regular() {
            match parent_path(e.path.as_slice()) {
                Some(dir) => {
                    if dir.len() > 0 {
                        let copy = slice_to_vec(dir.as_slice());
                        if set_insert(&mut seen, copy) {
                            let step = Step::CheckParent(dir);
                            steps.push(step);
                            proof {
                                assert(step_views(steps@) =~= before.push(step@));
                                lemma_contains_push(dirs, dir@);
                            }
                        }
                    }
                },
                None => {},
            }
        }
        assert(step_views(steps@) =~= start + check_steps(file_parents(views.take(i + 1))));
        i = i + 1;
    }
    assert(views.take(i as int) =~= views);
}

proof fn lemma_contains_push<T>(list: Seq<T>, x: T)
    ensures
        forall|y: T| #[trigger] list.push(x).contains(y) <==> list.contains(y) || y == x,
{
    assert forall|y: T| #[trigger] list.push(x).contains(y) <==> list.contains(y) || y == x by {
        if list.contains(y) {
            let i = list.index_of(y);
            assert(list.push(x)[i] == y);
        }
        assert(list.push(x)[list.len() as int] == x);
        if list.push(x).contains(y) {
            let i = list.push(x).index_of(y);
            if i < list.len() {
                assert(list[i] == y);
            }
        }
    }
}

/// Adds the steps for the links.
fn add_link_steps(entries: &Vec<&FileEntry>, steps: &mut Vec<Step>)
    ensures
        step_views(final(steps)@) == step_views(old(steps)@) + link_steps(ref_views(entries@)),
{
    let ghost views = ref_views(entries@);
    let ghost start = step_views(steps@);
    let mut i: usize = 0;
    assert(views.take(0) =~= Seq::empty());
    assert(step_views(steps@) =~= start + link_steps(views.take(0)));
    while i < entries.len()
        invariant
            i <= entries@.len(),
            views == ref_views(entries@),
            step_views(steps@) == start + link_steps(views.take(i as int)),
        decreases entries@.len() - i,
    {
        assert(views.take(i + 1).drop_last() =~= views.take(i as int));
        let e = entries[i];
        match &e.kind {
            EntryKind::Symlink { target } => {
                let ghost before = step_views(steps@);
                let step = plan_link(e, target);
                steps.push(step);
                assert(step_views(steps@) =~= before.push(step@));
            },
            _ => {},
        }
        assert(step_views(steps@) =~= start + link_steps(views.take(i + 1)));
        i = i + 1;
    }
    assert(views.take(i as int) =~= views);
}

/// The step for a link.
pub fn plan_link(e: &FileEntry, target: &Vec<u8>) -> (step: Step)
    ensures
        step@ == link_step(e@, target@),
{
    if !safe_symlink_target(target.as_slice()) {
        return Step::SkipLink(slice_to_vec(e.path.as_slice()));
    }
    match clean_rel(e.path.as_slice()) {
        Ok(path) => Step::MakeLink {
            path,
            target: slice_to_vec(target.as_slice()),
            mtime: e.mtime,
        },
        Err(error) => Step::Refuse { path: slice_to_vec(e.path.as_slice()), error },
    }
}

/// What is done before files are copied, in order.
pub fn prepare(entries: &Vec<&FileEntry>, dry_run: bool) -> (steps: Vec<Step>)
    ensures
        step_views(steps@) == preparation(ref_views(entries@), dry_run),
{
    let mut steps: Vec<Step> = Vec::new();
    assert(step_views(steps@) =~= Seq::empty());
    if dry_run {
        return steps;
    }
    add_dir_steps(entries, &mut steps);
    assert(step_views(steps@) =~= dir_steps(ref_views(entries@)));
    add_check_steps(entries, &mut steps);
    add_link_steps(entries, &mut steps);
    steps
}

// ---------------------------------------------------------------------------
// Deletion
// ---------------------------------------------------------------------------

/// Some entry has this path, or lies below it.
pub open spec fn is_needed(path: Seq<u8>, entries: Seq<EntryView>) -> bool {
    exists|i: int| 0 <= i < entries.len() && leads_to(path, #[trigger] entries[i].path)
}

/// The entries of the destination whose path no entry of the source has, and
/// which are not on the way to one.
pub open spec fn stale(dst: Seq<EntryView>, src: Seq<EntryView>) -> Seq<EntryView>
    decreases dst.len(),
{
    if dst.len() == 0 {
        Seq::empty()
    } else {
        let before = stale(dst.drop_last(), src);
        if is_needed(dst.last().path, src) {
            before
        } else {
            before.push(dst.last())
        }
    }
}

/// The entries of the destination that are deleted: where deletion is asked
/// for, those that are not among the entries of the source that take part, nor on
/// the way to one of them. A dry run deletes nothing.
pub open spec fn deletions(dst: Seq<EntryView>, src: Seq<EntryView>, opts: SyncOpts) -> Seq<
    EntryView,
> {
    if opts.delete && !opts.dry_run {
        stale(dst, src)
    } else {
        Seq::empty()
    }
}

/// The set holds, in normal form, the paths that lead to one of the entries.
spec fn holds_ways(set: Set<Seq<u8>>, entries: Seq<EntryView>) -> bool {
    forall|path: Seq<u8>| set.contains(normal(path)) <==> #[trigger] is_needed(path, entries)
}

/// The set holds, in normal form, the paths that lead to one of the entries, and
/// those with more than `n` components that lead to `more`.
spec fn holds_more(set: Set<Seq<u8>>, entries: Seq<EntryView>, more: Seq<u8>, n: int) -> bool {
    forall|path: Seq<u8>|
        set.contains(normal(path)) <==> #[trigger] is_needed(path, entries) || (leads_to(
            path,
            more,
        ) && parts(path).len() > n)
}

/// Adds a path and the directories on the way to it.
fn add_way(set: &mut FxHashSet<Vec<u8>>, e: &FileEntry, Ghost(entries): Ghost<Seq<EntryView>>)
    requires
        holds_ways(path_set(*old(set)), entries),
    ensures
        holds_ways(path_set(*final(set)), entries.push(e@)),
{
    let ghost more = e.path@;
    let mut n: usize = components(e.path.as_slice()).len();
    let mut found: bool = false;
    assert(n == parts(more).len());
    while !found
        invariant
            n <= parts(more).len(),
            more == e.path@,
            !found ==> holds_more(path_set(*set), entries, more, n as int),
            found ==> holds_more(path_set(*set), entries, more, -1),
        decreases
            n,
            (if found {
                0int
            } else {
                1int
            }),
    {
        let form = leading_path(e.path.as_slice(), n);
        let ghost before = path_set(*set);
        let ghost way = form@;
        let added: bool = set_insert(set, form);
        proof {
            lemma_leading(more, n as int);
            lemma_one_more_way(before, entries, more, n as int);
            if !added {
                lemma_ways_known(before, entries, more, n as int);
                assert(before.insert(way) =~= before);
            }
        }
        if !added || n == 0 {
            found = true;
        } else {
            n = n - 1;
        }
    }
    proof {
        lemma_needed_push(entries, e@);
    }
}

/// The paths that lead to one of the entries, in normal form.
fn needed_paths(src: &Vec<&FileEntry>) -> (set: FxHashSet<Vec<u8>>)
    ensures
        holds_ways(path_set(set), ref_views(src@)),
{
    let ghost views = ref_views(src@);
    let mut set: FxHashSet<Vec<u8>> = set_new();
    let mut i: usize = 0;
    assert(holds_ways(path_set(set), views.take(0)));
    while i < src.len()
        invariant
            i <= src@.len(),
            views == ref_views(src@),
            holds_ways(path_set(set), views.take(i as int)),
        decreases src@.len() - i,
    {
        add_way(&mut set, src[i], Ghost(views.take(i as int)));
        assert(views.take(i as int).push(src@[i as int]@) =~= views.take(i + 1));
        i = i + 1;
    }
    assert(views.take(i as int) =~= views);
    set
}

/// A path with `n` components that leads to `more` is its start.
proof fn lemma_way_is_leading(path: Seq<u8>, more: Seq<u8>, n: int)
    requires
        0 <= n <= parts(more).len(),
    ensures
        normal(path) == leading(more, n) <==> leads_to(path, more) && parts(path).len() == n,
{
    lemma_leading(more, n);
    law_normal_form_tells_paths_apart(path, leading(more, n));
    assert(parts(more).take(n).len() == n);
    if leads_to(path, more) && parts(path).len() == n {
        assert(parts(path) =~= parts(more).take(n));
    }
}

proof fn lemma_one_more_way(set: Set<Seq<u8>>, entries: Seq<EntryView>, more: Seq<u8>, n: int)
    requires
        0 <= n <= parts(more).len(),
        holds_more(set, entries, more, n),
    ensures
        holds_more(set.insert(leading(more, n)), entries, more, n - 1),
{
    let all = set.insert(leading(more, n));
    assert forall|path: Seq<u8>|
        all.contains(normal(path)) <==> #[trigger] is_needed(path, entries) || (leads_to(path, more)
            && parts(path).len() > n - 1) by {
        lemma_way_is_leading(path, more, n);
        assert(set.contains(normal(path)) <==> is_needed(path, entries) || (leads_to(path, more)
            && parts(path).len() > n));
    }
}

/// Where the start of a path is known, so are those before it.
proof fn lemma_ways_known(set: Set<Seq<u8>>, entries: Seq<EntryView>, more: Seq<u8>, n: int)
    requires
        0 <= n <= parts(more).len(),
        holds_more(set, entries, more, n),
        set.contains(leading(more, n)),
    ensures
        holds_more(set, entries, more, -1),
{
    let way = leading(more, n);
    lemma_leading(more, n);
    assert(parts(more).take(n).len() == n);
    assert(set.contains(normal(way)));
    assert(is_needed(way, entries));
    let i = choose|i: int| 0 <= i < entries.len() && leads_to(way, #[trigger] entries[i].path);
    assert forall|path: Seq<u8>|
        set.contains(normal(path)) <==> #[trigger] is_needed(path, entries) || (leads_to(path, more)
            && parts(path).len() > -1) by {
        if leads_to(path, more) && parts(path).len() <= n {
            assert(parts(path) =~= parts(way).take(parts(path).len() as int));
            assert(parts(path) =~= parts(entries[i].path).take(parts(path).len() as int));
            assert(leads_to(path, entries[i].path));
            assert(is_needed(path, entries));
        }
        assert(set.contains(normal(path)) <==> is_needed(path, entries) || (leads_to(path, more)
            && parts(path).len() > n));
    }
}

/// What one more entry needs.
proof fn lemma_needed_push(entries: Seq<EntryView>, e: EntryView)
    ensures
        forall|path: Seq<u8>|
            #![trigger is_needed(path, entries)]
            #![trigger is_needed(path, entries.push(e))]
            is_needed(path, entries.push(e)) <==> is_needed(path, entries) || leads_to(
                path,
                e.path,
            ),
{
    let all = entries.push(e);
    assert forall|path: Seq<u8>|
        #![trigger is_needed(path, entries)]
        #![trigger is_needed(path, entries.push(e))]
        is_needed(path, all) <==> is_needed(path, entries) || leads_to(path, e.path) by {
        if is_needed(path, entries) {
            let i = choose|i: int|
                0 <= i < entries.len() && leads_to(path, #[trigger] entries[i].path);
            assert(leads_to(path, all[i].path));
        }
        assert(all[entries.len() as int] == e);
        if is_needed(path, all) {
            let i = choose|i: int| 0 <= i < all.len() && leads_to(path, #[trigger] all[i].path);
            if i < entries.len() {
                assert(leads_to(path, entries[i].path));
            }
        }
    }
}

/// The entries of the destination that are deleted, in order. `src` are the
/// entries of the source that take part.
pub fn plan_deletions<'a>(
    dst: &'a Vec<FileEntry>,
    src: &Vec<&FileEntry>,
    opts: &SyncOpts,
) -> (list: Vec<&'a FileEntry>)
    ensures
        ref_views(list@) == deletions(
            crate::flist::entry_views(dst@),
            ref_views(src@),
            *opts,
        ),
{
    let mut list: Vec<&'a FileEntry> = Vec::new();
    assert(ref_views(list@) =~= Seq::empty());
    if !opts.delete || opts.dry_run {
        return list;
    }
    let kept: FxHashSet<Vec<u8>> = needed_paths(src);
    let ghost views = crate::flist::entry_views(dst@);
    let ghost src_views = ref_views(src@);
    let mut i: usize = 0;
    assert(views.take(0) =~= Seq::empty());
    while i < dst.len()
        invariant
            i <= dst@.len(),
            views == crate::flist::entry_views(dst@),
            src_views == ref_views(src@),
            holds_ways(path_set(kept), src_views),
            ref_views(list@) == stale(views.take(i as int), src_views),
        decreases dst@.len() - i,
    {
        assert(views.take(i + 1).drop_last() =~= views.take(i as int));
        let e = &dst[i];
        let form = normal_path(e.path.as_slice());
        assert(is_needed(e.path@, src_views) == path_set(kept).contains(form@));
        if !set_contains(&kept, &form) {
            let ghost before = ref_views(list@);
            list.push(e);
            assert(ref_views(list@) =~= before.push(e@));
        }
        i = i + 1;
    }
    assert(views.take(i as int) =~= views);
    list
}

// ---------------------------------------------------------------------------
// Laws
// ---------------------------------------------------------------------------

/// A dry run prepares nothing and deletes nothing.
pub proof fn law_dry_run_changes_nothing(
    src: Seq<EntryView>,
    dst: Seq<EntryView>,
    opts: SyncOpts,
)
    requires
        opts.dry_run,
    ensures
        preparation(src, opts.dry_run).len() == 0,
        deletions(dst, src, opts).len() == 0,
{
}

/// Exactly the entries that take part are selected; no file among them is larger
/// or smaller than the limits allow, and none has a path that the filter rules
/// leave out.
pub proof fn law_selection_is_what_takes_part(
    entries: Seq<EntryView>,
    opts: SyncOpts,
    e: EntryView,
)
    ensures
        selection(entries, opts).contains(e) <==> entries.contains(e) && takes_part(e, opts),
        selection(entries, opts).contains(e) && e.kind is Regular ==> {
            &&& opts.max_size matches Some(max) ==> e.size <= max
            &&& opts.min_size matches Some(min) ==> e.size >= min
        },
        selection(entries, opts).contains(e) ==> allowed(
            opts.filter@,
            lossy_text(e.path),
            e.kind is Dir,
        ),
    decreases entries.len(),
{
    if entries.len() > 0 {
        let shorter = entries.drop_last();
        let before = selection(shorter, opts);
        law_selection_is_what_takes_part(shorter, opts, e);
        assert(entries =~= shorter.push(entries.last()));
        lemma_contains_push(shorter, entries.last());
        lemma_contains_push(before, entries.last());
    }
}

/// The path stays inside the destination: it is relative and none of its names
/// is `.` or `..`.
pub open spec fn is_confined(path: Seq<u8>) -> bool {
    clean(path) == Ok::<Seq<u8>, PathError>(path) && plain_names(names(path))
}

/// A step writes only inside the destination, and makes no link that leads out
/// of it.
pub open spec fn step_is_safe(step: StepView) -> bool {
    match step {
        StepView::MakeDir(path) => is_confined(path),
        StepView::MakeLink { path, target, .. } => is_confined(path) && stays_inside(target),
        _ => true,
    }
}

/// Whatever the source holds, every step writes only inside the destination,
/// and no link is made that leads out of it.
pub proof fn law_preparation_is_safe(entries: Seq<EntryView>, dry_run: bool, i: int)
    requires
        0 <= i < preparation(entries, dry_run).len(),
    ensures
        step_is_safe(preparation(entries, dry_run)[i]),
{
    let a = dir_steps(entries);
    let b = check_steps(file_parents(entries));
    if i < a.len() {
        lemma_dir_steps_safe(entries, i);
    } else if i >= a.len() + b.len() {
        lemma_link_steps_safe(entries, i - a.len() - b.len());
    }
}

proof fn lemma_clean_confined(rel: Seq<u8>)
    requires
        clean(rel) is Ok,
    ensures
        is_confined(clean(rel)->Ok_0),
{
    law_clean_is_clean(rel);
}

proof fn lemma_dir_steps_safe(entries: Seq<EntryView>, i: int)
    requires
        0 <= i < dir_steps(entries).len(),
    ensures
        step_is_safe(dir_steps(entries)[i]),
    decreases entries.len(),
{
    if i < dir_steps(entries.drop_last()).len() {
        lemma_dir_steps_safe(entries.drop_last(), i);
    } else if clean(entries.last().path) is Ok {
        lemma_clean_confined(entries.last().path);
    }
}

proof fn lemma_link_steps_safe(entries: Seq<EntryView>, i: int)
    requires
        0 <= i < link_steps(entries).len(),
    ensures
        step_is_safe(link_steps(entries)[i]),
    decreases entries.len(),
{
    if i < link_steps(entries.drop_last()).len() {
        lemma_link_steps_safe(entries.drop_last(), i);
    } else if clean(entries.last().path) is Ok {
        lemma_clean_confined(entries.last().path);
    }
}

/// Before files are copied, the directory of each of them, unless it is the
/// root, is checked.
pub proof fn law_every_file_parent_is_checked(entries: Seq<EntryView>, i: int)
    requires
        0 <= i < entries.len(),
        entries[i].kind is Regular,
        parent(entries[i].path) is Some,
        parent(entries[i].path)->0.len() > 0,
    ensures
        preparation(entries, false).contains(StepView::CheckParent(parent(entries[i].path)->0)),
{
    let dir = parent(entries[i].path)->0;
    let dirs = file_parents(entries);
    lemma_parent_listed(entries, i);
    let k = dirs.index_of(dir);
    assert(check_steps(dirs)[k] == StepView::CheckParent(dir));
    assert(preparation(entries, false)[dir_steps(entries).len() + k] == StepView::CheckParent(dir));
}

proof fn lemma_parent_listed(entries: Seq<EntryView>, i: int)
    requires
        0 <= i < entries.len(),
        entries[i].kind is Regular,
        parent(entries[i].path) is Some,
        parent(entries[i].path)->0.len() > 0,
    ensures
        file_parents(entries).contains(parent(entries[i].path)->0),
    decreases entries.len(),
{
    let before = file_parents(entries.drop_last());
    if i < entries.len() - 1 {
        lemma_parent_listed(entries.drop_last(), i);
    }
    match parent(entries.last().path) {
        Some(dir) => {
            lemma_contains_push(before, dir);
        },
        None => {},
    }
}

/// With deletion, an entry of the destination is deleted exactly where no entry
/// of the source that takes part has its path or lies below it. What a filter
/// leaves out counts as absent.
pub proof fn law_delete_removes_what_is_absent(
    dst: Seq<EntryView>,
    source: Seq<EntryView>,
    opts: SyncOpts,
    e: EntryView,
)
    requires
        opts.delete,
        !opts.dry_run,
        dst.contains(e),
    ensures
        deletions(dst, selection(source, opts), opts).contains(e) <==> !exists|i: int|
            0 <= i < source.len() && takes_part(#[trigger] source[i], opts) && leads_to(
                e.path,
                source[i].path,
            ),
{
    lemma_stale(dst, selection(source, opts), e);
    lemma_needed_selection(source, opts, e.path);
}

/// Nothing that is deleted is, or holds, an entry of the source: the components
/// of its path are not the first components of the path of any.
pub proof fn law_delete_spares_what_is_listed(
    dst: Seq<EntryView>,
    src: Seq<EntryView>,
    opts: SyncOpts,
    e: EntryView,
    i: int,
)
    requires
        deletions(dst, src, opts).contains(e),
        0 <= i < src.len(),
    ensures
        !parts(e.path).is_prefix_of(parts(src[i].path)),
{
    lemma_stale(dst, src, e);
    if leads_to(e.path, src[i].path) {
        assert(is_needed(e.path, src));
    }
}

/// What a run leaves at the destination, the next one with the same source does
/// not delete. Left are entries that were there and were not deleted, and those
/// that the run has made.
pub proof fn law_second_run_deletes_nothing(
    first: Seq<EntryView>,
    second: Seq<EntryView>,
    src: Seq<EntryView>,
    opts: SyncOpts,
)
    requires
        forall|j: int|
            0 <= j < second.len() ==> (first.contains(#[trigger] second[j]) && !deletions(
                first,
                src,
                opts,
            ).contains(second[j])) || is_needed(second[j].path, src),
    ensures
        deletions(second, src, opts).len() == 0,
{
    let gone = deletions(second, src, opts);
    if gone.len() > 0 {
        let e = gone[0];
        assert(gone.contains(e));
        lemma_stale(second, src, e);
        lemma_stale(first, src, e);
        let j = second.index_of(e);
        assert(second[j] == e);
    }
}

proof fn lemma_stale(dst: Seq<EntryView>, src: Seq<EntryView>, e: EntryView)
    ensures
        stale(dst, src).contains(e) <==> dst.contains(e) && !is_needed(e.path, src),
    decreases dst.len(),
{
    if dst.len() > 0 {
        let shorter = dst.drop_last();
        lemma_stale(shorter, src, e);
        assert(dst =~= shorter.push(dst.last()));
        lemma_contains_push(shorter, dst.last());
        lemma_contains_push(stale(shorter, src), dst.last());
    }
}

proof fn lemma_needed_selection(source: Seq<EntryView>, opts: SyncOpts, path: Seq<u8>)
    ensures
        is_needed(path, selection(source, opts)) <==> exists|i: int|
            0 <= i < source.len() && takes_part(#[trigger] source[i], opts) && leads_to(
                path,
                source[i].path,
            ),
{
    let all = selection(source, opts);
    if is_needed(path, all) {
        let k = choose|k: int| 0 <= k < all.len() && leads_to(path, #[trigger] all[k].path);
        law_selection_is_what_takes_part(source, opts, all[k]);
        assert(all.contains(all[k]));
        let i = source.index_of(all[k]);
        assert(source[i] == all[k]);
    }
    if exists|i: int|
        0 <= i < source.len() && takes_part(#[trigger] source[i], opts) && leads_to(
            path,
            source[i].path,
        ) {
        let i = choose|i: int|
            0 <= i < source.len() && takes_part(#[trigger] source[i], opts) && leads_to(
                path,
                source[i].path,
            );
        law_selection_is_what_takes_part(source, opts, source[i]);
        assert(source.contains(source[i]));
        let k = all.index_of(source[i]);
        assert(all[k] == source[i]);
        assert(leads_to(path, all[k].path));
    }
}

/// An entry takes part exactly where the filter rules let its path through and,
/// for a regular file, its size is neither above the one limit nor below the
/// other; a limit that is not set leaves out nothing.
pub proof fn law_takes_part_by_rules_and_size(e: EntryView, opts: SyncOpts)
    ensures
        takes_part(e, opts) <==> {
            &&& allowed(opts.filter@, lossy_text(e.path), e.kind is Dir)
            &&& e.kind is Regular && opts.max_size is Some ==> e.size <= opts.max_size->0
            &&& e.kind is Regular && opts.min_size is Some ==> e.size >= opts.min_size->0
        },
{
}

/// Entries are selected one by one, in order: those of two lists together are
/// those of the one, then those of the other.
pub proof fn law_selection_keeps_the_order(a: Seq<EntryView>, b: Seq<EntryView>, opts: SyncOpts)
    ensures
        selection(a + b, opts) == selection(a, opts) + selection(b, opts),
        a.len() == 1 ==> selection(a, opts) == if takes_part(a[0], opts) {
            a
        } else {
            Seq::empty()
        },
    decreases b.len(),
{
    if a.len() == 1 {
        reveal_with_fuel(selection, 2);
        assert(a.drop_last() =~= Seq::empty());
        assert(Seq::empty().push(a[0]) =~= a);
    }
    if b.len() == 0 {
        assert(a + b =~= a);
        assert(selection(a, opts) + Seq::empty() =~= selection(a, opts));
    } else {
        assert((a + b).drop_last() =~= a + b.drop_last());
        law_selection_keeps_the_order(a, b.drop_last(), opts);
        assert(selection(a + b, opts) =~= selection(a, opts) + selection(b, opts));
    }
}

/// The regular files of two lists together are those of the one, then those of
/// the other; of one entry, it where it is regular.
pub proof fn law_regulars_keep_the_order(a: Seq<EntryView>, b: Seq<EntryView>)
    ensures
        regulars(a + b) == regulars(a) + regulars(b),
        a.len() == 1 ==> regulars(a) == if a[0].kind is Regular {
            a
        } else {
            Seq::empty()
        },
    decreases b.len(),
{
    if a.len() == 1 {
        reveal_with_fuel(regulars, 2);
        assert(a.drop_last() =~= Seq::empty());
        assert(Seq::empty().push(a[0]) =~= a);
    }
    if b.len() == 0 {
        assert(a + b =~= a);
        assert(regulars(a) + Seq::empty() =~= regulars(a));
    } else {
        assert((a + b).drop_last() =~= a + b.drop_last());
        law_regulars_keep_the_order(a, b.drop_last());
        assert(regulars(a + b) =~= regulars(a) + regulars(b));
    }
}

/// The sizes of two lists together are their sum, and that of one entry is its
/// size, all as far as 64 bits hold them.
pub proof fn law_sizes_add_up(a: Seq<EntryView>, b: Seq<EntryView>)
    ensures
        0 <= size_total(a) <= u64::MAX,
        size_total(a + b) == (size_total(a) + size_total(b)) % 0x1_0000_0000_0000_0000,
        a.len() == 1 ==> size_total(a) == a[0].size,
    decreases b.len(),
{
    lemma_size_bounds(a);
    if a.len() == 1 {
        reveal_with_fuel(size_total, 2);
        assert(a.drop_last().len() == 0);
    }
    if b.len() == 0 {
        assert(a + b =~= a);
    } else {
        assert((a + b).drop_last() =~= a + b.drop_last());
        assert((a + b).last() == b.last());
        law_sizes_add_up(a, b.drop_last());
        lemma_size_bounds(b.drop_last());
    }
}

proof fn lemma_size_bounds(a: Seq<EntryView>)
    ensures
        0 <= size_total(a) <= u64::MAX,
    decreases a.len(),
{
    if a.len() > 0 {
        lemma_size_bounds(a.drop_last());
    }
}

/// Every directory that takes part is made, and every link is: put in place where
/// it stays inside, left out with a warning where it leads out; a path that may
/// not be used is refused. So for every entry in the list, but in a dry run.
pub proof fn law_every_directory_and_link_is_prepared(entries: Seq<EntryView>, i: int)
    requires
        0 <= i < entries.len(),
    ensures
        entries[i].kind is Dir ==> match clean(entries[i].path) {
            Ok(path) => preparation(entries, false).contains(StepView::MakeDir(path)),
            Err(error) => preparation(entries, false).contains(
                StepView::Refuse { path: entries[i].path, error },
            ),
        },
        entries[i].kind matches EntryKindView::Symlink { target } ==> if !stays_inside(target) {
            preparation(entries, false).contains(StepView::SkipLink(entries[i].path))
        } else {
            match clean(entries[i].path) {
                Ok(path) => preparation(entries, false).contains(
                    StepView::MakeLink { path, target, mtime: entries[i].mtime },
                ),
                Err(error) => preparation(entries, false).contains(
                    StepView::Refuse { path: entries[i].path, error },
                ),
            }
        },
{
    let a = dir_steps(entries);
    let b = check_steps(file_parents(entries));
    let c = link_steps(entries);
    let all = preparation(entries, false);
    match entries[i].kind {
        EntryKindView::Dir => {
            lemma_dir_step(entries, i);
            let k = a.index_of(dir_step(entries[i]));
            assert(all[k] == a[k]);
        },
        EntryKindView::Symlink { target } => {
            lemma_link_step(entries, i, target);
            let k = c.index_of(link_step(entries[i], target));
            assert(all[a.len() + b.len() + k] == c[k]);
        },
        _ => {},
    }
}

proof fn lemma_dir_step(entries: Seq<EntryView>, i: int)
    requires
        0 <= i < entries.len(),
        entries[i].kind is Dir,
    ensures
        dir_steps(entries).contains(dir_step(entries[i])),
    decreases entries.len(),
{
    let before = dir_steps(entries.drop_last());
    lemma_contains_push(before, dir_step(entries.last()));
    if i < entries.len() - 1 {
        lemma_dir_step(entries.drop_last(), i);
    }
}

proof fn lemma_link_step(entries: Seq<EntryView>, i: int, target: Seq<u8>)
    requires
        0 <= i < entries.len(),
        entries[i].kind == (EntryKindView::Symlink { target }),
    ensures
        link_steps(entries).contains(link_step(entries[i], target)),
    decreases entries.len(),
{
    let before = link_steps(entries.drop_last());
    match entries.last().kind {
        EntryKindView::Symlink { target: last } => {
            lemma_contains_push(before, link_step(entries.last(), last));
        },
        _ => {},
    }
    if i < entries.len() - 1 {
        lemma_link_step(entries.drop_last(), i, target);
    }
}

/// Directories are made before anything is checked, and links come last: so no
/// step needs a directory that a later one makes.
pub proof fn law_directories_come_first(entries: Seq<EntryView>, i: int, k: int)
    requires
        0 <= i < k < preparation(entries, false).len(),
        preparation(entries, false)[k] is MakeDir,
    ensures
        preparation(entries, false)[i] is MakeDir || preparation(entries, false)[i] is Refuse,
{
    let a = dir_steps(entries);
    let b = check_steps(file_parents(entries));
    lemma_step_kinds(entries);
    if k >= a.len() + b.len() {
        let c = link_steps(entries);
        assert(preparation(entries, false)[k] == c[k - a.len() - b.len()]);
    }
}

proof fn lemma_step_kinds(entries: Seq<EntryView>)
    ensures
        forall|i: int|
            0 <= i < dir_steps(entries).len() ==> (#[trigger] dir_steps(entries)[i]) is MakeDir
                || dir_steps(entries)[i] is Refuse,
        forall|i: int|
            0 <= i < link_steps(entries).len() ==> !((#[trigger] link_steps(entries)[i]) is MakeDir),
    decreases entries.len(),
{
    if entries.len() > 0 {
        lemma_step_kinds(entries.drop_last());
    }
}

/// Entries are deleted one by one, in order, and none where deletion is not asked
/// for.
pub proof fn law_deletions_keep_the_order(
    a: Seq<EntryView>,
    b: Seq<EntryView>,
    src: Seq<EntryView>,
    opts: SyncOpts,
)
    ensures
        !opts.delete ==> deletions(a, src, opts).len() == 0,
        deletions(a + b, src, opts) == deletions(a, src, opts) + deletions(b, src, opts),
{
    lemma_stale_join(a, b, src);
    assert(Seq::<EntryView>::empty() + Seq::<EntryView>::empty() =~= Seq::empty());
}

proof fn lemma_stale_join(a: Seq<EntryView>, b: Seq<EntryView>, src: Seq<EntryView>)
    ensures
        stale(a + b, src) == stale(a, src) + stale(b, src),
    decreases b.len(),
{
    if b.len() == 0 {
        assert(a + b =~= a);
        assert(stale(a, src) + Seq::empty() =~= stale(a, src));
    } else {
        assert((a + b).drop_last() =~= a + b.drop_last());
        lemma_stale_join(a, b.drop_last(), src);
        assert(stale(a + b, src) =~= stale(a, src) + stale(b, src));
    }
}

/// Nothing else is prepared: every directory that is made, every link that is put
/// in place or left out, every path that is refused and every check is for an entry
/// of the list.
pub proof fn law_nothing_else_is_prepared(entries: Seq<EntryView>, k: int)
    requires
        0 <= k < preparation(entries, false).len(),
    ensures
        exists|i: int|
            0 <= i < entries.len() && is_step_for(
                preparation(entries, false)[k],
                #[trigger] entries[i],
            ),
{
    let a = dir_steps(entries);
    let b = check_steps(file_parents(entries));
    let c = link_steps(entries);
    let all = preparation(entries, false);
    if k < a.len() {
        assert(all[k] == a[k]);
        lemma_dir_step_for(entries, k);
    } else if k < a.len() + b.len() {
        let n = k - a.len();
        assert(all[k] == b[n]);
        lemma_parent_of(entries, n);
    } else {
        let n = k - a.len() - b.len();
        assert(all[k] == c[n]);
        lemma_link_step_for(entries, n);
    }
}

/// The step is one that the entry calls for.
pub open spec fn is_step_for(step: StepView, e: EntryView) -> bool {
    match step {
        StepView::MakeDir(path) => e.kind is Dir && clean(e.path) == Ok::<Seq<u8>, PathError>(path),
        StepView::CheckParent(dir) => e.kind is Regular && parent(e.path) == Some(dir),
        StepView::MakeLink { path, target, mtime } => e.kind == (EntryKindView::Symlink { target })
            && clean(e.path) == Ok::<Seq<u8>, PathError>(path) && stays_inside(target) && mtime
            == e.mtime,
        StepView::SkipLink(path) => path == e.path && (e.kind matches EntryKindView::Symlink {
            target,
        } && !stays_inside(target)),
        StepView::Refuse { path, error } => path == e.path && clean(e.path) == Err::<
            Seq<u8>,
            PathError,
        >(error),
    }
}

proof fn lemma_dir_step_for(entries: Seq<EntryView>, k: int)
    requires
        0 <= k < dir_steps(entries).len(),
    ensures
        exists|i: int|
            0 <= i < entries.len() && is_step_for(dir_steps(entries)[k], #[trigger] entries[i]),
    decreases entries.len(),
{
    let shorter = entries.drop_last();
    if k < dir_steps(shorter).len() {
        lemma_dir_step_for(shorter, k);
        let i = choose|i: int|
            0 <= i < shorter.len() && is_step_for(dir_steps(shorter)[k], #[trigger] shorter[i]);
        assert(entries[i] == shorter[i]);
    } else {
        assert(is_step_for(dir_steps(entries)[k], entries[entries.len() - 1]));
    }
}

proof fn lemma_link_step_for(entries: Seq<EntryView>, k: int)
    requires
        0 <= k < link_steps(entries).len(),
    ensures
        exists|i: int|
            0 <= i < entries.len() && is_step_for(link_steps(entries)[k], #[trigger] entries[i]),
    decreases entries.len(),
{
    let shorter = entries.drop_last();
    if k < link_steps(shorter).len() {
        lemma_link_step_for(shorter, k);
        let i = choose|i: int|
            0 <= i < shorter.len() && is_step_for(link_steps(shorter)[k], #[trigger] shorter[i]);
        assert(entries[i] == shorter[i]);
    } else {
        assert(is_step_for(link_steps(entries)[k], entries[entries.len() - 1]));
    }
}

proof fn lemma_parent_of(entries: Seq<EntryView>, k: int)
    requires
        0 <= k < file_parents(entries).len(),
    ensures
        exists|i: int|
            0 <= i < entries.len() && is_step_for(
                StepView::CheckParent(file_parents(entries)[k]),
                #[trigger] entries[i],
            ),
    decreases entries.len(),
{
    let shorter = entries.drop_last();
    if k < file_parents(shorter).len() {
        lemma_parent_of(shorter, k);
        let i = choose|i: int|
            0 <= i < shorter.len() && is_step_for(
                StepView::CheckParent(file_parents(shorter)[k]),
                #[trigger] shorter[i],
            );
        assert(entries[i] == shorter[i]);
    } else {
        assert(is_step_for(
            StepView::CheckParent(file_parents(entries)[k]),
            entries[entries.len() - 1],
        ));
    }
}

} // verus!
