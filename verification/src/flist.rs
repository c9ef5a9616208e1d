//! The list of files that a tree holds.

use crate::text::chars_of;
use vstd::prelude::*;
use vstd::slice::slice_to_vec;

verus! {

/// What an entry is.
#[derive(Debug, Clone, PartialEq, Eq)]
pub enum EntryKind {
    Regular,
    Dir,
    Symlink { target: Vec<u8> },
    Other,
}

/// What an entry is, as a value.
pub enum EntryKindView {
    Regular,
    Dir,
    Symlink { target: Seq<u8> },
    Other,
}

impl View for EntryKind {
    type V = EntryKindView;

    open spec fn view(&self) -> EntryKindView {
        match self {
            EntryKind::Regular => EntryKindView::Regular,
            EntryKind::Dir => EntryKindView::Dir,
            EntryKind::Symlink { target } => EntryKindView::Symlink { target: target@ },
            EntryKind::Other => EntryKindView::Other,
        }
    }
}

/// A file, a directory or a link of a tree. The path is relative to the root
/// of the tree; it and the target of a link are bytes, as the operating system
/// has them.
#[derive(Debug, Clone)]
pub struct FileEntry {
    pub path: Vec<u8>,
    pub size: u64,
    pub mtime: i64,
    pub mode: u32,
    pub uid: u32,
    pub gid: u32,
    pub kind: EntryKind,
}

/// An entry as a value.
pub struct EntryView {
    pub path: Seq<u8>,
    pub size: u64,
    pub mtime: i64,
    pub mode: u32,
    pub uid: u32,
    pub gid: u32,
    pub kind: EntryKindView,
}

impl View for FileEntry {
    type V = EntryView;

    open spec fn view(&self) -> EntryView {
        EntryView {
            path: self.path@,
            size: self.size,
            mtime: self.mtime,
            mode: self.mode,
            uid: self.uid,
            gid: self.gid,
            kind: self.kind@,
        }
    }
}

impl FileEntry {
    /// Tests for a regular file.
    pub fn is_regular(&self) -> (b: bool)
        ensures
            b == (self@.kind is Regular),
    {
        match self.kind {
            EntryKind::Regular => true,
            _ => false,
        }
    }

    /// Tests for a directory.
    pub fn is_dir(&self) -> (b: bool)
        ensures
            b == (self@.kind is Dir),
    {
        match self.kind {
            EntryKind::Dir => true,
            _ => false,
        }
    }
}

/// What the operating system says of a file, without following links.
#[derive(Debug, Clone)]
pub struct ItemMeta {
    pub dev: u64,
    pub is_symlink: bool,
    pub is_dir: bool,
    pub is_file: bool,
    pub len: u64,
    /// Whole seconds since 1970, where the time is known and not before that.
    pub mtime: Option<u64>,
    pub mode: u32,
    pub uid: u32,
    pub gid: u32,
    /// Where a link leads; empty where that cannot be read.
    pub target: Vec<u8>,
}

/// What a walk through a tree came upon.
#[derive(Debug, Clone)]
pub struct WalkItem {
    /// The path relative to the root of the walk, where it lies below.
    pub path: Option<Vec<u8>>,
    /// The last name on the path, where it is text.
    pub name: Option<String>,
    /// What is known of it, where that can be had.
    pub meta: Option<ItemMeta>,
}

/// The name is that of a companion file in which macOS keeps metadata.
pub open spec fn is_apple_double(name: Option<String>) -> bool {
    name matches Some(s) && s@.len() >= 2 && s@[0] == '.' && s@[1] == '_'
}

/// What an item is.
pub open spec fn item_kind(meta: ItemMeta) -> EntryKindView {
    if meta.is_symlink {
        EntryKindView::Symlink { target: meta.target@ }
    } else if meta.is_dir {
        EntryKindView::Dir
    } else if meta.is_file {
        EntryKindView::Regular
    } else {
        EntryKindView::Other
    }
}

/// The entry for an item. There is none for the root itself, for what does not
/// lie below it, for companion files, for what nothing is known of, and, where
/// the walk is to stay on one device, for what lies on another and is no link.
pub open spec fn item_entry(item: WalkItem, root_dev: Option<u64>) -> Option<EntryView> {
    match (item.path, item.meta) {
        (Some(path), Some(meta)) => if path@.len() == 0 || is_apple_double(item.name) || (root_dev
            is Some && root_dev->0 != meta.dev && !meta.is_symlink) {
            None
        } else {
            Some(
                EntryView {
                    path: path@,
                    size: meta.len,
                    mtime: match meta.mtime {
                        Some(secs) => secs as i64,
                        None => 0,
                    },
                    mode: meta.mode,
                    uid: meta.uid,
                    gid: meta.gid,
                    kind: item_kind(meta),
                },
            )
        },
        _ => None,
    }
}

/// The entries for the items, in the order of the walk.
pub open spec fn listed(items: Seq<WalkItem>, root_dev: Option<u64>) -> Seq<EntryView>
    decreases items.len(),
{
    if items.len() == 0 {
        Seq::empty()
    } else {
        let before = listed(items.drop_last(), root_dev);
        match item_entry(items.last(), root_dev) {
            Some(entry) => before.push(entry),
            None => before,
        }
    }
}

/// The entries of a list, as values.
pub open spec fn entry_views(entries: Seq<FileEntry>) -> Seq<EntryView> {
    Seq::new(entries.len(), |i: int| entries[i]@)
}

/// The entries of a tree.
pub struct FileList(pub Vec<FileEntry>);

impl View for FileList {
    type V = Seq<EntryView>;

    open spec fn view(&self) -> Seq<EntryView> {
        entry_views(self.0@)
    }
}

impl FileList {
    /// The list of what a walk came upon.
    pub fn build(items: Vec<WalkItem>, root_dev: Option<u64>) -> (list: FileList)
        ensures
            list@ == listed(items@, root_dev),
    {
        let mut entries: Vec<FileEntry> = Vec::new();
        let mut i: usize = 0;
        assert(items@.take(0) =~= Seq::empty());
        assert(entry_views(entries@) =~= listed(items@.take(0), root_dev));
        while i < items.len()
            invariant
                i <= items@.len(),
                entry_views(entries@) == listed(items@.take(i as int), root_dev),
            decreases items@.len() - i,
        {
            assert(items@.take(i + 1).drop_last() =~= items@.take(i as int));
            match entry_of(&items[i], root_dev) {
                Some(entry) => {
                    let ghost before = entry_views(entries@);
                    entries.push(entry);
                    assert(entry_views(entries@) =~= before.push(entry@));
                },
                None => {},
            }
            i = i + 1;
        }
        assert(items@.take(i as int) =~= items@);
        FileList(entries)
    }

    /// A list without entries.
    pub fn empty() -> (list: FileList)
        ensures
            list@ == Seq::<EntryView>::empty(),
    {
        let list = FileList(Vec::new());
        assert(list@ =~= Seq::<EntryView>::empty());
        list
    }

    /// How many entries there are.
    pub fn len(&self) -> (n: usize)
        ensures
            n == self@.len(),
    {
        self.0.len()
    }
}

/// Tests for the name of a companion file.
fn apple_double(name: &Option<String>) -> (b: bool)
    ensures
        b == is_apple_double(*name),
{
    match name {
        Some(s) => {
            let chars: Vec<char> = chars_of(s.as_str());
            chars.len() >= 2 && chars[0] == '.' && chars[1] == '_'
        },
        None => false,
    }
}

/// The entry for an item, where there is one.
fn entry_of(item: &WalkItem, root_dev: Option<u64>) -> (entry: Option<FileEntry>)
    ensures
        match entry {
            Some(e) => item_entry(*item, root_dev) == Some(e@),
            None => item_entry(*item, root_dev) is None,
        },
{
    let path = match &item.path {
        Some(path) => path,
        None => {
            return None;
        },
    };
    let meta = match &item.meta {
        Some(meta) => meta,
        None => {
            return None;
        },
    };
    if path.len() == 0 || apple_double(&item.name) {
        return None;
    }
    match root_dev {
        Some(dev) => {
            if dev != meta.dev && !meta.is_symlink {
                return None;
            }
        },
        None => {},
    }
    let mtime: i64 = match meta.mtime {
        Some(secs) => secs as i64,
        None => 0,
    };
    let kind = if meta.is_symlink {
        EntryKind::Symlink { target: slice_to_vec(meta.target.as_slice()) }
    } else if meta.is_dir {
        EntryKind::Dir
    } else if meta.is_file {
        EntryKind::Regular
    } else {
        EntryKind::Other
    };
    Some(
        FileEntry {
            path: slice_to_vec(path.as_slice()),
            size: meta.len,
            mtime,
            mode: meta.mode,
            uid: meta.uid,
            gid: meta.gid,
            kind,
        },
    )
}

// ---------------------------------------------------------------------------
// Laws
// ---------------------------------------------------------------------------

/// Every file, directory and link that the walk came upon below the root, and of
/// which something is known, is listed with what the operating system says of it,
/// unless its name begins with `._`, or the walk is to stay on one device and it
/// lies on another and is no link.
pub proof fn law_every_item_is_listed(
    items: Seq<WalkItem>,
    root_dev: Option<u64>,
    i: int,
    path: Vec<u8>,
    meta: ItemMeta,
)
    requires
        0 <= i < items.len(),
        items[i].path == Some(path),
        items[i].meta == Some(meta),
        path@.len() > 0,
        items[i].name matches Some(s) ==> !(s@.len() >= 2 && s@[0] == '.' && s@[1] == '_'),
        root_dev matches Some(dev) ==> dev == meta.dev || meta.is_symlink,
        meta.mtime matches Some(secs) ==> secs <= i64::MAX,
    ensures
        exists|k: int|
            0 <= k < listed(items, root_dev).len() && is_entry_of(
                #[trigger] listed(items, root_dev)[k],
                path@,
                meta,
            ),
    decreases items.len(),
{
    let before = listed(items.drop_last(), root_dev);
    let all = listed(items, root_dev);
    if i < items.len() - 1 {
        law_every_item_is_listed(items.drop_last(), root_dev, i, path, meta);
        let k = choose|k: int|
            0 <= k < before.len() && is_entry_of(#[trigger] before[k], path@, meta);
        assert(all[k] == before[k]);
    } else {
        assert(is_entry_of(all[before.len() as int], path@, meta));
    }
}

/// The entry has this path and says what the operating system says.
pub open spec fn is_entry_of(e: EntryView, path: Seq<u8>, meta: ItemMeta) -> bool {
    &&& e.path == path
    &&& e.size == meta.len
    &&& e.mtime == match meta.mtime {
        Some(secs) => secs as int,
        None => 0,
    }
    &&& e.mode == meta.mode && e.uid == meta.uid && e.gid == meta.gid
    &&& meta.is_symlink ==> e.kind == (EntryKindView::Symlink { target: meta.target@ })
    &&& !meta.is_symlink && meta.is_dir ==> e.kind is Dir
    &&& !meta.is_symlink && !meta.is_dir && meta.is_file ==> e.kind is Regular
    &&& !meta.is_symlink && !meta.is_dir && !meta.is_file ==> e.kind is Other
}

/// Items are listed one by one, in order. The root, what lies outside it, what
/// nothing is known of, a companion file, and, where the walk stays on one
/// device, what lies on another and is no link, is not listed.
pub proof fn law_list_is_made_in_order(
    a: Seq<WalkItem>,
    b: Seq<WalkItem>,
    root_dev: Option<u64>,
)
    ensures
        listed(a + b, root_dev) == listed(a, root_dev) + listed(b, root_dev),
        a.len() == 1 && (a[0].path is None || a[0].meta is None || a[0].path->0@.len() == 0) ==>
            listed(a, root_dev).len() == 0,
        a.len() == 1 && (a[0].name matches Some(s) && s@.len() >= 2 && s@[0] == '.' && s@[1] == '_')
            ==> listed(a, root_dev).len() == 0,
        a.len() == 1 && (a[0].meta matches Some(meta) && root_dev matches Some(dev) && dev
            != meta.dev && !meta.is_symlink) ==> listed(a, root_dev).len() == 0,
        a.len() == 1 ==> listed(a, root_dev).len() <= 1,
    decreases b.len(),
{
    if a.len() == 1 {
        reveal_with_fuel(listed, 2);
        assert(a.drop_last() =~= Seq::empty());
        assert(a.last() == a[0]);
    }
    if b.len() == 0 {
        assert(a + b =~= a);
        assert(listed(a, root_dev) + Seq::empty() =~= listed(a, root_dev));
    } else {
        assert((a + b).drop_last() =~= a + b.drop_last());
        law_list_is_made_in_order(a, b.drop_last(), root_dev);
        assert(listed(a + b, root_dev) =~= listed(a, root_dev) + listed(b, root_dev));
    }
}

} // verus!
