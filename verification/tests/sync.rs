//! Sync runs over trees in memory: what a program does around the decisions of
//! the library, with maps in place of directories.

use rsy::flist::{EntryKind, FileEntry, FileList, ItemMeta, WalkItem};
use rsy::local::{plan_deletions, prepare, regular_entries, select_entries, total_size, Step};
use rsy::one_file::{
    contents_outcome, delta_file, plan_contents, plan_file, plan_metadata, plan_outcome,
    places_link, removes_link, ContentsPlan, DstMeta, FilePlan,
};
use rsy::paths::{clean_rel, validate_parent, Probe};
use rsy::pipeline::{Outcome, ParStats, Stats, SyncOpts};
use std::collections::BTreeMap;

#[derive(Clone, Debug, PartialEq)]
enum Node {
    File { data: Vec<u8>, mtime: i64 },
    Dir,
    Link(Vec<u8>),
}

type Tree = BTreeMap<Vec<u8>, Node>;

fn file(data: &[u8], mtime: i64) -> Node {
    Node::File { data: data.to_vec(), mtime }
}

fn data<'a>(tree: &'a Tree, path: &str) -> Option<&'a [u8]> {
    match tree.get(path.as_bytes()) {
        Some(Node::File { data, .. }) => Some(data),
        _ => None,
    }
}

fn walk(tree: &Tree) -> FileList {
    let mut items = vec![WalkItem { path: Some(vec![]), name: None, meta: None }];
    for (path, node) in tree {
        let (len, mtime, target) = match node {
            Node::File { data, mtime } => (data.len() as u64, *mtime, vec![]),
            Node::Dir => (4096, 0, vec![]),
            Node::Link(target) => (target.len() as u64, 0, target.clone()),
        };
        let name = path.rsplit(|b| *b == b'/').next().unwrap();
        items.push(WalkItem {
            path: Some(path.clone()),
            name: String::from_utf8(name.to_vec()).ok(),
            meta: Some(ItemMeta {
                dev: 1,
                is_symlink: matches!(node, Node::Link(_)),
                is_dir: matches!(node, Node::Dir),
                is_file: matches!(node, Node::File { .. }),
                len,
                mtime: Some(mtime as u64),
                mode: 0o644,
                uid: 0,
                gid: 0,
                target,
            }),
        });
    }
    FileList::build(items, None)
}

fn meta_at(dst: &Tree, path: &[u8]) -> Option<DstMeta> {
    dst.get(path).map(|node| match node {
        Node::File { data, mtime } => {
            DstMeta { is_symlink: false, len: data.len() as u64, mtime: Some(*mtime as u64) }
        }
        Node::Dir => DstMeta { is_symlink: false, len: 4096, mtime: Some(0) },
        Node::Link(_) => DstMeta { is_symlink: true, len: 0, mtime: None },
    })
}

fn sync_one(src: &Tree, dst: &mut Tree, path: &[u8], e: &FileEntry, opts: &SyncOpts) -> Outcome {
    let meta = meta_at(dst, path);
    if removes_link(e, meta, opts) {
        dst.remove(path);
    }
    let Some(Node::File { data: contents, .. }) = src.get(&e.path) else { panic!("no source") };
    let plan = plan_file(e, meta, opts);
    let (outcome, new) = match plan {
        FilePlan::Skip | FilePlan::WouldSend => (plan_outcome(e, plan).unwrap(), None),
        FilePlan::CopyNew | FilePlan::CopyOver => {
            (plan_outcome(e, plan).unwrap(), Some(contents.clone()))
        }
        FilePlan::Inspect => {
            let basis = match dst.get(path) {
                Some(Node::File { data, .. }) => data.clone(),
                _ => vec![],
            };
            let plan = plan_contents(e, meta, contents, &basis, opts);
            match plan {
                ContentsPlan::Delta(blen) => {
                    let patched = delta_file(contents, &basis, blen, Vec::new()).unwrap();
                    (patched.outcome, Some(patched.out))
                }
                ContentsPlan::CopyOver => {
                    let outcome = contents_outcome(e, contents, plan).unwrap();
                    (outcome, Some(contents.clone()))
                }
                _ => (contents_outcome(e, contents, plan).unwrap(), None),
            }
        }
    };
    if let Some(new) = new {
        let mtime = plan_metadata(e, opts, false).mtime;
        dst.insert(path.to_vec(), Node::File { data: new, mtime });
    }
    outcome
}

fn sync_local(src: &Tree, dst: &mut Tree, opts: &SyncOpts) -> Stats {
    let src_list = walk(src);
    let dst_list = if opts.delete { walk(dst) } else { FileList::empty() };
    let selected = select_entries(&src_list.0, opts);
    for step in prepare(&selected, opts.dry_run) {
        match step {
            Step::MakeDir(path) => {
                dst.insert(path, Node::Dir);
            }
            Step::CheckParent(dir) => {
                let mut probes: Vec<Probe> = vec![];
                while let Some(path) = validate_parent(b"", &dir, &probes).unwrap() {
                    probes.push(match dst.get(&path) {
                        Some(Node::Link(_)) => Probe::Symlink,
                        Some(_) => Probe::Present,
                        None => Probe::Missing,
                    });
                }
            }
            Step::MakeLink { path, target, mtime } => {
                if places_link(mtime, meta_at(dst, &path), opts) {
                    dst.insert(path, Node::Link(target));
                }
            }
            Step::SkipLink(_) => {}
            Step::Refuse { error, .. } => panic!("{error:?}"),
        }
    }
    let files = regular_entries(&selected);
    let mut counts = ParStats::new();
    for e in &files {
        match clean_rel(&e.path) {
            Ok(path) => {
                let o = sync_one(src, dst, &path, e, opts);
                counts.add(o.xferred, o.literal, o.matched);
            }
            Err(_) => counts.fail(),
        }
    }
    for e in plan_deletions(&dst_list.0, &selected, opts) {
        dst.remove(&e.path);
    }
    counts.snapshot(files.len(), total_size(&files))
}

fn default_opts() -> SyncOpts {
    SyncOpts { preserve_times: true, ..Default::default() }
}

fn tree(nodes: &[(&str, Node)]) -> Tree {
    nodes.iter().map(|(path, node)| (path.as_bytes().to_vec(), node.clone())).collect()
}

#[test]
fn sync_copies_files() {
    let src = tree(&[
        ("hello.txt", file(b"hello world", 1)),
        ("subdir", Node::Dir),
        ("subdir/nested.txt", file(b"nested", 1)),
    ]);
    let mut dst = Tree::new();

    sync_local(&src, &mut dst, &default_opts());

    assert_eq!(data(&dst, "hello.txt").unwrap(), b"hello world");
    assert_eq!(data(&dst, "subdir/nested.txt").unwrap(), b"nested");
}

#[test]
fn sync_skips_unchanged_files() {
    let src = tree(&[("file.txt", file(b"content", 7))]);
    let mut dst = Tree::new();

    let s1 = sync_local(&src, &mut dst, &default_opts());
    assert_eq!(s1.files_xferred, 1);

    let s2 = sync_local(&src, &mut dst, &default_opts());
    assert_eq!(s2.files_xferred, 0);
    assert_eq!(s2.files_skipped, 1);
}

#[test]
fn sync_transfers_changed_file() {
    let src = tree(&[("file.txt", file(b"version 1", 1))]);
    let mut dst = Tree::new();
    sync_local(&src, &mut dst, &default_opts());

    let src = tree(&[("file.txt", file(b"version 2 with more content", 2))]);
    sync_local(&src, &mut dst, &default_opts());
    assert_eq!(data(&dst, "file.txt").unwrap(), b"version 2 with more content");
}

#[test]
fn sync_empty_src() {
    let src = Tree::new();
    let mut dst = Tree::new();
    let stats = sync_local(&src, &mut dst, &default_opts());
    assert_eq!(stats.files_total, 0);
}

#[test]
fn sync_delete_removes_stale_dst_files() {
    let src = tree(&[("keep.txt", file(b"keep", 1))]);
    let mut dst = tree(&[("extra.txt", file(b"stale", 1))]);

    let opts = SyncOpts { delete: true, preserve_times: true, ..Default::default() };
    sync_local(&src, &mut dst, &opts);

    assert!(dst.contains_key(b"keep.txt".as_slice()));
    assert!(!dst.contains_key(b"extra.txt".as_slice()));
}

#[test]
fn sync_filter_excludes_logs() {
    let src = tree(&[("main.rs", file(b"fn main() {}", 1)), ("debug.log", file(b"log output", 1))]);
    let mut dst = Tree::new();

    let mut opts = default_opts();
    opts.filter.add_exclude("*.log");
    sync_local(&src, &mut dst, &opts);

    assert!(dst.contains_key(b"main.rs".as_slice()));
    assert!(!dst.contains_key(b"debug.log".as_slice()));
}

#[test]
fn sync_max_size_skips_large_files() {
    let src = tree(&[("small.txt", file(b"hi", 1)), ("large.bin", file(&[0u8; 1024], 1))]);
    let mut dst = Tree::new();

    let opts = SyncOpts { max_size: Some(100), preserve_times: true, ..Default::default() };
    sync_local(&src, &mut dst, &opts);

    assert!(dst.contains_key(b"small.txt".as_slice()));
    assert!(!dst.contains_key(b"large.bin".as_slice()));
}

#[test]
fn sync_min_size_skips_small_files() {
    let src = tree(&[("small.txt", file(b"hi", 1)), ("large.bin", file(&[0u8; 1024], 1))]);
    let mut dst = Tree::new();

    let opts = SyncOpts { min_size: Some(100), preserve_times: true, ..Default::default() };
    sync_local(&src, &mut dst, &opts);

    assert!(!dst.contains_key(b"small.txt".as_slice()));
    assert!(dst.contains_key(b"large.bin".as_slice()));
}

#[test]
fn sync_update_preserves_newer_destination() {
    let src = tree(&[("file.txt", file(b"old source", 1_000))]);
    let mut dst = tree(&[("file.txt", file(b"new destination", 2_000))]);

    let opts = SyncOpts { update: true, preserve_times: true, ..Default::default() };
    let stats = sync_local(&src, &mut dst, &opts);

    assert_eq!(stats.files_xferred, 0);
    assert_eq!(data(&dst, "file.txt").unwrap(), b"new destination");
}

#[test]
fn sync_whole_file_replaces_existing_content() {
    let src = tree(&[("file.txt", file(b"replacement content", 2))]);
    let mut dst = tree(&[("file.txt", file(b"old", 1))]);

    let opts = SyncOpts { whole_file: true, preserve_times: true, ..Default::default() };
    let stats = sync_local(&src, &mut dst, &opts);

    assert_eq!(stats.files_xferred, 1);
    assert_eq!(data(&dst, "file.txt").unwrap(), b"replacement content");
}

#[test]
fn sync_broken_symlink_does_not_crash() {
    let src = tree(&[
        ("real.txt", file(b"real", 1)),
        ("broken_link", Node::Link(b"nonexistent_target".to_vec())),
    ]);
    let mut dst = Tree::new();

    sync_local(&src, &mut dst, &default_opts());
    assert!(dst.contains_key(b"real.txt".as_slice()));
}

#[test]
fn sync_dry_run_copies_nothing() {
    let src = tree(&[
        ("file.txt", file(b"data", 1)),
        ("dir", Node::Dir),
        ("link", Node::Link(b"file.txt".to_vec())),
    ]);
    let mut dst = tree(&[("stale.txt", file(b"stale", 1))]);

    let opts = SyncOpts { dry_run: true, delete: true, ..Default::default() };
    sync_local(&src, &mut dst, &opts);

    assert!(!dst.contains_key(b"file.txt".as_slice()));
    assert!(!dst.contains_key(b"dir".as_slice()));
    assert!(dst.contains_key(b"stale.txt".as_slice()));
    assert!(!dst.contains_key(b"link".as_slice()));
}

#[test]
fn sync_ignore_existing_skips_present_dst() {
    let src = tree(&[("file.txt", file(b"new content", 2))]);
    let mut dst = tree(&[("file.txt", file(b"old content", 1))]);

    let opts = SyncOpts { ignore_existing: true, ..Default::default() };
    sync_local(&src, &mut dst, &opts);
    assert_eq!(data(&dst, "file.txt").unwrap(), b"old content");
}

#[test]
fn sync_patches_what_is_there() {
    let old = b"line of text\n".repeat(400);
    let mut new = old.clone();
    new[2600] = b'!';
    let src = tree(&[("f", file(&new, 9))]);
    let mut dst = tree(&[("f", file(&old, 3))]);
    let stats = sync_local(&src, &mut dst, &default_opts());
    assert_eq!(data(&dst, "f").unwrap(), new);
    assert_eq!(stats.literal_bytes + stats.matched_bytes, new.len() as u64);
    assert!(stats.matched_bytes > 0);
    assert_eq!(stats.total_size, new.len() as u64);
}

#[test]
fn sync_checksum_looks_at_contents() {
    let src = tree(&[("same", file(b"same", 9)), ("other", file(b"new!", 5))]);
    let mut dst = tree(&[("same", file(b"same", 1)), ("other", file(b"old!", 5))]);
    let opts = SyncOpts { checksum: true, ..Default::default() };
    let stats = sync_local(&src, &mut dst, &opts);
    assert_eq!((stats.files_xferred, stats.files_skipped), (1, 1));
    assert_eq!(data(&dst, "other").unwrap(), b"new!");
    // Without checksums, size and time say that "other" is unchanged.
    let src = tree(&[("other", file(b"old?", 5))]);
    assert_eq!(sync_local(&src, &mut dst, &default_opts()).files_xferred, 0);
}

#[test]
fn sync_dry_run_reports_what_a_run_sends() {
    let src = tree(&[("new", file(b"1", 1)), ("same", file(b"2", 2)), ("old", file(b"33", 3))]);
    let dst = tree(&[("same", file(b"2", 2)), ("old", file(b"3", 3))]);
    for checksum in [false, true] {
        let dry = SyncOpts { dry_run: true, checksum, ..Default::default() };
        let wet = SyncOpts { checksum, ..Default::default() };
        let (mut a, mut b) = (dst.clone(), dst.clone());
        let reported = sync_local(&src, &mut a, &dry);
        let done = sync_local(&src, &mut b, &wet);
        assert_eq!(a, dst);
        assert_eq!(reported.files_xferred, 2);
        assert_eq!(done.files_xferred, 2);
        assert_eq!(reported.files_skipped, done.files_skipped);
    }
}

#[test]
fn sync_delete_goes_by_the_filtered_list() {
    let src = tree(&[("a.log", file(b"x", 1)), ("b.txt", file(b"y", 1))]);
    let mut dst = tree(&[("a.log", file(b"x", 1)), ("b.txt", file(b"y", 1))]);
    let mut opts = SyncOpts { delete: true, ..Default::default() };
    opts.filter.add_exclude("*.log");
    sync_local(&src, &mut dst, &opts);
    assert!(!dst.contains_key(b"a.log".as_slice()));
    assert!(dst.contains_key(b"b.txt".as_slice()));
}

#[test]
fn sync_replaces_a_link_at_the_destination() {
    let src = tree(&[("f", file(b"data", 1))]);
    let mut dst = tree(&[("f", Node::Link(b"elsewhere".to_vec()))]);
    let stats = sync_local(&src, &mut dst, &default_opts());
    assert_eq!(stats.files_xferred, 1);
    assert_eq!(data(&dst, "f").unwrap(), b"data");
}

#[test]
fn sync_leaves_out_links_that_lead_outside() {
    let src = tree(&[
        ("in", Node::Link(b"a/../b".to_vec())),
        ("out", Node::Link(b"../b".to_vec())),
        ("abs", Node::Link(b"/b".to_vec())),
    ]);
    let mut dst = Tree::new();
    sync_local(&src, &mut dst, &default_opts());
    assert_eq!(dst.len(), 1);
    assert_eq!(dst[b"in".as_slice()], Node::Link(b"a/../b".to_vec()));
}

#[test]
fn lists_leave_out_what_does_not_belong() {
    let meta = |dev: u64, link: bool| ItemMeta {
        dev,
        is_symlink: link,
        is_dir: false,
        is_file: false,
        len: 1,
        mtime: None,
        mode: 0,
        uid: 0,
        gid: 0,
        target: b"t".to_vec(),
    };
    let item = |path: &[u8], name: &str, meta: ItemMeta| WalkItem {
        path: Some(path.to_vec()),
        name: Some(name.to_string()),
        meta: Some(meta),
    };
    let items = vec![
        item(b"", "root", meta(1, false)),
        WalkItem { path: None, name: None, meta: Some(meta(1, false)) },
        WalkItem { path: Some(b"x".to_vec()), name: None, meta: None },
        item(b"._a", "._a", meta(1, false)),
        item(b"other", "other", meta(2, false)),
        item(b"link", "link", meta(2, true)),
        item(b"pipe", "pipe", meta(1, false)),
    ];
    let list = FileList::build(items.clone(), Some(1));
    assert_eq!(list.len(), 2);
    assert_eq!(list.0[0].path, b"link");
    assert_eq!(list.0[0].kind, EntryKind::Symlink { target: b"t".to_vec() });
    assert_eq!(list.0[1].kind, EntryKind::Other);
    assert_eq!(list.0[1].mtime, 0);
    assert!(!list.0[1].is_dir() && !list.0[1].is_regular());
    assert_eq!(FileList::build(items, None).len(), 3);
    assert_eq!(FileList::empty().len(), 0);
}

#[test]
fn sync_keeps_what_exists_where_asked() {
    let src = tree(&[
        ("a", file(b"new", 9)),
        ("b", file(b"new", 9)),
        ("c", Node::Link(b"a".to_vec())),
    ]);
    let before = tree(&[
        ("a", Node::Link(b"b".to_vec())),
        ("b", file(b"old", 1)),
        ("c", file(b"old", 1)),
    ]);
    let mut dst = before.clone();
    let opts = SyncOpts { ignore_existing: true, ..default_opts() };
    let stats = sync_local(&src, &mut dst, &opts);
    assert_eq!(dst, before);
    assert_eq!((stats.files_xferred, stats.files_skipped), (0, 2));
    sync_local(&src, &mut dst, &default_opts());
    assert_eq!(dst, src);
}

#[test]
fn sync_by_checksum_skips_empty_files() {
    let src = tree(&[("a", file(b"", 9)), ("b", file(b"x", 9))]);
    let mut dst = tree(&[("a", file(b"", 1)), ("b", file(b"", 1))]);
    let opts = SyncOpts { checksum: true, ..default_opts() };
    let stats = sync_local(&src, &mut dst, &opts);
    assert_eq!((stats.files_xferred, stats.files_skipped), (1, 1));
    assert_eq!(data(&dst, "b").unwrap(), b"x");
    assert_eq!(dst[b"a".as_slice()], file(b"", 1));
}

#[test]
fn sync_delete_spares_a_directory_on_the_way() {
    // The filter leaves out the directory and takes in the file below it.
    let src = tree(&[("d", Node::Dir), ("d/k", file(b"new", 2)), ("d/x", file(b"x", 1))]);
    let mut dst = tree(&[
        ("d", Node::Dir),
        ("d/k", file(b"old", 1)),
        ("d/x", file(b"x", 1)),
        ("e", Node::Dir),
    ]);
    let mut opts = SyncOpts { delete: true, ..default_opts() };
    opts.filter.add_include("k");
    opts.filter.add_exclude("*");
    sync_local(&src, &mut dst, &opts);
    assert_eq!(dst, tree(&[("d", Node::Dir), ("d/k", file(b"new", 2))]));
    // Another run deletes nothing more.
    let before = dst.clone();
    sync_local(&src, &mut dst, &opts);
    assert_eq!(dst, before);
}

#[test]
fn sync_a_second_time_transfers_nothing() {
    let long: Vec<u8> = (0u8..=255).cycle().take(5000).collect();
    let mut edited = long.clone();
    edited[2500] ^= 1;
    let src = tree(&[
        ("d", Node::Dir),
        ("d/copied", file(b"new", 7)),
        ("d/patched", file(&edited, 8)),
        ("empty", file(b"", 9)),
        ("link", file(b"data", 3)),
    ]);
    let start = tree(&[("d", Node::Dir), ("d/patched", file(&long, 1)), ("link", Node::Link(vec![]))]);
    for checksum in [false, true] {
        for update in [false, true] {
            let opts = SyncOpts { checksum, update, delete: true, ..default_opts() };
            let mut dst = start.clone();
            assert_eq!(sync_local(&src, &mut dst, &opts).files_xferred, 4);
            assert_eq!(dst, src);
            let again = sync_local(&src, &mut dst, &opts);
            assert_eq!(dst, src);
            assert_eq!((again.files_xferred, again.files_errored), (0, 0));
            assert_eq!((again.files_skipped, again.files_total), (4, 4));
            assert_eq!(again.literal_bytes, 0);
        }
    }
}
