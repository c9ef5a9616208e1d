use rsy::flist::{EntryKind, FileEntry};
use rsy::local::{is_selected, plan_deletions, prepare, total_size, Step};
use rsy::one_file::{
    choose_block_len, contents_writing, delta_file, file_writing, places_link, plan_contents,
    plan_file, plan_metadata, plan_update, removes_link, tmp_path, ContentsPlan, DstMeta, FilePlan,
    Writing, DELTA_SIZE_LIMIT,
};
use rsy::paths::PathError;
use rsy::pipeline::{exit_code, ParStats, Stats, SyncOpts};

fn entry(path: &[u8], size: u64, kind: EntryKind) -> FileEntry {
    FileEntry { path: path.to_vec(), size, mtime: 50, mode: 0o100_755, uid: 3, gid: 4, kind }
}

fn file(path: &[u8], size: u64) -> FileEntry {
    entry(path, size, EntryKind::Regular)
}

fn at(mtime: u64, len: u64) -> Option<DstMeta> {
    Some(DstMeta { is_symlink: false, len, mtime: Some(mtime) })
}

#[test]
fn file_plans() {
    let e = file(b"f", 10);
    let plain = SyncOpts::default();
    assert_eq!(plan_file(&e, None, &plain), FilePlan::CopyNew);
    assert_eq!(plan_file(&e, at(50, 10), &plain), FilePlan::Skip);
    assert_eq!(plan_file(&e, at(51, 10), &plain), FilePlan::Inspect);
    assert_eq!(plan_file(&e, at(50, 11), &plain), FilePlan::Inspect);
    let unknown = Some(DstMeta { is_symlink: false, len: 10, mtime: None });
    assert_eq!(plan_file(&e, unknown, &plain), FilePlan::Inspect);
    let whole = SyncOpts { whole_file: true, ..Default::default() };
    assert_eq!(plan_file(&e, at(51, 10), &whole), FilePlan::CopyOver);
    let big = file(b"f", DELTA_SIZE_LIMIT + 1);
    assert_eq!(plan_file(&big, at(51, 10), &plain), FilePlan::CopyOver);
    let update = SyncOpts { update: true, ..Default::default() };
    assert_eq!(plan_file(&e, at(51, 11), &update), FilePlan::Skip);
    assert_eq!(plan_file(&e, at(49, 11), &update), FilePlan::Inspect);
    let sums = SyncOpts { checksum: true, ..Default::default() };
    assert_eq!(plan_file(&e, at(50, 10), &sums), FilePlan::Inspect);
    assert_eq!(plan_file(&e, None, &sums), FilePlan::Inspect);
    let both = SyncOpts { checksum: true, update: true, ..Default::default() };
    assert_eq!(plan_file(&e, at(51, 10), &both), FilePlan::Skip);
    let dry = SyncOpts { dry_run: true, ..Default::default() };
    assert_eq!(plan_file(&e, None, &dry), FilePlan::WouldSend);
    assert_eq!(plan_file(&e, at(51, 10), &dry), FilePlan::WouldSend);
    assert_eq!(plan_file(&e, at(50, 10), &dry), FilePlan::Skip);
}

#[test]
fn links_at_the_destination_give_way() {
    let e = file(b"f", 10);
    let link = Some(DstMeta { is_symlink: true, len: 10, mtime: Some(50) });
    let plain = SyncOpts::default();
    assert_eq!(plan_file(&e, link, &plain), FilePlan::CopyNew);
    assert!(removes_link(&e, link, &plain));
    assert!(!removes_link(&e, at(50, 10), &plain));
    assert!(!removes_link(&e, None, &plain));
    let dry = SyncOpts { dry_run: true, ..Default::default() };
    assert!(!removes_link(&e, link, &dry));
}

#[test]
fn links_at_the_destination_are_kept_where_asked() {
    let e = file(b"f", 10);
    let link = Some(DstMeta { is_symlink: true, len: 3, mtime: Some(51) });
    let keep = SyncOpts { ignore_existing: true, ..Default::default() };
    assert_eq!(plan_file(&e, link, &keep), FilePlan::Skip);
    assert!(!removes_link(&e, link, &keep));
    let update = SyncOpts { update: true, ..Default::default() };
    assert_eq!(plan_file(&e, link, &update), FilePlan::Skip);
    assert!(!removes_link(&e, link, &update));
    let older = Some(DstMeta { is_symlink: true, len: 3, mtime: Some(50) });
    assert_eq!(plan_file(&e, older, &update), FilePlan::CopyNew);
    assert!(removes_link(&e, older, &update));
}

#[test]
fn links_take_the_place_of_what_is_not_kept() {
    let plain = SyncOpts::default();
    let keep = SyncOpts { ignore_existing: true, ..Default::default() };
    let update = SyncOpts { update: true, ..Default::default() };
    assert!(places_link(50, at(51, 1), &plain));
    assert!(!places_link(50, at(1, 1), &keep));
    assert!(places_link(50, None, &keep));
    assert!(!places_link(50, at(51, 1), &update));
    assert!(places_link(50, at(50, 1), &update));
}

#[test]
fn contents_plans() {
    let e = file(b"f", 4);
    let there = at(50, 4);
    let plain = SyncOpts::default();
    assert_eq!(plan_contents(&e, there, b"abcd", b"abcx", &plain), ContentsPlan::Delta(700));
    assert_eq!(plan_contents(&e, there, b"abcd", b"", &plain), ContentsPlan::CopyOver);
    let sums = SyncOpts { checksum: true, ..Default::default() };
    assert_eq!(plan_contents(&e, there, b"abcd", b"abcd", &sums), ContentsPlan::Skip);
    assert_eq!(plan_contents(&e, None, b"", b"", &sums), ContentsPlan::CopyOver);
    let dry = SyncOpts { checksum: true, dry_run: true, ..Default::default() };
    assert_eq!(plan_contents(&e, there, b"abcd", b"abcx", &dry), ContentsPlan::WouldSend);
    let big = file(b"f", DELTA_SIZE_LIMIT + 1);
    assert_eq!(plan_contents(&big, there, b"abcd", b"abcx", &sums), ContentsPlan::CopyOver);
}

#[test]
fn empty_files_are_the_same_by_checksum() {
    let e = file(b"f", 0);
    let sums = SyncOpts { checksum: true, ..Default::default() };
    assert_eq!(plan_file(&e, at(7, 0), &sums), FilePlan::Skip);
    assert_eq!(plan_file(&e, at(50, 1), &sums), FilePlan::Inspect);
    assert_eq!(plan_file(&e, None, &sums), FilePlan::Inspect);
    assert_eq!(plan_contents(&e, at(7, 0), b"", b"", &sums), ContentsPlan::Skip);
    let plain = SyncOpts::default();
    assert_eq!(plan_file(&e, at(7, 0), &plain), FilePlan::Inspect);
}

#[test]
fn ways_of_writing() {
    let there = at(1, 1);
    let link = Some(DstMeta { is_symlink: true, len: 1, mtime: None });
    let plain = SyncOpts::default();
    let inplace = SyncOpts { inplace: true, ..Default::default() };
    assert_eq!(plan_update(there, &plain), Writing::Replace);
    assert_eq!(plan_update(there, &inplace), Writing::InPlace);
    assert_eq!(plan_update(link, &inplace), Writing::Replace);
    assert_eq!(plan_update(None, &inplace), Writing::Replace);
    assert_eq!(file_writing(FilePlan::CopyNew, None, &inplace), Some(Writing::Create));
    assert_eq!(file_writing(FilePlan::CopyOver, there, &plain), Some(Writing::Replace));
    assert_eq!(file_writing(FilePlan::CopyOver, there, &inplace), Some(Writing::InPlace));
    assert_eq!(file_writing(FilePlan::Skip, there, &inplace), None);
    assert_eq!(file_writing(FilePlan::WouldSend, there, &inplace), None);
    assert_eq!(file_writing(FilePlan::Inspect, there, &inplace), None);
    let delta = ContentsPlan::Delta(700);
    assert_eq!(contents_writing(delta, there, &inplace), Some(Writing::InPlace));
    assert_eq!(contents_writing(delta, there, &plain), Some(Writing::Replace));
    assert_eq!(contents_writing(ContentsPlan::CopyOver, None, &inplace), Some(Writing::Replace));
    assert_eq!(contents_writing(ContentsPlan::Skip, there, &inplace), None);
    assert_eq!(contents_writing(ContentsPlan::WouldSend, there, &inplace), None);
}

#[test]
fn block_lengths() {
    assert_eq!(choose_block_len(0, None), 700);
    assert_eq!(choose_block_len(1 << 20, None), 1024);
    assert_eq!(choose_block_len(0, Some(1)), 512);
    assert_eq!(choose_block_len(0, Some(5000)), 5000);
    assert_eq!(choose_block_len(0, Some(usize::MAX)), 1_048_576);
}

#[test]
fn patched_files() {
    let basis = b"0123456789".repeat(100);
    let mut src = b"head".to_vec();
    src.extend_from_slice(&basis);
    let p = delta_file(&src, &basis, 512, Vec::new()).unwrap();
    assert_eq!(p.out, src);
    assert_eq!(p.digest, *blake3::hash(&src).as_bytes());
    // The first block is found behind the head, the shorter last one is sent.
    assert_eq!((p.outcome.literal, p.outcome.matched), (492, 512));
}

#[test]
fn metadata_plans() {
    let e = file(b"f", 1);
    let keep = SyncOpts {
        preserve_perms: true,
        preserve_owner: true,
        preserve_group: true,
        ..Default::default()
    };
    let m = plan_metadata(&e, &keep, false);
    assert_eq!((m.mtime, m.mode, m.uid, m.gid), (50, Some(0o755), Some(3), Some(4)));
    let m = plan_metadata(&e, &keep, true);
    assert_eq!(m.mode, None);
    let m = plan_metadata(&e, &SyncOpts::default(), false);
    assert_eq!((m.mtime, m.mode, m.uid, m.gid), (50, None, None, None));
}

#[test]
fn temporary_names() {
    assert_eq!(tmp_path(b"/d/file.txt", 12, 0), b"/d/.file.txt.rsy.12.0.tmp");
    assert_eq!(tmp_path(b"file", 1, 10), b".file.rsy.1.10.tmp");
    assert_eq!(tmp_path(b"/", 1, 2), b"./.rsy.rsy.1.2.tmp");
    assert_eq!(tmp_path(b"a/n\xc3\xa9", 1, 2), "a/.né.rsy.1.2.tmp".as_bytes());
    assert_ne!(tmp_path(b"a", 1, 2), tmp_path(b"a", 1, 3));
    // What is no text is replaced in the name.
    assert_eq!(tmp_path(b"a/n\xff", 1, 2), "a/.n\u{fffd}.rsy.1.2.tmp".as_bytes());
}

#[test]
fn preparation_is_ordered() {
    let list = vec![
        file(b"top", 1),
        entry(b"./d/", 0, EntryKind::Dir),
        file(b"d/a", 1),
        file(b"d/b", 1),
        entry(b"d/l", 0, EntryKind::Symlink { target: b"a".to_vec() }),
        entry(b"d/m", 0, EntryKind::Symlink { target: b"/a".to_vec() }),
        entry(b"../e", 0, EntryKind::Dir),
        file(b"e/f/g", 1),
    ];
    let refs: Vec<&FileEntry> = list.iter().collect();
    assert_eq!(
        prepare(&refs, false),
        vec![
            Step::MakeDir(b"d".to_vec()),
            Step::Refuse { path: b"../e".to_vec(), error: PathError::ParentDir },
            Step::CheckParent(b"d".to_vec()),
            Step::CheckParent(b"e/f".to_vec()),
            Step::MakeLink { path: b"d/l".to_vec(), target: b"a".to_vec(), mtime: 50 },
            Step::SkipLink(b"d/m".to_vec()),
        ]
    );
    assert!(prepare(&refs, true).is_empty());
}

#[test]
fn size_limits_are_for_files() {
    let opts = SyncOpts { max_size: Some(9), min_size: Some(5), ..Default::default() };
    assert!(is_selected(&file(b"f", 9), &opts));
    assert!(is_selected(&file(b"f", 5), &opts));
    assert!(!is_selected(&file(b"f", 10), &opts));
    assert!(!is_selected(&file(b"f", 4), &opts));
    assert!(is_selected(&entry(b"d", 4096, EntryKind::Dir), &opts));
}

#[test]
fn filters_see_paths_as_text() {
    let mut opts = SyncOpts::default();
    opts.filter.add_exclude("n?");
    assert!(!is_selected(&file("né".as_bytes(), 1), &opts));
    assert!(!is_selected(&file(b"n\xff", 1), &opts));
    assert!(is_selected(&file(b"n\xff\xff", 1), &opts));
    opts.filter.add_exclude("dir/");
    assert!(is_selected(&file(b"dir", 1), &opts));
    assert!(!is_selected(&entry(b"dir", 1, EntryKind::Dir), &opts));
}

#[test]
fn deletions_compare_components() {
    let dst = vec![file(b"a/b", 1), file(b"a/c", 1), file(b"x", 1)];
    let src = vec![file(b"a//b", 1), file(b"x/", 1)];
    let refs: Vec<&FileEntry> = src.iter().collect();
    let opts = SyncOpts { delete: true, ..Default::default() };
    let gone = plan_deletions(&dst, &refs, &opts);
    assert_eq!(gone.len(), 1);
    assert_eq!(gone[0].path, b"a/c");
    assert!(plan_deletions(&dst, &refs, &SyncOpts::default()).is_empty());
}

#[test]
fn deletions_spare_what_leads_to_a_listed_entry() {
    let dir = |path: &[u8]| entry(path, 0, EntryKind::Dir);
    let dst = vec![dir(b"d"), dir(b"d/e"), file(b"d/e/k", 1), dir(b"d/f"), dir(b"de"), file(b"x", 1)];
    let src = vec![file(b"d//e/k", 1), file(b"d/e/l", 1)];
    let refs: Vec<&FileEntry> = src.iter().collect();
    let opts = SyncOpts { delete: true, ..Default::default() };
    let gone: Vec<&[u8]> =
        plan_deletions(&dst, &refs, &opts).iter().map(|e| e.path.as_slice()).collect();
    assert_eq!(gone, [b"d/f".as_slice(), b"de".as_slice(), b"x".as_slice()]);
    let none: Vec<&FileEntry> = vec![];
    assert_eq!(plan_deletions(&dst, &none, &opts).len(), 6);
}

#[test]
fn counts_and_exit_codes() {
    let mut counts = ParStats::new();
    counts.add(true, 3, 4);
    counts.add(false, 0, 5);
    let clean = counts.snapshot(2, 12);
    assert_eq!((clean.files_xferred, clean.files_skipped, clean.files_errored), (1, 1, 0));
    assert_eq!((clean.literal_bytes, clean.matched_bytes, clean.total_size), (3, 9, 12));
    assert_eq!(exit_code(&clean), 0);
    counts.fail();
    assert_eq!(exit_code(&counts.snapshot(3, 12)), 23);
    assert_eq!(exit_code(&Stats::default()), 0);
}

#[test]
fn sizes_are_summed_without_the_carry() {
    let list = vec![file(b"a", u64::MAX), file(b"b", 3)];
    let refs: Vec<&FileEntry> = list.iter().collect();
    assert_eq!(total_size(&refs), 2);
    assert_eq!(total_size(&vec![]), 0);
}
