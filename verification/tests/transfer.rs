use rsy::checksum::file_hash;
use rsy::delta::{basis_sums, BlockSum};
use rsy::flist::{EntryKind, FileEntry};
use rsy::one_file::DstMeta;
use rsy::paths::PathError;
use rsy::pipeline::SyncOpts;
use rsy::protocol::{
    write_done, write_file_hash, write_sum_end, write_sum_head, write_token_end,
};
use rsy::stream::{ByteSource, MemorySource};
use rsy::transfer::{
    plan_receive, read_file_request, receive_file, receive_flist, request_file, send_file,
    send_flist, send_offer, send_selected, FileError, FileFault, FileRequest, ReceiverStep,
    RequestError, RequestFault,
};
use rsy::wire::{Fault, WireError};

fn entry(path: &[u8], kind: EntryKind) -> FileEntry {
    FileEntry { path: path.to_vec(), size: 5, mtime: 1, mode: 0o600, uid: 0, gid: 0, kind }
}

fn request_fault(r: Result<FileRequest, RequestError>) -> RequestFault {
    match r {
        Err(RequestError::Fault(f)) => f,
        _ => panic!("no fault"),
    }
}

fn same_sums(a: &[BlockSum], b: &[BlockSum]) -> bool {
    a.len() == b.len()
        && a.iter().zip(b).all(|(x, y)| {
            (x.rolling, x.strong, x.offset) == (y.rolling, y.strong, y.offset)
        })
}

#[test]
fn file_lists_are_read_as_written() {
    let list = vec![
        entry(b"dir", EntryKind::Dir),
        entry(b"dir/f", EntryKind::Regular),
        entry(b"l", EntryKind::Symlink { target: b"dir".to_vec() }),
    ];
    let mut buf: Vec<u8> = Vec::new();
    send_flist(&mut buf, &list).unwrap();
    let mut r = MemorySource::new(buf);
    let got = receive_flist(&mut r).unwrap();
    assert_eq!(got.len(), 3);
    for (a, b) in got.iter().zip(&list) {
        assert_eq!((&a.path, a.size, a.mtime, a.mode), (&b.path, b.size, b.mtime, b.mode));
        assert_eq!(a.kind, b.kind);
    }
    let mut empty: Vec<u8> = Vec::new();
    send_flist(&mut empty, &vec![]).unwrap();
    assert_eq!(empty, vec![1, 3]);
}

#[test]
fn wrong_file_lists_are_told_apart() {
    let fault = |bytes: Vec<u8>| match receive_flist(&mut MemorySource::new(bytes)) {
        Err(WireError::Fault(f)) => f,
        _ => panic!("no fault"),
    };
    assert_eq!(fault(vec![]), Fault::Eof);
    assert_eq!(fault(vec![9]), Fault::NotListStart(9));
    assert_eq!(fault(vec![1, 9]), Fault::NotListEntry(9));
    assert_eq!(fault(vec![1]), Fault::Eof);
    let list = vec![entry(&vec![b'a'; 65536], EntryKind::Dir)];
    let mut buf: Vec<u8> = Vec::new();
    assert!(matches!(
        send_flist(&mut buf, &list),
        Err(WireError::Fault(Fault::PathTooLong))
    ));
    // Nothing of the entry was written.
    assert_eq!(buf, vec![1]);
}

#[test]
fn requests_carry_the_sums_of_the_basis() {
    let basis: Vec<u8> = (0u8..=255).cycle().take(5000).collect();
    let opts = SyncOpts { block_size: Some(600), ..Default::default() };
    let mut buf: Vec<u8> = Vec::new();
    request_file(&mut buf, 4, 123, &basis, &opts).unwrap();
    write_done(&mut buf).unwrap();
    let mut r = MemorySource::new(buf);
    match read_file_request(&mut r, 5).unwrap() {
        FileRequest::File { idx, blen, sums } => {
            assert_eq!((idx, blen), (4, 600));
            assert!(same_sums(&sums, &basis_sums(&basis, 600)));
        }
        FileRequest::Done => unreachable!(),
    }
    assert!(matches!(read_file_request(&mut r, 5).unwrap(), FileRequest::Done));
}

#[test]
fn block_lengths_are_brought_within_limits() {
    let mut buf: Vec<u8> = Vec::new();
    write_sum_head(&mut buf, 0, 1, 0).unwrap();
    buf.push(6);
    write_sum_head(&mut buf, 0, u32::MAX, 0).unwrap();
    buf.push(6);
    let mut r = MemorySource::new(buf);
    assert!(matches!(
        read_file_request(&mut r, 1).unwrap(),
        FileRequest::File { blen: 512, .. }
    ));
    assert!(matches!(
        read_file_request(&mut r, 1).unwrap(),
        FileRequest::File { blen: 1_048_576, .. }
    ));
}

#[test]
fn wrong_requests_are_told_apart() {
    let mut buf: Vec<u8> = Vec::new();
    write_sum_head(&mut buf, 3, 700, u32::MAX).unwrap();
    let mut r = MemorySource::new(buf.clone());
    assert_eq!(request_fault(read_file_request(&mut r, 3)), RequestFault::OutOfRange(3));
    let mut r = MemorySource::new(buf);
    assert_eq!(
        request_fault(read_file_request(&mut r, 4)),
        RequestFault::Wire(Fault::TooManyBlocks)
    );
    let mut r = MemorySource::new(vec![]);
    assert_eq!(request_fault(read_file_request(&mut r, 4)), RequestFault::Wire(Fault::Eof));
}

#[test]
fn files_arrive_as_they_were_sent() {
    let basis: Vec<u8> = (0u8..=255).cycle().take(4096).collect();
    let mut src = basis.clone();
    src.insert(1000, 0xEE);
    let sums = basis_sums(&basis, 512);
    let sent = send_file(Vec::new(), &src, &sums, 512, false).unwrap();
    assert_eq!(sent.literal + sent.matched, 4097);
    assert!(sent.matched > 0);
    let mut r = MemorySource::new(sent.out);
    let got = receive_file(&mut r, &basis, Vec::new()).unwrap();
    assert_eq!(got.out, src);
    assert_eq!((got.literal, got.matched), (sent.literal, sent.matched));
    assert!(r.read_exact(1).is_err());
}

#[test]
fn whole_files_are_sent_as_data() {
    let src = b"whole".to_vec();
    let sums = basis_sums(&src, 512);
    let sent = send_file(Vec::new(), &src, &sums, 512, true).unwrap();
    assert_eq!((sent.literal, sent.matched), (5, 0));
    let mut want = vec![8, 5, 0, 0, 0];
    want.extend_from_slice(b"whole");
    want.extend_from_slice(&[9, 10]);
    want.extend_from_slice(&file_hash(b"whole"));
    assert_eq!(sent.out, want);
    // An empty file is one token without data.
    let none = send_file(Vec::new(), b"", &[], 512, false).unwrap();
    assert_eq!(none.out[..6], [8, 0, 0, 0, 0, 9]);
}

#[test]
fn corrupt_files_are_refused() {
    let src = b"contents".to_vec();
    let mut bytes = send_file(Vec::new(), &src, &[], 512, false).unwrap().out;
    bytes[6] ^= 1;
    let mut r = MemorySource::new(bytes);
    assert!(matches!(
        receive_file(&mut r, b"", Vec::new()),
        Err(FileError::Fault(FileFault::HashMismatch))
    ));
}

#[test]
fn cut_files_are_refused() {
    let mut buf: Vec<u8> = Vec::new();
    write_token_end(&mut buf).unwrap();
    let mut r = MemorySource::new(buf.clone());
    assert!(matches!(
        receive_file(&mut r, b"", Vec::new()),
        Err(FileError::Fault(FileFault::Wire(Fault::Eof)))
    ));
    buf.push(1);
    let mut r = MemorySource::new(buf);
    assert!(matches!(
        receive_file(&mut r, b"", Vec::new()),
        Err(FileError::Fault(FileFault::Wire(Fault::NotFileHash)))
    ));
}

#[test]
fn received_copies_are_cut_off_at_the_end_of_the_basis() {
    let mut buf: Vec<u8> = vec![7, 2, 0, 0, 0, 0, 0, 0, 0, 9, 0, 0, 0];
    write_token_end(&mut buf).unwrap();
    write_file_hash(&mut buf, &file_hash(b"sis")).unwrap();
    let mut r = MemorySource::new(buf);
    let got = receive_file(&mut r, b"basis", Vec::new()).unwrap();
    assert_eq!(got.out, b"sis");
    assert_eq!((got.literal, got.matched), (0, 3));
}

#[test]
fn a_transfer_from_list_to_contents() {
    let files: Vec<(Vec<u8>, Vec<u8>)> = vec![
        (b"a".to_vec(), b"some text ".repeat(200)),
        (b"d/b".to_vec(), vec![]),
    ];
    let have = b"some text ".repeat(150);
    let opts = SyncOpts::default();

    let list: Vec<FileEntry> = files
        .iter()
        .map(|(path, data)| FileEntry {
            size: data.len() as u64,
            ..entry(path, EntryKind::Regular)
        })
        .collect();
    let mut forward: Vec<u8> = Vec::new();
    send_flist(&mut forward, &list).unwrap();
    let got = receive_flist(&mut MemorySource::new(forward)).unwrap();

    for (idx, e) in got.iter().enumerate() {
        assert_eq!(plan_receive(e, None, &opts), ReceiverStep::Fetch(files[idx].0.clone()));
        let mut back: Vec<u8> = Vec::new();
        request_file(&mut back, idx, e.size, &have, &opts).unwrap();
        let request = read_file_request(&mut MemorySource::new(back), got.len()).unwrap();
        let FileRequest::File { idx, blen, sums } = request else { unreachable!() };
        let sent = send_file(Vec::new(), &files[idx].1, &sums, blen, false).unwrap();
        let mut r = MemorySource::new(sent.out);
        assert_eq!(receive_file(&mut r, &have, Vec::new()).unwrap().out, files[idx].1);
    }
}

#[test]
fn receivers_stay_inside_the_destination() {
    let opts = SyncOpts::default();
    let step = |path: &[u8], kind: EntryKind| plan_receive(&entry(path, kind), None, &opts);
    assert_eq!(step(b"./d/", EntryKind::Dir), ReceiverStep::MakeDir(b"d".to_vec()));
    assert_eq!(step(b"/d", EntryKind::Dir), ReceiverStep::Refuse(PathError::Absolute));
    assert_eq!(step(b"../d", EntryKind::Other), ReceiverStep::Refuse(PathError::ParentDir));
    assert_eq!(step(b"x", EntryKind::Other), ReceiverStep::Ignore);
    let link = |t: &[u8]| EntryKind::Symlink { target: t.to_vec() };
    assert_eq!(
        step(b"l", link(b"t")),
        ReceiverStep::MakeLink { path: b"l".to_vec(), target: b"t".to_vec() }
    );
    assert_eq!(step(b"l", link(b"/t")), ReceiverStep::SkipLink);
    assert_eq!(step(b"..", link(b"/t")), ReceiverStep::Refuse(PathError::ParentDir));
}

fn at(mtime: u64, len: u64) -> Option<DstMeta> {
    Some(DstMeta { is_symlink: false, len, mtime: Some(mtime) })
}

#[test]
fn receivers_make_nothing_in_a_dry_run() {
    let dry = SyncOpts { dry_run: true, ..Default::default() };
    let step = |kind: EntryKind, dst| plan_receive(&entry(b"x", kind), dst, &dry);
    let link = EntryKind::Symlink { target: b"t".to_vec() };
    assert_eq!(step(EntryKind::Dir, None), ReceiverStep::Ignore);
    assert_eq!(step(link, None), ReceiverStep::Ignore);
    assert_eq!(step(EntryKind::Regular, None), ReceiverStep::WouldFetch);
    assert_eq!(step(EntryKind::Regular, at(2, 5)), ReceiverStep::WouldFetch);
    assert_eq!(step(EntryKind::Regular, at(1, 5)), ReceiverStep::Skip);
    let sums = SyncOpts { dry_run: true, checksum: true, ..Default::default() };
    let e = entry(b"x", EntryKind::Regular);
    assert_eq!(plan_receive(&e, at(1, 5), &sums), ReceiverStep::WouldFetch);
}

#[test]
fn receivers_follow_the_options() {
    let e = entry(b"x", EntryKind::Regular);
    let fetch = ReceiverStep::Fetch(b"x".to_vec());
    let plain = SyncOpts::default();
    assert_eq!(plan_receive(&e, at(1, 5), &plain), ReceiverStep::Skip);
    assert_eq!(plan_receive(&e, at(2, 5), &plain), fetch);
    let keep = SyncOpts { ignore_existing: true, ..Default::default() };
    assert_eq!(plan_receive(&e, at(2, 9), &keep), ReceiverStep::Skip);
    assert_eq!(plan_receive(&e, None, &keep), fetch);
    let update = SyncOpts { update: true, ..Default::default() };
    assert_eq!(plan_receive(&e, at(2, 9), &update), ReceiverStep::Skip);
    assert_eq!(plan_receive(&e, at(0, 9), &update), fetch);
    let sums = SyncOpts { checksum: true, ..Default::default() };
    assert_eq!(plan_receive(&e, at(1, 5), &sums), fetch);
    let small = SyncOpts { max_size: Some(4), ..Default::default() };
    assert_eq!(plan_receive(&e, None, &small), ReceiverStep::Ignore);
    let mut filtered = SyncOpts::default();
    filtered.filter.add_exclude("x");
    assert_eq!(plan_receive(&e, None, &filtered), ReceiverStep::Ignore);
    let link = entry(b"l", EntryKind::Symlink { target: b"t".to_vec() });
    assert_eq!(plan_receive(&link, at(1, 1), &keep), ReceiverStep::Skip);
}

#[test]
fn senders_list_what_takes_part() {
    let list = vec![
        entry(b"a.log", EntryKind::Regular),
        entry(b"a.txt", EntryKind::Regular),
        entry(b"d", EntryKind::Dir),
    ];
    let mut opts = SyncOpts::default();
    opts.filter.add_exclude("*.log");
    let mut buf: Vec<u8> = Vec::new();
    let sent = send_selected(&mut buf, &list, &opts).unwrap();
    let paths: Vec<&[u8]> = sent.iter().map(|e| e.path.as_slice()).collect();
    assert_eq!(paths, [b"a.txt".as_slice(), b"d".as_slice()]);
    let got = receive_flist(&mut MemorySource::new(buf.clone())).unwrap();
    let read: Vec<&[u8]> = got.iter().map(|e| e.path.as_slice()).collect();
    assert_eq!(read, paths);

    let mut offer: Vec<u8> = Vec::new();
    assert_eq!(send_offer(&mut offer, &list, &opts).unwrap().len(), 2);
    assert_eq!(offer, buf);
    opts.dry_run = true;
    let mut dry: Vec<u8> = Vec::new();
    assert!(send_offer(&mut dry, &list, &opts).unwrap().is_empty());
    assert_eq!(dry, vec![1, 3]);

    // What is left out may have a path that is too long.
    let long = vec![entry(&vec![b'a'; 65536], EntryKind::Dir)];
    opts.dry_run = false;
    assert!(matches!(
        send_selected(&mut buf, &long, &opts),
        Err(WireError::Fault(Fault::PathTooLong))
    ));
    opts.filter.add_exclude("a*");
    assert!(send_selected(&mut buf, &long, &opts).is_ok());
}

#[test]
fn refused_messages_are_read_no_further() {
    // The file has no such number: the block sums are left.
    let mut buf: Vec<u8> = Vec::new();
    write_sum_head(&mut buf, 3, 700, 0).unwrap();
    write_sum_end(&mut buf).unwrap();
    let mut r = MemorySource::new(buf);
    assert_eq!(request_fault(read_file_request(&mut r, 3)), RequestFault::OutOfRange(3));
    assert_eq!(r.read_exact(1).unwrap(), [6]);
    assert!(r.read_exact(1).is_err());

    // The list has a tag that is wrong: what follows it is left.
    let mut r = MemorySource::new(vec![1, 9, 42]);
    assert!(receive_flist(&mut r).is_err());
    assert_eq!(r.read_exact(1).unwrap(), [42]);

    // The digest is another: what follows it is left.
    let mut bytes = send_file(Vec::new(), b"contents", &[], 512, false).unwrap().out;
    bytes[6] ^= 1;
    bytes.push(42);
    let mut r = MemorySource::new(bytes);
    assert!(receive_file(&mut r, b"", Vec::new()).is_err());
    assert_eq!(r.read_exact(1).unwrap(), [42]);
}
