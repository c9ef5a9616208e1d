use rsy::delta::Token;
use rsy::flist::{EntryKind, FileEntry};
use rsy::protocol::{
    apply_token_stream, read_entry, read_file_hash, read_receiver_req, read_sum_blocks, read_token,
    write_data_tokens, write_done, write_entry, write_file_hash, write_flist_end,
    write_flist_start, write_sum_block, write_sum_end, write_sum_head, write_token,
    write_token_end, ReceiverReq, SumHead, WireSink, MAX_SUM_BLOCKS, TAG_DONE, TAG_FILE_HASH,
    TAG_FLIST_END, TAG_FLIST_ENTRY, TAG_FLIST_START, TAG_SUM_END, TAG_SUM_HEAD, TAG_TOKEN_DATA,
};
use rsy::stream::{ByteSource, MemorySource, ReadError};
use rsy::wire::{Fault, WireError};

fn fault<T>(r: Result<T, WireError>) -> Fault {
    match r {
        Err(WireError::Fault(f)) => f,
        _ => panic!("no fault"),
    }
}

fn entry(path: &[u8], kind: EntryKind) -> FileEntry {
    FileEntry { path: path.to_vec(), size: 300, mtime: -2, mode: 0o644, uid: 7, gid: 8, kind }
}

#[test]
fn write_data_tokens_chunked_round_trip() {
    let data: Vec<u8> = (0..53).map(|i| i as u8).collect();
    let mut buf = Vec::new();
    write_data_tokens(&mut buf, &data, 8).unwrap();
    write_token_end(&mut buf).unwrap();

    let mut r = MemorySource::new(buf);
    let mut out = Vec::new();
    let mut segments = 0usize;
    loop {
        match read_token(&mut r).unwrap() {
            Some(Token::Data(d)) => {
                assert!(d.len() <= 8);
                segments += 1;
                out.extend_from_slice(&d);
            }
            Some(Token::Copy { .. }) => unreachable!("only data tokens expected"),
            None => break,
        }
    }
    assert!(segments > 1);
    assert_eq!(out, data);
}

#[test]
fn protocol_max_sum_blocks_rejected() {
    let count = MAX_SUM_BLOCKS + 1;
    let buf: Vec<u8> = vec![];
    let mut cur = MemorySource::new(buf);
    assert!(read_sum_blocks(&mut cur, count).is_err());
}

#[test]
fn protocol_write_buf_rejects_long_path() {
    let entry = FileEntry {
        path: "a".repeat(65536).into_bytes(),
        size: 0,
        mtime: 0,
        mode: 0o644,
        uid: 0,
        gid: 0,
        kind: EntryKind::Regular,
    };
    let mut buf: Vec<u8> = vec![];
    assert!(write_entry(&mut buf, &entry).is_err());
}

#[test]
fn entries_have_exact_bytes() {
    let mut buf: Vec<u8> = Vec::new();
    write_entry(&mut buf, &entry(b"ab", EntryKind::Symlink { target: b"t".to_vec() })).unwrap();
    let mut want = vec![TAG_FLIST_ENTRY, 2, 0, b'a', b'b'];
    want.extend_from_slice(&[0x2c, 1, 0, 0, 0, 0, 0, 0]);
    want.extend_from_slice(&[0xfe, 0xff, 0xff, 0xff, 0xff, 0xff, 0xff, 0xff]);
    want.extend_from_slice(&[0xa4, 1, 0, 0, 7, 0, 0, 0, 8, 0, 0, 0]);
    want.extend_from_slice(&[2, 1, 0, b't']);
    assert_eq!(buf, want);
}

#[test]
fn entries_are_read_as_written() {
    let kinds = vec![
        EntryKind::Regular,
        EntryKind::Dir,
        EntryKind::Symlink { target: b"x/y".to_vec() },
        EntryKind::Other,
    ];
    for kind in kinds {
        let e = FileEntry { size: u64::MAX, mtime: i64::MIN, ..entry(b"p", kind.clone()) };
        let mut buf: Vec<u8> = Vec::new();
        write_entry(&mut buf, &e).unwrap();
        assert_eq!(buf.remove(0), TAG_FLIST_ENTRY);
        buf.push(99);
        let mut r = MemorySource::new(buf);
        let got = read_entry(&mut r).unwrap();
        assert_eq!((got.path, got.size, got.mtime), (b"p".to_vec(), u64::MAX, i64::MIN));
        assert_eq!((got.mode, got.uid, got.gid), (0o644, 7, 8));
        assert_eq!(got.kind, kind);
        assert_eq!(r.read_exact(1).unwrap(), vec![99]);
    }
}

#[test]
fn unknown_kinds_are_other() {
    let mut buf: Vec<u8> = Vec::new();
    write_entry(&mut buf, &entry(b"p", EntryKind::Regular)).unwrap();
    let last = buf.len() - 1;
    buf[last] = 200;
    let mut r = MemorySource::new(buf[1..].to_vec());
    assert_eq!(read_entry(&mut r).unwrap().kind, EntryKind::Other);
}

#[test]
fn long_targets_are_refused_and_cut_entries_end() {
    let long = EntryKind::Symlink { target: vec![b'a'; 65536] };
    let mut buf: Vec<u8> = Vec::new();
    assert_eq!(fault(write_entry(&mut buf, &entry(b"p", long))), Fault::PathTooLong);
    let fits = EntryKind::Symlink { target: vec![b'a'; 65535] };
    write_entry(&mut buf, &entry(b"p", fits)).unwrap();
    let mut r = MemorySource::new(buf[1..buf.len() - 1].to_vec());
    assert_eq!(fault(read_entry(&mut r)), Fault::Eof);
}

#[test]
fn requests_are_read_as_written() {
    let mut buf: Vec<u8> = vec![77, 0, TAG_SUM_END];
    write_sum_head(&mut buf, 1, 700, 2).unwrap();
    assert_eq!(buf[3..], [TAG_SUM_HEAD, 1, 0, 0, 0, 0xbc, 2, 0, 0, 2, 0, 0, 0]);
    write_sum_block(&mut buf, 0x01020304, &[9; 16]).unwrap();
    write_sum_block(&mut buf, 5, &[8; 16]).unwrap();
    write_sum_end(&mut buf).unwrap();
    write_done(&mut buf).unwrap();
    let mut r = MemorySource::new(buf);
    // The bytes before the head are no tags of requests.
    let head = SumHead { file_idx: 1, block_len: 700, count: 2 };
    assert_eq!(read_receiver_req(&mut r).unwrap(), ReceiverReq::Sums(head));
    let sums = read_sum_blocks(&mut r, 2).unwrap();
    assert_eq!(sums, vec![(0x01020304, [9; 16]), (5, [8; 16])]);
    assert_eq!(read_receiver_req(&mut r).unwrap(), ReceiverReq::Done);
    assert_eq!(fault(read_receiver_req(&mut r)), Fault::Eof);
}

#[test]
fn wrong_sums_are_told_apart() {
    let mut r = MemorySource::new(vec![]);
    assert_eq!(fault(read_sum_blocks(&mut r, MAX_SUM_BLOCKS + 1)), Fault::TooManyBlocks);
    let mut r = MemorySource::new(vec![TAG_DONE]);
    assert_eq!(fault(read_sum_blocks(&mut r, 1)), Fault::NotSumBlock);
    let mut r = MemorySource::new(vec![TAG_DONE]);
    assert_eq!(fault(read_sum_blocks(&mut r, 0)), Fault::NotSumEnd);
    let mut r = MemorySource::new(vec![]);
    assert_eq!(fault(read_sum_blocks(&mut r, 0)), Fault::Eof);
}

#[test]
fn tokens_are_read_as_written() {
    let mut buf: Vec<u8> = Vec::new();
    write_token(&mut buf, &Token::Copy { offset: 1 << 40, len: 700 }).unwrap();
    write_token(&mut buf, &Token::Data(b"hey".to_vec())).unwrap();
    write_token(&mut buf, &Token::Data(vec![])).unwrap();
    write_token_end(&mut buf).unwrap();
    let mut r = MemorySource::new(buf);
    assert!(matches!(
        read_token(&mut r).unwrap(),
        Some(Token::Copy { offset: 0x100_0000_0000, len: 700 })
    ));
    assert!(matches!(read_token(&mut r).unwrap(), Some(Token::Data(d)) if d == b"hey"));
    assert!(matches!(read_token(&mut r).unwrap(), Some(Token::Data(d)) if d.is_empty()));
    assert!(read_token(&mut r).unwrap().is_none());
}

#[test]
fn wrong_tokens_are_told_apart() {
    let mut r = MemorySource::new(vec![42]);
    assert_eq!(fault(read_token(&mut r)), Fault::UnknownToken(42));
    let mut r = MemorySource::new(vec![TAG_TOKEN_DATA, 1, 0, 0, 0x10]);
    assert_eq!(fault(read_token(&mut r)), Fault::TokenTooLong);
    let mut r = MemorySource::new(vec![TAG_TOKEN_DATA, 2, 0, 0, 0, 1]);
    assert_eq!(fault(read_token(&mut r)), Fault::Eof);
}

#[test]
fn digests_are_read_as_written() {
    let mut buf: Vec<u8> = Vec::new();
    write_file_hash(&mut buf, &[3; 32]).unwrap();
    assert_eq!(buf.len(), 33);
    assert_eq!(buf[0], TAG_FILE_HASH);
    let mut r = MemorySource::new(buf);
    assert_eq!(read_file_hash(&mut r).unwrap(), [3; 32]);
    let mut r = MemorySource::new(vec![TAG_DONE]);
    assert_eq!(fault(read_file_hash(&mut r)), Fault::NotFileHash);
}

#[test]
fn list_marks_are_single_bytes() {
    let mut buf: Vec<u8> = Vec::new();
    write_flist_start(&mut buf).unwrap();
    write_flist_end(&mut buf).unwrap();
    assert_eq!(buf, vec![TAG_FLIST_START, TAG_FLIST_END]);
}

#[test]
fn token_streams_are_passed_on() {
    let mut buf: Vec<u8> = Vec::new();
    write_token(&mut buf, &Token::Data(b"a".to_vec())).unwrap();
    write_token(&mut buf, &Token::Copy { offset: 3, len: 4 }).unwrap();
    let tokens = buf.clone();
    write_token_end(&mut buf).unwrap();
    buf.push(1);
    let mut r = MemorySource::new(buf);
    let mut sink = WireSink(Vec::new());
    apply_token_stream(&mut r, &mut sink).unwrap();
    assert_eq!(sink.0, tokens);
    assert_eq!(r.read_exact(1).unwrap(), vec![1]);
    assert!(matches!(r.read_exact(1), Err(ReadError::Eof)));
    let mut r = MemorySource::new(vec![]);
    assert_eq!(fault(apply_token_stream(&mut r, &mut sink)), Fault::Eof);
}

#[test]
fn refused_messages_leave_the_rest() {
    let left = |mut r: MemorySource| {
        let mut rest: Vec<u8> = Vec::new();
        while let Ok(byte) = r.read_exact(1) {
            rest.extend_from_slice(&byte);
        }
        rest
    };

    let mut r = MemorySource::new(vec![5, 6, 7]);
    assert_eq!(fault(read_sum_blocks(&mut r, MAX_SUM_BLOCKS + 1)), Fault::TooManyBlocks);
    assert_eq!(left(r), [5, 6, 7]);

    let mut buf: Vec<u8> = Vec::new();
    write_sum_block(&mut buf, 1, &[2; 16]).unwrap();
    buf.extend_from_slice(&[TAG_DONE, 42]);
    let mut r = MemorySource::new(buf.clone());
    assert_eq!(fault(read_sum_blocks(&mut r, 2)), Fault::NotSumBlock);
    assert_eq!(left(r), [42]);
    let mut r = MemorySource::new(buf);
    assert_eq!(fault(read_sum_blocks(&mut r, 1)), Fault::NotSumEnd);
    assert_eq!(left(r), [42]);

    let mut r = MemorySource::new(vec![TAG_TOKEN_DATA, 1, 0, 0, 16, 42, 43]);
    assert_eq!(fault(read_token(&mut r)), Fault::TokenTooLong);
    assert_eq!(left(r), [42, 43]);
    let mut r = MemorySource::new(vec![TAG_DONE, 42]);
    assert_eq!(fault(read_token(&mut r)), Fault::UnknownToken(TAG_DONE));
    assert_eq!(left(r), [42]);
    let mut r = MemorySource::new(vec![TAG_DONE, 42]);
    assert_eq!(fault(read_file_hash(&mut r)), Fault::NotFileHash);
    assert_eq!(left(r), [42]);

    // The tokens before the one that is refused are handed on.
    let mut buf: Vec<u8> = Vec::new();
    write_token(&mut buf, &Token::Data(b"hey".to_vec())).unwrap();
    let first = buf.clone();
    buf.extend_from_slice(&[TAG_DONE, 42]);
    let mut r = MemorySource::new(buf);
    let mut sink = WireSink(Vec::new());
    assert_eq!(fault(apply_token_stream(&mut r, &mut sink)), Fault::UnknownToken(TAG_DONE));
    assert_eq!(sink.0, first);
    assert_eq!(left(r), [42]);
}
