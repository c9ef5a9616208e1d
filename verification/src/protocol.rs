//! The wire protocol for transfers over a pipe.
//!
//! From the sender to the receiver: the file list, then for each file that was
//! asked for its tokens and its digest. From the receiver to the sender: for
//! each file the block sums of what the receiver has, at the end a word that
//! it is done.

use crate::checksum::leading_array;
use crate::delta::{
    copy_total, lemma_render_concat, literal_total, render, token_bytes, Token, TokenSink,
    TokenView,
};
use crate::flist::{EntryKind, EntryKindView, EntryView, FileEntry};
use crate::stream::{appended, ByteSink, ByteSource};
use crate::wire::{
    fetch, fetch_i64, fetch_u16, fetch_u32, fetch_u64, fetch_u8, le_bytes, lemma_parse_bytes,
    lemma_parse_i64, lemma_parse_u16, lemma_parse_u32, lemma_parse_u64, lemma_parse_u8,
    lemma_read_bytes, lemma_read_i64, lemma_read_u16, lemma_read_u32, lemma_read_u64, parse_bytes, parse_i64, parse_u16, parse_u32, parse_u64, parse_u8, put_i64, put_u16, put_u32,
    put_u64, read_as, twos, Fault, WireError,
};
use vstd::prelude::*;
use vstd::slice::slice_subrange;

verus! {

pub const TAG_FLIST_START: u8 = 1;

pub const TAG_FLIST_ENTRY: u8 = 2;

pub const TAG_FLIST_END: u8 = 3;

pub const TAG_SUM_HEAD: u8 = 4;

pub const TAG_SUM_BLOCK: u8 = 5;

pub const TAG_SUM_END: u8 = 6;

pub const TAG_TOKEN_COPY: u8 = 7;

pub const TAG_TOKEN_DATA: u8 = 8;

pub const TAG_TOKEN_END: u8 = 9;

pub const TAG_FILE_HASH: u8 = 10;

pub const TAG_DONE: u8 = 11;

/// The most block sums that are accepted for one file.
pub const MAX_SUM_BLOCKS: u32 = 16_777_216;

/// The most data that is accepted, and written, in one token.
pub const MAX_TOKEN_DATA: usize = 268_435_456;

// ---------------------------------------------------------------------------
// File list
// ---------------------------------------------------------------------------

/// A byte string on the wire: its length, then its bytes.
pub open spec fn buf_bytes(b: Seq<u8>) -> Seq<u8> {
    le_bytes(b.len(), 2) + b
}

/// The length of a byte string fits in its field.
pub open spec fn fits(b: Seq<u8>) -> bool {
    b.len() <= 65535
}

/// The kind of an entry on the wire.
pub open spec fn kind_bytes(kind: EntryKindView) -> Seq<u8> {
    match kind {
        EntryKindView::Regular => seq![0u8],
        EntryKindView::Dir => seq![1u8],
        EntryKindView::Symlink { target } => seq![2u8] + buf_bytes(target),
        EntryKindView::Other => seq![3u8],
    }
}

/// What follows the tag of an entry.
pub open spec fn entry_body(e: EntryView) -> Seq<u8> {
    buf_bytes(e.path) + (le_bytes(e.size as nat, 8) + (le_bytes(twos(e.mtime), 8) + (le_bytes(
        e.mode as nat,
        4,
    ) + (le_bytes(e.uid as nat, 4) + (le_bytes(e.gid as nat, 4) + kind_bytes(e.kind))))))
}

/// An entry on the wire.
pub open spec fn entry_bytes(e: EntryView) -> Seq<u8> {
    seq![TAG_FLIST_ENTRY] + entry_body(e)
}

/// The path of the entry, and the target of a link, fit in their fields.
pub open spec fn entry_fits(e: EntryView) -> bool {
    &&& fits(e.path)
    &&& e.kind matches EntryKindView::Symlink { target } ==> fits(target)
}

/// A byte string: its length, then its bytes.
pub open spec fn parse_buf(s: Seq<u8>) -> Result<(Seq<u8>, Seq<u8>), Fault> {
    match parse_u16(s) {
        Ok((n, t)) => parse_bytes(t, n as nat),
        Err(f) => Err(f),
    }
}

/// The kind of an entry.
pub open spec fn parse_kind(s: Seq<u8>) -> Result<(EntryKindView, Seq<u8>), Fault> {
    match parse_u8(s) {
        Ok((b, t)) => if b == 0 {
            Ok((EntryKindView::Regular, t))
        } else if b == 1 {
            Ok((EntryKindView::Dir, t))
        } else if b == 2 {
            match parse_buf(t) {
                Ok((target, u)) => Ok((EntryKindView::Symlink { target }, u)),
                Err(f) => Err(f),
            }
        } else {
            Ok((EntryKindView::Other, t))
        },
        Err(f) => Err(f),
    }
}

/// What follows the tag of an entry.
pub open spec fn parse_entry(s: Seq<u8>) -> Result<(EntryView, Seq<u8>), Fault> {
    match parse_buf(s) {
        Err(f) => Err(f),
        Ok((path, s1)) => match parse_u64(s1) {
            Err(f) => Err(f),
            Ok((size, s2)) => match parse_i64(s2) {
                Err(f) => Err(f),
                Ok((mtime, s3)) => match parse_u32(s3) {
                    Err(f) => Err(f),
                    Ok((mode, s4)) => match parse_u32(s4) {
                        Err(f) => Err(f),
                        Ok((uid, s5)) => match parse_u32(s5) {
                            Err(f) => Err(f),
                            Ok((gid, s6)) => match parse_kind(s6) {
                                Err(f) => Err(f),
                                Ok((kind, s7)) => Ok(
                                    (EntryView { path, size, mtime, mode, uid, gid, kind }, s7),
                                ),
                            },
                        },
                    },
                },
            },
        },
    }
}

/// Adds a byte string to a message, where it fits.
fn put_buf(out: &mut Vec<u8>, b: &[u8]) -> (ok: bool)
    ensures
        ok == fits(b@),
        ok ==> final(out)@ == old(out)@ + buf_bytes(b@),
{
    if b.len() > 65535 {
        return false;
    }
    out.extend_from_slice(put_u16(b.len() as u16).as_slice());
    out.extend_from_slice(b);
    assert(out@ =~= old(out)@ + buf_bytes(b@));
    true
}

/// Reads a byte string.
fn read_buf<R: ByteSource>(r: &mut R) -> (got: Result<Vec<u8>, WireError>)
    ensures
        read_as(got, parse_buf(old(r).upcoming()), final(r).upcoming(), old(r).reliable()),
        final(r).reliable() == old(r).reliable(),
{
    match fetch_u16(r) {
        Ok(n) => fetch(r, n as usize),
        Err(e) => Err(e),
    }
}

/// Writes the start of a file list.
pub fn write_flist_start<W: ByteSink>(w: &mut W) -> (r: std::io::Result<()>)
    ensures
        appended(r, *old(w), *final(w), seq![TAG_FLIST_START]),
{
    let message: Vec<u8> = vec![TAG_FLIST_START];
    assert(message@ =~= seq![TAG_FLIST_START]);
    w.write_all(message.as_slice())
}

/// Writes the end of a file list.
pub fn write_flist_end<W: ByteSink>(w: &mut W) -> (r: std::io::Result<()>)
    ensures
        appended(r, *old(w), *final(w), seq![TAG_FLIST_END]),
{
    let message: Vec<u8> = vec![TAG_FLIST_END];
    assert(message@ =~= seq![TAG_FLIST_END]);
    w.write_all(message.as_slice())
}

/// Writes an entry; nothing of one that does not fit.
pub fn write_entry<W: ByteSink>(w: &mut W, e: &FileEntry) -> (r: Result<(), WireError>)
    ensures
        match r {
            Ok(()) => entry_fits(e@) && final(w).written() == old(w).written() + entry_bytes(e@),
            Err(WireError::Fault(f)) => f == Fault::PathTooLong && !entry_fits(e@)
                && final(w).written() == old(w).written(),
            Err(WireError::Io(_)) => !old(w).reliable(),
        },
        final(w).reliable() == old(w).reliable(),
{
    let mut m: Vec<u8> = vec![TAG_FLIST_ENTRY];
    if !put_buf(&mut m, e.path.as_slice()) {
        return Err(WireError::Fault(Fault::PathTooLong));
    }
    m.extend_from_slice(put_u64(e.size).as_slice());
    m.extend_from_slice(put_i64(e.mtime).as_slice());
    m.extend_from_slice(put_u32(e.mode).as_slice());
    m.extend_from_slice(put_u32(e.uid).as_slice());
    m.extend_from_slice(put_u32(e.gid).as_slice());
    match &e.kind {
        EntryKind::Regular => {
            m.push(0);
        },
        EntryKind::Dir => {
            m.push(1);
        },
        EntryKind::Symlink { target } => {
            m.push(2);
            if !put_buf(&mut m, target.as_slice()) {
                return Err(WireError::Fault(Fault::PathTooLong));
            }
        },
        EntryKind::Other => {
            m.push(3);
        },
    }
    assert(m@ =~= entry_bytes(e@));
    match w.write_all(m.as_slice()) {
        Ok(()) => Ok(()),
        Err(e) => Err(WireError::Io(e)),
    }
}

/// Reads what follows the tag of an entry.
pub fn read_entry<R: ByteSource>(r: &mut R) -> (got: Result<FileEntry, WireError>)
    ensures
        read_as(got, parse_entry(old(r).upcoming()), final(r).upcoming(), old(r).reliable()),
        final(r).reliable() == old(r).reliable(),
{
    let path = match read_buf(r) {
        Ok(path) => path,
        Err(e) => {
            return Err(e);
        },
    };
    let size: u64 = match fetch_u64(r) {
        Ok(n) => n,
        Err(e) => {
            return Err(e);
        },
    };
    let mtime: i64 = match fetch_i64(r) {
        Ok(n) => n,
        Err(e) => {
            return Err(e);
        },
    };
    let mode: u32 = match fetch_u32(r) {
        Ok(n) => n,
        Err(e) => {
            return Err(e);
        },
    };
    let uid: u32 = match fetch_u32(r) {
        Ok(n) => n,
        Err(e) => {
            return Err(e);
        },
    };
    let gid: u32 = match fetch_u32(r) {
        Ok(n) => n,
        Err(e) => {
            return Err(e);
        },
    };
    let kind = match read_kind(r) {
        Ok(kind) => kind,
        Err(e) => {
            return Err(e);
        },
    };
    Ok(FileEntry { path, size, mtime, mode, uid, gid, kind })
}

/// Reads the kind of an entry.
fn read_kind<R: ByteSource>(r: &mut R) -> (got: Result<EntryKind, WireError>)
    ensures
        read_as(got, parse_kind(old(r).upcoming()), final(r).upcoming(), old(r).reliable()),
        final(r).reliable() == old(r).reliable(),
{
    match fetch_u8(r) {
        Ok(b) => {
            if b == 0 {
                Ok(EntryKind::Regular)
            } else if b == 1 {
                Ok(EntryKind::Dir)
            } else if b == 2 {
                match read_buf(r) {
                    Ok(target) => Ok(EntryKind::Symlink { target }),
                    Err(e) => Err(e),
                }
            } else {
                Ok(EntryKind::Other)
            }
        },
        Err(e) => Err(e),
    }
}

// ---------------------------------------------------------------------------
// Requests
// ---------------------------------------------------------------------------

/// A request for a file: its number in the list, the length of the blocks and
/// how many block sums follow.
#[derive(Debug, Clone, Copy, PartialEq, Eq, Structural)]
pub struct SumHead {
    pub file_idx: u32,
    pub block_len: u32,
    pub count: u32,
}

/// What the receiver asks for.
#[derive(Debug, Clone, Copy, PartialEq, Eq, Structural)]
pub enum ReceiverReq {
    Sums(SumHead),
    Done,
}

impl View for ReceiverReq {
    type V = ReceiverReq;

    open spec fn view(&self) -> ReceiverReq {
        *self
    }
}

/// The head of a request on the wire.
pub open spec fn sum_head_bytes(head: SumHead) -> Seq<u8> {
    seq![TAG_SUM_HEAD] + (le_bytes(head.file_idx as nat, 4) + (le_bytes(head.block_len as nat, 4)
        + le_bytes(head.count as nat, 4)))
}

/// A block sum on the wire.
pub open spec fn sum_block_bytes(sum: (u32, Seq<u8>)) -> Seq<u8> {
    seq![TAG_SUM_BLOCK] + (le_bytes(sum.0 as nat, 4) + sum.1)
}

/// The next request. Bytes that are no tag of one are passed over.
pub open spec fn parse_receiver_req(s: Seq<u8>) -> Result<(ReceiverReq, Seq<u8>), Fault>
    decreases s.len(),
{
    match parse_u8(s) {
        Err(f) => Err(f),
        Ok((tag, t)) => if tag == TAG_SUM_HEAD {
            match parse_u32(t) {
                Err(f) => Err(f),
                Ok((file_idx, t1)) => match parse_u32(t1) {
                    Err(f) => Err(f),
                    Ok((block_len, t2)) => match parse_u32(t2) {
                        Err(f) => Err(f),
                        Ok((count, t3)) => Ok(
                            (ReceiverReq::Sums(SumHead { file_idx, block_len, count }), t3),
                        ),
                    },
                },
            }
        } else if tag == TAG_DONE {
            Ok((ReceiverReq::Done, t))
        } else if t.len() < s.len() {
            parse_receiver_req(t)
        } else {
            Err(Fault::Eof)
        },
    }
}

/// The next block sum.
pub open spec fn parse_sum_block(s: Seq<u8>) -> Result<((u32, Seq<u8>), Seq<u8>), Fault> {
    match parse_u8(s) {
        Err(f) => Err(f),
        Ok((tag, t)) => if tag != TAG_SUM_BLOCK {
            Err(Fault::NotSumBlock)
        } else {
            match parse_u32(t) {
                Err(f) => Err(f),
                Ok((rolling, t1)) => match parse_bytes(t1, 16) {
                    Err(f) => Err(f),
                    Ok((strong, t2)) => Ok(((rolling, strong), t2)),
                },
            }
        },
    }
}

/// Values read before others.
pub open spec fn prepend<V>(front: Seq<V>, r: Result<(Seq<V>, Seq<u8>), Fault>) -> Result<
    (Seq<V>, Seq<u8>),
    Fault,
> {
    match r {
        Ok((list, rest)) => Ok((front + list, rest)),
        Err(f) => Err(f),
    }
}

/// So many block sums, and their end.
pub open spec fn parse_sum_list(s: Seq<u8>, count: nat) -> Result<
    (Seq<(u32, Seq<u8>)>, Seq<u8>),
    Fault,
>
    decreases count,
{
    if count == 0 {
        match parse_u8(s) {
            Err(f) => Err(f),
            Ok((tag, t)) => if tag != TAG_SUM_END {
                Err(Fault::NotSumEnd)
            } else {
                Ok((Seq::empty(), t))
            },
        }
    } else {
        match parse_sum_block(s) {
            Err(f) => Err(f),
            Ok((sum, t)) => prepend(seq![sum], parse_sum_list(t, (count - 1) as nat)),
        }
    }
}

/// The block sums of a request, unless it announces too many.
pub open spec fn parse_sum_blocks(s: Seq<u8>, count: u32) -> Result<
    (Seq<(u32, Seq<u8>)>, Seq<u8>),
    Fault,
> {
    if count > MAX_SUM_BLOCKS {
        Err(Fault::TooManyBlocks)
    } else {
        parse_sum_list(s, count as nat)
    }
}

/// What is left to read where a list of so many block sums is refused: what
/// follows the first tag that is wrong.
pub open spec fn after_bad_sum(s: Seq<u8>, count: nat) -> Seq<u8>
    decreases count,
{
    if count == 0 {
        s.skip(1)
    } else {
        match parse_sum_block(s) {
            Ok((_, t)) => after_bad_sum(t, (count - 1) as nat),
            Err(_) => s.skip(1),
        }
    }
}

/// What is left to read where the block sums of a request are refused: all of
/// it where the request announces too many.
pub open spec fn after_bad_sums(s: Seq<u8>, count: u32) -> Seq<u8> {
    if count > MAX_SUM_BLOCKS {
        s
    } else {
        after_bad_sum(s, count as nat)
    }
}

/// Block sums as values.
pub open spec fn sum_views(sums: Seq<(u32, [u8; 16])>) -> Seq<(u32, Seq<u8>)> {
    Seq::new(sums.len(), |i: int| (sums[i].0, sums[i].1@))
}

/// Writes the head of a request.
pub fn write_sum_head<W: ByteSink>(w: &mut W, file_idx: u32, block_len: u32, count: u32) -> (r:
    std::io::Result<()>)
    ensures
        appended(
            r,
            *old(w),
            *final(w),
            sum_head_bytes((SumHead { file_idx, block_len, count })),
        ),
{
    let mut m: Vec<u8> = vec![TAG_SUM_HEAD];
    m.extend_from_slice(put_u32(file_idx).as_slice());
    m.extend_from_slice(put_u32(block_len).as_slice());
    m.extend_from_slice(put_u32(count).as_slice());
    assert(m@ =~= sum_head_bytes(SumHead { file_idx, block_len, count }));
    w.write_all(m.as_slice())
}

/// Writes a block sum.
pub fn write_sum_block<W: ByteSink>(w: &mut W, rolling: u32, strong: &[u8; 16]) -> (r:
    std::io::Result<()>)
    ensures
        appended(r, *old(w), *final(w), sum_block_bytes((rolling, strong@))),
{
    let mut m: Vec<u8> = vec![TAG_SUM_BLOCK];
    m.extend_from_slice(put_u32(rolling).as_slice());
    m.extend_from_slice(strong.as_slice());
    assert(m@ =~= sum_block_bytes((rolling, strong@)));
    w.write_all(m.as_slice())
}

/// Writes the end of the block sums.
pub fn write_sum_end<W: ByteSink>(w: &mut W) -> (r: std::io::Result<()>)
    ensures
        appended(r, *old(w), *final(w), seq![TAG_SUM_END]),
{
    let message: Vec<u8> = vec![TAG_SUM_END];
    assert(message@ =~= seq![TAG_SUM_END]);
    w.write_all(message.as_slice())
}

/// Writes that nothing more is asked for.
pub fn write_done<W: ByteSink>(w: &mut W) -> (r: std::io::Result<()>)
    ensures
        appended(r, *old(w), *final(w), seq![TAG_DONE]),
{
    let message: Vec<u8> = vec![TAG_DONE];
    assert(message@ =~= seq![TAG_DONE]);
    w.write_all(message.as_slice())
}

/// Reads the next request.
pub fn read_receiver_req<R: ByteSource>(r: &mut R) -> (got: Result<ReceiverReq, WireError>)
    ensures
        read_as(got, parse_receiver_req(old(r).upcoming()), final(r).upcoming(), old(r).reliable()),
        final(r).reliable() == old(r).reliable(),
{
    loop
        invariant
            parse_receiver_req(r.upcoming()) == parse_receiver_req(old(r).upcoming()),
            r.reliable() == old(r).reliable(),
        decreases r.upcoming().len(),
    {
        let tag: u8 = match fetch_u8(r) {
            Ok(tag) => tag,
            Err(e) => {
                return Err(e);
            },
        };
        if tag == TAG_SUM_HEAD {
            let file_idx: u32 = match fetch_u32(r) {
                Ok(n) => n,
                Err(e) => {
                    return Err(e);
                },
            };
            let block_len: u32 = match fetch_u32(r) {
                Ok(n) => n,
                Err(e) => {
                    return Err(e);
                },
            };
            let count: u32 = match fetch_u32(r) {
                Ok(n) => n,
                Err(e) => {
                    return Err(e);
                },
            };
            return Ok(ReceiverReq::Sums(SumHead { file_idx, block_len, count }));
        }
        if tag == TAG_DONE {
            return Ok(ReceiverReq::Done);
        }
    }
}

/// Reads the next block sum.
fn read_sum_block<R: ByteSource>(r: &mut R) -> (got: Result<(u32, [u8; 16]), WireError>)
    ensures
        match got {
            Ok(sum) => parse_sum_block(old(r).upcoming()) == Ok::<
                ((u32, Seq<u8>), Seq<u8>),
                Fault,
            >(((sum.0, sum.1@), final(r).upcoming())),
            Err(WireError::Fault(f)) => parse_sum_block(old(r).upcoming()) == Err::<
                ((u32, Seq<u8>), Seq<u8>),
                Fault,
            >(f) && (f != Fault::Eof ==> final(r).upcoming() == old(r).upcoming().skip(1)),
            Err(WireError::Io(_)) => !old(r).reliable(),
        },
        final(r).reliable() == old(r).reliable(),
{
    match fetch_u8(r) {
        Ok(tag) => {
            if tag != TAG_SUM_BLOCK {
                return Err(WireError::Fault(Fault::NotSumBlock));
            }
        },
        Err(e) => {
            return Err(e);
        },
    }
    let rolling: u32 = match fetch_u32(r) {
        Ok(n) => n,
        Err(e) => {
            return Err(e);
        },
    };
    match fetch(r, 16) {
        Ok(bytes) => Ok((rolling, leading_array(bytes.as_slice()))),
        Err(e) => Err(e),
    }
}

/// Reads the block sums of a request. Of one that announces too many, nothing is
/// read. What is left to read where the bytes end too early is not stated.
pub fn read_sum_blocks<R: ByteSource>(r: &mut R, count: u32) -> (got: Result<
    Vec<(u32, [u8; 16])>,
    WireError,
>)
    ensures
        match got {
            Ok(sums) => parse_sum_blocks(old(r).upcoming(), count) == Ok::<
                (Seq<(u32, Seq<u8>)>, Seq<u8>),
                Fault,
            >((sum_views(sums@), final(r).upcoming())),
            Err(WireError::Fault(f)) => parse_sum_blocks(old(r).upcoming(), count) == Err::<
                (Seq<(u32, Seq<u8>)>, Seq<u8>),
                Fault,
            >(f) && (f != Fault::Eof ==> final(r).upcoming() == after_bad_sums(
                old(r).upcoming(),
                count,
            )),
            Err(WireError::Io(_)) => !old(r).reliable() && count <= MAX_SUM_BLOCKS,
        },
        final(r).reliable() == old(r).reliable(),
{
    if count > MAX_SUM_BLOCKS {
        return Err(WireError::Fault(Fault::TooManyBlocks));
    }
    let mut sums: Vec<(u32, [u8; 16])> = Vec::new();
    let mut left: u32 = count;
    let ghost whole = parse_sum_list(old(r).upcoming(), count as nat);
    proof {
        lemma_prepend_nothing(whole);
        assert(sum_views(sums@) =~= Seq::empty());
    }
    while left > 0
        invariant
            count <= MAX_SUM_BLOCKS,
            whole == parse_sum_list(old(r).upcoming(), count as nat),
            whole == prepend(sum_views(sums@), parse_sum_list(r.upcoming(), left as nat)),
            after_bad_sum(r.upcoming(), left as nat) == after_bad_sum(
                old(r).upcoming(),
                count as nat,
            ),
            r.reliable() == old(r).reliable(),
        decreases left,
    {
        let ghost before = sum_views(sums@);
        match read_sum_block(r) {
            Ok(sum) => {
                sums.push(sum);
                left = left - 1;
                proof {
                    let view = (sum.0, sum.1@);
                    assert(sum_views(sums@) =~= before + seq![view]);
                    lemma_prepend_twice(
                        before,
                        seq![view],
                        parse_sum_list(r.upcoming(), left as nat),
                    );
                }
            },
            Err(e) => {
                return Err(e);
            },
        }
    }
    match fetch_u8(r) {
        Ok(tag) => {
            if tag != TAG_SUM_END {
                return Err(WireError::Fault(Fault::NotSumEnd));
            }
            assert(sum_views(sums@) + Seq::empty() =~= sum_views(sums@));
            Ok(sums)
        },
        Err(e) => Err(e),
    }
}

/// Nothing before others changes nothing.
pub proof fn lemma_prepend_nothing<V>(r: Result<(Seq<V>, Seq<u8>), Fault>)
    ensures
        prepend(Seq::empty(), r) == r,
{
    match r {
        Ok((list, _)) => {
            assert(Seq::empty() + list =~= list);
        },
        Err(_) => {},
    }
}

/// What comes before others that come before others comes before them all.
pub proof fn lemma_prepend_twice<V>(a: Seq<V>, b: Seq<V>, r: Result<(Seq<V>, Seq<u8>), Fault>)
    ensures
        prepend(a, prepend(b, r)) == prepend(a + b, r),
{
    match r {
        Ok((list, _)) => {
            assert(a + (b + list) =~= (a + b) + list);
        },
        Err(_) => {},
    }
}

// ---------------------------------------------------------------------------
// Tokens
// ---------------------------------------------------------------------------

/// Data on the wire: in one token, or in several where there is more than
/// `chunk` bytes of it.
pub open spec fn data_bytes(data: Seq<u8>, chunk: nat) -> Seq<u8>
    decreases data.len(),
{
    if chunk == 0 || data.len() <= chunk {
        seq![TAG_TOKEN_DATA] + (le_bytes(data.len(), 4) + data)
    } else {
        seq![TAG_TOKEN_DATA] + (le_bytes(chunk, 4) + (data.take(chunk as int) + data_bytes(
            data.skip(chunk as int),
            chunk,
        )))
    }
}

/// A token on the wire.
pub open spec fn wire_token(token: TokenView) -> Seq<u8> {
    match token {
        TokenView::Copy { offset, len } => seq![TAG_TOKEN_COPY] + (le_bytes(offset as nat, 8)
            + le_bytes(len as nat, 4)),
        TokenView::Data(data) => data_bytes(data, MAX_TOKEN_DATA as nat),
    }
}

/// Tokens on the wire, in order.
pub open spec fn wire_tokens(tokens: Seq<TokenView>) -> Seq<u8>
    decreases tokens.len(),
{
    if tokens.len() == 0 {
        Seq::empty()
    } else {
        wire_tokens(tokens.drop_last()) + wire_token(tokens.last())
    }
}

/// The next token, or nothing at the end of the tokens.
pub open spec fn parse_token(s: Seq<u8>) -> Result<(Option<TokenView>, Seq<u8>), Fault> {
    match parse_u8(s) {
        Err(f) => Err(f),
        Ok((tag, t)) => if tag == TAG_TOKEN_COPY {
            match parse_u64(t) {
                Err(f) => Err(f),
                Ok((offset, t1)) => match parse_u32(t1) {
                    Err(f) => Err(f),
                    Ok((len, t2)) => Ok((Some(TokenView::Copy { offset, len }), t2)),
                },
            }
        } else if tag == TAG_TOKEN_DATA {
            match parse_u32(t) {
                Err(f) => Err(f),
                Ok((n, t1)) => if n > MAX_TOKEN_DATA {
                    Err(Fault::TokenTooLong)
                } else {
                    match parse_bytes(t1, n as nat) {
                        Err(f) => Err(f),
                        Ok((data, t2)) => Ok((Some(TokenView::Data(data)), t2)),
                    }
                },
            }
        } else if tag == TAG_TOKEN_END {
            Ok((None, t))
        } else {
            Err(Fault::UnknownToken(tag))
        },
    }
}

/// What is left to read where a token is refused: what follows its tag, or the
/// length of its data.
pub open spec fn after_bad_token(s: Seq<u8>) -> Seq<u8> {
    if s[0] == TAG_TOKEN_DATA {
        s.skip(5)
    } else {
        s.skip(1)
    }
}

/// The tokens up to their end.
pub open spec fn parse_tokens(s: Seq<u8>) -> Result<(Seq<TokenView>, Seq<u8>), Fault>
    decreases s.len(),
{
    match parse_token(s) {
        Err(f) => Err(f),
        Ok((None, t)) => Ok((Seq::empty(), t)),
        Ok((Some(token), t)) => if t.len() < s.len() {
            prepend(seq![token], parse_tokens(t))
        } else {
            Err(Fault::Eof)
        },
    }
}

/// The tokens before the first that is refused, or before their end.
pub open spec fn good_tokens(s: Seq<u8>) -> Seq<TokenView>
    decreases s.len(),
{
    match parse_token(s) {
        Ok((Some(token), t)) => if t.len() < s.len() {
            seq![token] + good_tokens(t)
        } else {
            Seq::empty()
        },
        _ => Seq::empty(),
    }
}

/// What is left to read where tokens are refused.
pub open spec fn after_bad_tokens(s: Seq<u8>) -> Seq<u8>
    decreases s.len(),
{
    match parse_token(s) {
        Ok((Some(_), t)) => if t.len() < s.len() {
            after_bad_tokens(t)
        } else {
            s
        },
        _ => after_bad_token(s),
    }
}

/// A digest on the wire.
pub open spec fn hash_bytes(hash: Seq<u8>) -> Seq<u8> {
    seq![TAG_FILE_HASH] + hash
}

/// The digest of a file.
pub open spec fn parse_file_hash(s: Seq<u8>) -> Result<(Seq<u8>, Seq<u8>), Fault> {
    match parse_u8(s) {
        Err(f) => Err(f),
        Ok((tag, t)) => if tag != TAG_FILE_HASH {
            Err(Fault::NotFileHash)
        } else {
            parse_bytes(t, 32)
        },
    }
}

/// Writes a copy token.
fn write_copy_token<W: ByteSink>(w: &mut W, offset: u64, len: u32) -> (r: std::io::Result<()>)
    ensures
        appended(r, *old(w), *final(w), wire_token((TokenView::Copy { offset, len }))),
{
    let mut m: Vec<u8> = vec![TAG_TOKEN_COPY];
    m.extend_from_slice(put_u64(offset).as_slice());
    m.extend_from_slice(put_u32(len).as_slice());
    assert(m@ =~= wire_token(TokenView::Copy { offset, len }));
    w.write_all(m.as_slice())
}

/// Writes a token; data of more than `MAX_TOKEN_DATA` bytes as several.
pub fn write_token<W: ByteSink>(w: &mut W, t: &Token) -> (r: std::io::Result<()>)
    ensures
        appended(r, *old(w), *final(w), wire_token(t@)),
{
    match t {
        Token::Copy { offset, len } => write_copy_token(w, *offset, *len),
        Token::Data(data) => write_data_tokens(w, data.as_slice(), MAX_TOKEN_DATA),
    }
}

/// Writes the end of the tokens.
pub fn write_token_end<W: ByteSink>(w: &mut W) -> (r: std::io::Result<()>)
    ensures
        appended(r, *old(w), *final(w), seq![TAG_TOKEN_END]),
{
    let message: Vec<u8> = vec![TAG_TOKEN_END];
    assert(message@ =~= seq![TAG_TOKEN_END]);
    w.write_all(message.as_slice())
}

/// Writes the digest of a file.
pub fn write_file_hash<W: ByteSink>(w: &mut W, hash: &[u8; 32]) -> (r: std::io::Result<()>)
    ensures
        appended(r, *old(w), *final(w), hash_bytes(hash@)),
{
    let mut m: Vec<u8> = vec![TAG_FILE_HASH];
    m.extend_from_slice(hash.as_slice());
    assert(m@ =~= hash_bytes(hash@));
    w.write_all(m.as_slice())
}

/// Writes one data token.
fn write_data_token<W: ByteSink>(w: &mut W, data: &[u8]) -> (r: std::io::Result<()>)
    requires
        data@.len() <= u32::MAX,
    ensures
        appended(
            r,
            *old(w),
            *final(w),
            seq![TAG_TOKEN_DATA] + (le_bytes(data@.len(), 4) + data@),
        ),
{
    let mut m: Vec<u8> = vec![TAG_TOKEN_DATA];
    m.extend_from_slice(put_u32(data.len() as u32).as_slice());
    w.write_all(m.as_slice())?;
    w.write_all(data)?;
    assert(w.written() =~= old(w).written() + (seq![TAG_TOKEN_DATA] + (le_bytes(data@.len(), 4)
        + data@)));
    Ok(())
}

/// Writes data as tokens of up to `chunk_size` bytes.
pub fn write_data_tokens<W: ByteSink>(w: &mut W, data: &[u8], chunk_size: usize) -> (r:
    std::io::Result<()>)
    requires
        data@.len() > 0 ==> 0 < chunk_size,
        chunk_size <= u32::MAX || data@.len() <= u32::MAX,
    ensures
        appended(r, *old(w), *final(w), data_bytes(data@, chunk_size as nat)),
{
    let mut pos: usize = 0;
    let ghost chunk = chunk_size as nat;
    assert(data@.skip(0) =~= data@);
    if data.len() == 0 {
        return write_data_token(w, data);
    }
    while chunk_size < data.len() - pos
        invariant
            pos < data@.len(),
            0 < chunk_size,
            chunk == chunk_size,
            chunk_size <= u32::MAX || data@.len() <= u32::MAX,
            old(w).written() + data_bytes(data@, chunk) == w.written() + data_bytes(
                data@.skip(pos as int),
                chunk,
            ),
            w.reliable() == old(w).reliable(),
        decreases data@.len() - pos,
    {
        let end: usize = pos + chunk_size;
        let piece = slice_subrange(data, pos, end);
        let ghost rest = data@.skip(pos as int);
        let ghost before = w.written();
        write_data_token(w, piece)?;
        proof {
            assert(piece@ =~= rest.take(chunk as int));
            assert(data@.skip(end as int) =~= rest.skip(chunk as int));
            let tail = data_bytes(rest.skip(chunk as int), chunk);
            assert(before + (seq![TAG_TOKEN_DATA] + (le_bytes(chunk, 4) + (piece@ + tail)))
                =~= before + (seq![TAG_TOKEN_DATA] + (le_bytes(chunk, 4) + piece@)) + tail);
        }
        pos = end;
    }
    let piece = slice_subrange(data, pos, data.len());
    assert(piece@ =~= data@.skip(pos as int));
    write_data_token(w, piece)
}

/// Reads the next token; nothing at the end of the tokens. Of one that announces
/// too much data, none of the data is read. What is left to read where the bytes
/// end too early is not stated.
pub fn read_token<R: ByteSource>(r: &mut R) -> (got: Result<Option<Token>, WireError>)
    ensures
        match got {
            Ok(Some(token)) => parse_token(old(r).upcoming()) == Ok::<
                (Option<TokenView>, Seq<u8>),
                Fault,
            >((Some(token@), final(r).upcoming())),
            Ok(None) => parse_token(old(r).upcoming()) == Ok::<(Option<TokenView>, Seq<u8>), Fault>(
                (None, final(r).upcoming()),
            ),
            Err(WireError::Fault(f)) => parse_token(old(r).upcoming()) == Err::<
                (Option<TokenView>, Seq<u8>),
                Fault,
            >(f) && (f != Fault::Eof ==> final(r).upcoming() == after_bad_token(
                old(r).upcoming(),
            )),
            Err(WireError::Io(_)) => !old(r).reliable(),
        },
        final(r).reliable() == old(r).reliable(),
{
    let tag: u8 = match fetch_u8(r) {
        Ok(tag) => tag,
        Err(e) => {
            return Err(e);
        },
    };
    if tag == TAG_TOKEN_COPY {
        let offset: u64 = match fetch_u64(r) {
            Ok(n) => n,
            Err(e) => {
                return Err(e);
            },
        };
        match fetch_u32(r) {
            Ok(len) => Ok(Some(Token::Copy { offset, len })),
            Err(e) => Err(e),
        }
    } else if tag == TAG_TOKEN_DATA {
        let n: u32 = match fetch_u32(r) {
            Ok(n) => n,
            Err(e) => {
                return Err(e);
            },
        };
        if n as usize > MAX_TOKEN_DATA {
            assert(r.upcoming() =~= old(r).upcoming().skip(5));
            return Err(WireError::Fault(Fault::TokenTooLong));
        }
        match fetch(r, n as usize) {
            Ok(data) => Ok(Some(Token::Data(data))),
            Err(e) => Err(e),
        }
    } else if tag == TAG_TOKEN_END {
        Ok(None)
    } else {
        Err(WireError::Fault(Fault::UnknownToken(tag)))
    }
}

/// Reads the digest of a file. What is left to read where the bytes end too early
/// is not stated.
pub fn read_file_hash<R: ByteSource>(r: &mut R) -> (got: Result<[u8; 32], WireError>)
    ensures
        read_as(got, parse_file_hash(old(r).upcoming()), final(r).upcoming(), old(r).reliable()),
        got matches Err(WireError::Fault(f)) && f != Fault::Eof ==> final(r).upcoming() == old(
            r,
        ).upcoming().skip(1),
        final(r).reliable() == old(r).reliable(),
{
    match fetch_u8(r) {
        Ok(tag) => {
            if tag != TAG_FILE_HASH {
                return Err(WireError::Fault(Fault::NotFileHash));
            }
        },
        Err(e) => {
            return Err(e);
        },
    }
    match fetch(r, 32) {
        Ok(bytes) => Ok(leading_array(bytes.as_slice())),
        Err(e) => Err(e),
    }
}

// ---------------------------------------------------------------------------
// Token streams
// ---------------------------------------------------------------------------

/// A sink that writes the tokens it takes to the wire.
pub struct WireSink<W: ByteSink>(pub W);

impl<W: ByteSink> TokenSink for WireSink<W> {
    open spec fn follows(&self, start: &Self, tokens: Seq<TokenView>) -> bool {
        self.0.written() == start.0.written() + wire_tokens(tokens)
    }

    open spec fn reliable(&self) -> bool {
        self.0.reliable()
    }

    proof fn lemma_follows_itself(&self) {
        assert(self.0.written() + wire_tokens(Seq::empty()) =~= self.0.written());
    }

    fn on_copy(&mut self, basis_offset: u64, len: u32) -> (r: std::io::Result<()>) {
        let r = write_copy_token(&mut self.0, basis_offset, len);
        proof {
            lemma_wire_push(TokenView::Copy { offset: basis_offset, len });
        }
        r
    }

    fn on_data(&mut self, bytes: &[u8]) -> (r: std::io::Result<()>) {
        let r = write_data_tokens(&mut self.0, bytes, MAX_TOKEN_DATA);
        proof {
            lemma_wire_push(TokenView::Data(bytes@));
        }
        r
    }
}

/// One more token adds its bytes, whatever came before.
proof fn lemma_wire_push(token: TokenView)
    ensures
        forall|before: Seq<u8>, tokens: Seq<TokenView>|
            #![trigger before + wire_tokens(tokens)]
            before + wire_tokens(tokens) + wire_token(token) == before + wire_tokens(
                tokens.push(token),
            ),
{
    assert forall|before: Seq<u8>, tokens: Seq<TokenView>|
        #![trigger before + wire_tokens(tokens)]
        before + wire_tokens(tokens) + wire_token(token) == before + wire_tokens(
            tokens.push(token),
        ) by {
        assert(tokens.push(token).drop_last() =~= tokens);
        assert(before + wire_tokens(tokens) + wire_token(token) =~= before + (wire_tokens(tokens)
            + wire_token(token)));
    }
}

/// Reads tokens up to their end and hands each to the sink: where one is refused,
/// those before it. What is left to read where the bytes end too early is not
/// stated.
pub fn apply_token_stream<R: ByteSource, S: TokenSink>(r: &mut R, sink: &mut S) -> (got: Result<
    (),
    WireError,
>)
    ensures
        match got {
            Ok(()) => parse_tokens(old(r).upcoming()) matches Ok((tokens, rest))
                && final(r).upcoming() == rest && final(sink).follows(old(sink), tokens),
            Err(WireError::Fault(f)) => parse_tokens(old(r).upcoming()) == Err::<
                (Seq<TokenView>, Seq<u8>),
                Fault,
            >(f) && final(sink).follows(old(sink), good_tokens(old(r).upcoming())) && (f
                != Fault::Eof ==> final(r).upcoming() == after_bad_tokens(old(r).upcoming())),
            Err(WireError::Io(_)) => !old(r).reliable() || !old(sink).reliable(),
        },
        final(r).reliable() == old(r).reliable(),
        final(sink).reliable() == old(sink).reliable(),
{
    let ghost start = *old(sink);
    let ghost whole = parse_tokens(old(r).upcoming());
    let ghost mut taken = Seq::<TokenView>::empty();
    proof {
        start.lemma_follows_itself();
        lemma_prepend_nothing(whole);
        assert(taken + good_tokens(r.upcoming()) =~= good_tokens(r.upcoming()));
    }
    loop
        invariant
            start == *old(sink),
            whole == parse_tokens(old(r).upcoming()),
            whole == prepend(taken, parse_tokens(r.upcoming())),
            good_tokens(old(r).upcoming()) == taken + good_tokens(r.upcoming()),
            after_bad_tokens(old(r).upcoming()) == after_bad_tokens(r.upcoming()),
            sink.follows(&start, taken),
            r.reliable() == old(r).reliable(),
            sink.reliable() == old(sink).reliable(),
        decreases r.upcoming().len(),
    {
        let ghost here = r.upcoming();
        let token = match read_token(r) {
            Ok(Some(token)) => token,
            Ok(None) => {
                assert(taken + Seq::empty() =~= taken);
                return Ok(());
            },
            Err(e) => {
                assert(taken + Seq::empty() =~= taken);
                return Err(e);
            },
        };
        let ghost before = *sink;
        let done = match &token {
            Token::Copy { offset, len } => sink.on_copy(*offset, *len),
            Token::Data(data) => sink.on_data(data.as_slice()),
        };
        match done {
            Ok(()) => {},
            Err(e) => {
                return Err(WireError::Io(e));
            },
        }
        proof {
            assert(before.follows(&start, taken));
            lemma_prepend_twice(taken, seq![token@], parse_tokens(r.upcoming()));
            assert(taken + seq![token@] =~= taken.push(token@));
            assert(taken + (seq![token@] + good_tokens(r.upcoming())) =~= taken.push(token@)
                + good_tokens(r.upcoming()));
            taken = taken.push(token@);
        }
    }
}

// ---------------------------------------------------------------------------
// Laws
// ---------------------------------------------------------------------------

proof fn lemma_parse_buf(b: Seq<u8>, rest: Seq<u8>)
    requires
        fits(b),
    ensures
        parse_buf(buf_bytes(b) + rest) == Ok::<(Seq<u8>, Seq<u8>), Fault>((b, rest)),
{
    assert(buf_bytes(b) + rest =~= le_bytes(b.len(), 2) + (b + rest));
    lemma_parse_u16(b.len() as u16, b + rest);
    lemma_parse_bytes(b, rest);
}

proof fn lemma_parse_kind(kind: EntryKindView, rest: Seq<u8>)
    requires
        kind matches EntryKindView::Symlink { target } ==> fits(target),
    ensures
        parse_kind(kind_bytes(kind) + rest) == Ok::<(EntryKindView, Seq<u8>), Fault>((kind, rest)),
{
    match kind {
        EntryKindView::Regular => {
            lemma_parse_u8(0, rest);
        },
        EntryKindView::Dir => {
            lemma_parse_u8(1, rest);
        },
        EntryKindView::Symlink { target } => {
            assert(kind_bytes(kind) + rest =~= seq![2u8] + (buf_bytes(target) + rest));
            lemma_parse_u8(2, buf_bytes(target) + rest);
            lemma_parse_buf(target, rest);
        },
        EntryKindView::Other => {
            lemma_parse_u8(3, rest);
        },
    }
}

/// An entry that was written, its tag taken off, is read as it was, whatever
/// follows.
#[verifier::spinoff_prover]
pub proof fn law_entry_round_trip(e: EntryView, rest: Seq<u8>)
    requires
        entry_fits(e),
    ensures
        parse_u8(entry_bytes(e) + rest) == Ok::<(u8, Seq<u8>), Fault>(
            (TAG_FLIST_ENTRY, entry_body(e) + rest),
        ),
        parse_entry(entry_body(e) + rest) == Ok::<(EntryView, Seq<u8>), Fault>((e, rest)),
{
    assert(entry_bytes(e) + rest =~= seq![TAG_FLIST_ENTRY] + (entry_body(e) + rest));
    lemma_parse_u8(TAG_FLIST_ENTRY, entry_body(e) + rest);
    let s6 = kind_bytes(e.kind) + rest;
    let s5 = le_bytes(e.gid as nat, 4) + s6;
    let s4 = le_bytes(e.uid as nat, 4) + s5;
    let s3 = le_bytes(e.mode as nat, 4) + s4;
    let s2 = le_bytes(twos(e.mtime), 8) + s3;
    let s1 = le_bytes(e.size as nat, 8) + s2;
    assert(entry_body(e) + rest =~= buf_bytes(e.path) + s1);
    lemma_parse_buf(e.path, s1);
    lemma_parse_u64(e.size, s2);
    lemma_parse_i64(e.mtime, s3);
    lemma_parse_u32(e.mode, s4);
    lemma_parse_u32(e.uid, s5);
    lemma_parse_u32(e.gid, s6);
    lemma_parse_kind(e.kind, rest);
}

/// A request that was written is read as it was, whatever follows.
pub proof fn law_request_round_trip(head: SumHead, rest: Seq<u8>)
    ensures
        parse_receiver_req(sum_head_bytes(head) + rest) == Ok::<(ReceiverReq, Seq<u8>), Fault>(
            (ReceiverReq::Sums(head), rest),
        ),
        parse_receiver_req(seq![TAG_DONE] + rest) == Ok::<(ReceiverReq, Seq<u8>), Fault>(
            (ReceiverReq::Done, rest),
        ),
{
    let s2 = le_bytes(head.count as nat, 4) + rest;
    let s1 = le_bytes(head.block_len as nat, 4) + s2;
    let s0 = le_bytes(head.file_idx as nat, 4) + s1;
    assert(sum_head_bytes(head) + rest =~= seq![TAG_SUM_HEAD] + s0);
    lemma_parse_u8(TAG_SUM_HEAD, s0);
    lemma_parse_u32(head.file_idx, s1);
    lemma_parse_u32(head.block_len, s2);
    lemma_parse_u32(head.count, rest);
    lemma_parse_u8(TAG_DONE, rest);
}

/// Block sums on the wire, with their end.
pub open spec fn sum_list_bytes(sums: Seq<(u32, Seq<u8>)>) -> Seq<u8>
    decreases sums.len(),
{
    if sums.len() == 0 {
        seq![TAG_SUM_END]
    } else {
        sum_block_bytes(sums[0]) + sum_list_bytes(sums.drop_first())
    }
}

/// Block sums that were written, in a number that is accepted, are read as
/// they were, whatever follows.
pub proof fn law_sum_blocks_round_trip(sums: Seq<(u32, Seq<u8>)>, rest: Seq<u8>)
    requires
        sums.len() <= MAX_SUM_BLOCKS,
        forall|i: int| 0 <= i < sums.len() ==> (#[trigger] sums[i]).1.len() == 16,
    ensures
        parse_sum_blocks(sum_list_bytes(sums) + rest, sums.len() as u32) == Ok::<
            (Seq<(u32, Seq<u8>)>, Seq<u8>),
            Fault,
        >((sums, rest)),
{
    lemma_sum_list(sums, rest);
}

proof fn lemma_sum_list(sums: Seq<(u32, Seq<u8>)>, rest: Seq<u8>)
    requires
        forall|i: int| 0 <= i < sums.len() ==> (#[trigger] sums[i]).1.len() == 16,
    ensures
        parse_sum_list(sum_list_bytes(sums) + rest, sums.len()) == Ok::<
            (Seq<(u32, Seq<u8>)>, Seq<u8>),
            Fault,
        >((sums, rest)),
    decreases sums.len(),
{
    if sums.len() == 0 {
        lemma_parse_u8(TAG_SUM_END, rest);
        assert(sums =~= Seq::empty());
    } else {
        let first = sums[0];
        let tail = sum_list_bytes(sums.drop_first()) + rest;
        assert(first.1.len() == 16);
        assert(sum_list_bytes(sums) + rest =~= seq![TAG_SUM_BLOCK] + (le_bytes(first.0 as nat, 4)
            + (first.1 + tail)));
        lemma_parse_u8(TAG_SUM_BLOCK, le_bytes(first.0 as nat, 4) + (first.1 + tail));
        lemma_parse_u32(first.0, first.1 + tail);
        lemma_parse_bytes(first.1, tail);
        assert forall|i: int| 0 <= i < sums.drop_first().len() implies (
        #[trigger] sums.drop_first()[i]).1.len() == 16 by {
            assert(sums.drop_first()[i] == sums[i + 1]);
        }
        lemma_sum_list(sums.drop_first(), rest);
        assert(seq![first] + sums.drop_first() =~= sums);
    }
}

/// Data as the tokens that it is written as.
pub open spec fn data_pieces(data: Seq<u8>, chunk: nat) -> Seq<TokenView>
    decreases data.len(),
{
    if chunk == 0 || data.len() <= chunk {
        seq![TokenView::Data(data)]
    } else {
        seq![TokenView::Data(data.take(chunk as int))] + data_pieces(
            data.skip(chunk as int),
            chunk,
        )
    }
}

/// A token as the tokens that it is written as: itself, but for long data.
pub open spec fn token_pieces(token: TokenView) -> Seq<TokenView> {
    match token {
        TokenView::Copy { .. } => seq![token],
        TokenView::Data(data) => data_pieces(data, MAX_TOKEN_DATA as nat),
    }
}

/// Tokens as the tokens that they are written as.
pub open spec fn wire_pieces(tokens: Seq<TokenView>) -> Seq<TokenView>
    decreases tokens.len(),
{
    if tokens.len() == 0 {
        Seq::empty()
    } else {
        wire_pieces(tokens.drop_last()) + token_pieces(tokens.last())
    }
}

/// Some data token holds more than one token on the wire can.
pub open spec fn has_long_data(tokens: Seq<TokenView>) -> bool {
    exists|i: int|
        0 <= i < tokens.len() && (#[trigger] tokens[i] matches TokenView::Data(data) && data.len()
            > MAX_TOKEN_DATA)
}

proof fn lemma_parse_data(data: Seq<u8>, tail: Seq<u8>)
    ensures
        parse_tokens(data_bytes(data, MAX_TOKEN_DATA as nat) + tail) == prepend(
            data_pieces(data, MAX_TOKEN_DATA as nat),
            parse_tokens(tail),
        ),
    decreases data.len(),
{
    let chunk = MAX_TOKEN_DATA as nat;
    if data.len() <= chunk {
        let s = data_bytes(data, chunk) + tail;
        assert(s =~= seq![TAG_TOKEN_DATA] + (le_bytes(data.len(), 4) + (data + tail)));
        lemma_parse_u8(TAG_TOKEN_DATA, le_bytes(data.len(), 4) + (data + tail));
        lemma_parse_u32(data.len() as u32, data + tail);
        lemma_parse_bytes(data, tail);
        assert(tail.len() < s.len());
    } else {
        let piece = data.take(chunk as int);
        let after = data.skip(chunk as int);
        let tail2 = data_bytes(after, chunk) + tail;
        let s = data_bytes(data, chunk) + tail;
        assert(s =~= seq![TAG_TOKEN_DATA] + (le_bytes(chunk, 4) + (piece + tail2)));
        lemma_parse_u8(TAG_TOKEN_DATA, le_bytes(chunk, 4) + (piece + tail2));
        lemma_parse_u32(chunk as u32, piece + tail2);
        lemma_parse_bytes(piece, tail2);
        assert(tail2.len() < s.len());
        lemma_parse_data(after, tail);
        lemma_prepend_twice(
            seq![TokenView::Data(piece)],
            data_pieces(after, chunk),
            parse_tokens(tail),
        );
    }
}

proof fn lemma_parse_wire_token(token: TokenView, tail: Seq<u8>)
    ensures
        parse_tokens(wire_token(token) + tail) == prepend(token_pieces(token), parse_tokens(tail)),
{
    match token {
        TokenView::Copy { offset, len } => {
            let s = wire_token(token) + tail;
            let s1 = le_bytes(len as nat, 4) + tail;
            assert(s =~= seq![TAG_TOKEN_COPY] + (le_bytes(offset as nat, 8) + s1));
            lemma_parse_u8(TAG_TOKEN_COPY, le_bytes(offset as nat, 8) + s1);
            lemma_parse_u64(offset, s1);
            lemma_parse_u32(len, tail);
            assert(tail.len() < s.len());
        },
        TokenView::Data(data) => {
            lemma_parse_data(data, tail);
        },
    }
}

proof fn lemma_parse_wire_tokens(tokens: Seq<TokenView>, tail: Seq<u8>)
    ensures
        parse_tokens(wire_tokens(tokens) + tail) == prepend(
            wire_pieces(tokens),
            parse_tokens(tail),
        ),
    decreases tokens.len(),
{
    if tokens.len() == 0 {
        assert(wire_tokens(tokens) + tail =~= tail);
        lemma_prepend_nothing(parse_tokens(tail));
    } else {
        let before = tokens.drop_last();
        let tail2 = wire_token(tokens.last()) + tail;
        assert(wire_tokens(tokens) + tail =~= wire_tokens(before) + tail2);
        lemma_parse_wire_tokens(before, tail2);
        lemma_parse_wire_token(tokens.last(), tail);
        lemma_prepend_twice(
            wire_pieces(before),
            token_pieces(tokens.last()),
            parse_tokens(tail),
        );
    }
}

proof fn lemma_data_pieces(basis: Seq<u8>, data: Seq<u8>, chunk: nat)
    ensures
        render(basis, data_pieces(data, chunk)) == data,
        literal_total(data_pieces(data, chunk)) == data.len(),
        copy_total(data_pieces(data, chunk)) == 0,
    decreases data.len(),
{
    if chunk == 0 || data.len() <= chunk {
        lemma_one_data(basis, data);
    } else {
        let piece = data.take(chunk as int);
        let after = data.skip(chunk as int);
        let front = seq![TokenView::Data(piece)];
        lemma_one_data(basis, piece);
        lemma_data_pieces(basis, after, chunk);
        lemma_render_concat(basis, front, data_pieces(after, chunk));
        lemma_totals_concat(front, data_pieces(after, chunk));
        assert(piece + after =~= data);
    }
}

proof fn lemma_one_data(basis: Seq<u8>, data: Seq<u8>)
    ensures
        render(basis, seq![TokenView::Data(data)]) == data,
        literal_total(seq![TokenView::Data(data)]) == data.len(),
        copy_total(seq![TokenView::Data(data)]) == 0,
{
    reveal_with_fuel(render, 2);
    reveal_with_fuel(literal_total, 2);
    reveal_with_fuel(copy_total, 2);
    let one = seq![TokenView::Data(data)];
    assert(one.drop_last() =~= Seq::empty());
    assert(Seq::empty() + data =~= data);
}

proof fn lemma_totals_concat(a: Seq<TokenView>, b: Seq<TokenView>)
    ensures
        literal_total(a + b) == literal_total(a) + literal_total(b),
        copy_total(a + b) == copy_total(a) + copy_total(b),
    decreases b.len(),
{
    if b.len() == 0 {
        assert(a + b =~= a);
    } else {
        assert((a + b).drop_last() =~= a + b.drop_last());
        lemma_totals_concat(a, b.drop_last());
    }
}

/// Tokens that were written, with their end, are read as they were, whatever
/// follows, but that data too long for one token comes in several. What they
/// rebuild, and how much of it is data, stays the same.
pub proof fn law_tokens_round_trip(tokens: Seq<TokenView>, rest: Seq<u8>)
    ensures
        parse_tokens(wire_tokens(tokens) + (seq![TAG_TOKEN_END] + rest)) == Ok::<
            (Seq<TokenView>, Seq<u8>),
            Fault,
        >((wire_pieces(tokens), rest)),
        !has_long_data(tokens) ==> wire_pieces(tokens) == tokens,
        forall|basis: Seq<u8>| #[trigger]
            render(basis, wire_pieces(tokens)) == render(basis, tokens),
        literal_total(wire_pieces(tokens)) == literal_total(tokens),
        copy_total(wire_pieces(tokens)) == copy_total(tokens),
{
    let tail = seq![TAG_TOKEN_END] + rest;
    lemma_parse_u8(TAG_TOKEN_END, rest);
    lemma_parse_wire_tokens(tokens, tail);
    assert(wire_pieces(tokens) + Seq::empty() =~= wire_pieces(tokens));
    assert forall|basis: Seq<u8>| #[trigger]
        render(basis, wire_pieces(tokens)) == render(basis, tokens) by {
        lemma_pieces_render(basis, tokens);
    }
    lemma_pieces_render(Seq::empty(), tokens);
    if !has_long_data(tokens) {
        lemma_short_pieces(tokens);
    }
}

proof fn lemma_pieces_render(basis: Seq<u8>, tokens: Seq<TokenView>)
    ensures
        render(basis, wire_pieces(tokens)) == render(basis, tokens),
        literal_total(wire_pieces(tokens)) == literal_total(tokens),
        copy_total(wire_pieces(tokens)) == copy_total(tokens),
    decreases tokens.len(),
{
    if tokens.len() > 0 {
        let before = tokens.drop_last();
        let last = tokens.last();
        lemma_pieces_render(basis, before);
        lemma_render_concat(basis, wire_pieces(before), token_pieces(last));
        lemma_totals_concat(wire_pieces(before), token_pieces(last));
        match last {
            TokenView::Copy { .. } => {
                reveal_with_fuel(render, 2);
                reveal_with_fuel(literal_total, 2);
                reveal_with_fuel(copy_total, 2);
                assert(seq![last].drop_last() =~= Seq::empty());
                assert(Seq::empty() + token_bytes(basis, last) =~= token_bytes(basis, last));
            },
            TokenView::Data(data) => {
                lemma_data_pieces(basis, data, MAX_TOKEN_DATA as nat);
            },
        }
    }
}

proof fn lemma_short_pieces(tokens: Seq<TokenView>)
    requires
        !has_long_data(tokens),
    ensures
        wire_pieces(tokens) == tokens,
    decreases tokens.len(),
{
    if tokens.len() == 0 {
        assert(wire_pieces(tokens) =~= tokens);
    } else {
        let before = tokens.drop_last();
        assert forall|i: int| 0 <= i < before.len() implies #[trigger] before[i] == tokens[i] by {
        }
        assert(!has_long_data(before));
        lemma_short_pieces(before);
        let last = tokens[tokens.len() - 1];
        assert(!(last matches TokenView::Data(data) && data.len() > MAX_TOKEN_DATA));
        assert(wire_pieces(tokens) =~= tokens);
    }
}

/// A digest that was written is read as it was, whatever follows.
pub proof fn law_file_hash_round_trip(hash: Seq<u8>, rest: Seq<u8>)
    requires
        hash.len() == 32,
    ensures
        parse_file_hash(hash_bytes(hash) + rest) == Ok::<(Seq<u8>, Seq<u8>), Fault>((hash, rest)),
{
    assert(hash_bytes(hash) + rest =~= seq![TAG_FILE_HASH] + (hash + rest));
    lemma_parse_u8(TAG_FILE_HASH, hash + rest);
    lemma_parse_bytes(hash, rest);
}

/// Bytes that are no tag of a request are passed over in front of one.
pub proof fn law_other_bytes_are_passed_over(b: u8, s: Seq<u8>)
    requires
        b != 4,
        b != 11,
    ensures
        parse_receiver_req(seq![b] + s) == parse_receiver_req(s),
{
    lemma_parse_u8(b, s);
}

/// More block sums than 16777216 are refused at once, whatever follows, and no
/// fewer are on account of their number; a token that announces more than 268435456
/// bytes is refused, whatever they are.
pub proof fn law_limits_of_messages(s: Seq<u8>, count: u32, n: u32)
    ensures
        parse_sum_blocks(s, count) == Err::<(Seq<(u32, Seq<u8>)>, Seq<u8>), Fault>(
            Fault::TooManyBlocks,
        ) <==> count > 16_777_216,
        parse_token(seq![8u8] + (le_bytes(n as nat, 4) + s)) == Err::<
            (Option<TokenView>, Seq<u8>),
            Fault,
        >(Fault::TokenTooLong) <==> n > 268_435_456,
{
    lemma_parse_u8(8, le_bytes(n as nat, 4) + s);
    lemma_parse_u32(n, s);
    if count <= 16_777_216 {
        lemma_sums_refused(s, count as nat);
    }
}

proof fn lemma_sums_refused(s: Seq<u8>, count: nat)
    ensures
        parse_sum_list(s, count) != Err::<(Seq<(u32, Seq<u8>)>, Seq<u8>), Fault>(
            Fault::TooManyBlocks,
        ),
    decreases count,
{
    if count > 0 {
        match parse_sum_block(s) {
            Ok((_, t)) => {
                lemma_sums_refused(t, (count - 1) as nat);
            },
            Err(_) => {},
        }
    }
}

/// An entry fits exactly where its path, and the target of a link, has at most
/// 65535 bytes.
pub proof fn law_long_paths_do_not_fit(e: EntryView)
    ensures
        entry_fits(e) <==> e.path.len() <= 65535 && (e.kind matches EntryKindView::Symlink { target }
            ==> target.len() <= 65535),
{
}

/// Every message begins with its tag, and no two kinds share one.
pub proof fn law_messages_begin_with_their_tags(
    e: EntryView,
    head: SumHead,
    sum: (u32, Seq<u8>),
    offset: u64,
    len: u32,
    data: Seq<u8>,
    hash: Seq<u8>,
)
    ensures
        TAG_FLIST_START == 1 && TAG_FLIST_END == 3 && TAG_SUM_END == 6 && TAG_TOKEN_END == 9
            && TAG_DONE == 11,
        entry_bytes(e)[0] == 2,
        sum_head_bytes(head)[0] == 4,
        sum_block_bytes(sum)[0] == 5,
        wire_token(TokenView::Copy { offset, len })[0] == 7,
        wire_token(TokenView::Data(data))[0] == 8,
        hash_bytes(hash)[0] == 10,
{
}

/// Data is sent in tokens of at most 268435456 bytes each, and in one where it fits:
/// then its length follows the tag, and its bytes the length.
pub proof fn law_data_goes_in_one_token_where_it_fits(data: Seq<u8>)
    requires
        data.len() <= 268_435_456,
    ensures
        wire_token(TokenView::Data(data)) == seq![8u8] + (le_bytes(data.len(), 4) + data),
{
}

/// A token is read only from the bytes that it is written as, and the end of the
/// tokens only from its tag.
pub proof fn law_token_read_was_written(s: Seq<u8>)
    ensures
        parse_token(s) matches Ok((Some(token), rest)) ==> s == wire_token(token) + rest,
        parse_token(s) matches Ok((None, rest)) ==> s == seq![9u8] + rest,
{
    if s.len() > 0 {
        let t = s.skip(1);
        assert(s =~= seq![s[0]] + t);
        if s[0] == 7 {
            lemma_read_u64(t);
            if let Ok((offset, t1)) = parse_u64(t) {
                lemma_read_u32(t1);
                if let Ok((len, t2)) = parse_u32(t1) {
                    assert(s =~= wire_token(TokenView::Copy { offset, len }) + t2);
                }
            }
        } else if s[0] == 8 {
            lemma_read_u32(t);
            if let Ok((n, t1)) = parse_u32(t) {
                lemma_read_bytes(t1, n as nat);
                if n <= 268_435_456 {
                    if let Ok((data, t2)) = parse_bytes(t1, n as nat) {
                        assert(s =~= wire_token(TokenView::Data(data)) + t2);
                    }
                }
            }
        }
    }
}

/// A token with a tag of its own kind is read where all of it is there; no other
/// tag is accepted.
pub proof fn law_token_goes_by_its_tag(s: Seq<u8>)
    ensures
        s.len() == 0 ==> parse_token(s) == Err::<(Option<TokenView>, Seq<u8>), Fault>(Fault::Eof),
        s.len() > 0 && s[0] == 9 ==> parse_token(s) == Ok::<(Option<TokenView>, Seq<u8>), Fault>(
            (None, s.skip(1)),
        ),
        s.len() > 0 && s[0] == 7 ==> (parse_token(s) is Ok <==> s.len() >= 13),
        s.len() > 0 && s[0] != 7 && s[0] != 8 && s[0] != 9 ==> parse_token(s) == Err::<
            (Option<TokenView>, Seq<u8>),
            Fault,
        >(Fault::UnknownToken(s[0])),
{
}

/// A digest is read exactly where its tag and 32 bytes are there, and is these
/// bytes; anything else in place of the tag is refused.
pub proof fn law_digest_goes_by_its_tag(s: Seq<u8>)
    ensures
        s.len() >= 33 && s[0] == 10 ==> parse_file_hash(s) == Ok::<(Seq<u8>, Seq<u8>), Fault>(
            (s.subrange(1, 33), s.skip(33)),
        ),
        s.len() < 33 && (s.len() == 0 || s[0] == 10) ==> parse_file_hash(s) == Err::<
            (Seq<u8>, Seq<u8>),
            Fault,
        >(Fault::Eof),
        s.len() > 0 && s[0] != 10 ==> parse_file_hash(s) == Err::<(Seq<u8>, Seq<u8>), Fault>(
            Fault::NotFileHash,
        ),
{
    if s.len() >= 33 {
        assert(s.skip(1).take(32) =~= s.subrange(1, 33));
        assert(s.skip(1).skip(32) =~= s.skip(33));
    }
}

/// Block sums are read only from the bytes that they are written as, and as many
/// as were announced.
pub proof fn law_sums_read_were_written(s: Seq<u8>, count: u32)
    ensures
        parse_sum_blocks(s, count) matches Ok((sums, rest)) ==> sums.len() == count && s
            == sum_list_bytes(sums) + rest,
{
    if count <= 16_777_216 {
        lemma_sums_read(s, count as nat);
    }
}

proof fn lemma_sums_read(s: Seq<u8>, count: nat)
    ensures
        parse_sum_list(s, count) matches Ok((sums, rest)) ==> sums.len() == count && s
            == sum_list_bytes(sums) + rest,
    decreases count,
{
    if s.len() > 0 {
        let t = s.skip(1);
        assert(s =~= seq![s[0]] + t);
        if count > 0 {
            lemma_read_u32(t);
            if let Ok((rolling, t1)) = parse_u32(t) {
                lemma_read_bytes(t1, 16);
            }
            if let Ok((sum, u)) = parse_sum_block(s) {
                assert(s =~= sum_block_bytes(sum) + u);
                lemma_sums_read(u, (count - 1) as nat);
                if let Ok((sums, rest)) = parse_sum_list(u, (count - 1) as nat) {
                    let all = seq![sum] + sums;
                    assert(all.drop_first() =~= sums);
                    assert(s =~= sum_list_bytes(all) + rest);
                }
            }
        }
    }
}

/// What stands in place of a block sum, or of the end of the sums, is refused.
pub proof fn law_sums_go_by_their_tags(s: Seq<u8>, count: u32)
    requires
        s.len() > 0,
        count <= 16_777_216,
    ensures
        count > 0 && s[0] != 5 ==> parse_sum_blocks(s, count) == Err::<
            (Seq<(u32, Seq<u8>)>, Seq<u8>),
            Fault,
        >(Fault::NotSumBlock),
        count == 0 && s[0] != 6 ==> parse_sum_blocks(s, count) == Err::<
            (Seq<(u32, Seq<u8>)>, Seq<u8>),
            Fault,
        >(Fault::NotSumEnd),
{
}

/// An entry is read only from the bytes that it is written as. One of a special
/// kind may have any other number for it.
#[verifier::spinoff_prover]
pub proof fn law_entry_read_was_written(s: Seq<u8>)
    ensures
        parse_entry(s) matches Ok((e, rest)) ==> {
            &&& entry_fits(e)
            &&& s.len() == entry_body(e).len() + rest.len()
            &&& !(e.kind is Other) ==> s == entry_body(e) + rest
        },
{
    if let Ok((e, rest)) = parse_entry(s) {
        lemma_read_buf(s);
        let s1 = parse_buf(s)->Ok_0.1;
        lemma_read_u64(s1);
        let s2 = parse_u64(s1)->Ok_0.1;
        lemma_read_i64(s2);
        let s3 = parse_i64(s2)->Ok_0.1;
        lemma_read_u32(s3);
        let s4 = parse_u32(s3)->Ok_0.1;
        lemma_read_u32(s4);
        let s5 = parse_u32(s4)->Ok_0.1;
        lemma_read_u32(s5);
        let s6 = parse_u32(s5)->Ok_0.1;
        lemma_read_kind(s6);
        if !(e.kind is Other) {
            assert(s =~= entry_body(e) + rest);
        }
    }
}

proof fn lemma_read_buf(s: Seq<u8>)
    ensures
        parse_buf(s) matches Ok((b, rest)) ==> fits(b) && s == buf_bytes(b) + rest,
{
    lemma_read_u16(s);
    if let Ok((n, t)) = parse_u16(s) {
        lemma_read_bytes(t, n as nat);
        if let Ok((b, rest)) = parse_bytes(t, n as nat) {
            assert(s =~= buf_bytes(b) + rest);
        }
    }
}

proof fn lemma_read_kind(s: Seq<u8>)
    ensures
        parse_kind(s) matches Ok((kind, rest)) ==> {
            &&& kind matches EntryKindView::Symlink { target } ==> fits(target)
            &&& s.len() == kind_bytes(kind).len() + rest.len()
            &&& !(kind is Other) ==> s == kind_bytes(kind) + rest
        },
{
    if s.len() > 0 {
        let t = s.skip(1);
        assert(s =~= seq![s[0]] + t);
        lemma_read_buf(t);
        if let Ok((kind, rest)) = parse_kind(s) {
            if !(kind is Other) {
                assert(s =~= kind_bytes(kind) + rest);
            }
        }
    }
}

/// Of a token that is refused its tag is used up, and with data that is too long the
/// length as well: what is left follows them.
pub proof fn law_refused_token_is_passed(s: Seq<u8>, b: u8)
    ensures
        parse_token(s) == Err::<(Option<TokenView>, Seq<u8>), Fault>(Fault::UnknownToken(b)) ==> s
            == seq![b] + after_bad_token(s),
        parse_token(s) == Err::<(Option<TokenView>, Seq<u8>), Fault>(Fault::TokenTooLong) ==> s.take(
            5,
        ) + after_bad_token(s) == s,
{
    if parse_token(s) == Err::<(Option<TokenView>, Seq<u8>), Fault>(Fault::UnknownToken(b)) {
        assert(s =~= seq![b] + s.skip(1));
    } else if parse_token(s) == Err::<(Option<TokenView>, Seq<u8>), Fault>(Fault::TokenTooLong) {
        assert(s =~= s.take(5) + s.skip(5));
    }
}

} // verus!
