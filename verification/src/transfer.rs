//! A transfer over a pipe: what the sender and the receiver say to each other,
//! and what each makes of it.

use crate::checksum::{blake3_digest, file_hash, same_bytes};
use crate::delta::{
    basis_sums, block_sums, collision_free, copy_range, diff_stream, diff_tokens,
    law_no_block_is_sent, law_round_trip, lemma_full_block, lemma_sums_unique, literal_total,
    render, sums_of, token_bytes, BlockSum, PatchWriter, TokenSink, TokenView,
};
use crate::flist::{entry_views, EntryKind, EntryKindView, EntryView, FileEntry};
use crate::local::{
    is_confined, is_selected, law_selection_is_what_takes_part, law_selection_keeps_the_order,
    ref_views, select_entries, selection, takes_part,
};
use crate::one_file::{
    block_len, choose_block_len, dst_mtime, file_plan, is_kept, is_skipped, places_link, plan_file,
    DstMeta, FilePlan,
};
use crate::paths::{
    clean, clean_rel, law_clean_is_clean, safe_symlink_target, stays_inside, PathError,
};
use crate::pipeline::{add64, sum64, SyncOpts};
use crate::protocol::{
    after_bad_sums, after_bad_tokens, apply_token_stream, entry_body, entry_bytes, entry_fits,
    hash_bytes, law_entry_read_was_written, law_entry_round_trip, law_file_hash_round_trip, law_request_round_trip,
    law_sum_blocks_round_trip, law_tokens_round_trip, lemma_prepend_nothing, lemma_prepend_twice,
    parse_entry, parse_file_hash, parse_receiver_req, parse_sum_blocks, parse_tokens, prepend,
    read_entry, read_file_hash, read_receiver_req, read_sum_blocks, sum_block_bytes, sum_head_bytes,
    sum_list_bytes, sum_views, wire_pieces, wire_tokens, write_entry, write_file_hash,
    write_flist_end, write_flist_start, write_sum_block, write_sum_end, write_sum_head,
    write_token_end, ReceiverReq, SumHead, WireSink, MAX_SUM_BLOCKS, TAG_FLIST_END, TAG_FLIST_ENTRY,
    TAG_FLIST_START, TAG_TOKEN_END,
};
use crate::stream::{ByteSink, ByteSource};
use crate::wire::{fetch_u8, lemma_parse_u8, parse_u8, Fault, WireError};
use vstd::prelude::*;
use vstd::slice::slice_to_vec;

verus! {

// ---------------------------------------------------------------------------
// File list
// ---------------------------------------------------------------------------

/// Entries on the wire, with the end of the list.
pub open spec fn entries_bytes(entries: Seq<EntryView>) -> Seq<u8>
    decreases entries.len(),
{
    if entries.len() == 0 {
        seq![TAG_FLIST_END]
    } else {
        entry_bytes(entries[0]) + entries_bytes(entries.drop_first())
    }
}

/// A file list on the wire.
pub open spec fn flist_bytes(entries: Seq<EntryView>) -> Seq<u8> {
    seq![TAG_FLIST_START] + entries_bytes(entries)
}

/// All the paths of the list fit in their fields.
pub open spec fn all_fit(entries: Seq<EntryView>) -> bool {
    forall|i: int| 0 <= i < entries.len() ==> entry_fits(#[trigger] entries[i])
}

/// The entries before the first that does not fit, on the wire.
pub open spec fn fitting_bytes(entries: Seq<EntryView>) -> Seq<u8>
    decreases entries.len(),
{
    if entries.len() == 0 || !entry_fits(entries[0]) {
        Seq::empty()
    } else {
        entry_bytes(entries[0]) + fitting_bytes(entries.drop_first())
    }
}

/// Entries up to the end of the list.
pub open spec fn parse_entries(s: Seq<u8>) -> Result<(Seq<EntryView>, Seq<u8>), Fault>
    decreases s.len(),
{
    match parse_u8(s) {
        Err(f) => Err(f),
        Ok((tag, t)) => if tag == TAG_FLIST_ENTRY {
            match parse_entry(t) {
                Err(f) => Err(f),
                Ok((e, u)) => if u.len() < s.len() {
                    prepend(seq![e], parse_entries(u))
                } else {
                    Err(Fault::Eof)
                },
            }
        } else if tag == TAG_FLIST_END {
            Ok((Seq::empty(), t))
        } else {
            Err(Fault::NotListEntry(tag))
        },
    }
}

/// A file list.
pub open spec fn parse_flist(s: Seq<u8>) -> Result<(Seq<EntryView>, Seq<u8>), Fault> {
    match parse_u8(s) {
        Err(f) => Err(f),
        Ok((tag, t)) => if tag == TAG_FLIST_START {
            parse_entries(t)
        } else {
            Err(Fault::NotListStart(tag))
        },
    }
}

/// What is left to read where entries are refused: what follows the first tag
/// that is wrong.
pub open spec fn after_bad_entry(s: Seq<u8>) -> Seq<u8>
    decreases s.len(),
{
    if s.len() > 0 && s[0] == TAG_FLIST_ENTRY {
        match parse_entry(s.skip(1)) {
            Ok((_, u)) => if u.len() < s.len() {
                after_bad_entry(u)
            } else {
                s
            },
            Err(_) => s,
        }
    } else {
        s.skip(1)
    }
}

/// What is left to read where a file list is refused.
pub open spec fn after_bad_flist(s: Seq<u8>) -> Seq<u8> {
    if s[0] == TAG_FLIST_START {
        after_bad_entry(s.skip(1))
    } else {
        s.skip(1)
    }
}

/// A list was written, or a path of it is too long and the list up to there was
/// written, or the sink failed.
pub open spec fn list_written<W: ByteSink>(
    r: Result<(), WireError>,
    before: W,
    after: W,
    entries: Seq<EntryView>,
) -> bool {
    &&& match r {
        Ok(()) => all_fit(entries) && after.written() == before.written() + flist_bytes(entries),
        Err(WireError::Fault(f)) => f == Fault::PathTooLong && !all_fit(entries)
            && after.written() == before.written() + (seq![TAG_FLIST_START] + fitting_bytes(
            entries,
        )),
        Err(WireError::Io(_)) => !before.reliable(),
    }
    &&& after.reliable() == before.reliable()
}

/// Writes a file list.
pub fn send_flist<W: ByteSink>(w: &mut W, entries: &Vec<FileEntry>) -> (r: Result<(), WireError>)
    ensures
        list_written(r, *old(w), *final(w), entry_views(entries@)),
{
    let mut list: Vec<&FileEntry> = Vec::new();
    let mut i: usize = 0;
    while i < entries.len()
        invariant
            i <= entries@.len(),
            list@.len() == i,
            forall|k: int| 0 <= k < i ==> *(#[trigger] list@[k]) == entries@[k],
        decreases entries@.len() - i,
    {
        list.push(&entries[i]);
        i = i + 1;
    }
    assert(ref_views(list@) =~= entry_views(entries@));
    send_list(w, &list)
}

/// Writes a file list, of references.
fn send_list<W: ByteSink>(w: &mut W, entries: &Vec<&FileEntry>) -> (r: Result<(), WireError>)
    ensures
        list_written(r, *old(w), *final(w), ref_views(entries@)),
{
    let ghost views = ref_views(entries@);
    match write_flist_start(w) {
        Ok(()) => {},
        Err(e) => {
            return Err(WireError::Io(e));
        },
    }
    let mut i: usize = 0;
    assert(views.skip(0) =~= views);
    assert(old(w).written() + flist_bytes(views) =~= w.written() + entries_bytes(views.skip(0)));
    let ghost cut = old(w).written() + (seq![TAG_FLIST_START] + fitting_bytes(views));
    assert(cut =~= w.written() + fitting_bytes(views.skip(0)));
    while i < entries.len()
        invariant
            i <= entries@.len(),
            views == ref_views(entries@),
            old(w).written() + flist_bytes(views) == w.written() + entries_bytes(
                views.skip(i as int),
            ),
            cut == old(w).written() + (seq![TAG_FLIST_START] + fitting_bytes(views)),
            cut == w.written() + fitting_bytes(views.skip(i as int)),
            forall|k: int| 0 <= k < i ==> entry_fits(#[trigger] views[k]),
            w.reliable() == old(w).reliable(),
        decreases entries@.len() - i,
    {
        let ghost before = w.written();
        assert(views.skip(i as int)[0] == views[i as int]);
        assert(views.skip(i as int).drop_first() =~= views.skip(i + 1));
        match write_entry(w, entries[i]) {
            Ok(()) => {},
            Err(e) => {
                assert(views[i as int] == entries@[i as int]@);
                assert(before + Seq::<u8>::empty() =~= before);
                return Err(e);
            },
        }
        assert(before + (entry_bytes(views[i as int]) + entries_bytes(views.skip(i + 1)))
            =~= before + entry_bytes(views[i as int]) + entries_bytes(views.skip(i + 1)));
        assert(before + (entry_bytes(views[i as int]) + fitting_bytes(views.skip(i + 1)))
            =~= before + entry_bytes(views[i as int]) + fitting_bytes(views.skip(i + 1)));
        i = i + 1;
    }
    assert(views.skip(i as int) =~= Seq::empty());
    match write_flist_end(w) {
        Ok(()) => Ok(()),
        Err(e) => Err(WireError::Io(e)),
    }
}

/// The list of `entries` was written and is given, or a path of it is too long
/// and the list up to there was written, or the sink failed.
pub open spec fn list_given<W: ByteSink>(
    r: Result<Vec<&FileEntry>, WireError>,
    before: W,
    after: W,
    entries: Seq<EntryView>,
) -> bool {
    match r {
        Ok(list) => ref_views(list@) == entries && list_written(Ok(()), before, after, entries),
        Err(e) => list_written(Err(e), before, after, entries),
    }
}

/// Writes the list of the entries that take part, and gives it: the numbers in
/// requests are numbers in this list.
pub fn send_selected<'a, W: ByteSink>(
    w: &mut W,
    entries: &'a Vec<FileEntry>,
    opts: &SyncOpts,
) -> (r: Result<Vec<&'a FileEntry>, WireError>)
    ensures
        list_given(r, *old(w), *final(w), selection(entry_views(entries@), *opts)),
{
    let list: Vec<&'a FileEntry> = select_entries(entries, opts);
    match send_list(w, &list) {
        Ok(()) => Ok(list),
        Err(e) => Err(e),
    }
}

/// What the sender offers: the entries that take part, in order, but none in a
/// dry run, so that nothing is asked for and nothing is made.
pub open spec fn offered(entries: Seq<EntryView>, opts: SyncOpts) -> Seq<EntryView> {
    if opts.dry_run {
        Seq::empty()
    } else {
        selection(entries, opts)
    }
}

/// Writes the list of what the sender offers, and gives it.
pub fn send_offer<'a, W: ByteSink>(w: &mut W, entries: &'a Vec<FileEntry>, opts: &SyncOpts) -> (r:
    Result<Vec<&'a FileEntry>, WireError>)
    ensures
        list_given(r, *old(w), *final(w), offered(entry_views(entries@), *opts)),
{
    if !opts.dry_run {
        return send_selected(w, entries, opts);
    }
    let none: Vec<&'a FileEntry> = Vec::new();
    assert(ref_views(none@) =~= Seq::empty());
    match send_list(w, &none) {
        Ok(()) => Ok(none),
        Err(e) => Err(e),
    }
}

/// Reads a file list. What is left to read where the bytes end too early is not
/// stated.
pub fn receive_flist<R: ByteSource>(r: &mut R) -> (got: Result<Vec<FileEntry>, WireError>)
    ensures
        match got {
            Ok(list) => parse_flist(old(r).upcoming()) == Ok::<(Seq<EntryView>, Seq<u8>), Fault>(
                (entry_views(list@), final(r).upcoming()),
            ),
            Err(WireError::Fault(f)) => parse_flist(old(r).upcoming()) == Err::<
                (Seq<EntryView>, Seq<u8>),
                Fault,
            >(f) && (f != Fault::Eof ==> final(r).upcoming() == after_bad_flist(
                old(r).upcoming(),
            )),
            Err(WireError::Io(_)) => !old(r).reliable(),
        },
        final(r).reliable() == old(r).reliable(),
{
    match fetch_u8(r) {
        Ok(tag) => {
            if tag != TAG_FLIST_START {
                return Err(WireError::Fault(Fault::NotListStart(tag)));
            }
        },
        Err(e) => {
            return Err(e);
        },
    }
    let mut list: Vec<FileEntry> = Vec::new();
    let ghost whole = parse_flist(old(r).upcoming());
    proof {
        assert(entry_views(list@) =~= Seq::empty());
        lemma_prepend_nothing(parse_entries(r.upcoming()));
    }
    loop
        invariant
            whole == parse_flist(old(r).upcoming()),
            whole == prepend(entry_views(list@), parse_entries(r.upcoming())),
            after_bad_flist(old(r).upcoming()) == after_bad_entry(r.upcoming()),
            r.reliable() == old(r).reliable(),
        decreases r.upcoming().len(),
    {
        let ghost here = r.upcoming();
        let ghost before = entry_views(list@);
        let tag: u8 = match fetch_u8(r) {
            Ok(tag) => tag,
            Err(e) => {
                return Err(e);
            },
        };
        if tag == TAG_FLIST_ENTRY {
            let ghost body = r.upcoming();
            match read_entry(r) {
                Ok(e) => {
                    proof {
                        lemma_entry_consumes(body);
                        lemma_prepend_twice(before, seq![e@], parse_entries(r.upcoming()));
                    }
                    list.push(e);
                    assert(entry_views(list@) =~= before + seq![e@]);
                },
                Err(e) => {
                    return Err(e);
                },
            }
        } else if tag == TAG_FLIST_END {
            assert(entry_views(list@) + Seq::empty() =~= entry_views(list@));
            return Ok(list);
        } else {
            return Err(WireError::Fault(Fault::NotListEntry(tag)));
        }
    }
}

/// An entry takes bytes off the front.
proof fn lemma_entry_consumes(s: Seq<u8>)
    ensures
        parse_entry(s) matches Ok((_, rest)) ==> rest.len() <= s.len(),
{
}

/// A file list that was written is read as it was, whatever follows.
pub proof fn law_flist_round_trip(entries: Seq<EntryView>, rest: Seq<u8>)
    requires
        all_fit(entries),
    ensures
        parse_flist(flist_bytes(entries) + rest) == Ok::<(Seq<EntryView>, Seq<u8>), Fault>(
            (entries, rest),
        ),
{
    let s = entries_bytes(entries) + rest;
    assert(flist_bytes(entries) + rest =~= seq![TAG_FLIST_START] + s);
    lemma_parse_u8(TAG_FLIST_START, s);
    lemma_entries_round_trip(entries, rest);
}

proof fn lemma_entry_step(e: EntryView, tail: Seq<u8>)
    requires
        entry_fits(e),
    ensures
        parse_entries(entry_bytes(e) + tail) == prepend(seq![e], parse_entries(tail)),
{
    let s = entry_bytes(e) + tail;
    law_entry_round_trip(e, tail);
    assert(tail.len() < s.len()) by {
        assert(entry_bytes(e).len() == 1 + entry_body(e).len());
    }
    let t = entry_body(e) + tail;
    assert(parse_u8(s) == Ok::<(u8, Seq<u8>), Fault>((TAG_FLIST_ENTRY, t)));
    assert(parse_entry(t) == Ok::<(EntryView, Seq<u8>), Fault>((e, tail)));
}

proof fn lemma_entries_round_trip(entries: Seq<EntryView>, rest: Seq<u8>)
    requires
        all_fit(entries),
    ensures
        parse_entries(entries_bytes(entries) + rest) == Ok::<(Seq<EntryView>, Seq<u8>), Fault>(
            (entries, rest),
        ),
    decreases entries.len(),
{
    if entries.len() == 0 {
        lemma_parse_u8(TAG_FLIST_END, rest);
        assert(entries =~= Seq::empty());
    } else {
        let e = entries[0];
        let more = entries.drop_first();
        let tail = entries_bytes(more) + rest;
        assert(entries_bytes(entries) + rest =~= entry_bytes(e) + tail);
        lemma_entry_step(e, tail);
        assert forall|i: int| 0 <= i < more.len() implies entry_fits(#[trigger] more[i]) by {
            assert(more[i] == entries[i + 1]);
        }
        lemma_entries_round_trip(more, rest);
        assert(seq![e] + more =~= entries);
    }
}

// ---------------------------------------------------------------------------
// Requests
// ---------------------------------------------------------------------------

/// What the sender is asked for.
#[derive(Debug, Clone)]
pub enum FileRequest {
    /// Nothing more.
    Done,
    /// The file with this number in the list, against these block sums.
    File { idx: usize, blen: usize, sums: Vec<BlockSum> },
}

/// What the sender is asked for, as a value.
pub enum FileRequestView {
    Done,
    File { idx: int, blen: int, sums: Seq<BlockSum> },
}

impl View for FileRequest {
    type V = FileRequestView;

    open spec fn view(&self) -> FileRequestView {
        match self {
            FileRequest::Done => FileRequestView::Done,
            FileRequest::File { idx, blen, sums } => FileRequestView::File {
                idx: *idx as int,
                blen: *blen as int,
                sums: sums@,
            },
        }
    }
}

/// What can be wrong with a request.
#[derive(Debug, Clone, Copy, PartialEq, Eq, Structural)]
pub enum RequestFault {
    /// The message is wrong.
    Wire(Fault),
    /// The list has no file with this number.
    OutOfRange(u32),
}

/// Why a request could not be read.
#[derive(Debug)]
pub enum RequestError {
    /// The request is wrong.
    Fault(RequestFault),
    /// The operating system failed.
    Io(std::io::Error),
}

/// The block sums that came over the wire, each with the offset of its block.
pub open spec fn sums_from_wire(raw: Seq<(u32, Seq<u8>)>, sums: Seq<BlockSum>, blen: int) -> bool {
    &&& sums.len() == raw.len()
    &&& forall|i: int|
        0 <= i < sums.len() ==> {
            &&& (#[trigger] sums[i]).rolling == raw[i].0
            &&& sums[i].strong@ == raw[i].1
            &&& sums[i].offset == i * blen
        }
}

/// A request was read as the bytes say: the request, or the fault, with `rest`
/// left to read, unless the bytes end too early. The block length is brought
/// within limits. The number of the file is looked at before the block sums are
/// read.
pub open spec fn request_read_as(
    got: Result<FileRequest, RequestError>,
    s: Seq<u8>,
    files: int,
    rest: Seq<u8>,
    reliable: bool,
) -> bool {
    match got {
        Err(RequestError::Io(_)) => !reliable,
        Err(RequestError::Fault(fault)) => match parse_receiver_req(s) {
            Err(f) => fault == RequestFault::Wire(f),
            Ok((ReceiverReq::Done, _)) => false,
            Ok((ReceiverReq::Sums(head), t)) => if head.file_idx >= files {
                fault == RequestFault::OutOfRange(head.file_idx) && rest == t
            } else {
                match parse_sum_blocks(t, head.count) {
                    Err(f) => fault == RequestFault::Wire(f) && (f != Fault::Eof ==> rest
                        == after_bad_sums(t, head.count)),
                    Ok(_) => false,
                }
            },
        },
        Ok(request) => match parse_receiver_req(s) {
            Err(_) => false,
            Ok((ReceiverReq::Done, t)) => request@ == FileRequestView::Done && rest == t,
            Ok((ReceiverReq::Sums(head), t)) => {
                let blen = sane_block_len(head.block_len);
                &&& head.file_idx < files
                &&& request@ matches FileRequestView::File { idx, blen: b, sums } && idx
                    == head.file_idx && b == blen && (parse_sum_blocks(t, head.count) matches Ok(
                    (raw, u),
                ) && sums_from_wire(raw, sums, blen) && rest == u)
            },
        },
    }
}

/// A block length from the wire, brought within limits.
pub open spec fn sane_block_len(n: u32) -> int {
    crate::checksum::clamped(n as int, 512, 1_048_576)
}

/// The block sums that came over the wire, each with the offset of its block.
fn locate_sums(raw: &Vec<(u32, [u8; 16])>, blen: usize) -> (sums: Vec<BlockSum>)
    requires
        raw@.len() <= MAX_SUM_BLOCKS,
        blen <= 1_048_576,
    ensures
        sums_from_wire(sum_views(raw@), sums@, blen as int),
{
    let mut sums: Vec<BlockSum> = Vec::new();
    let mut i: usize = 0;
    while i < raw.len()
        invariant
            raw@.len() <= MAX_SUM_BLOCKS,
            blen <= 1_048_576,
            i <= raw@.len(),
            sums@.len() == i,
            forall|k: int|
                0 <= k < i ==> {
                    &&& (#[trigger] sums@[k]).rolling == raw@[k].0
                    &&& sums@[k].strong@ == raw@[k].1@
                    &&& sums@[k].offset == k * blen
                },
        decreases raw@.len() - i,
    {
        let (rolling, strong) = raw[i];
        assert(i * blen <= 16_777_216 * 1_048_576) by (nonlinear_arith)
            requires
                i <= 16_777_216,
                blen <= 1_048_576,
        ;
        let offset: u64 = (i as u64) * (blen as u64);
        sums.push(BlockSum { rolling, strong, offset });
        i = i + 1;
    }
    sums
}

/// Reads what is asked for next, of a list of so many files.
pub fn read_file_request<R: ByteSource>(r: &mut R, files: usize) -> (got: Result<
    FileRequest,
    RequestError,
>)
    ensures
        request_read_as(
            got,
            old(r).upcoming(),
            files as int,
            final(r).upcoming(),
            old(r).reliable(),
        ),
        final(r).reliable() == old(r).reliable(),
{
    let head: SumHead = match read_receiver_req(r) {
        Ok(ReceiverReq::Done) => {
            return Ok(FileRequest::Done);
        },
        Ok(ReceiverReq::Sums(head)) => head,
        Err(WireError::Fault(f)) => {
            return Err(RequestError::Fault(RequestFault::Wire(f)));
        },
        Err(WireError::Io(e)) => {
            return Err(RequestError::Io(e));
        },
    };
    if head.file_idx as usize >= files {
        return Err(RequestError::Fault(RequestFault::OutOfRange(head.file_idx)));
    }
    let blen: usize = if head.block_len < 512 {
        512
    } else if head.block_len > 1_048_576 {
        1_048_576
    } else {
        head.block_len as usize
    };
    let ghost body = r.upcoming();
    match read_sum_blocks(r, head.count) {
        Ok(raw) => {
            proof {
                lemma_sum_count(body, head.count as nat);
            }
            let sums = locate_sums(&raw, blen);
            Ok(FileRequest::File { idx: head.file_idx as usize, blen, sums })
        },
        Err(WireError::Fault(f)) => Err(RequestError::Fault(RequestFault::Wire(f))),
        Err(WireError::Io(e)) => Err(RequestError::Io(e)),
    }
}

/// As many block sums are read as were announced.
proof fn lemma_sum_count(s: Seq<u8>, count: nat)
    ensures
        crate::protocol::parse_sum_list(s, count) matches Ok((sums, _)) ==> sums.len() == count,
    decreases count,
{
    if count > 0 {
        match crate::protocol::parse_sum_block(s) {
            Ok((_, t)) => {
                lemma_sum_count(t, (count - 1) as nat);
            },
            Err(_) => {},
        }
    }
}

/// Block sums without their offsets.
pub open spec fn wire_sums(sums: Seq<BlockSum>) -> Seq<(u32, Seq<u8>)> {
    Seq::new(sums.len(), |i: int| (sums[i].rolling, sums[i].strong@))
}

/// A request on the wire.
pub open spec fn request_bytes(idx: u32, blen: u32, sums: Seq<BlockSum>) -> Seq<u8> {
    sum_head_bytes(SumHead { file_idx: idx, block_len: blen, count: sums.len() as u32 })
        + sum_list_bytes(wire_sums(sums))
}

/// The block sums that the receiver sends for what it has: none where whole
/// files are asked for.
pub open spec fn offered_sums(basis: Seq<u8>, blen: int, whole_file: bool) -> Seq<BlockSum> {
    if whole_file {
        Seq::empty()
    } else {
        block_sums(basis, blen)
    }
}

/// Asks for the file with the number `idx` in the list, of this size, where the
/// destination holds `basis`.
pub fn request_file<W: ByteSink>(
    w: &mut W,
    idx: usize,
    size: u64,
    basis: &[u8],
    opts: &SyncOpts,
) -> (r: std::io::Result<()>)
    ensures
        crate::stream::appended(
            r,
            *old(w),
            *final(w),
            request_bytes(
                idx as u32,
                block_len(size, opts.block_size) as u32,
                offered_sums(basis@, block_len(size, opts.block_size), opts.whole_file),
            ),
        ),
{
    let blen: usize = choose_block_len(size, opts.block_size);
    let sums: Vec<BlockSum> = if opts.whole_file {
        Vec::new()
    } else {
        basis_sums(basis, blen)
    };
    proof {
        if opts.whole_file {
            assert(sums@ =~= Seq::empty());
        } else {
            lemma_sums_unique(sums@, basis@, blen as int);
        }
    }
    let ghost views = wire_sums(sums@);
    write_sum_head(w, idx as u32, blen as u32, sums.len() as u32)?;
    let ghost all = request_bytes(idx as u32, blen as u32, sums@);
    let mut i: usize = 0;
    assert(views.skip(0) =~= views);
    assert(old(w).written() + all =~= w.written() + sum_list_bytes(views.skip(0)));
    while i < sums.len()
        invariant
            i <= sums@.len(),
            views == wire_sums(sums@),
            old(w).written() + all == w.written() + sum_list_bytes(views.skip(i as int)),
            w.reliable() == old(w).reliable(),
        decreases sums@.len() - i,
    {
        let ghost before = w.written();
        assert(views.skip(i as int)[0] == views[i as int]);
        assert(views.skip(i as int).drop_first() =~= views.skip(i + 1));
        write_sum_block(w, sums[i].rolling, &sums[i].strong)?;
        assert(before + (sum_block_bytes(views[i as int]) + sum_list_bytes(views.skip(i + 1)))
            =~= before + sum_block_bytes(views[i as int]) + sum_list_bytes(views.skip(i + 1)));
        i = i + 1;
    }
    assert(views.skip(i as int) =~= Seq::empty());
    write_sum_end(w)
}

// ---------------------------------------------------------------------------
// Files
// ---------------------------------------------------------------------------

/// The tokens that the sender answers with: all of the file as data where there
/// are no block sums or whole files are asked for, else the delta.
pub open spec fn sent_tokens(src: Seq<u8>, sums: Seq<BlockSum>, blen: int, whole_file: bool) -> Seq<
    TokenView,
> {
    if sums.len() == 0 || whole_file {
        seq![TokenView::Data(src)]
    } else {
        diff_tokens(src, sums, blen)
    }
}

/// A file on the wire: its tokens, their end, and its digest.
pub open spec fn file_bytes(tokens: Seq<TokenView>, digest: Seq<u8>) -> Seq<u8> {
    wire_tokens(tokens) + (seq![TAG_TOKEN_END] + hash_bytes(digest))
}

/// A file that was sent.
pub struct Sent<W> {
    /// What it was written to.
    pub out: W,
    /// The bytes that were sent.
    pub literal: u64,
    /// The bytes that the receiver has.
    pub matched: u64,
}

/// Answers a request with the file `src`.
pub fn send_file<W: ByteSink>(
    out: W,
    src: &[u8],
    sums: &[BlockSum],
    blen: usize,
    whole_file: bool,
) -> (r: std::io::Result<Sent<W>>)
    requires
        0 < blen <= u32::MAX,
    ensures
        r matches Ok(sent) ==> {
            let tokens = sent_tokens(src@, sums@, blen as int, whole_file);
            &&& sent.out.written() == out.written() + file_bytes(tokens, blake3_digest(src@))
            &&& sent.out.reliable() == out.reliable()
            &&& sent.literal == literal_total(tokens)
            &&& sent.literal + sent.matched == src@.len()
        },
        out.reliable() ==> r is Ok,
{
    let digest: [u8; 32] = file_hash(src);
    let mut sink = WireSink(out);
    let ghost start = sink;
    let ghost tokens = sent_tokens(src@, sums@, blen as int, whole_file);
    let (lit, mat): (usize, usize) = if sums.len() == 0 || whole_file {
        proof {
            start.lemma_follows_itself();
            reveal_with_fuel(literal_total, 2);
            assert(Seq::empty().push(TokenView::Data(src@)) =~= tokens);
            assert(tokens.drop_last() =~= Seq::empty());
        }
        match sink.on_data(src) {
            Ok(()) => {},
            Err(e) => {
                return Err(e);
            },
        }
        assert(sink.follows(&start, tokens));
        (src.len(), 0)
    } else {
        match diff_stream(src, sums, blen, &mut sink) {
            Ok(counts) => counts,
            Err(e) => {
                return Err(e);
            },
        }
    };
    assert(sink.follows(&start, tokens));
    let mut out2: W = sink.0;
    write_token_end(&mut out2)?;
    write_file_hash(&mut out2, &digest)?;
    assert(out2.written() =~= out.written() + file_bytes(tokens, blake3_digest(src@)));
    Ok(Sent { out: out2, literal: lit as u64, matched: mat as u64 })
}

/// What the receiver does about an entry of the list. Paths are relative to the
/// destination.
#[derive(Debug, Clone, PartialEq, Eq)]
pub enum ReceiverStep {
    /// Create the directory, and those on the way to it.
    MakeDir(Vec<u8>),
    /// Put a symbolic link there, in place of what there is.
    MakeLink { path: Vec<u8>, target: Vec<u8> },
    /// Warn that the link is left out.
    SkipLink,
    /// Ask for the file.
    Fetch(Vec<u8>),
    /// Leave what there is as it is.
    Skip,
    /// Only report that the file would be asked for.
    WouldFetch,
    /// Nothing.
    Ignore,
    /// Stop: the path is refused.
    Refuse(PathError),
}

/// What the receiver does about an entry, as a value.
pub enum ReceiverStepView {
    MakeDir(Seq<u8>),
    MakeLink { path: Seq<u8>, target: Seq<u8> },
    SkipLink,
    Fetch(Seq<u8>),
    Skip,
    WouldFetch,
    Ignore,
    Refuse(PathError),
}

impl View for ReceiverStep {
    type V = ReceiverStepView;

    open spec fn view(&self) -> ReceiverStepView {
        match self {
            ReceiverStep::MakeDir(path) => ReceiverStepView::MakeDir(path@),
            ReceiverStep::MakeLink { path, target } => ReceiverStepView::MakeLink {
                path: path@,
                target: target@,
            },
            ReceiverStep::SkipLink => ReceiverStepView::SkipLink,
            ReceiverStep::Fetch(path) => ReceiverStepView::Fetch(path@),
            ReceiverStep::Skip => ReceiverStepView::Skip,
            ReceiverStep::WouldFetch => ReceiverStepView::WouldFetch,
            ReceiverStep::Ignore => ReceiverStepView::Ignore,
            ReceiverStep::Refuse(e) => ReceiverStepView::Refuse(*e),
        }
    }
}

/// What the receiver does about a regular file: it leaves alone what a local sync
/// leaves alone by metadata, and asks for the others.
pub open spec fn fetch_step(
    e: EntryView,
    path: Seq<u8>,
    dst: Option<DstMeta>,
    opts: SyncOpts,
) -> ReceiverStepView {
    if file_plan(e, dst, opts) is Skip {
        ReceiverStepView::Skip
    } else if opts.dry_run {
        ReceiverStepView::WouldFetch
    } else {
        ReceiverStepView::Fetch(path)
    }
}

/// What the receiver does about an entry, with `dst` at the destination: no path
/// that leads out is accepted, what does not take part is passed over, and a dry
/// run makes nothing and asks for nothing.
pub open spec fn receiver_step(
    e: EntryView,
    dst: Option<DstMeta>,
    opts: SyncOpts,
) -> ReceiverStepView {
    match clean(e.path) {
        Err(error) => ReceiverStepView::Refuse(error),
        Ok(path) => if !takes_part(e, opts) {
            ReceiverStepView::Ignore
        } else {
            match e.kind {
                EntryKindView::Regular => fetch_step(e, path, dst, opts),
                EntryKindView::Other => ReceiverStepView::Ignore,
                EntryKindView::Dir => if opts.dry_run {
                    ReceiverStepView::Ignore
                } else {
                    ReceiverStepView::MakeDir(path)
                },
                EntryKindView::Symlink { target } => if opts.dry_run {
                    ReceiverStepView::Ignore
                } else if dst is Some && is_kept(e.mtime, dst->0, opts) {
                    ReceiverStepView::Skip
                } else if stays_inside(target) {
                    ReceiverStepView::MakeLink { path, target }
                } else {
                    ReceiverStepView::SkipLink
                },
            }
        },
    }
}

/// Decides what the receiver does about an entry.
pub fn plan_receive(e: &FileEntry, dst: Option<DstMeta>, opts: &SyncOpts) -> (step: ReceiverStep)
    ensures
        step@ == receiver_step(e@, dst, *opts),
{
    let path: Vec<u8> = match clean_rel(e.path.as_slice()) {
        Ok(path) => path,
        Err(error) => {
            return ReceiverStep::Refuse(error);
        },
    };
    if !is_selected(e, opts) {
        return ReceiverStep::Ignore;
    }
    match &e.kind {
        EntryKind::Regular => {
            if plan_file(e, dst, opts) == FilePlan::Skip {
                ReceiverStep::Skip
            } else if opts.dry_run {
                ReceiverStep::WouldFetch
            } else {
                ReceiverStep::Fetch(path)
            }
        },
        EntryKind::Other => ReceiverStep::Ignore,
        EntryKind::Dir => {
            if opts.dry_run {
                ReceiverStep::Ignore
            } else {
                ReceiverStep::MakeDir(path)
            }
        },
        EntryKind::Symlink { target } => {
            if opts.dry_run {
                ReceiverStep::Ignore
            } else if !places_link(e.mtime, dst, opts) {
                ReceiverStep::Skip
            } else if safe_symlink_target(target.as_slice()) {
                ReceiverStep::MakeLink { path, target: slice_to_vec(target.as_slice()) }
            } else {
                ReceiverStep::SkipLink
            }
        },
    }
}

/// The bytes of the basis that the tokens copy, as far as it has them.
pub open spec fn copied_total(basis: Seq<u8>, tokens: Seq<TokenView>) -> nat
    decreases tokens.len(),
{
    if tokens.len() == 0 {
        0
    } else {
        copied_total(basis, tokens.drop_last()) + match tokens.last() {
            TokenView::Copy { .. } => token_bytes(basis, tokens.last()).len(),
            TokenView::Data(_) => 0,
        }
    }
}

/// Streams tokens from the wire into a destination file, copying bytes from
/// the basis on copy tokens and from the wire on data tokens. Hashes on the
/// way, so that the check at the end needs no second pass.
pub struct ReceiverSink<'b, W: ByteSink> {
    basis: &'b [u8],
    patch: PatchWriter<'b, W>,
    lit: u64,
    mat: u64,
}

impl<'b, W: ByteSink> ReceiverSink<'b, W> {
    /// The basis.
    pub closed spec fn basis(&self) -> Seq<u8> {
        self.basis@
    }

    /// What rebuilds the file.
    pub closed spec fn patch(&self) -> PatchWriter<'b, W> {
        self.patch
    }

    /// The bytes that came over the wire.
    pub closed spec fn lit(&self) -> int {
        self.lit as int
    }

    /// The bytes that were copied.
    pub closed spec fn mat(&self) -> int {
        self.mat as int
    }

    /// A sink that has taken no token.
    fn new(basis: &'b [u8], out: W) -> (sink: Self)
        ensures
            sink.basis() == basis@,
            sink.patch().basis() == basis@,
            sink.patch().out() == out,
            sink.patch().hashed() == Seq::<u8>::empty(),
            sink.lit() == 0,
            sink.mat() == 0,
    {
        ReceiverSink { basis, patch: PatchWriter::new(basis, out), lit: 0, mat: 0 }
    }
}

impl<'b, W: ByteSink> TokenSink for ReceiverSink<'b, W> {
    /// The file is rebuilt, and both kinds of bytes are counted.
    open spec fn follows(&self, start: &Self, tokens: Seq<TokenView>) -> bool {
        &&& self.basis() == start.basis()
        &&& self.patch().follows(&start.patch(), tokens)
        &&& self.lit() == sum64(start.lit(), literal_total(tokens) as int)
        &&& self.mat() == sum64(start.mat(), copied_total(start.basis(), tokens) as int)
    }

    open spec fn reliable(&self) -> bool {
        self.patch().reliable()
    }

    proof fn lemma_follows_itself(&self) {
        self.patch().lemma_follows_itself();
    }

    fn on_copy(&mut self, offset: u64, len: u32) -> (r: std::io::Result<()>) {
        let ghost before = *self;
        let ghost token = TokenView::Copy { offset, len };
        let (s, e) = copy_range(self.basis.len(), offset, len);
        let r = self.patch.on_copy(offset, len);
        self.mat = add64(self.mat, (e - s) as u64);
        proof {
            assert forall|start: &Self, tokens: Seq<TokenView>|
                #![trigger before.follows(start, tokens)]
                r is Ok && before.follows(start, tokens) implies self.follows(
                start,
                tokens.push(token),
            ) by {
                lemma_counts_push(start.basis(), tokens, token);
                assert(before.patch().follows(&start.patch(), tokens));
                lemma_sum64(start.mat(), copied_total(start.basis(), tokens) as int, e - s);
            }
        }
        r
    }

    fn on_data(&mut self, bytes: &[u8]) -> (r: std::io::Result<()>) {
        let ghost before = *self;
        let ghost token = TokenView::Data(bytes@);
        let n: u64 = bytes.len() as u64;
        let r = self.patch.on_data(bytes);
        self.lit = add64(self.lit, n);
        proof {
            assert forall|start: &Self, tokens: Seq<TokenView>|
                #![trigger before.follows(start, tokens)]
                r is Ok && before.follows(start, tokens) implies self.follows(
                start,
                tokens.push(token),
            ) by {
                lemma_counts_push(start.basis(), tokens, token);
                assert(before.patch().follows(&start.patch(), tokens));
                lemma_sum64(start.lit(), literal_total(tokens) as int, n as int);
            }
        }
        r
    }
}

proof fn lemma_counts_push(basis: Seq<u8>, tokens: Seq<TokenView>, token: TokenView)
    ensures
        literal_total(tokens.push(token)) == literal_total(tokens) + match token {
            TokenView::Copy { .. } => 0,
            TokenView::Data(bytes) => bytes.len(),
        },
        copied_total(basis, tokens.push(token)) == copied_total(basis, tokens) + match token {
            TokenView::Copy { .. } => token_bytes(basis, token).len(),
            TokenView::Data(_) => 0,
        },
{
    assert(tokens.push(token).drop_last() =~= tokens);
}

proof fn lemma_sum64(a: int, b: int, c: int)
    requires
        0 <= a,
        0 <= b,
        0 <= c,
    ensures
        sum64(sum64(a, b), c) == sum64(a, b + c),
{
}

/// What can be wrong with a file from the wire.
#[derive(Debug, Clone, Copy, PartialEq, Eq, Structural)]
pub enum FileFault {
    /// The message is wrong.
    Wire(Fault),
    /// What was rebuilt has another digest than was sent.
    HashMismatch,
}

/// Why a file could not be received.
#[derive(Debug)]
pub enum FileError {
    /// The file is wrong.
    Fault(FileFault),
    /// The operating system failed.
    Io(std::io::Error),
}

/// The tokens of a file from the wire, where what they rebuild from `basis` has
/// the digest that follows them.
pub open spec fn parse_file(s: Seq<u8>, basis: Seq<u8>) -> Result<
    (Seq<TokenView>, Seq<u8>),
    FileFault,
> {
    match parse_tokens(s) {
        Err(f) => Err(FileFault::Wire(f)),
        Ok((tokens, t)) => match parse_file_hash(t) {
            Err(f) => Err(FileFault::Wire(f)),
            Ok((digest, rest)) => if blake3_digest(render(basis, tokens)) == digest {
                Ok((tokens, rest))
            } else {
                Err(FileFault::HashMismatch)
            },
        },
    }
}

/// What is left to read where a file is refused: what follows the token that is
/// refused, the tag in place of the digest, or the digest.
pub open spec fn after_bad_file(s: Seq<u8>) -> Seq<u8> {
    match parse_tokens(s) {
        Err(_) => after_bad_tokens(s),
        Ok((_, t)) => match parse_file_hash(t) {
            Err(_) => t.skip(1),
            Ok((_, rest)) => rest,
        },
    }
}

/// A file that was received.
pub struct Received<W> {
    /// What it was written to.
    pub out: W,
    /// The bytes that came over the wire.
    pub literal: u64,
    /// The bytes that were copied from the basis.
    pub matched: u64,
}

/// Receives a file: rebuilds it from `basis` and the tokens into `out`, and
/// compares its digest with the one that was sent. What is left to read where the
/// bytes end too early is not stated.
pub fn receive_file<R: ByteSource, W: ByteSink>(r: &mut R, basis: &[u8], out: W) -> (got: Result<
    Received<W>,
    FileError,
>)
    ensures
        match got {
            Ok(received) => parse_file(old(r).upcoming(), basis@) matches Ok((tokens, rest))
                && final(r).upcoming() == rest && received.out.written() == out.written() + render(
                basis@,
                tokens,
            ) && received.literal == sum64(0, literal_total(tokens) as int) && received.matched
                == sum64(0, copied_total(basis@, tokens) as int),
            Err(FileError::Fault(f)) => parse_file(old(r).upcoming(), basis@) == Err::<
                (Seq<TokenView>, Seq<u8>),
                FileFault,
            >(f) && (f != FileFault::Wire(Fault::Eof) ==> final(r).upcoming() == after_bad_file(
                old(r).upcoming(),
            )),
            Err(FileError::Io(_)) => !old(r).reliable() || !out.reliable(),
        },
        final(r).reliable() == old(r).reliable(),
{
    let mut sink = ReceiverSink::new(basis, out);
    let ghost start = sink;
    match apply_token_stream(r, &mut sink) {
        Ok(()) => {},
        Err(WireError::Fault(f)) => {
            return Err(FileError::Fault(FileFault::Wire(f)));
        },
        Err(WireError::Io(e)) => {
            return Err(FileError::Io(e));
        },
    }
    let ghost tokens = parse_tokens(old(r).upcoming())->Ok_0.0;
    proof {
        assert(sink.follows(&start, tokens));
        assert(Seq::<u8>::empty() + render(basis@, tokens) =~= render(basis@, tokens));
    }
    let literal: u64 = sink.lit;
    let matched: u64 = sink.mat;
    let (out, computed) = sink.patch.finalize();
    let expected: [u8; 32] = match read_file_hash(r) {
        Ok(digest) => digest,
        Err(WireError::Fault(f)) => {
            return Err(FileError::Fault(FileFault::Wire(f)));
        },
        Err(WireError::Io(e)) => {
            return Err(FileError::Io(e));
        },
    };
    if !same_bytes(computed.as_slice(), expected.as_slice()) {
        return Err(FileError::Fault(FileFault::HashMismatch));
    }
    Ok(Received { out, literal, matched })
}

// ---------------------------------------------------------------------------
// Laws
// ---------------------------------------------------------------------------

/// A request that was written is read as it was, whatever follows: the number
/// of the file, the block length and the block sums with their offsets.
pub proof fn law_file_request_round_trip(
    got: Result<FileRequest, RequestError>,
    idx: u32,
    blen: u32,
    sums: Seq<BlockSum>,
    basis: Seq<u8>,
    files: int,
    after: Seq<u8>,
    rest: Seq<u8>,
)
    requires
        idx < files,
        512 <= blen <= 1_048_576,
        sums.len() <= MAX_SUM_BLOCKS,
        sums.len() == 0 || sums_of(sums, basis, blen as int),
        request_read_as(got, request_bytes(idx, blen, sums) + after, files, rest, true),
    ensures
        got matches Ok(request) && request@ == (FileRequestView::File {
            idx: idx as int,
            blen: blen as int,
            sums,
        }),
        rest == after,
{
    let head = SumHead { file_idx: idx, block_len: blen, count: sums.len() as u32 };
    let views = wire_sums(sums);
    let tail = sum_list_bytes(views) + after;
    assert(request_bytes(idx, blen, sums) + after =~= sum_head_bytes(head) + tail);
    law_request_round_trip(head, tail);
    assert forall|i: int| 0 <= i < views.len() implies (#[trigger] views[i]).1.len() == 16 by {
        assert(sums[i].strong@.len() == 16);
    }
    law_sum_blocks_round_trip(views, after);
    let request = got->Ok_0;
    let read = request@->sums;
    assert(sums_from_wire(views, read, blen as int));
    assert forall|i: int| 0 <= i < sums.len() implies read[i] == sums[i] by {
        assert(read[i].strong =~= sums[i].strong) by {
            assert(read[i].strong@ == views[i].1);
        }
        assert(sums[i].describes(crate::delta::chunk_at(basis, blen as int, i), i * blen));
    }
    assert(read =~= sums);
}

/// What the sender answers to block sums of the receiver's own file, the
/// receiver accepts and rebuilds to the very file of the sender, where no
/// strong sum collides; whatever follows is left to read. A whole file arrives
/// whatever the receiver has.
pub proof fn law_sent_file_arrives(
    src: Seq<u8>,
    basis: Seq<u8>,
    sums: Seq<BlockSum>,
    blen: int,
    whole_file: bool,
    digest: [u8; 32],
    rest: Seq<u8>,
)
    requires
        0 < blen <= u32::MAX,
        digest@ == blake3_digest(src),
        sums.len() == 0 || whole_file || (sums_of(sums, basis, blen) && collision_free(
            src,
            basis,
            blen,
        )),
    ensures
        ({
            let tokens = sent_tokens(src, sums, blen, whole_file);
            &&& parse_file(file_bytes(tokens, digest@) + rest, basis) == Ok::<
                (Seq<TokenView>, Seq<u8>),
                FileFault,
            >((wire_pieces(tokens), rest))
            &&& render(basis, wire_pieces(tokens)) == src
        }),
{
    let tokens = sent_tokens(src, sums, blen, whole_file);
    lemma_sent_tokens_render(src, basis, sums, blen, whole_file);
    let tail = hash_bytes(digest@) + rest;
    assert(file_bytes(tokens, digest@) + rest =~= wire_tokens(tokens) + (seq![TAG_TOKEN_END]
        + tail));
    law_tokens_round_trip(tokens, tail);
    law_file_hash_round_trip(digest@, rest);
    assert(render(basis, wire_pieces(tokens)) == render(basis, tokens));
}

proof fn lemma_sent_tokens_render(
    src: Seq<u8>,
    basis: Seq<u8>,
    sums: Seq<BlockSum>,
    blen: int,
    whole_file: bool,
)
    requires
        0 < blen <= u32::MAX,
        sums.len() == 0 || whole_file || (sums_of(sums, basis, blen) && collision_free(
            src,
            basis,
            blen,
        )),
    ensures
        render(basis, sent_tokens(src, sums, blen, whole_file)) == src,
{
    if sums.len() == 0 || whole_file {
        reveal_with_fuel(render, 2);
        let one = seq![TokenView::Data(src)];
        assert(one.drop_last() =~= Seq::empty());
        assert(Seq::empty() + src =~= src);
    } else {
        law_round_trip(src, basis, sums, blen);
    }
}

/// A file is accepted only with the digest that was sent: where what the tokens
/// rebuild has another, it is refused.
pub proof fn law_corrupt_file_is_refused(
    tokens: Seq<TokenView>,
    digest: [u8; 32],
    basis: Seq<u8>,
    rest: Seq<u8>,
)
    requires
        blake3_digest(render(basis, tokens)) != digest@,
    ensures
        parse_file(file_bytes(tokens, digest@) + rest, basis) == Err::<
            (Seq<TokenView>, Seq<u8>),
            FileFault,
        >(FileFault::HashMismatch),
{
    let tail = hash_bytes(digest@) + rest;
    assert(file_bytes(tokens, digest@) + rest =~= wire_tokens(tokens) + (seq![TAG_TOKEN_END]
        + tail));
    law_tokens_round_trip(tokens, tail);
    law_file_hash_round_trip(digest@, rest);
    assert(render(basis, wire_pieces(tokens)) == render(basis, tokens));
}

/// Whatever the sender lists, the receiver writes only inside the destination,
/// and makes no link that leads out of it.
pub proof fn law_receiver_stays_inside(e: EntryView, dst: Option<DstMeta>, opts: SyncOpts)
    ensures
        match receiver_step(e, dst, opts) {
            ReceiverStepView::MakeDir(path) => is_confined(path),
            ReceiverStepView::MakeLink { path, target } => is_confined(path) && stays_inside(
                target,
            ),
            ReceiverStepView::Fetch(path) => is_confined(path),
            _ => true,
        },
{
    if clean(e.path) is Ok {
        law_clean_is_clean(e.path);
    }
}

/// The step changes the destination.
pub open spec fn step_changes(step: ReceiverStepView) -> bool {
    step is MakeDir || step is MakeLink || step is Fetch
}

/// In a dry run, no step of the receiver changes the destination, and nothing is
/// asked for. What it reports is what a run with the same options asks for.
pub proof fn law_dry_run_receives_nothing(
    e: EntryView,
    dst: Option<DstMeta>,
    opts: SyncOpts,
    wet: SyncOpts,
)
    requires
        opts.dry_run,
        wet == (SyncOpts { dry_run: false, ..opts }),
    ensures
        !step_changes(receiver_step(e, dst, opts)),
        receiver_step(e, dst, opts) is WouldFetch <==> receiver_step(e, dst, wet) is Fetch,
        e.kind is Regular ==> (receiver_step(e, dst, opts) is Skip <==> receiver_step(
            e,
            dst,
            wet,
        ) is Skip),
{
}

/// The receiver changes nothing for an entry that does not take part, nor for a
/// file that is kept or is the same by its metadata, nor does it put a link in
/// the place of what is kept.
pub proof fn law_receiver_follows_options(e: EntryView, meta: DstMeta, opts: SyncOpts)
    ensures
        !takes_part(e, opts) ==> !step_changes(receiver_step(e, Some(meta), opts)),
        e.kind is Regular && is_skipped(e, meta, opts) ==> !step_changes(
            receiver_step(e, Some(meta), opts),
        ),
        e.kind is Symlink && is_kept(e.mtime, meta, opts) ==> !step_changes(
            receiver_step(e, Some(meta), opts),
        ),
{
}

/// The sender offers an entry exactly where it is there and takes part, and none
/// in a dry run.
pub proof fn law_sender_offers_what_takes_part(
    entries: Seq<EntryView>,
    opts: SyncOpts,
    e: EntryView,
)
    ensures
        offered(entries, opts).contains(e) <==> !opts.dry_run && entries.contains(e)
            && takes_part(e, opts),
{
    law_selection_is_what_takes_part(entries, opts, e);
}

/// For a regular file that takes part, whose path may be used: without checksums,
/// and but in a dry run, the receiver asks for it exactly where nothing stands at
/// the destination, or where what stands there is neither to be left alone nor
/// newer and kept, and is a link or differs in size or in time; it leaves what
/// there is alone in every other case. No other option matters.
pub proof fn law_receiver_fetches_what_differs(
    e: EntryView,
    path: Seq<u8>,
    dst: Option<DstMeta>,
    opts: SyncOpts,
)
    requires
        e.kind is Regular,
        takes_part(e, opts),
        clean(e.path) == Ok::<Seq<u8>, PathError>(path),
        !opts.dry_run,
        !opts.checksum,
    ensures
        receiver_step(e, dst, opts) == if dst matches Some(meta) && (opts.ignore_existing || (
        opts.update && dst_mtime(meta) > e.mtime) || (!meta.is_symlink && meta.len == e.size
            && dst_mtime(meta) == e.mtime)) {
            ReceiverStepView::Skip
        } else {
            ReceiverStepView::Fetch(path)
        },
{
}

/// With checksums, the receiver asks for every regular file that takes part and
/// that is not kept, but one that is empty on both sides; so does it whatever
/// stands at the destination where that is a link.
pub proof fn law_receiver_fetches_by_checksum(
    e: EntryView,
    path: Seq<u8>,
    dst: Option<DstMeta>,
    opts: SyncOpts,
)
    requires
        e.kind is Regular,
        takes_part(e, opts),
        clean(e.path) == Ok::<Seq<u8>, PathError>(path),
        !opts.dry_run,
        opts.checksum,
        !(dst matches Some(meta) && (opts.ignore_existing || (opts.update && dst_mtime(meta)
            > e.mtime))),
        !(dst matches Some(meta) && !meta.is_symlink && meta.len == 0 && e.size == 0),
    ensures
        receiver_step(e, dst, opts) == ReceiverStepView::Fetch(path),
{
}

/// Of the other entries that take part and whose paths may be used, but in a dry
/// run, every directory is made, and every link that stays inside and whose place
/// is not kept; a link that leads out is left out with a warning.
pub proof fn law_receiver_makes_the_tree(
    e: EntryView,
    path: Seq<u8>,
    dst: Option<DstMeta>,
    opts: SyncOpts,
)
    requires
        takes_part(e, opts),
        clean(e.path) == Ok::<Seq<u8>, PathError>(path),
        !opts.dry_run,
    ensures
        e.kind is Dir ==> receiver_step(e, dst, opts) == ReceiverStepView::MakeDir(path),
        e.kind is Other ==> receiver_step(e, dst, opts) == ReceiverStepView::Ignore,
        e.kind matches EntryKindView::Symlink { target } ==> receiver_step(e, dst, opts) == if (
        dst matches Some(meta) && (opts.ignore_existing || (opts.update && dst_mtime(meta)
            > e.mtime))) {
            ReceiverStepView::Skip
        } else if stays_inside(target) {
            ReceiverStepView::MakeLink { path, target }
        } else {
            ReceiverStepView::SkipLink
        },
{
}

/// A path that may not be used is refused whatever the entry is, with the reason;
/// what does not take part is passed over.
pub proof fn law_receiver_refuses_and_passes_over(
    e: EntryView,
    dst: Option<DstMeta>,
    opts: SyncOpts,
)
    ensures
        clean(e.path) matches Err(error) ==> receiver_step(e, dst, opts)
            == ReceiverStepView::Refuse(error),
        clean(e.path) is Ok && !takes_part(e, opts) ==> receiver_step(e, dst, opts)
            == ReceiverStepView::Ignore,
        receiver_step(e, dst, opts) is Refuse ==> clean(e.path) is Err,
{
}

/// Where whole files are asked for, or no block sums came, the answer is the file
/// as data; else no data in the answer holds a full block of the basis, and what
/// is sent and copied makes up the file.
pub proof fn law_answer_sends_no_block(
    src: Seq<u8>,
    basis: Seq<u8>,
    sums: Seq<BlockSum>,
    blen: int,
    t: int,
    data: Seq<u8>,
    at: int,
    i: int,
)
    requires
        0 < blen,
        sums_of(sums, basis, blen),
        0 <= t < sent_tokens(src, sums, blen, false).len(),
        sent_tokens(src, sums, blen, false)[t] == TokenView::Data(data),
        0 <= at,
        at + blen <= data.len(),
        0 <= i,
        (i + 1) * blen <= basis.len(),
    ensures
        data.subrange(at, at + blen) != basis.subrange(i * blen, (i + 1) * blen),
{
    lemma_full_block(basis, sums, blen, i);
    law_no_block_is_sent(src, basis, sums, blen, t, data, at, i);
}

/// The receiver offers the sums of all the blocks that it has, unless whole files
/// are asked for: then it offers none.
pub proof fn law_receiver_offers_what_it_has(
    basis: Seq<u8>,
    sums: Seq<BlockSum>,
    blen: int,
    whole_file: bool,
)
    requires
        sums_of(sums, basis, blen),
    ensures
        offered_sums(basis, blen, whole_file) == if whole_file {
            Seq::empty()
        } else {
            sums
        },
{
    lemma_sums_unique(sums, basis, blen);
}

/// The bytes that came over the wire and those that were copied make up the file
/// that the tokens rebuild.
pub proof fn law_received_bytes_make_the_file(basis: Seq<u8>, tokens: Seq<TokenView>)
    ensures
        literal_total(tokens) + copied_total(basis, tokens) == render(basis, tokens).len(),
    decreases tokens.len(),
{
    if tokens.len() > 0 {
        law_received_bytes_make_the_file(basis, tokens.drop_last());
    }
}

/// The sender's list holds no entry that the filter rules leave out or that is too
/// large or too small, in a dry run none at all, and otherwise all the others; it
/// is made entry by entry, in order.
pub proof fn law_offer_is_made_in_order(a: Seq<EntryView>, b: Seq<EntryView>, opts: SyncOpts)
    ensures
        opts.dry_run ==> offered(a, opts).len() == 0,
        offered(a + b, opts) == offered(a, opts) + offered(b, opts),
        a.len() == 1 && !opts.dry_run ==> offered(a, opts) == if takes_part(a[0], opts) {
            a
        } else {
            Seq::empty()
        },
{
    law_selection_keeps_the_order(a, b, opts);
    assert(Seq::<EntryView>::empty() + Seq::<EntryView>::empty() =~= Seq::empty());
}

/// A block length that comes over the wire is taken as it is within the limits, and
/// brought to the nearer limit outside.
pub proof fn law_block_length_is_brought_within_limits(n: u32)
    ensures
        512 <= n <= 1_048_576 ==> sane_block_len(n) == n,
        n < 512 ==> sane_block_len(n) == 512,
        n > 1_048_576 ==> sane_block_len(n) == 1_048_576,
{
}

/// A file goes as data where whole files are asked for, and where the receiver has
/// nothing.
pub proof fn law_whole_files_go_as_data(src: Seq<u8>, sums: Seq<BlockSum>, blen: int)
    ensures
        sent_tokens(src, sums, blen, true) == seq![TokenView::Data(src)],
        sent_tokens(src, Seq::empty(), blen, false) == seq![TokenView::Data(src)],
{
}

/// A file is accepted exactly where its tokens and its digest can be read and the
/// digest is that of what the tokens rebuild; then the tokens are those that were
/// read, and what follows the digest is left.
pub proof fn law_file_is_accepted_by_its_digest(
    s: Seq<u8>,
    basis: Seq<u8>,
    tokens: Seq<TokenView>,
    t: Seq<u8>,
    digest: Seq<u8>,
    rest: Seq<u8>,
)
    requires
        parse_tokens(s) == Ok::<(Seq<TokenView>, Seq<u8>), Fault>((tokens, t)),
        parse_file_hash(t) == Ok::<(Seq<u8>, Seq<u8>), Fault>((digest, rest)),
    ensures
        parse_file(s, basis) == if blake3_digest(render(basis, tokens)) == digest {
            Ok::<(Seq<TokenView>, Seq<u8>), FileFault>((tokens, rest))
        } else {
            Err(FileFault::HashMismatch)
        },
{
}

/// No entry of the list is of a special kind.
pub open spec fn none_special(entries: Seq<EntryView>) -> bool {
    forall|i: int| 0 <= i < entries.len() ==> !((#[trigger] entries[i]).kind is Other)
}

/// A file list is read only from the bytes that it is written as, where no entry
/// is of a special kind.
#[verifier::spinoff_prover]
pub proof fn law_list_read_was_written(s: Seq<u8>)
    ensures
        parse_flist(s) matches Ok((entries, rest)) ==> all_fit(entries) && (none_special(entries)
            ==> s == flist_bytes(entries) + rest),
{
    if let Ok((entries, rest)) = parse_flist(s) {
        assert(parse_entries(s.skip(1)) == Ok::<(Seq<EntryView>, Seq<u8>), Fault>((entries, rest)));
        lemma_entries_read(s.skip(1));
        if none_special(entries) {
            lemma_list_in_front(s, entries_bytes(entries), rest);
        }
    }
}

proof fn lemma_list_in_front(s: Seq<u8>, list: Seq<u8>, rest: Seq<u8>)
    requires
        s.len() > 0,
        s[0] == TAG_FLIST_START,
        s.skip(1) == list + rest,
    ensures
        s == (seq![TAG_FLIST_START] + list) + rest,
{
    assert(s =~= seq![s[0]] + s.skip(1));
    lemma_joined(seq![s[0]], list, rest);
}

proof fn lemma_joined(a: Seq<u8>, b: Seq<u8>, c: Seq<u8>)
    ensures
        a + (b + c) == (a + b) + c,
{
    assert(a + (b + c) =~= (a + b) + c);
}

#[verifier::spinoff_prover]
proof fn lemma_entries_read(s: Seq<u8>)
    ensures
        parse_entries(s) matches Ok((entries, rest)) ==> all_fit(entries) && (none_special(entries)
            ==> s == entries_bytes(entries) + rest),
    decreases s.len(),
{
    if let Ok((entries, rest)) = parse_entries(s) {
        let t = s.skip(1);
        assert(s =~= seq![s[0]] + t);
        if s[0] == TAG_FLIST_ENTRY {
            law_entry_read_was_written(t);
            let e = parse_entry(t)->Ok_0.0;
            let u = parse_entry(t)->Ok_0.1;
            lemma_entries_read(u);
            let list = parse_entries(u)->Ok_0.0;
            assert(entries == seq![e] + list);
            lemma_entry_in_front(e, list);
            if none_special(entries) {
                lemma_joined(seq![s[0]], entry_body(e), u);
                lemma_joined(entry_bytes(e), entries_bytes(list), rest);
            }
        }
    }
}

proof fn lemma_entry_in_front(e: EntryView, list: Seq<EntryView>)
    ensures
        entries_bytes(seq![e] + list) == entry_bytes(e) + entries_bytes(list),
        entry_fits(e) && all_fit(list) ==> all_fit(seq![e] + list),
        none_special(seq![e] + list) ==> !(e.kind is Other) && none_special(list),
{
    let all = seq![e] + list;
    assert(all[0] == e);
    assert(all.drop_first() =~= list);
    if none_special(all) {
        assert forall|i: int| 0 <= i < list.len() implies !((#[trigger] list[i]).kind is Other) by {
            assert(all[i + 1] == list[i]);
        }
    }
}

/// What stands in place of the start of a file list, of an entry or of its end is
/// refused.
pub proof fn law_list_goes_by_its_tags(s: Seq<u8>, b: u8)
    ensures
        b != 1 ==> parse_flist(seq![b] + s) == Err::<(Seq<EntryView>, Seq<u8>), Fault>(
            Fault::NotListStart(b),
        ),
        b != 2 && b != 3 ==> parse_flist(seq![1u8, b] + s) == Err::<
            (Seq<EntryView>, Seq<u8>),
            Fault,
        >(Fault::NotListEntry(b)),
        parse_flist(seq![1u8, 3u8] + s) == Ok::<(Seq<EntryView>, Seq<u8>), Fault>(
            (Seq::empty(), s),
        ),
{
    lemma_parse_u8(b, s);
    lemma_parse_u8(3, s);
    assert(seq![1u8, b] + s =~= seq![1u8] + (seq![b] + s));
    assert(seq![1u8, 3u8] + s =~= seq![1u8] + (seq![3u8] + s));
    lemma_parse_u8(1, seq![b] + s);
    lemma_parse_u8(1, seq![3u8] + s);
}

/// A request for a file that is not in the list is refused, by its number; one for a
/// file that is, with block sums that can be read, is taken, with as many sums, each
/// at its block.
pub proof fn law_request_is_for_a_listed_file(
    got: Result<FileRequest, RequestError>,
    s: Seq<u8>,
    files: int,
    rest: Seq<u8>,
    head: SumHead,
    t: Seq<u8>,
)
    requires
        request_read_as(got, s, files, rest, true),
        parse_receiver_req(s) == Ok::<(ReceiverReq, Seq<u8>), Fault>((ReceiverReq::Sums(head), t)),
    ensures
        head.file_idx >= files ==> (got matches Err(RequestError::Fault(fault)) && fault
            == RequestFault::OutOfRange(head.file_idx)),
        head.file_idx < files ==> (parse_sum_blocks(t, head.count) matches Ok((raw, u)) ==> (
        got matches Ok(request) && rest == u && (request@ matches FileRequestView::File {
            idx,
            blen,
            sums,
        } && idx == head.file_idx && blen == sane_block_len(head.block_len) && sums.len()
            == raw.len() && (forall|i: int|
            0 <= i < sums.len() ==> (#[trigger] sums[i]).offset == i * blen && sums[i].rolling
                == raw[i].0 && sums[i].strong@ == raw[i].1)))),
        head.file_idx < files ==> (parse_sum_blocks(t, head.count) matches Err(f) ==> (
        got matches Err(RequestError::Fault(fault)) && fault == RequestFault::Wire(f))),
{
}

/// To a sink that does not fail a list is written whole where all of its paths fit,
/// and is refused where one does not.
pub proof fn law_list_is_written_where_it_fits<W: ByteSink>(
    r: Result<(), WireError>,
    before: W,
    after: W,
    entries: Seq<EntryView>,
)
    requires
        before.reliable(),
        list_written(r, before, after, entries),
    ensures
        r is Ok <==> all_fit(entries),
        r is Ok ==> after.written() == before.written() + flist_bytes(entries),
        r is Err ==> (r matches Err(WireError::Fault(f)) && f == Fault::PathTooLong),
{
}

} // verus!
