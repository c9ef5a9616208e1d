//! The decisions for one file of a local sync: whether it is skipped, copied or
//! patched, what is written, and which metadata is set.

use crate::checksum::{
    blake3_digest, block_size, block_size_of, clamped, file_hash, lemma_block_size_range,
    same_bytes,
};
use crate::delta::{
    basis_sums, collision_free, delta_tokens, diff_stream, diff_tokens, law_round_trip,
    law_sent_and_copied_make_the_source, lemma_sums_unique, literal_total, render, sums_of,
    BlockSum, PatchWriter, TokenSink,
};
use crate::flist::{EntryView, FileEntry};
use crate::paths::{
    below, file_name, join_path, last_name, law_parent_and_last_name, parent, parent_path,
};
use crate::pipeline::{counted_all, Outcome, SyncOpts};
use crate::stream::ByteSink;
use crate::text::{
    chars_of, decimal, decimal_value, format_number, from_utf8_lossy, law_decimal_round_trip,
    lossy_text, string_of,
};
use vstd::prelude::*;
use vstd::utf8::{encode_utf8, encode_utf8_decode_utf8};

verus! {

/// Above this size no delta is made: summing the basis of such a file takes
/// longer than a flat copy.
pub const DELTA_SIZE_LIMIT: u64 = 536_870_912;

/// What is known of the file at the destination, without following links.
#[derive(Debug, Clone, Copy, PartialEq, Eq, Structural)]
pub struct DstMeta {
    pub is_symlink: bool,
    pub len: u64,
    /// Whole seconds since 1970, where the time is known and not before that.
    pub mtime: Option<u64>,
}

/// The time of the file; a second before 1970 where it is not known.
pub open spec fn dst_mtime(meta: DstMeta) -> i64 {
    match meta.mtime {
        Some(secs) => secs as i64,
        None => -1i64,
    }
}

/// The file at the destination. A link is none: unless it is to be kept, it gives
/// way.
pub open spec fn existing(dst: Option<DstMeta>) -> Option<DstMeta> {
    match dst {
        Some(meta) => if meta.is_symlink {
            None
        } else {
            Some(meta)
        },
        None => None,
    }
}

/// What is done with a file, as far as metadata decides.
#[derive(Debug, Clone, Copy, PartialEq, Eq, Structural)]
pub enum FilePlan {
    /// Nothing.
    Skip,
    /// Report that it would be sent.
    WouldSend,
    /// Copy it to where nothing is.
    CopyNew,
    /// Copy it over what there is.
    CopyOver,
    /// Read both files and decide by their contents.
    Inspect,
}

/// What stands at the destination, be it a file or a link, is kept: because
/// whatever exists is to be left alone, or because it is newer than the source,
/// which is of the time `mtime`.
pub open spec fn is_kept(mtime: i64, meta: DstMeta, opts: SyncOpts) -> bool {
    ||| opts.ignore_existing
    ||| opts.update && dst_mtime(meta) > mtime
}

/// The metadata alone says that the file at the destination is the same: by size
/// and time, or, with checksums, where contents are compared in their place, in
/// that neither file has any contents.
pub open spec fn is_unchanged(e: EntryView, meta: DstMeta, opts: SyncOpts) -> bool {
    ||| !opts.checksum && dst_mtime(meta) == e.mtime && meta.len == e.size
    ||| opts.checksum && meta.len == 0 && e.size == 0
}

/// The file at the destination is left as it is, as far as metadata decides.
pub open spec fn is_skipped(e: EntryView, meta: DstMeta, opts: SyncOpts) -> bool {
    is_kept(e.mtime, meta, opts) || (!meta.is_symlink && is_unchanged(e, meta, opts))
}

/// What is done with a file, as far as metadata decides.
pub open spec fn file_plan(e: EntryView, dst: Option<DstMeta>, opts: SyncOpts) -> FilePlan {
    if dst is Some && is_skipped(e, dst->0, opts) {
        FilePlan::Skip
    } else {
        match existing(dst) {
            None => if opts.dry_run {
                FilePlan::WouldSend
            } else if opts.checksum {
                FilePlan::Inspect
            } else {
                FilePlan::CopyNew
            },
            Some(_) => if opts.checksum {
                FilePlan::Inspect
            } else if opts.dry_run {
                FilePlan::WouldSend
            } else if opts.whole_file || e.size > DELTA_SIZE_LIMIT {
                FilePlan::CopyOver
            } else {
                FilePlan::Inspect
            },
        }
    }
}

/// Tests whether what stands at the destination is kept.
fn keeps(mtime: i64, meta: DstMeta, opts: &SyncOpts) -> (kept: bool)
    ensures
        kept == is_kept(mtime, meta, *opts),
{
    opts.ignore_existing || (opts.update && meta_mtime(meta) > mtime)
}

/// The time of what stands at the destination, or -1 where it is not known.
fn meta_mtime(meta: DstMeta) -> (mtime: i64)
    ensures
        mtime == dst_mtime(meta),
{
    match meta.mtime {
        Some(secs) => secs as i64,
        None => -1,
    }
}

/// Tests whether the metadata alone says that the file is the same.
fn unchanged(e: &FileEntry, meta: DstMeta, opts: &SyncOpts) -> (same: bool)
    ensures
        same == is_unchanged(e@, meta, *opts),
{
    if opts.checksum {
        meta.len == 0 && e.size == 0
    } else {
        meta_mtime(meta) == e.mtime && meta.len == e.size
    }
}

/// Decides by metadata what is done with a file.
pub fn plan_file(e: &FileEntry, dst: Option<DstMeta>, opts: &SyncOpts) -> (plan: FilePlan)
    ensures
        plan == file_plan(e@, dst, *opts),
{
    let mut exists: bool = false;
    match dst {
        Some(meta) => {
            if keeps(e.mtime, meta, opts) || (!meta.is_symlink && unchanged(e, meta, opts)) {
                return FilePlan::Skip;
            }
            exists = !meta.is_symlink;
        },
        None => {},
    }
    if exists && opts.checksum {
        FilePlan::Inspect
    } else if opts.dry_run {
        FilePlan::WouldSend
    } else if exists {
        if opts.whole_file || e.size > DELTA_SIZE_LIMIT {
            FilePlan::CopyOver
        } else {
            FilePlan::Inspect
        }
    } else if opts.checksum {
        FilePlan::Inspect
    } else {
        FilePlan::CopyNew
    }
}

/// A link at the destination gives way to the file: never in a dry run, and not
/// where it is kept.
pub open spec fn link_gives_way(e: EntryView, dst: Option<DstMeta>, opts: SyncOpts) -> bool {
    dst is Some && dst->0.is_symlink && !opts.dry_run && !is_kept(e.mtime, dst->0, opts)
}

/// What stands at the destination gives way to a link of the time `mtime`.
pub open spec fn place_is_free(mtime: i64, dst: Option<DstMeta>, opts: SyncOpts) -> bool {
    !(dst is Some && is_kept(mtime, dst->0, opts))
}

/// Tests whether a link at the destination is to be removed first: never in a dry
/// run, and not where it is kept.
pub fn removes_link(e: &FileEntry, dst: Option<DstMeta>, opts: &SyncOpts) -> (removes: bool)
    ensures
        removes == link_gives_way(e@, dst, *opts),
{
    match dst {
        Some(meta) => meta.is_symlink && !opts.dry_run && !keeps(e.mtime, meta, opts),
        None => false,
    }
}

/// Tests whether a link that is of the time `mtime` in the source is put in the
/// place of what stands at the destination: not where that is kept.
pub fn places_link(mtime: i64, dst: Option<DstMeta>, opts: &SyncOpts) -> (places: bool)
    ensures
        places == place_is_free(mtime, dst, *opts),
{
    match dst {
        Some(meta) => !keeps(mtime, meta, opts),
        None => true,
    }
}

/// What a file of this size comes to, where metadata decides.
pub open spec fn plan_result(size: u64, plan: FilePlan) -> Option<Outcome> {
    match plan {
        FilePlan::Skip => Some(Outcome { xferred: false, literal: 0, matched: size }),
        FilePlan::Inspect => None,
        _ => Some(Outcome { xferred: true, literal: size, matched: 0 }),
    }
}

/// What a file comes to that was decided on by metadata.
pub fn plan_outcome(e: &FileEntry, plan: FilePlan) -> (outcome: Option<Outcome>)
    ensures
        outcome == plan_result(e.size, plan),
{
    match plan {
        FilePlan::Skip => Some(Outcome { xferred: false, literal: 0, matched: e.size }),
        FilePlan::Inspect => None,
        _ => Some(Outcome { xferred: true, literal: e.size, matched: 0 }),
    }
}

// ---------------------------------------------------------------------------
// Contents
// ---------------------------------------------------------------------------

/// What is done with a file whose contents were read.
#[derive(Debug, Clone, Copy, PartialEq, Eq, Structural)]
pub enum ContentsPlan {
    /// Nothing: the contents are the same.
    Skip,
    /// Report that it would be sent.
    WouldSend,
    /// Copy it over what there is.
    CopyOver,
    /// Patch what there is, in blocks of this length.
    Delta(usize),
}

/// The block length for a file of this size: as asked for, or by the size,
/// within limits.
pub open spec fn block_len(size: u64, wanted: Option<usize>) -> int {
    clamped(
        match wanted {
            Some(n) => n as int,
            None => block_size_of(size as nat),
        },
        512,
        1_048_576,
    )
}

/// What is done with a file whose contents are `src`, where the file at the
/// destination, if there is one, holds `basis`.
pub open spec fn contents_plan(
    e: EntryView,
    dst: Option<DstMeta>,
    src: Seq<u8>,
    basis: Seq<u8>,
    opts: SyncOpts,
) -> ContentsPlan {
    if opts.checksum && existing(dst) is Some && blake3_digest(src) == blake3_digest(basis) {
        ContentsPlan::Skip
    } else if opts.dry_run {
        ContentsPlan::WouldSend
    } else if opts.whole_file || basis.len() == 0 || e.size > DELTA_SIZE_LIMIT {
        ContentsPlan::CopyOver
    } else {
        ContentsPlan::Delta(block_len(e.size, opts.block_size) as usize)
    }
}

/// The block length for a file of this size.
pub fn choose_block_len(size: u64, wanted: Option<usize>) -> (blen: usize)
    ensures
        blen == block_len(size, wanted),
        512 <= blen <= 1_048_576,
{
    let n: usize = match wanted {
        Some(n) => n,
        None => block_size(size),
    };
    if n < 512 {
        512
    } else if n > 1_048_576 {
        1_048_576
    } else {
        n
    }
}

/// Tests whether there is a file at the destination.
fn has_file(dst: Option<DstMeta>) -> (b: bool)
    ensures
        b == (existing(dst) is Some),
{
    match dst {
        Some(meta) => !meta.is_symlink,
        None => false,
    }
}

/// Decides by contents what is done with a file.
pub fn plan_contents(
    e: &FileEntry,
    dst: Option<DstMeta>,
    src: &[u8],
    basis: &[u8],
    opts: &SyncOpts,
) -> (plan: ContentsPlan)
    ensures
        plan == contents_plan(e@, dst, src@, basis@, *opts),
{
    if opts.checksum && has_file(dst) && same_bytes(
        file_hash(src).as_slice(),
        file_hash(basis).as_slice(),
    ) {
        return ContentsPlan::Skip;
    }
    if opts.dry_run {
        return ContentsPlan::WouldSend;
    }
    if opts.whole_file || basis.len() == 0 || e.size > DELTA_SIZE_LIMIT {
        return ContentsPlan::CopyOver;
    }
    ContentsPlan::Delta(choose_block_len(e.size, opts.block_size))
}

/// What a file that is listed with this size comes to, where its contents decide
/// and it is not patched.
pub open spec fn contents_result(size: u64, src: Seq<u8>, plan: ContentsPlan) -> Option<Outcome> {
    match plan {
        ContentsPlan::Skip => Some(
            Outcome { xferred: false, literal: 0, matched: src.len() as u64 },
        ),
        ContentsPlan::WouldSend => Some(Outcome { xferred: true, literal: size, matched: 0 }),
        ContentsPlan::CopyOver => Some(
            Outcome { xferred: true, literal: src.len() as u64, matched: 0 },
        ),
        ContentsPlan::Delta(_) => None,
    }
}

/// What a file comes to that was decided on by contents, unless it is patched.
pub fn contents_outcome(e: &FileEntry, src: &[u8], plan: ContentsPlan) -> (outcome: Option<Outcome>)
    ensures
        outcome == contents_result(e.size, src@, plan),
{
    match plan {
        ContentsPlan::Skip => Some(
            Outcome { xferred: false, literal: 0, matched: src.len() as u64 },
        ),
        ContentsPlan::WouldSend => Some(Outcome { xferred: true, literal: e.size, matched: 0 }),
        ContentsPlan::CopyOver => Some(
            Outcome { xferred: true, literal: src.len() as u64, matched: 0 },
        ),
        ContentsPlan::Delta(_) => None,
    }
}

/// What a file comes to that is patched: the bytes of the data tokens were sent,
/// the destination had the others.
pub open spec fn delta_result(src: Seq<u8>, basis: Seq<u8>, blen: int) -> Outcome {
    let literal = literal_total(delta_tokens(src, basis, blen));
    Outcome {
        xferred: true,
        literal: literal as u64,
        matched: (src.len() - literal) as u64,
    }
}

/// A file that was patched.
pub struct Patched<W> {
    /// What the new contents were written to.
    pub out: W,
    /// What it comes to.
    pub outcome: Outcome,
    /// The digest of the new contents.
    pub digest: [u8; 32],
}

/// Writes to `out` what the delta from `basis` to `src` rebuilds.
pub fn delta_file<W: ByteSink>(src: &[u8], basis: &[u8], blen: usize, out: W) -> (r:
    std::io::Result<Patched<W>>)
    requires
        0 < blen <= u32::MAX,
    ensures
        r matches Ok(p) ==> {
            let tokens = delta_tokens(src@, basis@, blen as int);
            &&& p.out.written() == out.written() + render(basis@, tokens)
            &&& p.out.reliable() == out.reliable()
            &&& p.digest@ == blake3_digest(render(basis@, tokens))
            &&& p.outcome == delta_result(src@, basis@, blen as int)
            &&& p.outcome.literal == literal_total(tokens)
            &&& p.outcome.literal + p.outcome.matched == src@.len()
            &&& collision_free(src@, basis@, blen as int) ==> render(basis@, tokens) == src@
        },
        out.reliable() ==> r is Ok,
{
    let sums = basis_sums(basis, blen);
    let mut pw = PatchWriter::new(basis, out);
    let ghost start = pw;
    let (lit, mat) = match diff_stream(src, sums.as_slice(), blen, &mut pw) {
        Ok(counts) => counts,
        Err(e) => {
            return Err(e);
        },
    };
    proof {
        lemma_sums_unique(sums@, basis@, blen as int);
        let tokens = delta_tokens(src@, basis@, blen as int);
        assert(pw.follows(&start, tokens));
        assert(Seq::<u8>::empty() + render(basis@, tokens) =~= render(basis@, tokens));
        if collision_free(src@, basis@, blen as int) {
            law_round_trip(src@, basis@, sums@, blen as int);
        }
    }
    let (out, digest) = pw.finalize();
    Ok(
        Patched {
            out,
            outcome: Outcome { xferred: true, literal: lit as u64, matched: mat as u64 },
            digest,
        },
    )
}

// ---------------------------------------------------------------------------
// Ways of writing
// ---------------------------------------------------------------------------

/// How new contents get to their place.
#[derive(Debug, Clone, Copy, PartialEq, Eq, Structural)]
pub enum Writing {
    /// Into a new file.
    Create,
    /// Into the file that there is.
    InPlace,
    /// Into a temporary file beside it, which is renamed.
    Replace,
}

/// How the contents of a file at the destination are replaced: in place where
/// that is asked for and there is a file.
pub open spec fn update_writing(dst: Option<DstMeta>, opts: SyncOpts) -> Writing {
    if opts.inplace && existing(dst) is Some {
        Writing::InPlace
    } else {
        Writing::Replace
    }
}

/// Decides how the contents of a file at the destination are replaced.
pub fn plan_update(dst: Option<DstMeta>, opts: &SyncOpts) -> (writing: Writing)
    ensures
        writing == update_writing(dst, *opts),
{
    if opts.inplace && has_file(dst) {
        Writing::InPlace
    } else {
        Writing::Replace
    }
}

/// How a file that was decided on by metadata is written, if it is.
pub open spec fn plan_writing(plan: FilePlan, dst: Option<DstMeta>, opts: SyncOpts) -> Option<
    Writing,
> {
    match plan {
        FilePlan::CopyNew => Some(Writing::Create),
        FilePlan::CopyOver => Some(update_writing(dst, opts)),
        _ => None,
    }
}

/// How a file that was decided on by contents is written, if it is.
pub open spec fn patch_writing(plan: ContentsPlan, dst: Option<DstMeta>, opts: SyncOpts) -> Option<
    Writing,
> {
    match plan {
        ContentsPlan::CopyOver => Some(update_writing(dst, opts)),
        ContentsPlan::Delta(_) => Some(update_writing(dst, opts)),
        _ => None,
    }
}

/// Decides how a file that was decided on by metadata is written, if it is.
pub fn file_writing(plan: FilePlan, dst: Option<DstMeta>, opts: &SyncOpts) -> (writing: Option<
    Writing,
>)
    ensures
        writing == plan_writing(plan, dst, *opts),
{
    match plan {
        FilePlan::CopyNew => Some(Writing::Create),
        FilePlan::CopyOver => Some(plan_update(dst, opts)),
        _ => None,
    }
}

/// Decides how a file that was decided on by contents is written, if it is.
pub fn contents_writing(plan: ContentsPlan, dst: Option<DstMeta>, opts: &SyncOpts) -> (writing:
    Option<Writing>)
    ensures
        writing == patch_writing(plan, dst, *opts),
{
    match plan {
        ContentsPlan::CopyOver => Some(plan_update(dst, opts)),
        ContentsPlan::Delta(_) => Some(plan_update(dst, opts)),
        _ => None,
    }
}

// ---------------------------------------------------------------------------
// Metadata
// ---------------------------------------------------------------------------

/// The metadata that is set on a file after its contents.
#[derive(Debug, Clone, Copy, PartialEq, Eq, Structural)]
pub struct MetaPlan {
    /// The time, in whole seconds since 1970.
    pub mtime: i64,
    /// The permissions.
    pub mode: Option<u32>,
    /// The owner.
    pub uid: Option<u32>,
    /// The group.
    pub gid: Option<u32>,
}

/// The metadata that is set: always the time, so that a later run can skip the
/// file; the rest where it is to be kept. The permissions are not set again
/// where the copy has brought them along.
pub open spec fn meta_plan(e: EntryView, opts: SyncOpts, perms_already_copied: bool) -> MetaPlan {
    MetaPlan {
        mtime: e.mtime,
        mode: if opts.preserve_perms && !perms_already_copied {
            Some(e.mode & 0o777)
        } else {
            None
        },
        uid: if opts.preserve_owner {
            Some(e.uid)
        } else {
            None
        },
        gid: if opts.preserve_group {
            Some(e.gid)
        } else {
            None
        },
    }
}

/// Decides which metadata is set.
pub fn plan_metadata(e: &FileEntry, opts: &SyncOpts, perms_already_copied: bool) -> (plan: MetaPlan)
    ensures
        plan == meta_plan(e@, *opts, perms_already_copied),
{
    MetaPlan {
        mtime: e.mtime,
        mode: if opts.preserve_perms && !perms_already_copied {
            Some(e.mode & 0o777)
        } else {
            None
        },
        uid: if opts.preserve_owner {
            Some(e.uid)
        } else {
            None
        },
        gid: if opts.preserve_group {
            Some(e.gid)
        } else {
            None
        },
    }
}

// ---------------------------------------------------------------------------
// Temporary names
// ---------------------------------------------------------------------------

/// How many names are tried for a temporary file.
pub const TMP_ATTEMPTS: usize = 128;

/// The name of the temporary file for `leaf`.
pub open spec fn tmp_name(leaf: Seq<char>, pid: u32, nonce: u64) -> Seq<char> {
    seq!['.'] + leaf + seq!['.', 'r', 's', 'y', '.'] + decimal(pid as nat) + seq!['.'] + decimal(
        nonce as nat,
    ) + seq!['.', 't', 'm', 'p']
}

/// The text of the last name on the path.
pub open spec fn leaf_text(path: Seq<u8>) -> Seq<char> {
    match last_name(path) {
        Some(name) => lossy_text(name),
        None => seq!['r', 's', 'y'],
    }
}

/// The directory that holds the path.
pub open spec fn holding_dir(path: Seq<u8>) -> Seq<u8> {
    match parent(path) {
        Some(dir) => dir,
        None => seq![46u8],
    }
}

/// The temporary file for `path`, beside it.
pub open spec fn tmp_path_of(path: Seq<u8>, pid: u32, nonce: u64) -> Seq<u8> {
    below(holding_dir(path), encode_utf8(tmp_name(leaf_text(path), pid, nonce)))
}

/// The name of the temporary file for `leaf`.
fn make_tmp_name(leaf: &Vec<char>, pid: u32, nonce: u64) -> (name: String)
    ensures
        name@ == tmp_name(leaf@, pid, nonce),
{
    let mut name: Vec<char> = vec!['.'];
    name.extend_from_slice(leaf.as_slice());
    let mid: Vec<char> = vec!['.', 'r', 's', 'y', '.'];
    name.extend_from_slice(mid.as_slice());
    name.extend_from_slice(format_number(pid as u64).as_slice());
    name.push('.');
    name.extend_from_slice(format_number(nonce).as_slice());
    let end: Vec<char> = vec!['.', 't', 'm', 'p'];
    name.extend_from_slice(end.as_slice());
    assert(name@ =~= tmp_name(leaf@, pid, nonce));
    string_of(name.as_slice())
}

/// The temporary file for `dst`, beside it. `pid` is the number of the process,
/// `nonce` one that the process has not used before.
pub fn tmp_path(dst: &[u8], pid: u32, nonce: u64) -> (path: Vec<u8>)
    ensures
        path@ == tmp_path_of(dst@, pid, nonce),
{
    let leaf: Vec<char> = match file_name(dst) {
        Some(name) => {
            let text = from_utf8_lossy(name.as_slice());
            chars_of(text.as_str())
        },
        None => vec!['r', 's', 'y'],
    };
    assert(leaf@ =~= leaf_text(dst@));
    let dir: Vec<u8> = match parent_path(dst) {
        Some(dir) => dir,
        None => vec![46],
    };
    assert(dir@ =~= holding_dir(dst@));
    let name = make_tmp_name(&leaf, pid, nonce);
    join_path(dir.as_slice(), name.as_str().as_bytes())
}

// ---------------------------------------------------------------------------
// Laws
// ---------------------------------------------------------------------------

/// With the same size and time, and without checksums, a file is skipped: so is
/// one that was just transferred, whose time was set.
pub proof fn law_unchanged_is_skipped(e: EntryView, meta: DstMeta, opts: SyncOpts)
    requires
        !meta.is_symlink,
        !opts.checksum,
        meta.len == e.size,
        dst_mtime(meta) == meta_plan(e, opts, true).mtime,
    ensures
        file_plan(e, Some(meta), opts) == FilePlan::Skip,
{
}

/// What is newer at the destination, a file or a link, is left as it is where
/// that is asked for.
pub proof fn law_update_keeps_newer(e: EntryView, meta: DstMeta, opts: SyncOpts)
    requires
        opts.update,
        dst_mtime(meta) > e.mtime,
    ensures
        is_kept(e.mtime, meta, opts),
        file_plan(e, Some(meta), opts) == FilePlan::Skip,
{
}

/// What exists at the destination, a file or a link, is left as it is where that
/// is asked for, even if the source differs.
pub proof fn law_ignore_existing_keeps(e: EntryView, meta: DstMeta, opts: SyncOpts)
    requires
        opts.ignore_existing,
    ensures
        is_kept(e.mtime, meta, opts),
        file_plan(e, Some(meta), opts) == FilePlan::Skip,
{
}

/// With checksums, a file with the same contents is left alone, whatever its
/// size and time are said to be, and be it empty. Where the sizes are as said and
/// it is not kept for another reason, it is left alone exactly where the digests
/// of the contents are the same.
pub proof fn law_checksum_compares_contents(
    e: EntryView,
    meta: DstMeta,
    src: Seq<u8>,
    basis: Seq<u8>,
    opts: SyncOpts,
)
    requires
        opts.checksum,
        !meta.is_symlink,
    ensures
        src == basis ==> is_left_alone(e, Some(meta), src, basis, opts),
        e.size == src.len() && meta.len == basis.len() && !is_kept(e.mtime, meta, opts) ==> (
        is_left_alone(e, Some(meta), src, basis, opts) <==> blake3_digest(src) == blake3_digest(
            basis,
        )),
{
    if src.len() == 0 && basis.len() == 0 {
        assert(src =~= basis);
    }
}

/// No delta is made of a file above the limit, nor where whole files are asked
/// for.
pub proof fn law_large_and_whole_files_are_not_patched(
    e: EntryView,
    dst: Option<DstMeta>,
    src: Seq<u8>,
    basis: Seq<u8>,
    opts: SyncOpts,
)
    requires
        e.size > DELTA_SIZE_LIMIT || opts.whole_file,
    ensures
        !(contents_plan(e, dst, src, basis, opts) is Delta),
{
}

/// The file is left as it is, by its metadata or by its contents.
pub open spec fn is_left_alone(
    e: EntryView,
    dst: Option<DstMeta>,
    src: Seq<u8>,
    basis: Seq<u8>,
    opts: SyncOpts,
) -> bool {
    match file_plan(e, dst, opts) {
        FilePlan::Skip => true,
        FilePlan::Inspect => contents_plan(e, dst, src, basis, opts) is Skip,
        _ => false,
    }
}

/// The file is only reported as one that would be sent.
pub open spec fn is_only_reported(
    e: EntryView,
    dst: Option<DstMeta>,
    src: Seq<u8>,
    basis: Seq<u8>,
    opts: SyncOpts,
) -> bool {
    match file_plan(e, dst, opts) {
        FilePlan::WouldSend => true,
        FilePlan::Inspect => contents_plan(e, dst, src, basis, opts) is WouldSend,
        _ => false,
    }
}

/// A dry run writes no file. It leaves alone exactly those that a run with the
/// same options leaves alone, and only reports the others.
pub proof fn law_dry_run_reports_the_run(
    e: EntryView,
    dst: Option<DstMeta>,
    src: Seq<u8>,
    basis: Seq<u8>,
    opts: SyncOpts,
    wet: SyncOpts,
)
    requires
        opts.dry_run,
        wet == (SyncOpts { dry_run: false, ..opts }),
    ensures
        is_left_alone(e, dst, src, basis, opts) == is_left_alone(e, dst, src, basis, wet),
        is_only_reported(e, dst, src, basis, opts) == !is_left_alone(e, dst, src, basis, opts),
        !is_only_reported(e, dst, src, basis, wet),
{
}

/// A file of a run, as the run finds it: its entry, what stands at the
/// destination, and the contents of both.
pub struct FileState {
    pub entry: EntryView,
    pub dst: Option<DstMeta>,
    pub src: Seq<u8>,
    pub basis: Seq<u8>,
}

/// The run leaves the file as it is, or only reports it.
pub open spec fn is_untouched(f: FileState, opts: SyncOpts) -> bool {
    ||| is_left_alone(f.entry, f.dst, f.src, f.basis, opts)
    ||| is_only_reported(f.entry, f.dst, f.src, f.basis, opts)
}

/// What the file at the destination holds after the run: where it was patched,
/// what the delta rebuilds, where it was copied, the contents of the source.
pub open spec fn contents_left(f: FileState, opts: SyncOpts) -> Seq<u8> {
    if is_untouched(f, opts) {
        f.basis
    } else {
        match file_plan(f.entry, f.dst, opts) {
            FilePlan::Inspect => match contents_plan(f.entry, f.dst, f.src, f.basis, opts) {
                ContentsPlan::Delta(blen) => render(
                    f.basis,
                    delta_tokens(f.src, f.basis, blen as int),
                ),
                _ => f.src,
            },
            _ => f.src,
        }
    }
}

/// The run leaves `f` as `g`: with those contents, and, where it wrote them, with
/// the time that is set.
pub open spec fn is_left_as(f: FileState, g: FileState, opts: SyncOpts) -> bool {
    &&& g.entry == f.entry
    &&& g.src == f.src
    &&& g.basis == contents_left(f, opts)
    &&& if is_untouched(f, opts) {
        g.dst == f.dst
    } else {
        existing(g.dst) matches Some(meta) && meta.len == g.basis.len() && dst_mtime(meta)
            == meta_plan(f.entry, opts, true).mtime
    }
}

/// What the file comes to.
pub open spec fn file_result(f: FileState, opts: SyncOpts) -> Outcome {
    match file_plan(f.entry, f.dst, opts) {
        FilePlan::Inspect => match contents_plan(f.entry, f.dst, f.src, f.basis, opts) {
            ContentsPlan::Delta(blen) => delta_result(f.src, f.basis, blen as int),
            plan => contents_result(f.entry.size, f.src, plan)->0,
        },
        plan => plan_result(f.entry.size, plan)->0,
    }
}

/// What the files of a run come to, where none fails.
pub open spec fn run_results(files: Seq<FileState>, opts: SyncOpts) -> Seq<Option<Outcome>> {
    Seq::new(files.len(), |i: int| Some(file_result(files[i], opts)))
}

/// A run leaves at the destination the contents of the source, in every file that
/// it wrote, where no strong sum of a file that it patched collides. `sums` are
/// the sums of what the file held before.
pub proof fn law_run_leaves_the_source(f: FileState, sums: Seq<BlockSum>, opts: SyncOpts)
    requires
        !is_untouched(f, opts),
        sums_of(sums, f.basis, block_len(f.entry.size, opts.block_size)),
        collision_free(f.src, f.basis, block_len(f.entry.size, opts.block_size)),
    ensures
        contents_left(f, opts) == f.src,
{
    let blen = block_len(f.entry.size, opts.block_size);
    lemma_sums_unique(sums, f.basis, blen);
    law_round_trip(f.src, f.basis, sums, blen);
}

/// A second run over the files that a run has left, neither tree changed since,
/// transfers nothing: it skips every file, sends no byte and leaves every file as
/// it is. The files are of the sizes that they are listed with, and what the first
/// run wrote is as long as the source, or, with checksums, has its contents.
pub proof fn law_second_run_transfers_nothing(
    first: Seq<FileState>,
    second: Seq<FileState>,
    opts: SyncOpts,
)
    requires
        !opts.dry_run,
        first.len() == second.len(),
        first.len() <= usize::MAX,
        forall|i: int|
            #![trigger first[i]]
            #![trigger second[i]]
            0 <= i < first.len() ==> {
                &&& is_left_as(first[i], second[i], opts)
                &&& first[i].entry.size == first[i].src.len()
                &&& !is_untouched(first[i], opts) ==> contents_left(first[i], opts).len()
                    == first[i].src.len()
                &&& !is_untouched(first[i], opts) && opts.checksum ==> contents_left(
                    first[i],
                    opts,
                ) == first[i].src
            },
    ensures
        ({
            let counts = counted_all(run_results(second, opts));
            &&& counts.xferred == 0
            &&& counts.skipped == second.len()
            &&& counts.errored == 0
            &&& counts.literal == 0
        }),
        forall|i: int, left: FileState|
            #![trigger is_left_as(second[i], left, opts)]
            0 <= i < second.len() && is_left_as(second[i], left, opts) ==> left == second[i],
{
    let results = run_results(second, opts);
    assert forall|i: int| 0 <= i < second.len() implies #[trigger] is_untouched(second[i], opts)
        && !file_result(second[i], opts).xferred && file_result(second[i], opts).literal == 0 by {
        lemma_second_time(first[i], second[i], opts);
    }
    assert forall|i: int| 0 <= i < results.len() implies (#[trigger] results[i] matches Some(o)
        && !o.xferred && o.literal == 0) by {
        assert(is_untouched(second[i], opts));
    }
    lemma_all_skipped(results);
    assert forall|i: int, left: FileState|
        #![trigger is_left_as(second[i], left, opts)]
        0 <= i < second.len() && is_left_as(second[i], left, opts) implies left == second[i] by {
        assert(is_untouched(second[i], opts));
    }
}

/// A file that a run has left is left alone by the next.
proof fn lemma_second_time(f: FileState, g: FileState, opts: SyncOpts)
    requires
        !opts.dry_run,
        is_left_as(f, g, opts),
        f.entry.size == f.src.len(),
        !is_untouched(f, opts) ==> contents_left(f, opts).len() == f.src.len(),
        !is_untouched(f, opts) && opts.checksum ==> contents_left(f, opts) == f.src,
    ensures
        is_untouched(g, opts),
        !file_result(g, opts).xferred,
        file_result(g, opts).literal == 0,
{
    if !is_untouched(f, opts) {
        let meta = existing(g.dst)->0;
        assert(g.dst == Some(meta));
        if opts.checksum {
            law_checksum_compares_contents(g.entry, meta, g.src, g.basis, opts);
        } else {
            law_unchanged_is_skipped(g.entry, meta, opts);
        }
    }
}

proof fn lemma_all_skipped(results: Seq<Option<Outcome>>)
    requires
        results.len() <= usize::MAX,
        forall|i: int|
            0 <= i < results.len() ==> (#[trigger] results[i] matches Some(o) && !o.xferred
                && o.literal == 0),
    ensures
        counted_all(results).xferred == 0,
        counted_all(results).skipped == results.len(),
        counted_all(results).errored == 0,
        counted_all(results).literal == 0,
    decreases results.len(),
{
    if results.len() > 0 {
        let before = results.drop_last();
        assert forall|i: int| 0 <= i < before.len() implies (#[trigger] before[i] matches Some(o)
            && !o.xferred && o.literal == 0) by {
            assert(before[i] == results[i]);
        }
        lemma_all_skipped(before);
        assert(results.last() == results[results.len() - 1]);
    }
}

/// The temporary names that one process makes for a file with different
/// numbers are different.
pub proof fn law_tmp_names_differ(leaf: Seq<char>, pid: u32, a: u64, b: u64)
    requires
        a != b,
    ensures
        tmp_name(leaf, pid, a) != tmp_name(leaf, pid, b),
        encode_utf8(tmp_name(leaf, pid, a)) != encode_utf8(tmp_name(leaf, pid, b)),
{
    let front = seq!['.'] + leaf + seq!['.', 'r', 's', 'y', '.'] + decimal(pid as nat) + seq!['.'];
    let end = seq!['.', 't', 'm', 'p'];
    let x = tmp_name(leaf, pid, a);
    let y = tmp_name(leaf, pid, b);
    if x == y {
        assert(x.subrange(front.len() as int, x.len() - 4) =~= decimal(a as nat));
        assert(y.subrange(front.len() as int, y.len() - 4) =~= decimal(b as nat));
        law_decimal_round_trip(a as nat);
        law_decimal_round_trip(b as nat);
        assert(decimal_value(decimal(a as nat)) == decimal_value(decimal(b as nat)));
    }
    encode_utf8_decode_utf8(x);
    encode_utf8_decode_utf8(y);
}

/// The time at the destination is the number of seconds that the operating system
/// gives, and a second before 1970 where it gives none.
pub proof fn law_time_is_in_seconds(meta: DstMeta)
    ensures
        meta.mtime matches Some(secs) ==> (secs <= i64::MAX ==> dst_mtime(meta) == secs),
        meta.mtime is None ==> dst_mtime(meta) == -1,
{
}

/// Without checksums, a file at the destination is skipped exactly where whatever
/// exists is to be left alone, where newer files are and it is newer, or where
/// both its size and its time are those of the source; no other option matters.
pub proof fn law_skipped_exactly_where_kept_or_same(e: EntryView, meta: DstMeta, opts: SyncOpts)
    requires
        !meta.is_symlink,
        !opts.checksum,
    ensures
        file_plan(e, Some(meta), opts) == FilePlan::Skip <==> {
            ||| opts.ignore_existing
            ||| opts.update && dst_mtime(meta) > e.mtime
            ||| meta.len == e.size && dst_mtime(meta) == e.mtime
        },
{
}

/// With checksums, size and time decide nothing on a file that is not kept and
/// is not empty: it is read.
pub proof fn law_checksum_ignores_size_and_time(e: EntryView, meta: DstMeta, opts: SyncOpts)
    requires
        !meta.is_symlink,
        opts.checksum,
        !opts.ignore_existing,
        !(opts.update && dst_mtime(meta) > e.mtime),
        meta.len > 0 || e.size > 0,
    ensures
        file_plan(e, Some(meta), opts) == FilePlan::Inspect,
{
}

/// What is not at the destination is never skipped: it is copied, or only
/// reported in a dry run. So is it where a link stands that is not kept, and the
/// link gives way, but not in a dry run; one that is kept stays.
pub proof fn law_missing_file_is_copied(e: EntryView, dst: Option<DstMeta>, opts: SyncOpts)
    requires
        dst matches Some(meta) ==> meta.is_symlink,
    ensures
        dst matches Some(meta) && (opts.ignore_existing || (opts.update && dst_mtime(meta)
            > e.mtime)) ==> file_plan(e, dst, opts) == FilePlan::Skip && !link_gives_way(
            e,
            dst,
            opts,
        ),
        !(dst matches Some(meta) && (opts.ignore_existing || (opts.update && dst_mtime(meta)
            > e.mtime))) ==> {
            &&& file_plan(e, dst, opts) != FilePlan::Skip
            &&& opts.dry_run ==> file_plan(e, dst, opts) == FilePlan::WouldSend
            &&& !opts.dry_run && !opts.checksum ==> file_plan(e, dst, opts) == FilePlan::CopyNew
            &&& !opts.dry_run && opts.checksum ==> file_plan(e, dst, opts) == FilePlan::Inspect
            &&& link_gives_way(e, dst, opts) <==> dst is Some && !opts.dry_run
        },
{
}

/// Nothing but a link gives way, and nothing does in a dry run.
pub proof fn law_only_links_give_way(e: EntryView, dst: Option<DstMeta>, opts: SyncOpts)
    ensures
        link_gives_way(e, dst, opts) ==> dst is Some && dst->0.is_symlink && !opts.dry_run,
{
}

/// A link of the source takes its place exactly where nothing stands there, or
/// where what stands there is neither to be left alone nor newer and kept.
pub proof fn law_link_takes_its_place(mtime: i64, dst: Option<DstMeta>, opts: SyncOpts)
    ensures
        place_is_free(mtime, dst, opts) <==> (dst matches Some(meta) ==> !opts.ignore_existing && !(
        opts.update && dst_mtime(meta) > mtime)),
{
}

/// Without checksums, a file at the destination that is neither kept nor the same
/// is updated: by a whole copy where whole files are asked for or it is above the
/// limit, else by a delta in blocks of the length for it, unless the destination
/// holds nothing.
pub proof fn law_changed_file_is_updated(
    e: EntryView,
    meta: DstMeta,
    src: Seq<u8>,
    basis: Seq<u8>,
    opts: SyncOpts,
)
    requires
        !meta.is_symlink,
        !opts.checksum,
        !opts.dry_run,
        !opts.ignore_existing,
        !(opts.update && dst_mtime(meta) > e.mtime),
        meta.len != e.size || dst_mtime(meta) != e.mtime,
    ensures
        opts.whole_file || e.size > 512 * 1024 * 1024 ==> file_plan(e, Some(meta), opts)
            == FilePlan::CopyOver,
        !(opts.whole_file || e.size > 512 * 1024 * 1024) ==> file_plan(e, Some(meta), opts)
            == FilePlan::Inspect && contents_plan(e, Some(meta), src, basis, opts) == if basis.len()
            == 0 {
            ContentsPlan::CopyOver
        } else {
            ContentsPlan::Delta(block_len(e.size, opts.block_size) as usize)
        },
{
}

/// A file whose contents are not those at the destination is transferred, and the
/// destination has the contents of the source afterwards, where it is not kept,
/// where its size or its time differ or it is compared by checksum, and where no
/// strong sum collides.
pub proof fn law_changed_file_arrives(f: FileState, sums: Seq<BlockSum>, opts: SyncOpts)
    requires
        !opts.dry_run,
        f.dst matches Some(meta) ==> !opts.ignore_existing && !(opts.update && dst_mtime(meta)
            > f.entry.mtime),
        f.dst matches Some(meta) ==> (!meta.is_symlink && !opts.checksum ==> meta.len
            != f.entry.size || dst_mtime(meta) != f.entry.mtime),
        f.dst matches Some(meta) ==> (!meta.is_symlink && opts.checksum ==> blake3_digest(f.src)
            != blake3_digest(f.basis) && (meta.len > 0 || f.entry.size > 0)),
        sums_of(sums, f.basis, block_len(f.entry.size, opts.block_size)),
        collision_free(f.src, f.basis, block_len(f.entry.size, opts.block_size)),
    ensures
        contents_left(f, opts) == f.src,
        file_result(f, opts).xferred,
{
    law_run_leaves_the_source(f, sums, opts);
}

/// A dry run decides on no copy and no patch, and finds no way of writing.
pub proof fn law_dry_run_writes_nothing(
    e: EntryView,
    dst: Option<DstMeta>,
    src: Seq<u8>,
    basis: Seq<u8>,
    opts: SyncOpts,
)
    requires
        opts.dry_run,
    ensures
        !(file_plan(e, dst, opts) is CopyNew) && !(file_plan(e, dst, opts) is CopyOver),
        !(contents_plan(e, dst, src, basis, opts) is CopyOver) && !(contents_plan(
            e,
            dst,
            src,
            basis,
            opts,
        ) is Delta),
        plan_writing(file_plan(e, dst, opts), dst, opts) is None,
        patch_writing(contents_plan(e, dst, src, basis, opts), dst, opts) is None,
        !link_gives_way(e, dst, opts),
{
}

/// A file that is written at all is written in place exactly where that is asked
/// for and there is a file; a new one is created, and any other replaced.
pub proof fn law_written_in_place_where_asked(dst: Option<DstMeta>, blen: usize, opts: SyncOpts)
    ensures
        plan_writing(FilePlan::CopyNew, dst, opts) == Some(Writing::Create),
        plan_writing(FilePlan::CopyOver, dst, opts) == Some(
            if opts.inplace && dst is Some && !dst->0.is_symlink {
                Writing::InPlace
            } else {
                Writing::Replace
            },
        ),
        patch_writing(ContentsPlan::CopyOver, dst, opts) == plan_writing(
            FilePlan::CopyOver,
            dst,
            opts,
        ),
        patch_writing(ContentsPlan::Delta(blen), dst, opts) == plan_writing(
            FilePlan::CopyOver,
            dst,
            opts,
        ),
        update_writing(dst, opts) == plan_writing(FilePlan::CopyOver, dst, opts)->0,
{
}

/// A block length that is asked for is taken as it is within the limits, and
/// brought to the nearer limit outside; without one it goes by the size alone.
pub proof fn law_block_length_within_limits(size: u64, wanted: usize)
    ensures
        512 <= wanted <= 1_048_576 ==> block_len(size, Some(wanted)) == wanted,
        wanted < 512 ==> block_len(size, Some(wanted)) == 512,
        wanted > 1_048_576 ==> block_len(size, Some(wanted)) == 1_048_576,
        block_len(size, None) == block_size_of(size as nat),
{
    lemma_block_size_range(size as nat);
}

/// Whatever is kept of the metadata, the time is set to that of the source; the
/// permissions, the owner and the group are set exactly where they are to be
/// preserved, and then to those of the source, but permissions that came with a
/// copy are not set again.
pub proof fn law_metadata_is_that_of_the_source(e: EntryView, opts: SyncOpts, copied: bool)
    ensures
        meta_plan(e, opts, copied).mtime == e.mtime,
        meta_plan(e, opts, copied).mode == if opts.preserve_perms && !copied {
            Some(e.mode & 0x1ff)
        } else {
            None
        },
        meta_plan(e, opts, copied).uid == if opts.preserve_owner {
            Some(e.uid)
        } else {
            None
        },
        meta_plan(e, opts, copied).gid == if opts.preserve_group {
            Some(e.gid)
        } else {
            None
        },
{
}

/// Every byte of a file is counted once: as sent where it is copied, as had where
/// it is skipped, and one or the other where it is patched.
pub proof fn law_outcome_counts_every_byte(
    size: u64,
    src: Seq<u8>,
    basis: Seq<u8>,
    sums: Seq<BlockSum>,
    blen: int,
    plan: FilePlan,
    contents: ContentsPlan,
)
    requires
        size == src.len(),
        0 < blen <= u32::MAX,
        sums_of(sums, basis, blen),
    ensures
        plan_result(size, plan) matches Some(o) ==> o.literal + o.matched == size && o.xferred == !(
        plan is Skip) && (o.xferred ==> o.literal == size),
        plan_result(size, plan) is None <==> plan is Inspect,
        contents_result(size, src, contents) matches Some(o) ==> o.literal + o.matched == size
            && o.xferred == !(contents is Skip) && (o.xferred ==> o.literal == size),
        contents_result(size, src, contents) is None <==> contents is Delta,
        delta_result(src, basis, blen).xferred,
        delta_result(src, basis, blen).literal + delta_result(src, basis, blen).matched == size,
        delta_result(src, basis, blen).literal == literal_total(diff_tokens(src, sums, blen)),
{
    lemma_sums_unique(sums, basis, blen);
    law_sent_and_copied_make_the_source(src, sums, blen);
}

/// The temporary file for a file in a directory lies in the same directory, under
/// the name of the file with a dot before it and the numbers of the process and of
/// the attempt behind it, as text.
pub proof fn law_temporary_file_lies_beside(
    dir: Seq<u8>,
    name: Seq<u8>,
    pid: u32,
    nonce: u64,
)
    requires
        dir.len() > 0,
        dir.last() != 47,
        !(dir.len() >= 2 && dir[dir.len() - 2] == 47 && dir.last() == 46),
        name.len() > 0,
        !name.contains(47),
        name != seq![46u8],
        name != seq![46u8, 46u8],
    ensures
        tmp_path_of(dir + seq![47u8] + name, pid, nonce) == dir + seq![47u8] + encode_utf8(
            seq!['.'] + lossy_text(name) + seq!['.', 'r', 's', 'y', '.'] + decimal(pid as nat)
                + seq!['.'] + decimal(nonce as nat) + seq!['.', 't', 'm', 'p'],
        ),
{
    law_parent_and_last_name(dir, name);
    assert(dir.push(47) =~= dir + seq![47u8]);
}

} // verus!
