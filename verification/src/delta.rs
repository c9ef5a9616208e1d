//! The delta between two files: block sums of the basis, the tokens that turn
//! the basis into the source, and what the tokens stand for.

use crate::checksum::{
    absorbed, blake3_digest, hasher_finalize, hasher_new, hasher_update, rolling_sum,
    same_bytes, strong_digest, strong_sum, weak_digest, RollingSum,
};
use crate::stream::ByteSink;
use rayon::iter::{IndexedParallelIterator, ParallelIterator};
use rayon::slice::ParallelSlice;
use rustc_hash::{FxBuildHasher, FxHashMap};
use vstd::prelude::*;
use vstd::slice::{slice_subrange, slice_to_vec};

verus! {

// ---------------------------------------------------------------------------
// Block sums
// ---------------------------------------------------------------------------

/// The two checksums of one block of the basis, and where the block starts.
#[derive(Debug, Clone, Copy)]
pub struct BlockSum {
    pub rolling: u32,
    pub strong: [u8; 16],
    pub offset: u64,
}

impl BlockSum {
    /// The sums are those of `chunk`, which starts at `offset`.
    pub open spec fn describes(self, chunk: Seq<u8>, offset: int) -> bool {
        &&& self.rolling == weak_digest(chunk)
        &&& self.strong@ == strong_digest(chunk)
        &&& self.offset == offset
    }
}

/// The smaller of two numbers.
pub open spec fn least(a: int, b: int) -> int {
    if a <= b {
        a
    } else {
        b
    }
}

/// How many blocks of `blen` bytes `data` has, a shorter last one counted.
pub open spec fn chunk_count(data: Seq<u8>, blen: int) -> int {
    (data.len() + blen - 1) / blen
}

/// The block number `i` of `data`.
pub open spec fn chunk_at(data: Seq<u8>, blen: int, i: int) -> Seq<u8> {
    data.subrange(i * blen, least((i + 1) * blen, data.len() as int))
}

/// `sums` are the sums of the blocks of `basis`, in order.
pub open spec fn sums_of(sums: Seq<BlockSum>, basis: Seq<u8>, blen: int) -> bool {
    if basis.len() == 0 || blen == 0 {
        sums.len() == 0
    } else {
        &&& sums.len() == chunk_count(basis, blen)
        &&& forall|i: int|
            0 <= i < sums.len() ==> (#[trigger] sums[i]).describes(
                chunk_at(basis, blen, i),
                i * blen,
            )
    }
}

// ---------------------------------------------------------------------------
// Tokens
// ---------------------------------------------------------------------------

/// One step of a delta: a range of the basis, or bytes of the source.
pub enum TokenView {
    Copy { offset: u64, len: u32 },
    Data(Seq<u8>),
}

/// The bytes that a token stands for: a range of the basis, cut off at its
/// end, or the bytes it carries.
pub open spec fn token_bytes(basis: Seq<u8>, token: TokenView) -> Seq<u8> {
    match token {
        TokenView::Copy { offset, len } => basis.subrange(
            least(offset as int, basis.len() as int),
            least(offset + len, basis.len() as int),
        ),
        TokenView::Data(bytes) => bytes,
    }
}

/// The file that the tokens rebuild from the basis.
pub open spec fn render(basis: Seq<u8>, tokens: Seq<TokenView>) -> Seq<u8>
    decreases tokens.len(),
{
    if tokens.len() == 0 {
        Seq::empty()
    } else {
        render(basis, tokens.drop_last()) + token_bytes(basis, tokens.last())
    }
}

/// Streaming sink for tokens: writes them to the wire, or the bytes they stand
/// for to a file.
pub trait TokenSink {
    /// The sink is what `start` becomes by taking `tokens`.
    spec fn follows(&self, start: &Self, tokens: Seq<TokenView>) -> bool;

    /// The sink never fails.
    spec fn reliable(&self) -> bool;

    /// Every sink follows itself by no token.
    proof fn lemma_follows_itself(&self)
        ensures
            self.follows(self, Seq::empty()),
    ;

    /// Takes the token that copies `len` bytes of the basis from `basis_offset` on.
    fn on_copy(&mut self, basis_offset: u64, len: u32) -> (r: std::io::Result<()>)
        ensures
            r is Ok ==> forall|start: &Self, tokens: Seq<TokenView>|
                #![trigger old(self).follows(start, tokens)]
                old(self).follows(start, tokens) ==> final(self).follows(
                    start,
                    tokens.push(TokenView::Copy { offset: basis_offset, len }),
                ),
            old(self).reliable() ==> r is Ok,
            final(self).reliable() == old(self).reliable(),
    ;

    /// Takes the token that carries `bytes`.
    fn on_data(&mut self, bytes: &[u8]) -> (r: std::io::Result<()>)
        ensures
            r is Ok ==> forall|start: &Self, tokens: Seq<TokenView>|
                #![trigger old(self).follows(start, tokens)]
                old(self).follows(start, tokens) ==> final(self).follows(
                    start,
                    tokens.push(TokenView::Data(bytes@)),
                ),
            old(self).reliable() ==> r is Ok,
            final(self).reliable() == old(self).reliable(),
    ;
}

// ---------------------------------------------------------------------------
// Sums of the basis
// ---------------------------------------------------------------------------

/// From this length on the block sums of one file are computed in parallel.
/// Below it, working on several files at once is enough.
const PAR_SUMS_THRESHOLD: usize = 4_194_304;

/// The sums of the block number `i`.
fn block_sum(i: usize, chunk: &[u8], blen: usize) -> (sum: BlockSum)
    requires
        chunk@.len() <= u32::MAX,
        i * blen <= usize::MAX,
    ensures
        sum.describes(chunk@, i * blen),
{
    BlockSum { rolling: rolling_sum(chunk), strong: strong_sum(chunk), offset: (i * blen) as u64 }
}

/// Calls `par_chunks` of rayon on `data`, with `enumerate`, `map` and
/// `collect`. Claimed: the result holds, in the order of the blocks and for
/// each block of `blen` bytes, what `block_sum` gives for its number and bytes.
#[verifier::external_body]
fn par_block_sums(data: &[u8], blen: usize) -> (sums: Vec<BlockSum>)
    requires
        0 < blen,
        0 < data@.len(),
        blen <= u32::MAX || data@.len() <= u32::MAX,
    ensures
        sums_of(sums@, data@, blen as int),
{
    data.par_chunks(blen).enumerate().map(|(i, chunk)| block_sum(i, chunk, blen)).collect()
}

/// Block checksums of the basis (destination) file.
pub fn basis_sums(data: &[u8], blen: usize) -> (sums: Vec<BlockSum>)
    requires
        blen <= u32::MAX || data@.len() <= u32::MAX,
    ensures
        sums_of(sums@, data@, blen as int),
{
    if data.len() == 0 || blen == 0 {
        return Vec::new();
    }
    if data.len() >= PAR_SUMS_THRESHOLD {
        return par_block_sums(data, blen);
    }
    let mut sums: Vec<BlockSum> = Vec::new();
    let mut pos: usize = 0;
    assert(0 * blen == 0);
    while pos < data.len()
        invariant
            0 < blen,
            blen <= u32::MAX || data@.len() <= u32::MAX,
            pos < data@.len() ==> pos == sums@.len() * blen,
            pos <= data@.len(),
            pos == data@.len() ==> sums@.len() == chunk_count(data@, blen as int),
            forall|i: int|
                0 <= i < sums@.len() ==> (#[trigger] sums@[i]).describes(
                    chunk_at(data@, blen as int, i),
                    i * blen,
                ),
        decreases data@.len() - pos,
    {
        let end: usize = if blen < data.len() - pos {
            pos + blen
        } else {
            data.len()
        };
        proof {
            let n = sums@.len() as int;
            let b = blen as int;
            assert((n + 1) * b == n * b + b) by (nonlinear_arith);
            assert(chunk_at(data@, b, n) =~= data@.subrange(pos as int, end as int));
            if end == data@.len() {
                lemma_last_chunk(data@.len() as int, b, n);
            }
        }
        sums.push(block_sum(sums.len(), slice_subrange(data, pos, end), blen));
        pos = end;
    }
    sums
}

/// The last block is the one that reaches the end.
proof fn lemma_last_chunk(len: int, blen: int, i: int)
    requires
        0 < blen,
        0 <= i,
        i * blen < len <= (i + 1) * blen,
    ensures
        (len + blen - 1) / blen == i + 1,
{
    assert((i + 1) * blen == i * blen + blen) by (nonlinear_arith);
    let x = len + blen - 1;
    assert(x == (i + 1) * blen + (len - 1 - i * blen));
    vstd::arithmetic::div_mod::lemma_fundamental_div_mod_converse(x, blen, i + 1, len - 1 - i * blen);
}

// ---------------------------------------------------------------------------
// Patch
// ---------------------------------------------------------------------------

/// The range of a basis of `basis_len` bytes that a copy token stands for.
pub(crate) fn copy_range(basis_len: usize, offset: u64, len: u32) -> (range: (usize, usize))
    ensures
        range.0 <= range.1 <= basis_len,
        range.0 == least(offset as int, basis_len as int),
        range.1 == least(offset + len, basis_len as int),
{
    if offset >= basis_len as u64 {
        return (basis_len, basis_len);
    }
    let start: usize = offset as usize;
    let left: usize = basis_len - start;
    let end: usize = if (len as u64) < left as u64 {
        start + len as usize
    } else {
        basis_len
    };
    (start, end)
}

/// Applies a stream of tokens against `basis`, writing the rebuilt bytes into
/// `out` and hashing them on the way.
pub struct PatchWriter<'b, W: ByteSink> {
    basis: &'b [u8],
    out: W,
    hasher: blake3::Hasher,
}

impl<'b, W: ByteSink> PatchWriter<'b, W> {
    /// The basis.
    pub closed spec fn basis(&self) -> Seq<u8> {
        self.basis@
    }

    /// Where the rebuilt bytes go.
    pub closed spec fn out(&self) -> W {
        self.out
    }

    /// The bytes hashed so far.
    pub closed spec fn hashed(&self) -> Seq<u8> {
        absorbed(self.hasher)
    }

    /// A writer that has taken no token.
    pub fn new(basis: &'b [u8], out: W) -> (pw: Self)
        ensures
            pw.basis() == basis@,
            pw.out() == out,
            pw.hashed() == Seq::<u8>::empty(),
    {
        PatchWriter { basis, out, hasher: hasher_new() }
    }

    /// What the bytes were written to, and the digest of those bytes.
    pub fn finalize(self) -> (r: (W, [u8; 32]))
        ensures
            r.0 == self.out(),
            r.1@ == blake3_digest(self.hashed()),
    {
        let digest: [u8; 32] = hasher_finalize(&self.hasher);
        (self.out, digest)
    }
}

impl<'b, W: ByteSink> TokenSink for PatchWriter<'b, W> {
    /// The basis stays; the bytes that the tokens stand for are written and
    /// hashed after what was there.
    open spec fn follows(&self, start: &Self, tokens: Seq<TokenView>) -> bool {
        &&& self.basis() == start.basis()
        &&& self.out().written() == start.out().written() + render(start.basis(), tokens)
        &&& self.hashed() == start.hashed() + render(start.basis(), tokens)
    }

    open spec fn reliable(&self) -> bool {
        self.out().reliable()
    }

    proof fn lemma_follows_itself(&self) {
    }

    fn on_copy(&mut self, basis_offset: u64, len: u32) -> (r: std::io::Result<()>) {
        let (s, e) = copy_range(self.basis.len(), basis_offset, len);
        let slice = slice_subrange(self.basis, s, e);
        hasher_update(&mut self.hasher, slice);
        let r = self.out.write_all(slice);
        proof {
            lemma_render_push(self.basis(), TokenView::Copy { offset: basis_offset, len });
        }
        r
    }

    fn on_data(&mut self, bytes: &[u8]) -> (r: std::io::Result<()>) {
        hasher_update(&mut self.hasher, bytes);
        let r = self.out.write_all(bytes);
        proof {
            lemma_render_push(self.basis(), TokenView::Data(bytes@));
        }
        r
    }
}

/// One more token adds the bytes it stands for, whatever came before.
proof fn lemma_render_push(basis: Seq<u8>, token: TokenView)
    ensures
        forall|before: Seq<u8>, tokens: Seq<TokenView>|
            #![trigger before + render(basis, tokens)]
            before + render(basis, tokens) + token_bytes(basis, token) == before + render(
                basis,
                tokens.push(token),
            ),
{
    assert forall|before: Seq<u8>, tokens: Seq<TokenView>|
        #![trigger before + render(basis, tokens)]
        before + render(basis, tokens) + token_bytes(basis, token) == before + render(
            basis,
            tokens.push(token),
        ) by {
        assert(tokens.push(token).drop_last() =~= tokens);
        assert(before + render(basis, tokens) + token_bytes(basis, token) =~= before + (render(
            basis,
            tokens,
        ) + token_bytes(basis, token)));
    }
}

// ---------------------------------------------------------------------------
// Diff
// ---------------------------------------------------------------------------

/// The sums are those of the bytes `window`.
pub open spec fn sums_match(sum: BlockSum, window: Seq<u8>) -> bool {
    sum.rolling == weak_digest(window) && sum.strong@ == strong_digest(window)
}

/// The first block from number `k` on whose two sums are those of `window`.
pub open spec fn find_block(sums: Seq<BlockSum>, window: Seq<u8>, k: int) -> Option<int>
    decreases sums.len() - k,
{
    if k < 0 || k >= sums.len() {
        None
    } else if sums_match(sums[k], window) {
        Some(k)
    } else {
        find_block(sums, window, k + 1)
    }
}

/// The token for the source bytes from `lo` up to `hi`; none for no bytes.
pub open spec fn literal(src: Seq<u8>, lo: int, hi: int) -> Seq<TokenView> {
    if lo < hi {
        seq![TokenView::Data(src.subrange(lo, hi))]
    } else {
        Seq::empty()
    }
}

/// The tokens for the source from `lit` on, where no block was found before
/// `pos`: as soon as the `blen` bytes at `pos` have the sums of a block, the
/// bytes passed over and a copy of the block, and so on behind it; at the end
/// the bytes that are left.
pub open spec fn diff_from(
    src: Seq<u8>,
    sums: Seq<BlockSum>,
    blen: int,
    pos: int,
    lit: int,
) -> Seq<TokenView>
    decreases src.len() - pos,
{
    if blen <= 0 || pos < 0 || pos + blen > src.len() {
        literal(src, lit, src.len() as int)
    } else {
        match find_block(sums, src.subrange(pos, pos + blen), 0) {
            Some(k) => literal(src, lit, pos) + seq![
                TokenView::Copy { offset: sums[k].offset, len: blen as u32 },
            ] + diff_from(src, sums, blen, pos + blen, pos + blen),
            None => diff_from(src, sums, blen, pos + 1, lit),
        }
    }
}

/// The tokens that turn a basis with these block sums into `src`.
pub open spec fn diff_tokens(src: Seq<u8>, sums: Seq<BlockSum>, blen: int) -> Seq<TokenView> {
    if sums.len() == 0 {
        literal(src, 0, src.len() as int)
    } else {
        diff_from(src, sums, blen, 0, 0)
    }
}

/// The sums of the blocks of a basis.
pub open spec fn block_sums(basis: Seq<u8>, blen: int) -> Seq<BlockSum> {
    choose|sums: Seq<BlockSum>| sums_of(sums, basis, blen)
}

/// The tokens that turn `basis`, in blocks of `blen` bytes, into `src`.
pub open spec fn delta_tokens(src: Seq<u8>, basis: Seq<u8>, blen: int) -> Seq<TokenView> {
    diff_tokens(src, block_sums(basis, blen), blen)
}

/// A basis has only one list of block sums.
pub proof fn lemma_sums_unique(sums: Seq<BlockSum>, basis: Seq<u8>, blen: int)
    requires
        sums_of(sums, basis, blen),
    ensures
        block_sums(basis, blen) == sums,
{
    let other = block_sums(basis, blen);
    assert(sums_of(other, basis, blen));
    assert forall|i: int| 0 <= i < sums.len() implies sums[i] == other[i] by {
        let chunk = chunk_at(basis, blen, i);
        assert(sums[i].describes(chunk, i * blen));
        assert(other[i].describes(chunk, i * blen));
        assert(sums[i].strong =~= other[i].strong);
    }
    assert(sums =~= other);
}

/// The bytes that the tokens carry themselves.
pub open spec fn literal_total(tokens: Seq<TokenView>) -> nat
    decreases tokens.len(),
{
    if tokens.len() == 0 {
        0
    } else {
        literal_total(tokens.drop_last()) + match tokens.last() {
            TokenView::Copy { .. } => 0,
            TokenView::Data(bytes) => bytes.len(),
        }
    }
}

/// The bytes that the tokens copy from the basis.
pub open spec fn copy_total(tokens: Seq<TokenView>) -> nat
    decreases tokens.len(),
{
    if tokens.len() == 0 {
        0
    } else {
        copy_total(tokens.drop_last()) + match tokens.last() {
            TokenView::Copy { len, .. } => len as nat,
            TokenView::Data(_) => 0,
        }
    }
}

/// How many of the tokens are copies.
pub open spec fn copy_count(tokens: Seq<TokenView>) -> nat
    decreases tokens.len(),
{
    if tokens.len() == 0 {
        0
    } else {
        copy_count(tokens.drop_last()) + match tokens.last() {
            TokenView::Copy { .. } => 1nat,
            TokenView::Data(_) => 0,
        }
    }
}

/// The hash builder of `rustc_hash`.
#[verifier::external_type_specification]
#[verifier::external_body]
pub struct ExFxBuildHasher(FxBuildHasher);

/// Calls `FxHashMap::default`. Claimed: the map is empty.
#[verifier::external_body]
fn table_new() -> (table: FxHashMap<u32, Vec<usize>>)
    ensures
        table@.dom() == Set::<u32>::empty(),
{
    FxHashMap::default()
}

/// Calls `remove` of a `FxHashMap`. Claimed: it takes out what stands under
/// `key` and hands it out; the other keys keep their values.
#[verifier::external_body]
fn table_remove(table: &mut FxHashMap<u32, Vec<usize>>, key: u32) -> (taken: Option<Vec<usize>>)
    ensures
        final(table)@ == old(table)@.remove(key),
        match taken {
            Some(v) => old(table)@.dom().contains(key) && v == old(table)@[key],
            None => !old(table)@.dom().contains(key),
        },
{
    table.remove(&key)
}

/// Calls `insert` of a `FxHashMap`. Claimed: the value then stands under `key`;
/// the other keys keep their values.
#[verifier::external_body]
fn table_insert(table: &mut FxHashMap<u32, Vec<usize>>, key: u32, value: Vec<usize>)
    ensures
        final(table)@ == old(table)@.insert(key, value),
{
    table.insert(key, value);
}

/// Calls `get` of a `FxHashMap`. Claimed: it finds the value under `key`, and
/// nothing where the map has no such key.
#[verifier::external_body]
fn table_get(table: &FxHashMap<u32, Vec<usize>>, key: u32) -> (found: Option<&Vec<usize>>)
    ensures
        match found {
            Some(v) => table@.dom().contains(key) && *v == table@[key],
            None => !table@.dom().contains(key),
        },
{
    table.get(&key)
}

/// The numbers below `n` of the blocks with the weak digest `d`, in order.
spec fn numbers_of(sums: Seq<BlockSum>, d: u32, n: int) -> Seq<usize>
    decreases n,
{
    if n <= 0 {
        Seq::empty()
    } else if sums[n - 1].rolling == d {
        numbers_of(sums, d, n - 1).push((n - 1) as usize)
    } else {
        numbers_of(sums, d, n - 1)
    }
}

/// The table holds, under each weak digest, the numbers below `n` of the
/// blocks that have it.
spec fn indexes(table: Map<u32, Vec<usize>>, sums: Seq<BlockSum>, n: int) -> bool {
    forall|d: u32|
        #![trigger table.dom().contains(d)]
        #![trigger table[d]]
        #![trigger numbers_of(sums, d, n)]
        if table.dom().contains(d) {
            table[d]@ == numbers_of(sums, d, n)
        } else {
            numbers_of(sums, d, n).len() == 0
        }
}

/// Lists the block numbers by weak digest.
fn index_sums(sums: &[BlockSum]) -> (table: FxHashMap<u32, Vec<usize>>)
    ensures
        indexes(table@, sums@, sums@.len() as int),
{
    let mut table = table_new();
    let mut i: usize = 0;
    while i < sums.len()
        invariant
            i <= sums@.len(),
            indexes(table@, sums@, i as int),
        decreases sums@.len() - i,
    {
        let ghost before = table@;
        let key: u32 = sums[i].rolling;
        let mut list: Vec<usize> = match table_remove(&mut table, key) {
            Some(list) => list,
            None => Vec::new(),
        };
        list.push(i);
        table_insert(&mut table, key, list);
        proof {
            assert forall|d: u32| #![trigger numbers_of(sums@, d, i + 1)] true implies if table@.dom()
                .contains(d) {
                table@[d]@ == numbers_of(sums@, d, i + 1)
            } else {
                numbers_of(sums@, d, i + 1).len() == 0
            } by {
                assert(before.dom().contains(d) || !before.dom().contains(d));
                assert(numbers_of(sums@, d, i as int).len() >= 0);
                if d == key && !before.dom().contains(d) {
                    assert(numbers_of(sums@, d, i as int) =~= Seq::empty());
                }
            }
        }
        i = i + 1;
    }
    table
}

/// What `find_block` finds is the first block that fits.
proof fn lemma_find_block(sums: Seq<BlockSum>, window: Seq<u8>, k: int)
    requires
        0 <= k <= sums.len(),
    ensures
        match find_block(sums, window, k) {
            Some(i) => k <= i < sums.len() && sums_match(sums[i], window) && forall|j: int|
                k <= j < i ==> !sums_match(#[trigger] sums[j], window),
            None => forall|j: int| k <= j < sums.len() ==> !sums_match(#[trigger] sums[j], window),
        },
    decreases sums.len() - k,
{
    if k < sums.len() {
        lemma_find_block(sums, window, k + 1);
    }
}

/// `numbers_of` lists exactly the blocks with the digest, each once, in order.
proof fn lemma_numbers_of(sums: Seq<BlockSum>, d: u32, n: int)
    requires
        0 <= n <= sums.len() <= usize::MAX,
    ensures
        forall|j: int|
            0 <= j < numbers_of(sums, d, n).len() ==> 0 <= #[trigger] numbers_of(sums, d, n)[j] < n
                && sums[numbers_of(sums, d, n)[j] as int].rolling == d,
        forall|i: int, j: int|
            0 <= i < j < numbers_of(sums, d, n).len() ==> numbers_of(sums, d, n)[i] < numbers_of(
                sums,
                d,
                n,
            )[j],
        forall|i: int|
            0 <= i < n && (#[trigger] sums[i]).rolling == d ==> numbers_of(sums, d, n).contains(
                i as usize,
            ),
    decreases n,
{
    if n > 0 {
        lemma_numbers_of(sums, d, n - 1);
        let shorter = numbers_of(sums, d, n - 1);
        let list = numbers_of(sums, d, n);
        assert forall|i: int| 0 <= i < n && (#[trigger] sums[i]).rolling == d implies list.contains(
            i as usize,
        ) by {
            if i < n - 1 {
                assert(shorter.contains(i as usize));
                let j = choose|j: int| 0 <= j < shorter.len() && shorter[j] == i as usize;
                assert(list[j] == i as usize);
            } else {
                assert(list[list.len() - 1] == i as usize);
            }
        }
    }
}

/// The first block that has the sums of `window`, whose weak digest is `d`.
fn lookup(
    table: &FxHashMap<u32, Vec<usize>>,
    sums: &[BlockSum],
    window: &[u8],
    d: u32,
) -> (found: Option<usize>)
    requires
        indexes(table@, sums@, sums@.len() as int),
        d == weak_digest(window@),
    ensures
        match found {
            Some(k) => find_block(sums@, window@, 0) == Some(k as int) && k < sums@.len(),
            None => find_block(sums@, window@, 0) is None,
        },
{
    let n: usize = sums.len();
    let ghost numbers = numbers_of(sums@, d, n as int);
    proof {
        lemma_find_block(sums@, window@, 0);
        lemma_numbers_of(sums@, d, sums@.len() as int);
    }
    match table_get(table, d) {
        None => {
            assert(numbers.len() == 0);
            proof {
                if let Some(i) = find_block(sums@, window@, 0) {
                    assert(sums@[i].rolling == d);
                    assert(numbers.contains(i as usize));
                }
            }
            None
        },
        Some(cands) => {
            assert(cands@ == numbers);
            let strong: [u8; 16] = strong_sum(window);
            let mut j: usize = 0;
            while j < cands.len()
                invariant
                    j <= cands@.len(),
                    cands@ == numbers,
                    strong@ == strong_digest(window@),
                    forall|i: int|
                        0 <= i < numbers.len() ==> 0 <= #[trigger] numbers[i] < sums@.len()
                            && sums@[numbers[i] as int].rolling == d,
                    forall|i: int|
                        0 <= i < j ==> !sums_match(
                            sums@[#[trigger] numbers[i] as int],
                            window@,
                        ),
                    d == weak_digest(window@),
                    forall|i: int, k: int| 0 <= i < k < numbers.len() ==> numbers[i] < numbers[k],
                    forall|i: int|
                        0 <= i < sums@.len() && (#[trigger] sums@[i]).rolling == d ==> numbers.contains(
                            i as usize,
                        ),
                    match find_block(sums@, window@, 0) {
                        Some(i) => 0 <= i < sums@.len() && sums_match(sums@[i], window@)
                            && forall|j: int|
                            0 <= j < i ==> !sums_match(#[trigger] sums@[j], window@),
                        None => forall|j: int|
                            0 <= j < sums@.len() ==> !sums_match(#[trigger] sums@[j], window@),
                    },
                decreases cands@.len() - j,
            {
                let k: usize = cands[j];
                assert(k == numbers[j as int]);
                if same_bytes(sums[k].strong.as_slice(), strong.as_slice()) {
                    proof {
                        assert(sums_match(sums@[k as int], window@));
                        let first = find_block(sums@, window@, 0)->0;
                        if first < k {
                            assert(sums@[first].rolling == d);
                            let i = choose|i: int|
                                0 <= i < numbers.len() && numbers[i] == first as usize;
                            assert(numbers[i] < numbers[j as int]);
                            assert(i < j);
                        }
                    }
                    return Some(k);
                }
                j = j + 1;
            }
            proof {
                if let Some(i) = find_block(sums@, window@, 0) {
                    assert(sums@[i].rolling == d);
                    assert(numbers.contains(i as usize));
                }
            }
            None
        },
    }
}

/// A token list with one more token.
proof fn lemma_totals_push(tokens: Seq<TokenView>, token: TokenView)
    ensures
        literal_total(tokens.push(token)) == literal_total(tokens) + match token {
            TokenView::Copy { .. } => 0,
            TokenView::Data(bytes) => bytes.len(),
        },
        copy_total(tokens.push(token)) == copy_total(tokens) + match token {
            TokenView::Copy { len, .. } => len as nat,
            TokenView::Data(_) => 0,
        },
        copy_count(tokens.push(token)) == copy_count(tokens) + match token {
            TokenView::Copy { .. } => 1nat,
            TokenView::Data(_) => 0,
        },
{
    assert(tokens.push(token).drop_last() =~= tokens);
}

/// Walks `src` against the block sums and hands copy and data tokens to
/// `sink`. Gives the number of literal and of matched bytes.
pub fn diff_stream<S: TokenSink>(
    src: &[u8],
    sums: &[BlockSum],
    blen: usize,
    sink: &mut S,
) -> (r: std::io::Result<(usize, usize)>)
    requires
        sums@.len() > 0 && src@.len() > 0 ==> 0 < blen,
        sums@.len() > 0 && blen <= src@.len() ==> blen <= u32::MAX,
    ensures
        r matches Ok((lit, mat)) ==> {
            let tokens = diff_tokens(src@, sums@, blen as int);
            &&& final(sink).follows(old(sink), tokens)
            &&& lit == literal_total(tokens)
            &&& mat == copy_count(tokens) * blen
            &&& lit + mat == src@.len()
        },
        old(sink).reliable() ==> r is Ok,
        final(sink).reliable() == old(sink).reliable(),
{
    let ghost start = *sink;
    let ghost mut done: Seq<TokenView> = Seq::empty();
    proof {
        sink.lemma_follows_itself();
    }
    if src.len() == 0 {
        assert(diff_tokens(src@, sums@, blen as int) =~= done);
        return Ok((0, 0));
    }
    if sums.len() == 0 || src.len() < blen {
        assert(src@.subrange(0, src@.len() as int) =~= src@);
        proof {
            done = done.push(TokenView::Data(src@));
            lemma_totals_push(Seq::empty(), TokenView::Data(src@));
            assert(diff_tokens(src@, sums@, blen as int) =~= done);
            assert(0 * blen == 0);
        }
        match sink.on_data(src) {
            Ok(()) => {},
            Err(e) => {
                return Err(e);
            },
        }
        return Ok((src.len(), 0));
    }
    let ghost all = diff_from(src@, sums@, blen as int, 0, 0);
    let table = index_sums(sums);
    let mut lit: usize = 0;
    let mut mat: usize = 0;
    let mut pos: usize = 0;
    let mut lit_start: usize = 0;
    let mut rs = RollingSum::init(slice_subrange(src, 0, blen));
    assert(0 * blen == 0);
    assert(done + all =~= all);
    while src.len() - pos >= blen
        invariant
            0 < blen <= src@.len(),
            blen <= u32::MAX,
            indexes(table@, sums@, sums@.len() as int),
            lit_start <= pos <= src@.len(),
            pos + blen <= src@.len() ==> rs.covers(src@.subrange(pos as int, pos + blen)),
            start == *old(sink),
            sink.follows(&start, done),
            sink.reliable() == start.reliable(),
            done + diff_from(src@, sums@, blen as int, pos as int, lit_start as int) == all,
            lit == literal_total(done),
            mat == copy_count(done) * blen,
            lit + mat == lit_start,
        decreases src@.len() - pos,
    {
        let window = slice_subrange(src, pos, pos + blen);
        let d: u32 = rs.digest();
        match lookup(&table, sums, window, d) {
            Some(k) => {
                let ghost behind = diff_from(src@, sums@, blen as int, pos + blen, pos + blen);
                let copy_len: u32 = #[verifier::truncate]
                (blen as u32);
                let ghost copy = TokenView::Copy { offset: sums@[k as int].offset, len: copy_len };
                if lit_start < pos {
                    let chunk = slice_subrange(src, lit_start, pos);
                    match sink.on_data(chunk) {
                        Ok(()) => {},
                        Err(e) => {
                            return Err(e);
                        },
                    }
                    proof {
                        lemma_totals_push(done, TokenView::Data(chunk@));
                        assert(done + (literal(src@, lit_start as int, pos as int) + seq![copy]
                            + behind) =~= done.push(TokenView::Data(chunk@)) + (seq![copy] + behind));
                        done = done.push(TokenView::Data(chunk@));
                    }
                    lit = lit + chunk.len();
                } else {
                    assert(done + (literal(src@, lit_start as int, pos as int) + seq![copy]
                        + behind) =~= done + (seq![copy] + behind));
                }
                match sink.on_copy(sums[k].offset, copy_len) {
                    Ok(()) => {},
                    Err(e) => {
                        return Err(e);
                    },
                }
                proof {
                    lemma_totals_push(done, copy);
                    assert(done + (seq![copy] + behind) =~= done.push(copy) + behind);
                    assert((copy_count(done) + 1) * blen == copy_count(done) * blen + blen)
                        by (nonlinear_arith);
                    done = done.push(copy);
                }
                mat = mat + blen;
                pos = pos + blen;
                lit_start = pos;
                if src.len() - pos >= blen {
                    rs = RollingSum::init(slice_subrange(src, pos, pos + blen));
                }
            },
            None => {
                let out: u8 = src[pos];
                let ghost old_window = src@.subrange(pos as int, pos + blen);
                pos = pos + 1;
                if src.len() - pos >= blen {
                    let next: u8 = src[pos + (blen - 1)];
                    rs.roll(out, next);
                    assert(src@.subrange(pos as int, pos + blen) =~= old_window.drop_first().push(
                        next,
                    ));
                }
            },
        }
    }
    if lit_start < src.len() {
        let chunk = slice_subrange(src, lit_start, src.len());
        match sink.on_data(chunk) {
            Ok(()) => {},
            Err(e) => {
                return Err(e);
            },
        }
        proof {
            lemma_totals_push(done, TokenView::Data(chunk@));
            assert(done + literal(src@, lit_start as int, src@.len() as int) =~= done.push(
                TokenView::Data(chunk@),
            ));
        }
        lit = lit + chunk.len();
    } else {
        assert(done + literal(src@, lit_start as int, src@.len() as int) =~= done);
    }
    Ok((lit, mat))
}

// ---------------------------------------------------------------------------
// Token lists
// ---------------------------------------------------------------------------

/// A token that owns its bytes.
#[derive(Debug, PartialEq, Eq)]
pub enum Token {
    Copy { offset: u64, len: u32 },
    Data(Vec<u8>),
}

impl View for Token {
    type V = TokenView;

    open spec fn view(&self) -> TokenView {
        match *self {
            Token::Copy { offset, len } => TokenView::Copy { offset, len },
            Token::Data(bytes) => TokenView::Data(bytes@),
        }
    }
}

/// The tokens of a list.
pub open spec fn token_views(tokens: Seq<Token>) -> Seq<TokenView> {
    Seq::new(tokens.len(), |i: int| tokens[i]@)
}

/// Collects tokens.
struct TokenList(Vec<Token>);

impl TokenSink for TokenList {
    closed spec fn follows(&self, start: &Self, tokens: Seq<TokenView>) -> bool {
        token_views(self.0@) == token_views(start.0@) + tokens
    }

    closed spec fn reliable(&self) -> bool {
        true
    }

    proof fn lemma_follows_itself(&self) {
        assert(token_views(self.0@) =~= token_views(self.0@) + Seq::empty());
    }

    fn on_copy(&mut self, basis_offset: u64, len: u32) -> (r: std::io::Result<()>) {
        let token = Token::Copy { offset: basis_offset, len };
        let ghost added = token@;
        let ghost before = token_views(self.0@);
        self.0.push(token);
        proof {
            assert(token_views(self.0@) =~= before.push(added));
            lemma_push_after(before, added);
        }
        Ok(())
    }

    fn on_data(&mut self, bytes: &[u8]) -> (r: std::io::Result<()>) {
        let token = Token::Data(slice_to_vec(bytes));
        let ghost added = token@;
        let ghost before = token_views(self.0@);
        self.0.push(token);
        proof {
            assert(token_views(self.0@) =~= before.push(added));
            lemma_push_after(before, added);
        }
        Ok(())
    }
}

/// Pushing onto a concatenation pushes onto its second part.
proof fn lemma_push_after(whole: Seq<TokenView>, token: TokenView)
    ensures
        forall|a: Seq<TokenView>, b: Seq<TokenView>|
            #![trigger a + b]
            whole == a + b ==> whole.push(token) == a + b.push(token),
{
    assert forall|a: Seq<TokenView>, b: Seq<TokenView>|
        #![trigger a + b]
        whole == a + b implies whole.push(token) == a + b.push(token) by {
        assert(whole.push(token) =~= a + b.push(token));
    }
}

/// The delta as a list of tokens.
pub fn diff(src: &[u8], sums: &[BlockSum], blen: usize) -> (tokens: Vec<Token>)
    requires
        sums@.len() > 0 && src@.len() > 0 ==> 0 < blen,
        sums@.len() > 0 && blen <= src@.len() ==> blen <= u32::MAX,
    ensures
        token_views(tokens@) == diff_tokens(src@, sums@, blen as int),
{
    let mut list = TokenList(Vec::new());
    let r = diff_stream(src, sums, blen, &mut list);
    proof {
        assert(r is Ok);
        assert(token_views(list.0@) =~= diff_tokens(src@, sums@, blen as int));
    }
    list.0
}

/// The file that the tokens rebuild from the basis.
pub fn patch(basis: &[u8], tokens: &[Token]) -> (out: Vec<u8>)
    ensures
        out@ == render(basis@, token_views(tokens@)),
{
    let mut out: Vec<u8> = Vec::new();
    let mut i: usize = 0;
    assert(token_views(tokens@).take(0) =~= Seq::empty());
    while i < tokens.len()
        invariant
            i <= tokens@.len(),
            out@ == render(basis@, token_views(tokens@).take(i as int)),
        decreases tokens@.len() - i,
    {
        proof {
            assert(token_views(tokens@).take(i + 1).drop_last() =~= token_views(tokens@).take(
                i as int,
            ));
        }
        match &tokens[i] {
            Token::Copy { offset, len } => {
                let (s, e) = copy_range(basis.len(), *offset, *len);
                out.extend_from_slice(slice_subrange(basis, s, e));
            },
            Token::Data(bytes) => {
                out.extend_from_slice(bytes.as_slice());
            },
        }
        assert(out@ =~= render(basis@, token_views(tokens@).take(i + 1)));
        i = i + 1;
    }
    assert(token_views(tokens@).take(i as int) =~= token_views(tokens@));
    out
}

/// The number of literal and of matched bytes.
pub fn token_stats(tokens: &[Token]) -> (r: (usize, usize))
    requires
        literal_total(token_views(tokens@)) <= usize::MAX,
        copy_total(token_views(tokens@)) <= usize::MAX,
    ensures
        r.0 == literal_total(token_views(tokens@)),
        r.1 == copy_total(token_views(tokens@)),
{
    let ghost views = token_views(tokens@);
    let mut lit: usize = 0;
    let mut mat: usize = 0;
    let mut i: usize = 0;
    assert(views.take(0) =~= Seq::empty());
    while i < tokens.len()
        invariant
            i <= tokens@.len(),
            views == token_views(tokens@),
            literal_total(views) <= usize::MAX,
            copy_total(views) <= usize::MAX,
            lit == literal_total(views.take(i as int)),
            mat == copy_total(views.take(i as int)),
        decreases tokens@.len() - i,
    {
        proof {
            assert(views.take(i + 1) =~= views.take(i as int).push(views[i as int]));
            lemma_totals_push(views.take(i as int), views[i as int]);
            lemma_totals_prefix(views, i + 1);
        }
        match &tokens[i] {
            Token::Copy { offset: _, len } => {
                mat = mat + *len as usize;
            },
            Token::Data(bytes) => {
                lit = lit + bytes.len();
            },
        }
        i = i + 1;
    }
    assert(views.take(i as int) =~= views);
    (lit, mat)
}

/// The totals of the first tokens are no larger than those of all.
proof fn lemma_totals_prefix(tokens: Seq<TokenView>, n: int)
    requires
        0 <= n <= tokens.len(),
    ensures
        literal_total(tokens.take(n)) <= literal_total(tokens),
        copy_total(tokens.take(n)) <= copy_total(tokens),
    decreases tokens.len() - n,
{
    if n < tokens.len() {
        lemma_totals_prefix(tokens, n + 1);
        assert(tokens.take(n + 1) =~= tokens.take(n).push(tokens[n]));
        lemma_totals_push(tokens.take(n), tokens[n]);
    } else {
        assert(tokens.take(n) =~= tokens);
    }
}

// ---------------------------------------------------------------------------
// Laws
// ---------------------------------------------------------------------------

/// Every block that the delta copies from `pos` on holds, in full, the source
/// bytes for which it was taken: no strong sum that was compared there belongs
/// to two different blocks.
pub open spec fn faithful_from(
    src: Seq<u8>,
    basis: Seq<u8>,
    sums: Seq<BlockSum>,
    blen: int,
    pos: int,
) -> bool
    decreases src.len() - pos,
{
    if blen <= 0 || pos < 0 || pos + blen > src.len() {
        true
    } else {
        let window = src.subrange(pos, pos + blen);
        match find_block(sums, window, 0) {
            Some(k) => {
                &&& token_bytes(
                    basis,
                    TokenView::Copy { offset: sums[k].offset, len: blen as u32 },
                ) == window
                &&& faithful_from(src, basis, sums, blen, pos + blen)
            },
            None => faithful_from(src, basis, sums, blen, pos + 1),
        }
    }
}

/// No window of `src` shares its strong sum with a block of `basis` that holds
/// other bytes.
pub open spec fn collision_free(src: Seq<u8>, basis: Seq<u8>, blen: int) -> bool {
    forall|pos: int, i: int|
        #![trigger src.subrange(pos, pos + blen), chunk_at(basis, blen, i)]
        0 <= pos && pos + blen <= src.len() && 0 <= i < chunk_count(basis, blen) && strong_digest(
            src.subrange(pos, pos + blen),
        ) == strong_digest(chunk_at(basis, blen, i)) ==> src.subrange(pos, pos + blen) == chunk_at(
            basis,
            blen,
            i,
        )
}

/// Tokens rebuild one after the other.
pub proof fn lemma_render_concat(basis: Seq<u8>, a: Seq<TokenView>, b: Seq<TokenView>)
    ensures
        render(basis, a + b) == render(basis, a) + render(basis, b),
    decreases b.len(),
{
    if b.len() == 0 {
        assert(a + b =~= a);
        assert(render(basis, a) + render(basis, b) =~= render(basis, a));
    } else {
        lemma_render_concat(basis, a, b.drop_last());
        assert((a + b).drop_last() =~= a + b.drop_last());
        assert(render(basis, a + b) =~= render(basis, a) + render(basis, b));
    }
}

/// What a literal stands for.
proof fn lemma_render_literal(basis: Seq<u8>, src: Seq<u8>, lo: int, hi: int)
    requires
        0 <= lo <= hi <= src.len(),
    ensures
        render(basis, literal(src, lo, hi)) == src.subrange(lo, hi),
{
    reveal_with_fuel(render, 2);
    if lo < hi {
        assert(literal(src, lo, hi).drop_last() =~= Seq::empty());
    }
    assert(render(basis, literal(src, lo, hi)) =~= src.subrange(lo, hi));
}

/// The tokens from `lit` on rebuild the source from `lit` on exactly where
/// every copied block is the right one.
proof fn lemma_diff_from(
    src: Seq<u8>,
    basis: Seq<u8>,
    sums: Seq<BlockSum>,
    blen: int,
    pos: int,
    lit: int,
)
    requires
        0 < blen,
        0 <= lit <= pos <= src.len(),
    ensures
        render(basis, diff_from(src, sums, blen, pos, lit)).len() <= src.len() - lit,
        (render(basis, diff_from(src, sums, blen, pos, lit)) == src.subrange(
            lit,
            src.len() as int,
        )) == faithful_from(src, basis, sums, blen, pos),
    decreases src.len() - pos,
{
    let len = src.len() as int;
    if pos + blen > len {
        lemma_render_literal(basis, src, lit, len);
    } else {
        match find_block(sums, src.subrange(pos, pos + blen), 0) {
            Some(k) => {
                let copy = TokenView::Copy { offset: sums[k].offset, len: blen as u32 };
                let before = literal(src, lit, pos);
                let behind = diff_from(src, sums, blen, pos + blen, pos + blen);
                lemma_diff_from(src, basis, sums, blen, pos + blen, pos + blen);
                lemma_render_concat(basis, before + seq![copy], behind);
                lemma_render_concat(basis, before, seq![copy]);
                lemma_render_literal(basis, src, lit, pos);
                reveal_with_fuel(render, 2);
                assert(seq![copy].drop_last() =~= Seq::empty());
                assert(render(basis, seq![copy]) =~= token_bytes(basis, copy));
                let x = src.subrange(lit, pos);
                let c = token_bytes(basis, copy);
                let r = render(basis, behind);
                let whole = render(basis, diff_from(src, sums, blen, pos, lit));
                assert(whole == x + c + r);
                lemma_truncated(blen);
                assert(c.len() <= blen);
                assert(whole.len() == x.len() + c.len() + r.len());
                let window = src.subrange(pos, pos + blen);
                let tail = src.subrange(pos + blen, len);
                if whole == src.subrange(lit, len) {
                    assert(c.len() == blen && r.len() == len - pos - blen);
                    assert(c =~= whole.subrange(pos - lit, pos - lit + blen));
                    assert(window =~= whole.subrange(pos - lit, pos - lit + blen));
                    assert(r =~= whole.subrange(pos - lit + blen, len - lit));
                    assert(tail =~= whole.subrange(pos - lit + blen, len - lit));
                }
                if c == window && r == tail {
                    assert(x + c + r =~= src.subrange(lit, len));
                }
            },
            None => {
                lemma_diff_from(src, basis, sums, blen, pos + 1, lit);
            },
        }
    }
}

/// A number cut down to 32 bits does not grow.
proof fn lemma_truncated(x: int)
    requires
        0 <= x,
    ensures
        x as u32 <= x,
{
    if x <= u32::MAX {
        assert(x as u32 == x);
    }
}

/// The delta rebuilds the source from the basis, exactly where every block it
/// copies holds the bytes for which it was taken.
pub proof fn law_delta_rebuilds_source(
    src: Seq<u8>,
    basis: Seq<u8>,
    sums: Seq<BlockSum>,
    blen: int,
)
    requires
        sums.len() > 0 ==> 0 < blen,
    ensures
        (render(basis, diff_tokens(src, sums, blen)) == src) <==> (sums.len() == 0 || faithful_from(
            src,
            basis,
            sums,
            blen,
            0,
        )),
{
    assert(src.subrange(0, src.len() as int) =~= src);
    lemma_render_literal(basis, src, 0, src.len() as int);
    if sums.len() > 0 {
        lemma_diff_from(src, basis, sums, blen, 0, 0);
    }
}

/// A block of the basis that is not cut short is what its copy token stands for.
proof fn lemma_copied_chunk(basis: Seq<u8>, blen: int, i: int)
    requires
        0 < blen <= u32::MAX,
        0 <= i,
        i * blen <= u64::MAX,
        chunk_at(basis, blen, i).len() == blen,
        i * blen <= basis.len(),
    ensures
        token_bytes(basis, TokenView::Copy { offset: (i * blen) as u64, len: blen as u32 })
            == chunk_at(basis, blen, i),
{
    assert((i + 1) * blen == i * blen + blen) by (nonlinear_arith);
}

/// Diff, then patch, gives back the source, for the sums of the very basis and
/// where no strong sum collides.
pub proof fn law_round_trip(src: Seq<u8>, basis: Seq<u8>, sums: Seq<BlockSum>, blen: int)
    requires
        0 < blen <= u32::MAX,
        sums_of(sums, basis, blen),
        collision_free(src, basis, blen),
    ensures
        render(basis, diff_tokens(src, sums, blen)) == src,
{
    law_delta_rebuilds_source(src, basis, sums, blen);
    if sums.len() > 0 {
        lemma_collision_free_is_faithful(src, basis, sums, blen, 0);
    }
}

proof fn lemma_collision_free_is_faithful(
    src: Seq<u8>,
    basis: Seq<u8>,
    sums: Seq<BlockSum>,
    blen: int,
    pos: int,
)
    requires
        0 < blen <= u32::MAX,
        sums_of(sums, basis, blen),
        sums.len() > 0,
        collision_free(src, basis, blen),
        0 <= pos,
    ensures
        faithful_from(src, basis, sums, blen, pos),
    decreases src.len() - pos,
{
    if pos + blen <= src.len() {
        let window = src.subrange(pos, pos + blen);
        lemma_find_block(sums, window, 0);
        match find_block(sums, window, 0) {
            Some(k) => {
                let chunk = chunk_at(basis, blen, k);
                assert(sums[k].describes(chunk, k * blen));
                assert(window == chunk);
                lemma_chunk_start(basis.len() as int, blen, k);
                lemma_copied_chunk(basis, blen, k);
                lemma_collision_free_is_faithful(src, basis, sums, blen, pos + blen);
            },
            None => {
                lemma_collision_free_is_faithful(src, basis, sums, blen, pos + 1);
            },
        }
    }
}

/// Every counted block starts inside the file.
proof fn lemma_chunk_start(len: int, blen: int, i: int)
    requires
        0 < blen,
        0 <= i < (len + blen - 1) / blen,
    ensures
        0 <= i * blen < len,
{
    vstd::arithmetic::div_mod::lemma_fundamental_div_mod(len + blen - 1, blen);
    let q = (len + blen - 1) / blen;
    assert(i * blen + blen <= blen * q) by (nonlinear_arith)
        requires
            i + 1 <= q,
            0 < blen,
    ;
    assert(0 <= i * blen) by (nonlinear_arith)
        requires
            0 <= i,
            0 < blen,
    ;
}

/// A file of whole blocks against itself is all copies: no byte is sent.
pub proof fn law_identical_is_all_copy(data: Seq<u8>, sums: Seq<BlockSum>, blen: int)
    requires
        0 < blen,
        data.len() % (blen as nat) == 0,
        sums_of(sums, data, blen),
    ensures
        literal_total(diff_tokens(data, sums, blen)) == 0,
        copy_count(diff_tokens(data, sums, blen)) * blen == data.len(),
{
    if sums.len() == 0 {
        if data.len() > 0 {
            lemma_count_positive(data.len() as int, blen);
        }
        assert(diff_tokens(data, sums, blen) =~= Seq::empty());
    } else {
        assert(0 * blen == 0);
        vstd::arithmetic::div_mod::lemma_fundamental_div_mod(data.len() as int, blen);
        let n = data.len() as int / blen;
        assert(blen * n == n * blen) by (nonlinear_arith);
        lemma_identical_from(data, sums, blen, n, 0);
    }
}

proof fn lemma_count_positive(len: int, blen: int)
    requires
        0 < blen,
        0 < len,
    ensures
        (len + blen - 1) / blen > 0,
{
    vstd::arithmetic::div_mod::lemma_div_is_ordered(blen, len + blen - 1, blen);
    vstd::arithmetic::div_mod::lemma_div_by_self(blen);
}

proof fn lemma_identical_from(data: Seq<u8>, sums: Seq<BlockSum>, blen: int, n: int, i: int)
    requires
        0 < blen,
        0 <= i <= n,
        data.len() == n * blen,
        sums_of(sums, data, blen),
        sums.len() > 0,
    ensures
        literal_total(diff_from(data, sums, blen, i * blen, i * blen)) == 0,
        copy_count(diff_from(data, sums, blen, i * blen, i * blen)) == n - i,
    decreases n - i,
{
    let pos = i * blen;
    assert((i + 1) * blen == i * blen + blen) by (nonlinear_arith);
    assert(0 <= i * blen) by (nonlinear_arith)
        requires
            0 <= i,
            0 < blen,
    ;
    if i == n {
        assert(diff_from(data, sums, blen, pos, pos) =~= Seq::empty());
    } else {
        assert((i + 1) * blen <= n * blen) by (nonlinear_arith)
            requires
                i + 1 <= n,
                0 < blen,
        ;
        assert(data.len() + blen - 1 == n * blen + (blen - 1));
        vstd::arithmetic::div_mod::lemma_fundamental_div_mod_converse(
            data.len() + blen - 1,
            blen,
            n,
            blen - 1,
        );
        let window = data.subrange(pos, pos + blen);
        assert(chunk_at(data, blen, i) =~= window);
        assert(sums[i].describes(chunk_at(data, blen, i), i * blen));
        assert(sums_match(sums[i], window));
        lemma_find_block(sums, window, 0);
        let k = find_block(sums, window, 0)->0;
        let copy = TokenView::Copy { offset: sums[k].offset, len: blen as u32 };
        lemma_identical_from(data, sums, blen, n, i + 1);
        let behind = diff_from(data, sums, blen, pos + blen, pos + blen);
        lemma_totals_front(copy, behind);
        assert(diff_from(data, sums, blen, pos, pos) =~= seq![copy] + behind);
    }
}

/// The totals with a copy in front.
proof fn lemma_totals_front(copy: TokenView, rest: Seq<TokenView>)
    requires
        copy is Copy,
    ensures
        literal_total(seq![copy] + rest) == literal_total(rest),
        copy_count(seq![copy] + rest) == copy_count(rest) + 1,
    decreases rest.len(),
{
    if rest.len() == 0 {
        lemma_totals_push(Seq::empty(), copy);
        assert(seq![copy] + rest =~= Seq::empty().push(copy));
    } else {
        lemma_totals_front(copy, rest.drop_last());
        assert((seq![copy] + rest).drop_last() =~= seq![copy] + rest.drop_last());
    }
}

/// No block of the basis is sent: whatever the source and the basis are, no data
/// token has, at any offset, the bytes of a full block of the basis in it.
pub proof fn law_no_block_is_sent(
    src: Seq<u8>,
    basis: Seq<u8>,
    sums: Seq<BlockSum>,
    blen: int,
    t: int,
    data: Seq<u8>,
    at: int,
    i: int,
)
    requires
        0 < blen,
        sums_of(sums, basis, blen),
        0 <= t < diff_tokens(src, sums, blen).len(),
        diff_tokens(src, sums, blen)[t] == TokenView::Data(data),
        0 <= at,
        at + blen <= data.len(),
        0 <= i,
        (i + 1) * blen <= basis.len(),
    ensures
        data.subrange(at, at + blen) != basis.subrange(i * blen, (i + 1) * blen),
{
    let block = basis.subrange(i * blen, (i + 1) * blen);
    lemma_full_block(basis, sums, blen, i);
    lemma_find_block(sums, block, 0);
    lemma_block_not_sent(src, sums, blen, 0, 0, block);
}

/// A full block is counted, and its sums are among those of the basis.
pub proof fn lemma_full_block(basis: Seq<u8>, sums: Seq<BlockSum>, blen: int, i: int)
    requires
        0 < blen,
        sums_of(sums, basis, blen),
        0 <= i,
        (i + 1) * blen <= basis.len(),
    ensures
        i < sums.len(),
        sums_match(sums[i], basis.subrange(i * blen, (i + 1) * blen)),
        basis.subrange(i * blen, (i + 1) * blen).len() == blen,
{
    assert((i + 1) * blen == i * blen + blen) by (nonlinear_arith);
    assert(0 <= i * blen) by (nonlinear_arith)
        requires
            0 <= i,
            0 < blen,
    ;
    vstd::arithmetic::div_mod::lemma_fundamental_div_mod(basis.len() + blen - 1, blen);
    let q = (basis.len() + blen - 1) / blen;
    assert(i < q) by (nonlinear_arith)
        requires
            0 < blen,
            (i + 1) * blen <= basis.len(),
            basis.len() + blen - 1 == blen * q + (basis.len() + blen - 1) % blen,
            (basis.len() + blen - 1) % blen < blen,
    ;
    assert(sums[i].describes(chunk_at(basis, blen, i), i * blen));
    assert(chunk_at(basis, blen, i) =~= basis.subrange(i * blen, (i + 1) * blen));
}

proof fn lemma_block_not_sent(
    src: Seq<u8>,
    sums: Seq<BlockSum>,
    blen: int,
    pos: int,
    lit: int,
    block: Seq<u8>,
)
    requires
        0 < blen,
        block.len() == blen,
        find_block(sums, block, 0) is Some,
        0 <= lit <= pos <= src.len(),
        forall|q: int|
            lit <= q < pos && q + blen <= src.len() ==> #[trigger] src.subrange(q, q + blen)
                != block,
    ensures
        forall|t: int, data: Seq<u8>, at: int|
            #![trigger diff_from(src, sums, blen, pos, lit)[t], data.subrange(at, at + blen)]
            0 <= t < diff_from(src, sums, blen, pos, lit).len() && diff_from(
                src,
                sums,
                blen,
                pos,
                lit,
            )[t] == TokenView::Data(data) && 0 <= at && at + blen <= data.len()
                ==> data.subrange(at, at + blen) != block,
    decreases src.len() - pos,
{
    let all = diff_from(src, sums, blen, pos, lit);
    let len = src.len() as int;
    if pos + blen > len {
        lemma_piece_without(src, blen, lit, len, block);
    } else {
        let window = src.subrange(pos, pos + blen);
        match find_block(sums, window, 0) {
            Some(k) => {
                let before = literal(src, lit, pos);
                let copy = TokenView::Copy { offset: sums[k].offset, len: blen as u32 };
                let behind = diff_from(src, sums, blen, pos + blen, pos + blen);
                lemma_piece_without(src, blen, lit, pos, block);
                lemma_block_not_sent(src, sums, blen, pos + blen, pos + blen, block);
                assert forall|t: int, data: Seq<u8>, at: int|
                    #![trigger all[t], data.subrange(at, at + blen)]
                    0 <= t < all.len() && all[t] == TokenView::Data(data) && 0 <= at && at + blen
                        <= data.len() implies data.subrange(at, at + blen) != block by {
                    if t < before.len() {
                        assert(all[t] == before[t]);
                    } else if t == before.len() {
                        assert(all[t] == copy);
                    } else {
                        assert(all[t] == behind[t - before.len() - 1]);
                    }
                }
            },
            None => {
                assert(window != block);
                lemma_block_not_sent(src, sums, blen, pos + 1, lit, block);
            },
        }
    }
}

/// A piece of the source in which no window is the block.
proof fn lemma_piece_without(src: Seq<u8>, blen: int, lo: int, hi: int, block: Seq<u8>)
    requires
        0 < blen,
        0 <= lo <= hi <= src.len(),
        forall|q: int|
            lo <= q && q + blen <= hi ==> #[trigger] src.subrange(q, q + blen) != block,
    ensures
        forall|t: int, data: Seq<u8>, at: int|
            #![trigger literal(src, lo, hi)[t], data.subrange(at, at + blen)]
            0 <= t < literal(src, lo, hi).len() && literal(src, lo, hi)[t] == TokenView::Data(data)
                && 0 <= at && at + blen <= data.len() ==> data.subrange(at, at + blen) != block,
{
    assert forall|t: int, data: Seq<u8>, at: int|
        #![trigger literal(src, lo, hi)[t], data.subrange(at, at + blen)]
        0 <= t < literal(src, lo, hi).len() && literal(src, lo, hi)[t] == TokenView::Data(data)
            && 0 <= at && at + blen <= data.len() implies data.subrange(at, at + blen)
        != block by {
        assert(data == src.subrange(lo, hi));
        assert(data.subrange(at, at + blen) =~= src.subrange(lo + at, lo + at + blen));
    }
}

/// What is copied is whole blocks of the basis: each copy has the length of a
/// block and starts where a block of the basis does, inside it.
pub proof fn law_copies_are_whole_blocks(
    src: Seq<u8>,
    basis: Seq<u8>,
    sums: Seq<BlockSum>,
    blen: int,
    t: int,
    offset: u64,
    len: u32,
)
    requires
        0 < blen <= u32::MAX,
        sums_of(sums, basis, blen),
        0 <= t < diff_tokens(src, sums, blen).len(),
        diff_tokens(src, sums, blen)[t] == (TokenView::Copy { offset, len }),
    ensures
        len == blen,
        offset as int % blen == 0,
        offset < basis.len(),
{
    lemma_copies(src, sums, blen, 0, 0);
    let k = choose|k: int| 0 <= k < sums.len() && (#[trigger] sums[k]).offset == offset;
    assert(sums[k].describes(chunk_at(basis, blen, k), k * blen));
    lemma_chunk_start(basis.len() as int, blen, k);
    vstd::arithmetic::div_mod::lemma_mod_multiples_basic(k, blen);
}

proof fn lemma_copies(src: Seq<u8>, sums: Seq<BlockSum>, blen: int, pos: int, lit: int)
    requires
        0 < blen <= u32::MAX,
    ensures
        forall|t: int|
            #![trigger diff_from(src, sums, blen, pos, lit)[t]]
            0 <= t < diff_from(src, sums, blen, pos, lit).len() ==> (diff_from(
                src,
                sums,
                blen,
                pos,
                lit,
            )[t] matches TokenView::Copy { offset, len } ==> len == blen && exists|k: int|
                0 <= k < sums.len() && (#[trigger] sums[k]).offset == offset),
    decreases src.len() - pos,
{
    if 0 <= pos && pos + blen <= src.len() {
        let window = src.subrange(pos, pos + blen);
        lemma_find_block(sums, window, 0);
        match find_block(sums, window, 0) {
            Some(k) => {
                let all = diff_from(src, sums, blen, pos, lit);
                let before = literal(src, lit, pos);
                let copy = TokenView::Copy { offset: sums[k].offset, len: blen as u32 };
                let behind = diff_from(src, sums, blen, pos + blen, pos + blen);
                lemma_copies(src, sums, blen, pos + blen, pos + blen);
                assert forall|t: int| #![trigger all[t]] 0 <= t < all.len() implies (
                all[t] matches TokenView::Copy { offset, len } ==> len == blen && exists|k: int|
                    0 <= k < sums.len() && (#[trigger] sums[k]).offset == offset) by {
                    if t < before.len() {
                        assert(all[t] == before[t]);
                    } else if t == before.len() {
                        assert(all[t] == copy);
                        assert(sums[k].offset == copy->offset);
                    } else {
                        assert(all[t] == behind[t - before.len() - 1]);
                    }
                }
            },
            None => {
                lemma_copies(src, sums, blen, pos + 1, lit);
            },
        }
    }
}

/// What is sent and what is copied make up the source: every byte of it is
/// counted once.
pub proof fn law_sent_and_copied_make_the_source(src: Seq<u8>, sums: Seq<BlockSum>, blen: int)
    requires
        0 < blen <= u32::MAX,
    ensures
        literal_total(diff_tokens(src, sums, blen)) + copy_total(diff_tokens(src, sums, blen))
            == src.len(),
        literal_total(diff_tokens(src, sums, blen)) + copy_count(diff_tokens(src, sums, blen))
            * blen == src.len(),
{
    if sums.len() == 0 {
        lemma_literal_totals(src, 0, src.len() as int);
        assert(0 * blen == 0);
    } else {
        lemma_totals_from(src, sums, blen, 0, 0);
    }
}

proof fn lemma_literal_totals(src: Seq<u8>, lo: int, hi: int)
    requires
        0 <= lo <= hi <= src.len(),
    ensures
        literal_total(literal(src, lo, hi)) == hi - lo,
        copy_total(literal(src, lo, hi)) == 0,
        copy_count(literal(src, lo, hi)) == 0,
{
    if lo < hi {
        let token = TokenView::Data(src.subrange(lo, hi));
        lemma_totals_push(Seq::empty(), token);
        assert(literal(src, lo, hi) =~= Seq::empty().push(token));
    }
}

proof fn lemma_totals_join(a: Seq<TokenView>, b: Seq<TokenView>)
    ensures
        literal_total(a + b) == literal_total(a) + literal_total(b),
        copy_total(a + b) == copy_total(a) + copy_total(b),
        copy_count(a + b) == copy_count(a) + copy_count(b),
    decreases b.len(),
{
    if b.len() == 0 {
        assert(a + b =~= a);
    } else {
        assert((a + b).drop_last() =~= a + b.drop_last());
        lemma_totals_join(a, b.drop_last());
    }
}

proof fn lemma_totals_from(src: Seq<u8>, sums: Seq<BlockSum>, blen: int, pos: int, lit: int)
    requires
        0 < blen <= u32::MAX,
        0 <= lit <= pos <= src.len(),
    ensures
        ({
            let all = diff_from(src, sums, blen, pos, lit);
            &&& literal_total(all) + copy_total(all) == src.len() - lit
            &&& literal_total(all) + copy_count(all) * blen == src.len() - lit
        }),
    decreases src.len() - pos,
{
    if pos + blen > src.len() {
        lemma_literal_totals(src, lit, src.len() as int);
        assert(0 * blen == 0);
    } else {
        match find_block(sums, src.subrange(pos, pos + blen), 0) {
            Some(k) => {
                let before = literal(src, lit, pos);
                let copy = TokenView::Copy { offset: sums[k].offset, len: blen as u32 };
                let behind = diff_from(src, sums, blen, pos + blen, pos + blen);
                lemma_totals_from(src, sums, blen, pos + blen, pos + blen);
                lemma_literal_totals(src, lit, pos);
                lemma_totals_push(before, copy);
                assert(before.push(copy) =~= before + seq![copy]);
                assert(before.push(copy).drop_last() =~= before);
                lemma_totals_join(before + seq![copy], behind);
                assert((1 + copy_count(behind)) * blen == blen + copy_count(behind) * blen)
                    by (nonlinear_arith);
            },
            None => {
                lemma_totals_from(src, sums, blen, pos + 1, lit);
            },
        }
    }
}

/// Tokens stand for bytes, one after the other: a data token for its own, a copy
/// within the basis for those of the basis in its range, and no other.
pub proof fn law_tokens_stand_for_bytes(
    basis: Seq<u8>,
    before: Seq<TokenView>,
    after: Seq<TokenView>,
    data: Seq<u8>,
    offset: u64,
    len: u32,
)
    ensures
        render(basis, Seq::empty()) == Seq::<u8>::empty(),
        render(basis, before + after) == render(basis, before) + render(basis, after),
        render(basis, seq![TokenView::Data(data)]) == data,
        offset + len <= basis.len() ==> render(basis, seq![TokenView::Copy { offset, len }])
            == basis.subrange(offset as int, offset + len),
{
    lemma_render_concat(basis, before, after);
    reveal_with_fuel(render, 2);
    let one = seq![TokenView::Data(data)];
    assert(one.drop_last() =~= Seq::empty());
    assert(Seq::empty() + data =~= data);
    let copy = seq![TokenView::Copy { offset, len }];
    assert(copy.drop_last() =~= Seq::empty());
    assert(Seq::empty() + token_bytes(basis, copy[0]) =~= token_bytes(basis, copy[0]));
}

} // verus!
