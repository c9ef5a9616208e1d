//! Weak and strong checksums, and the block length chosen for a file.

use vstd::prelude::*;

verus! {

/// `x` modulo 2^32: the rolling sums are kept in 32 bits and wrap.
#[verifier::opaque]
pub open spec fn wrapped(x: int) -> int {
    x % 0x1_0000_0000
}

// ---------------------------------------------------------------------------
// Block length
// ---------------------------------------------------------------------------

/// The largest number whose square does not exceed `n`.
pub open spec fn floor_sqrt(n: nat) -> nat
    decreases n,
{
    if n == 0 {
        0
    } else {
        let r = floor_sqrt((n - 1) as nat);
        if (r + 1) * (r + 1) <= n {
            r + 1
        } else {
            r
        }
    }
}

/// `x` brought into the range from `lo` to `hi`.
pub open spec fn clamped(x: int, lo: int, hi: int) -> int {
    if x < lo {
        lo
    } else if x > hi {
        hi
    } else {
        x
    }
}

/// The block length for a file of `file_len` bytes: 700 for short files, the
/// square root of the length for longer ones, never below 700 or above 131072.
pub open spec fn block_size_of(file_len: nat) -> int {
    if file_len < 1024 {
        700
    } else {
        clamped(floor_sqrt(file_len) as int, 700, 131_072)
    }
}

/// `floor_sqrt` is the integer square root.
pub proof fn lemma_floor_sqrt(n: nat)
    ensures
        floor_sqrt(n) * floor_sqrt(n) <= n,
        n < (floor_sqrt(n) + 1) * (floor_sqrt(n) + 1),
    decreases n,
{
    if n > 0 {
        lemma_floor_sqrt((n - 1) as nat);
        let r = floor_sqrt((n - 1) as nat);
        let q = floor_sqrt(n);
        if q == r + 1 {
            assert(q * q <= n && n < (q + 1) * (q + 1)) by (nonlinear_arith)
                requires
                    q == r + 1,
                    (r + 1) * (r + 1) <= n,
                    n - 1 < (r + 1) * (r + 1),
            ;
        } else {
            assert(q * q <= n && n < (q + 1) * (q + 1)) by (nonlinear_arith)
                requires
                    q == r,
                    r * r <= n - 1,
                    n < (r + 1) * (r + 1),
            ;
        }
    } else {
        assert(floor_sqrt(n) == 0);
        assert(0 * 0 == 0 && (0 + 1) * (0 + 1) == 1) by (nonlinear_arith);
    }
}

/// Whatever `r` has `r * r <= n < (r + 1) * (r + 1)` is `floor_sqrt(n)`.
proof fn lemma_floor_sqrt_unique(n: nat, r: nat)
    requires
        r * r <= n,
        n < (r + 1) * (r + 1),
    ensures
        floor_sqrt(n) == r,
{
    lemma_floor_sqrt(n);
    let q = floor_sqrt(n);
    if q < r {
        assert((q + 1) * (q + 1) <= r * r) by (nonlinear_arith)
            requires
                q + 1 <= r,
        ;
    }
    if r < q {
        assert((r + 1) * (r + 1) <= q * q) by (nonlinear_arith)
            requires
                r + 1 <= q,
        ;
    }
}

/// The block length for a file of `file_len` bytes.
pub fn block_size(file_len: u64) -> (size: usize)
    ensures
        size == block_size_of(file_len as nat),
{
    if file_len < 1024 {
        return 700;
    }
    // The root, or the upper limit where the root is larger.
    let mut lo: u64 = 0;
    let mut hi: u64 = 131_073;
    while hi - lo > 1
        invariant
            lo < hi <= 131_073,
            lo * lo <= file_len,
            hi < 131_073 ==> file_len < hi * hi,
        decreases hi - lo,
    {
        let mid: u64 = lo + (hi - lo) / 2;
        assert(mid * mid <= 131_073 * 131_073) by (nonlinear_arith)
            requires
                0 <= mid <= 131_073,
        ;
        if mid * mid <= file_len {
            lo = mid;
        } else {
            hi = mid;
        }
    }
    proof {
        lemma_floor_sqrt(file_len as nat);
        let root = floor_sqrt(file_len as nat);
        if lo < 131_072 {
            lemma_floor_sqrt_unique(file_len as nat, lo as nat);
        } else if root < 131_072 {
            assert((root + 1) * (root + 1) <= 131_072 * 131_072) by (nonlinear_arith)
                requires
                    root + 1 <= 131_072,
            ;
        }
    }
    if lo < 700 {
        700
    } else {
        lo as usize
    }
}

// ---------------------------------------------------------------------------
// Rolling sum
// ---------------------------------------------------------------------------

/// The sum of the bytes.
pub open spec fn byte_sum(s: Seq<u8>) -> nat
    decreases s.len(),
{
    if s.len() == 0 {
        0
    } else {
        byte_sum(s.drop_last()) + s.last() as nat
    }
}

/// The sum of the byte sums of all non-empty prefixes: each byte weighted by
/// the number of bytes from it to the end.
pub open spec fn weighted_sum(s: Seq<u8>) -> nat
    decreases s.len(),
{
    if s.len() == 0 {
        0
    } else {
        weighted_sum(s.drop_last()) + byte_sum(s)
    }
}

/// The weak digest of a block: the low halves of its two sums.
pub open spec fn weak_digest(s: Seq<u8>) -> u32 {
    (byte_sum(s) as int % 0x1_0000 + 0x1_0000 * (weighted_sum(s) as int % 0x1_0000)) as u32
}

/// Rolling (weak) checksum: an Adler-32 variant whose window slides in
/// constant time.
#[derive(Clone, Copy)]
pub struct RollingSum {
    /// The byte sum, modulo 2^32.
    pub s1: u32,
    /// The weighted sum, modulo 2^32.
    pub s2: u32,
    /// The number of bytes in the window.
    pub window: u32,
}

impl Default for RollingSum {
    fn default() -> (rs: Self)
        ensures
            rs.covers(Seq::empty()),
    {
        proof {
            lemma_wrapped_small(0);
        }
        RollingSum { s1: 0, s2: 0, window: 0 }
    }
}

impl RollingSum {
    /// The state is that of the window `s`.
    pub open spec fn covers(self, s: Seq<u8>) -> bool {
        &&& self.s1 == wrapped(byte_sum(s) as int)
        &&& self.s2 == wrapped(weighted_sum(s) as int)
        &&& self.window == s.len()
    }

    /// The state of the window `data`.
    pub fn init(data: &[u8]) -> (rs: Self)
        requires
            data@.len() <= u32::MAX,
        ensures
            rs.covers(data@),
    {
        let mut rs = RollingSum::default();
        proof {
            lemma_wrapped_small(0);
        }
        let mut i: usize = 0;
        assert(data@.take(0) =~= Seq::empty());
        while i < data.len()
            invariant
                i <= data@.len() <= u32::MAX,
                rs.covers(data@.take(i as int)),
            decreases data@.len() - i,
        {
            proof {
                let prefix = data@.take(i as int);
                let longer = data@.take(i + 1);
                assert(longer.drop_last() =~= prefix);
                lemma_wrapping_add(rs.s1, data@[i as int] as u32);
                lemma_wrapped_sum(byte_sum(prefix) as int, data@[i as int] as int);
            }
            rs.s1 = rs.s1.wrapping_add(data[i] as u32);
            proof {
                let prefix = data@.take(i as int);
                let longer = data@.take(i + 1);
                lemma_wrapping_add(rs.s2, rs.s1);
                lemma_wrapped_sum(weighted_sum(prefix) as int, byte_sum(longer) as int);
                lemma_wrapped_sum(byte_sum(longer) as int, wrapped(weighted_sum(prefix) as int));
            }
            rs.s2 = rs.s2.wrapping_add(rs.s1);
            rs.window = rs.window + 1;
            i = i + 1;
        }
        assert(data@.take(i as int) =~= data@);
        rs
    }

    /// Slides the window one byte: drops `out`, adds `in_`.
    pub fn roll(&mut self, out: u8, in_: u8)
        ensures
            final(self).s1 == wrapped(old(self).s1 - out + in_),
            final(self).s2 == wrapped(
                old(self).s2 - old(self).window * out + final(self).s1,
            ),
            final(self).window == old(self).window,
            forall|s: Seq<u8>|
                #![trigger old(self).covers(s)]
                old(self).covers(s) && s.len() > 0 && s[0] == out ==> final(self).covers(
                    s.drop_first().push(in_),
                ),
    {
        let ghost before = *self;
        let out: u32 = out as u32;
        let in_: u32 = in_ as u32;
        let kept: u32 = self.s1.wrapping_sub(out);
        self.s1 = kept.wrapping_add(in_);
        let weight: u32 = self.window.wrapping_mul(out);
        let rest: u32 = self.s2.wrapping_sub(weight);
        self.s2 = rest.wrapping_add(self.s1);
        proof {
            lemma_wrapping_sub(before.s1, out);
            lemma_wrapping_add(kept, in_);
            lemma_wrapped_sum(before.s1 - out, in_ as int);
            lemma_wrapping_mul(before.window, out);
            lemma_wrapping_sub(before.s2, weight);
            lemma_wrapped_difference(before.s2 as int, before.window * out);
            lemma_wrapping_add(rest, self.s1);
            lemma_wrapped_sum(before.s2 - before.window * out, self.s1 as int);
        }
        proof {
            assert forall|s: Seq<u8>|
                #![trigger before.covers(s)]
                before.covers(s) && s.len() > 0 && s[0] == out implies self.covers(
                s.drop_first().push(in_ as u8),
            ) by {
                let t = s.drop_first().push(in_ as u8);
                lemma_slide(s, in_ as u8);
                lemma_wrapped_sum(byte_sum(s) as int, in_ - out);
                lemma_wrapped_sum(weighted_sum(s) as int, -(s.len() * out) + byte_sum(t));
                lemma_wrapped_sum(
                    byte_sum(t) as int,
                    wrapped(weighted_sum(s) as int) - s.len() * out,
                );
            }
        }
    }

    /// The weak digest of the window.
    pub fn digest(&self) -> (d: u32)
        ensures
            d == self.s1 as int % 0x1_0000 + 0x1_0000 * (self.s2 as int % 0x1_0000),
            forall|s: Seq<u8>| #![trigger self.covers(s)] self.covers(s) ==> d == weak_digest(s),
    {
        let s1: u32 = self.s1;
        let s2: u32 = self.s2;
        assert((s1 & 0xffff) | (s2 << 16) == s1 % 0x1_0000 + 0x1_0000 * (s2 % 0x1_0000))
            by (bit_vector);
        proof {
            assert forall|s: Seq<u8>| #![trigger self.covers(s)] self.covers(s) implies s1 % 0x1_0000
                + 0x1_0000 * (s2 % 0x1_0000) == weak_digest(s) by {
                lemma_low_half(byte_sum(s) as int);
                lemma_low_half(weighted_sum(s) as int);
            }
        }
        (self.s1 & 0xffff) | (self.s2 << 16)
    }
}

/// Wrapping to 32 bits leaves the low 16 bits alone.
proof fn lemma_low_half(x: int)
    ensures
        wrapped(x) % 0x1_0000 == x % 0x1_0000,
{
    reveal(wrapped);
}

/// A number that fits in 32 bits is not changed.
proof fn lemma_wrapped_small(x: int)
    requires
        0 <= x < 0x1_0000_0000,
    ensures
        wrapped(x) == x,
{
    reveal(wrapped);
}

/// A term of a sum may be wrapped first.
proof fn lemma_wrapped_sum(x: int, y: int)
    ensures
        wrapped(wrapped(x) + y) == wrapped(x + y),
{
    reveal(wrapped);
}

/// What is taken away may be wrapped first.
proof fn lemma_wrapped_difference(x: int, y: int)
    ensures
        wrapped(x - wrapped(y)) == wrapped(x - y),
{
    reveal(wrapped);
}

proof fn lemma_wrapping_add(x: u32, y: u32)
    ensures
        x.wrapping_add(y) == wrapped(x + y),
{
    reveal(wrapped);
}

proof fn lemma_wrapping_sub(x: u32, y: u32)
    ensures
        x.wrapping_sub(y) == wrapped(x - y),
{
    reveal(wrapped);
}

proof fn lemma_wrapping_mul(x: u32, y: u32)
    ensures
        x.wrapping_mul(y) == wrapped(x * y),
{
    reveal(wrapped);
}

/// Moving a window of bytes on by one: the byte sum loses the first byte and
/// gains the new one; the weighted sum loses the first byte once for each byte
/// of the window and gains the new byte sum.
proof fn lemma_slide(s: Seq<u8>, x: u8)
    requires
        s.len() > 0,
    ensures
        byte_sum(s.drop_first().push(x)) == byte_sum(s) - s[0] + x,
        weighted_sum(s.drop_first().push(x)) == weighted_sum(s) - s.len() * s[0] + byte_sum(
            s.drop_first().push(x),
        ),
{
    lemma_drop_first(s);
    assert(s.drop_first().push(x).drop_last() =~= s.drop_first());
}

/// The sums of a window without its first byte.
proof fn lemma_drop_first(s: Seq<u8>)
    requires
        s.len() > 0,
    ensures
        byte_sum(s.drop_first()) == byte_sum(s) - s[0],
        weighted_sum(s.drop_first()) == weighted_sum(s) - s.len() * s[0],
    decreases s.len(),
{
    if s.len() == 1 {
        assert(s.drop_last() =~= Seq::empty());
        assert(s.drop_first() =~= Seq::empty());
    } else {
        lemma_drop_first(s.drop_last());
        assert(s.drop_last().drop_first() =~= s.drop_first().drop_last());
        assert((s.len() - 1) * s[0] + s[0] == s.len() * s[0]) by (nonlinear_arith);
    }
}

/// The weak digest of `data`.
pub fn rolling_sum(data: &[u8]) -> (d: u32)
    requires
        data@.len() <= u32::MAX,
    ensures
        d == weak_digest(data@),
{
    RollingSum::init(data).digest()
}

// ---------------------------------------------------------------------------
// Strong sums
// ---------------------------------------------------------------------------

/// The 32 bytes that BLAKE3 gives for an input.
pub uninterp spec fn blake3_digest(input: Seq<u8>) -> Seq<u8>;

/// The first 16 bytes of the BLAKE3 digest.
pub open spec fn strong_digest(input: Seq<u8>) -> Seq<u8> {
    blake3_digest(input).take(16)
}

/// Calls `blake3::hash` and hands out the bytes of the `Hash`. Claimed: they
/// are the digest of the input, a function of the input alone.
#[verifier::external_body]
fn blake3_hash(data: &[u8]) -> (digest: [u8; 32])
    ensures
        digest@ == blake3_digest(data@),
{
    *blake3::hash(data).as_bytes()
}

/// The incremental hash state of `blake3`.
#[verifier::external_type_specification]
#[verifier::external_body]
pub struct ExHasher(blake3::Hasher);

/// The bytes that a hash state has been given so far.
pub uninterp spec fn absorbed(hasher: blake3::Hasher) -> Seq<u8>;

/// Calls `blake3::Hasher::new`. Claimed: the state has been given nothing.
#[verifier::external_body]
pub(crate) fn hasher_new() -> (hasher: blake3::Hasher)
    ensures
        absorbed(hasher) == Seq::<u8>::empty(),
{
    blake3::Hasher::new()
}

/// Calls `blake3::Hasher::update`. Claimed: the bytes are added after those
/// given before.
#[verifier::external_body]
pub(crate) fn hasher_update(hasher: &mut blake3::Hasher, bytes: &[u8])
    ensures
        absorbed(*final(hasher)) == absorbed(*old(hasher)) + bytes@,
{
    hasher.update(bytes);
}

/// Calls `blake3::Hasher::finalize` and hands out the bytes of the `Hash`.
/// Claimed: they are the digest of all the bytes given, the same that
/// `blake3::hash` gives for them at once.
#[verifier::external_body]
pub(crate) fn hasher_finalize(hasher: &blake3::Hasher) -> (digest: [u8; 32])
    ensures
        digest@ == blake3_digest(absorbed(*hasher)),
{
    *hasher.finalize().as_bytes()
}

/// The first 16 bytes of the BLAKE3 digest of `data`.
pub fn strong_sum(data: &[u8]) -> (sum: [u8; 16])
    ensures
        sum@ == strong_digest(data@),
{
    first_half(&blake3_hash(data))
}

/// Tests whether two byte strings are the same.
pub fn same_bytes(a: &[u8], b: &[u8]) -> (same: bool)
    ensures
        same == (a@ == b@),
{
    if a.len() != b.len() {
        return false;
    }
    let mut i: usize = 0;
    while i < a.len()
        invariant
            i <= a@.len() == b@.len(),
            forall|j: int| 0 <= j < i ==> a@[j] == b@[j],
        decreases a@.len() - i,
    {
        if a[i] != b[i] {
            return false;
        }
        i = i + 1;
    }
    assert(a@ =~= b@);
    true
}

/// The first bytes of a byte string, as an array.
pub fn leading_array<const N: usize>(bytes: &[u8]) -> (a: [u8; N])
    requires
        N <= bytes@.len(),
    ensures
        a@ == bytes@.take(N as int),
        bytes@.len() == N ==> a@ == bytes@,
{
    let mut a: [u8; N] = [0u8; N];
    let mut i: usize = 0;
    while i < N
        invariant
            i <= N <= bytes@.len(),
            forall|j: int| 0 <= j < i ==> a@[j] == bytes@[j],
        decreases N - i,
    {
        a[i] = bytes[i];
        i = i + 1;
    }
    assert(a@ =~= bytes@.take(N as int));
    a
}

/// The first 16 bytes of a digest.
pub fn first_half(digest: &[u8; 32]) -> (half: [u8; 16])
    ensures
        half@ == digest@.take(16),
{
    leading_array(digest.as_slice())
}

/// The BLAKE3 digest of `data`, for the check at the end of a file.
pub fn file_hash(data: &[u8]) -> (digest: [u8; 32])
    ensures
        digest@ == blake3_digest(data@),
{
    blake3_hash(data)
}

// ---------------------------------------------------------------------------
// Laws
// ---------------------------------------------------------------------------

/// The block length never leaves its range.
pub proof fn lemma_block_size_range(n: nat)
    ensures
        700 <= block_size_of(n) <= 131_072,
{
}

/// The block length is the square root of the size, cut down to a whole number:
/// its square does not exceed the size and the next square does. It stays at 700
/// where the root is smaller, and at 131072 where it is larger.
pub proof fn law_block_length_is_the_root(n: nat)
    ensures
        n < 700 * 700 ==> block_size_of(n) == 700,
        700 * 700 <= n < 131_072 * 131_072 ==> block_size_of(n) * block_size_of(n) <= n < (
        block_size_of(n) + 1) * (block_size_of(n) + 1),
        131_072 * 131_072 <= n ==> block_size_of(n) == 131_072,
{
    lemma_floor_sqrt(n);
    let r = floor_sqrt(n) as int;
    if n < 700 * 700 && r >= 700 {
        assert(r * r >= 700 * 700) by (nonlinear_arith)
            requires
                r >= 700,
        ;
    }
    if n >= 700 * 700 && r < 700 {
        assert((r + 1) * (r + 1) <= 700 * 700) by (nonlinear_arith)
            requires
                0 <= r < 700,
        ;
    }
    if n < 131_072 * 131_072 && r >= 131_072 {
        assert(r * r >= 131_072 * 131_072) by (nonlinear_arith)
            requires
                r >= 131_072,
        ;
    }
    if n >= 131_072 * 131_072 && r < 131_072 {
        assert((r + 1) * (r + 1) <= 131_072 * 131_072) by (nonlinear_arith)
            requires
                0 <= r < 131_072,
        ;
    }
}

/// A larger file never has shorter blocks.
pub proof fn law_block_length_grows(a: nat, b: nat)
    requires
        a <= b,
    ensures
        block_size_of(a) <= block_size_of(b),
{
    lemma_floor_sqrt(a);
    lemma_floor_sqrt(b);
    let r = floor_sqrt(a) as int;
    let q = floor_sqrt(b) as int;
    if q < r {
        assert((q + 1) * (q + 1) <= r * r) by (nonlinear_arith)
            requires
                0 <= q < r,
        ;
    }
}

/// The low half of the weak digest is the sum of the bytes, and the high half the
/// sum of the bytes each taken as often as there are bytes from it to the end,
/// both modulo 2^16: a byte in front of a block adds itself to the one, and itself
/// as often as the block is then long to the other.
pub proof fn law_weak_digest_of_a_longer_block(b: u8, s: Seq<u8>)
    ensures
        weak_digest(Seq::empty()) == 0,
        weak_digest(seq![b] + s) as int % 0x1_0000 == (weak_digest(s) as int % 0x1_0000 + b)
            % 0x1_0000,
        weak_digest(seq![b] + s) as int / 0x1_0000 == (weak_digest(s) as int / 0x1_0000 + (s.len()
            + 1) * b) % 0x1_0000,
{
    let t = seq![b] + s;
    assert(t.drop_first() =~= s);
    lemma_drop_first(t);
    lemma_halves(byte_sum(s) as int, weighted_sum(s) as int);
    lemma_halves(byte_sum(t) as int, weighted_sum(t) as int);
    let x = weighted_sum(s) as int;
    let y = ((s.len() + 1) * b) as int;
    assert(weighted_sum(t) == x + y);
    assert((x % 0x1_0000 + y) % 0x1_0000 == (x + y) % 0x1_0000);
    let v = byte_sum(s) as int;
    assert((v % 0x1_0000 + b) % 0x1_0000 == (v + b) % 0x1_0000);
}

proof fn lemma_halves(lo: int, hi: int)
    ensures
        ({
            let d = (lo % 0x1_0000 + 0x1_0000 * (hi % 0x1_0000)) as u32;
            d as int % 0x1_0000 == lo % 0x1_0000 && d as int / 0x1_0000 == hi % 0x1_0000
        }),
{
}

/// The strong sum of a block is the first half of the digest of all its bytes.
pub proof fn law_strong_sum_is_half_the_digest(s: Seq<u8>, i: int)
    requires
        blake3_digest(s).len() == 32,
        0 <= i < 16,
    ensures
        strong_digest(s).len() == 16,
        strong_digest(s)[i] == blake3_digest(s)[i],
{
}

} // verus!
