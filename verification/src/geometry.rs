//! Constants of the image format and the arithmetic of clusters.

use vstd::prelude::*;
use vstd::arithmetic::power2::{pow2, lemma_pow2_pos, lemma_pow2_strictly_increases, lemma2_to64, lemma_pow2_adds};
use vstd::bits::{lemma_u64_shl_is_mul, lemma_u64_low_bits_mask_is_mod, low_bits_mask, lemma_u64_pow2_no_overflow};
use crate::error::{Error, Result};

verus! {

/// The magic number that starts the header: the bytes `Q`, `F`, `I`, `0xfb`.
pub const QCOW_MAGIC: u32 = 0x5146_49fb;

/// New images use clusters of `2^DEFAULT_CLUSTER_BITS` bytes.
pub const DEFAULT_CLUSTER_BITS: u32 = 16;

/// The smallest supported cluster is `2^MIN_CLUSTER_BITS` bytes.
pub const MIN_CLUSTER_BITS: u32 = 4;

/// The largest supported cluster is `2^MAX_CLUSTER_BITS` bytes.
pub const MAX_CLUSTER_BITS: u32 = 30;

/// Reference counts are `2^DEFAULT_REFCOUNT_ORDER` bits wide.
pub const DEFAULT_REFCOUNT_ORDER: u32 = 4;

/// The length in bytes of a version 3 header without extensions.
pub const V3_BARE_HEADER_SIZE: u32 = 104;

/// The bits of an L1 entry that hold the offset of an L2 table.
pub const L1_TABLE_OFFSET_MASK: u64 = 0x00ff_ffff_ffff_fe00;

/// The bits of an L2 entry that hold the offset of a cluster.
pub const L2_TABLE_OFFSET_MASK: u64 = 0x00ff_ffff_ffff_fe00;

/// Set in a table entry whose cluster is compressed.
pub const COMPRESSED_FLAG: u64 = 0x4000_0000_0000_0000;

/// Set in a stored table entry whose cluster is in use.
pub const CLUSTER_USED_FLAG: u64 = 0x8000_0000_0000_0000;

/// The least number of parts of size `b` that cover `a`.
pub open spec fn div_ceil(a: int, b: int) -> int
    recommends
        b > 0,
{
    (a + b - 1) / b
}

/// The size in bytes of a cluster of `2^bits` bytes.
pub open spec fn cluster_size_of(bits: u32) -> int {
    pow2(bits as nat) as int
}

/// Whether `size` is a supported cluster size, and `mask` the mask of the
/// offsets within such a cluster.
pub open spec fn is_cluster_geometry(size: u64, mask: u64) -> bool {
    &&& exists|bits: u32|
        MIN_CLUSTER_BITS <= bits <= MAX_CLUSTER_BITS && size == #[trigger] cluster_size_of(bits)
    &&& mask == size - 1
}

/// Cluster sizes are positive multiples of 16 of at most a gibibyte, and the
/// mask of a cluster picks the remainder of a division by its size.
pub proof fn lemma_cluster_geometry(size: u64, mask: u64)
    requires
        is_cluster_geometry(size, mask),
    ensures
        16 <= size <= 0x4000_0000,
        size % 16 == 0,
        forall|x: u64| #[trigger] (x & mask) == x % size,
        forall|x: u64| #[trigger] (x & !mask) == x - x % size,
{
    let bits = choose|bits: u32|
        MIN_CLUSTER_BITS <= bits <= MAX_CLUSTER_BITS && size == #[trigger] cluster_size_of(bits);
    lemma_cluster_size_bounds(bits);
    assert forall|x: u64| #[trigger] (x & mask) == x % size by {
        lemma_mask_is_low_bits(bits);
        lemma_u64_low_bits_mask_is_mod(x, bits as nat);
    }
    assert forall|x: u64| #[trigger] (x & !mask) == x - x % size by {
        assert((x & mask) == x % size);
        let low = x & mask;
        assert((x & !mask) == x - low) by (bit_vector)
            requires
                low == x & mask,
        ;
    }
}

/// The low-bits mask of `bits` bits is one less than the cluster size.
proof fn lemma_mask_is_low_bits(bits: u32)
    requires
        bits <= MAX_CLUSTER_BITS,
    ensures
        low_bits_mask(bits as nat) == cluster_size_of(bits) - 1,
{
    lemma_pow2_pos(bits as nat);
}

/// A cluster of `2^bits` bytes, with `bits` in the supported range, has
/// between 16 bytes and a gibibyte, and its size is a multiple of 16.
pub proof fn lemma_cluster_size_bounds(bits: u32)
    requires
        MIN_CLUSTER_BITS <= bits <= MAX_CLUSTER_BITS,
    ensures
        16 <= cluster_size_of(bits) <= 0x4000_0000,
        cluster_size_of(bits) % 16 == 0,
        cluster_size_of(bits) == 16 * pow2((bits - 4) as nat),
{
    lemma2_to64();
    lemma_pow2_adds(4, (bits - 4) as nat);
    lemma_pow2_pos((bits - 4) as nat);
    if bits < 30 {
        lemma_pow2_strictly_increases(bits as nat, 30);
    }
    assert(pow2(4) == 16);
    assert(pow2(30) == 0x4000_0000);
    let k = pow2((bits - 4) as nat) as int;
    assert(cluster_size_of(bits) == 16 * k);
    assert(k >= 1);
    assert((16 * k) % 16 == 0) by (nonlinear_arith);
}

/// The size in bytes of a cluster of `2^bits` bytes.
pub fn cluster_size(bits: u32) -> (size: u64)
    requires
        bits < 64,
    ensures
        size == cluster_size_of(bits),
{
    proof {
        lemma_u64_pow2_no_overflow(bits as nat);
        lemma_u64_shl_is_mul(1, bits as u64);
    }
    1u64 << bits
}

/// Ceiling of the division of `dividend` by `divisor`.
pub fn div_round_up_u64(dividend: u64, divisor: u64) -> (r: u64)
    requires
        divisor > 0,
    ensures
        r == div_ceil(dividend as int, divisor as int),
{
    let q: u64 = dividend / divisor;
    let m: u64 = dividend % divisor;
    proof {
        lemma_div_ceil(dividend as int, divisor as int);
    }
    if m == 0 {
        q
    } else {
        q + 1
    }
}

/// Ceiling of the division of `dividend` by `divisor`.
pub fn div_round_up_u32(dividend: u32, divisor: u32) -> (r: u32)
    requires
        divisor > 0,
    ensures
        r == div_ceil(dividend as int, divisor as int),
{
    let q: u32 = dividend / divisor;
    let m: u32 = dividend % divisor;
    proof {
        lemma_div_ceil(dividend as int, divisor as int);
    }
    if m == 0 {
        q
    } else {
        q + 1
    }
}

/// The ceiling of a quotient is the quotient, plus one where there is a
/// remainder; it is the least count of parts that cover the dividend.
pub proof fn lemma_div_ceil(a: int, b: int)
    requires
        a >= 0,
        b > 0,
    ensures
        div_ceil(a, b) == if a % b == 0 {
            a / b
        } else {
            a / b + 1
        },
        div_ceil(a, b) * b >= a,
        (div_ceil(a, b) - 1) * b < a || a == 0,
        div_ceil(a, b) <= a,
        div_ceil(a, b) >= 0,
{
    let q = a / b;
    let m = a % b;
    assert(a == q * b + m && 0 <= m < b) by (nonlinear_arith)
        requires
            q == a / b,
            m == a % b,
            b > 0,
    ;
    assert(div_ceil(a, b) == if m == 0 {
        q
    } else {
        q + 1
    }) by (nonlinear_arith)
        requires
            a == q * b + m,
            0 <= m < b,
            b > 0,
    ;
    assert(div_ceil(a, b) * b >= a && ((div_ceil(a, b) - 1) * b < a || a == 0) && div_ceil(a, b)
        <= a && div_ceil(a, b) >= 0) by (nonlinear_arith)
        requires
            a == q * b + m,
            0 <= m < b,
            b > 0,
            a >= 0,
            q >= 0,
            div_ceil(a, b) == if m == 0 {
                q
            } else {
                q + 1
            },
    ;
}

/// Fails with `InvalidOffset` unless `offset` is a multiple of the cluster
/// size `2^cluster_bits`.
pub fn offset_is_cluster_boundary(offset: u64, cluster_bits: u32) -> (r: Result<()>)
    requires
        cluster_bits < 64,
    ensures
        r == if offset as int % cluster_size_of(cluster_bits) == 0 {
            Ok::<(), Error>(())
        } else {
            Err::<(), Error>(Error::InvalidOffset(offset))
        },
{
    let size: u64 = cluster_size(cluster_bits);
    proof {
        lemma_pow2_pos(cluster_bits as nat);
        lemma_u64_low_bits_mask_is_mod(offset, cluster_bits as nat);
    }
    if offset & (size - 1) != 0 {
        return Err(Error::InvalidOffset(offset));
    }
    Ok(())
}

/// The number of bytes that a reference count of `2^refcount_order` bits
/// takes.
pub open spec fn refcount_bytes_of(refcount_order: u32) -> int {
    pow2((refcount_order - 3) as nat) as int
}

/// The number of reference-count clusters that an image of `num_clusters`
/// clusters can need: those that count the image's clusters, and those that
/// count the first.
pub open spec fn max_refcount_clusters_of(
    refcount_order: u32,
    cluster_size: int,
    num_clusters: int,
) -> int {
    let refcount_bytes = refcount_bytes_of(refcount_order);
    let for_data = div_ceil(num_clusters * refcount_bytes, cluster_size);
    let for_refcounts = div_ceil(for_data * refcount_bytes, cluster_size);
    for_data + for_refcounts
}

/// The number of reference-count clusters that an image of `num_clusters`
/// clusters of `cluster_size` bytes can need.
pub fn max_refcount_clusters(refcount_order: u32, cluster_size: u64, num_clusters: u64) -> (r:
    u64)
    requires
        3 <= refcount_order <= 6,
        cluster_size >= 8,
        num_clusters <= 0x1000_0000_0000_0000,
    ensures
        r == max_refcount_clusters_of(refcount_order, cluster_size as int, num_clusters as int),
        r <= 2 * num_clusters + 2,
{
    proof {
        lemma2_to64();
    }
    let refcount_bytes: u64 = self::cluster_size(refcount_order - 3);
    assert(1 <= refcount_bytes <= 8);
    assert(num_clusters * refcount_bytes <= 0x8000_0000_0000_0000) by (nonlinear_arith)
        requires
            num_clusters <= 0x1000_0000_0000_0000,
            1 <= refcount_bytes <= 8,
    ;
    let for_data: u64 = div_round_up_u64(num_clusters * refcount_bytes, cluster_size);
    proof {
        lemma_div_ceil_le(num_clusters as int, refcount_bytes as int, cluster_size as int);
    }
    assert(for_data * refcount_bytes <= 0x8000_0000_0000_0008) by (nonlinear_arith)
        requires
            for_data <= num_clusters,
            num_clusters <= 0x1000_0000_0000_0000,
            1 <= refcount_bytes <= 8,
    ;
    let for_refcounts: u64 = div_round_up_u64(for_data * refcount_bytes, cluster_size);
    proof {
        lemma_div_ceil_le(for_data as int, refcount_bytes as int, cluster_size as int);
    }
    for_data + for_refcounts
}

/// Covering `n` items of `k` bytes with parts of at least `k` bytes takes at
/// most `n` parts.
pub proof fn lemma_div_ceil_le(n: int, k: int, b: int)
    requires
        n >= 0,
        1 <= k <= b,
    ensures
        0 <= div_ceil(n * k, b) <= n,
{
    let a = n * k;
    assert(a >= 0) by (nonlinear_arith)
        requires
            a == n * k,
            n >= 0,
            k >= 1,
    ;
    lemma_div_ceil(a, b);
    let q = a / b;
    let m = a % b;
    assert(a == q * b + m && 0 <= m < b) by (nonlinear_arith)
        requires
            q == a / b,
            m == a % b,
            b > 0,
    ;
    assert(q >= 0) by (nonlinear_arith)
        requires
            q == a / b,
            a >= 0,
            b > 0,
    ;
    assert((if m == 0 {
        q
    } else {
        q + 1
    }) <= n) by (nonlinear_arith)
        requires
            a == n * k,
            a == q * b + m,
            0 <= m < b,
            1 <= k <= b,
            q >= 0,
            n >= 0,
    ;
}

} // verus!
