//! How the steps of the engine change the state of an image.
//!
//! Each lemma takes a consistent state and one change that the engine
//! makes: some bytes written within one cluster, a block leaving or entering
//! a cache, a cluster handed out. It shows that the state is consistent
//! afterwards, and which tables and bytes of the image are what they were.

use vstd::prelude::*;
use crate::disk::{resized, written};

use crate::geometry::{
    lemma_cluster_size_bounds,
    CLUSTER_USED_FLAG,
    L2_TABLE_OFFSET_MASK,
};
use crate::header::{lemma_parse_bytes_prefix, lemma_parsed_is_valid, parse_bytes, HEADER_LEN};
use crate::model::{zero_counts, zero_table, ClusterUse, ImageState, MAX_FILE_LEN};
use crate::raw_file::{
    lemma_pointer_table_bytes,
    lemma_refcount_block_bytes,
    pointer_at,
    pointer_table_at,
    pointer_table_bytes,
    refcount_at,
    refcount_block_at,
    refcount_block_bytes,
    stamped,
};

verus! {

/// Whether the file contents `d2` are `d1` but for the bytes from `lo` up to
/// `hi`, and for bytes behind the end of `d1`.
pub open spec fn agree_outside(d1: Seq<u8>, d2: Seq<u8>, lo: int, hi: int) -> bool {
    &&& d2.len() >= d1.len()
    &&& forall|j: int| 0 <= j < d1.len() && !(lo <= j < hi) ==> #[trigger] d2[j] == d1[j]
}

/// Whether the file contents `d2` hold what `d1` holds from `x` up to
/// `x + n`.
pub open spec fn kept(d1: Seq<u8>, d2: Seq<u8>, x: int, n: int) -> bool {
    forall|j: int| x <= j < x + n ==> #[trigger] d2[j] == d1[j]
}

/// What is written changes nothing outside the range that it is written to.
pub proof fn lemma_written_agrees(d: Seq<u8>, offset: nat, data: Seq<u8>)
    ensures
        agree_outside(d, written(d, offset, data), offset as int, (offset + data.len()) as int),
{
}

/// Two clusters at different offsets do not overlap.
pub proof fn lemma_aligned_apart(x: int, c: int, cs: int)
    requires
        cs > 0,
        x >= 0,
        c >= 0,
        x % cs == 0,
        c % cs == 0,
        x != c,
    ensures
        x + cs <= c || c + cs <= x,
{
    let q1 = x / cs;
    let q2 = c / cs;
    assert(x == q1 * cs && c == q2 * cs) by (nonlinear_arith)
        requires
            q1 == x / cs,
            q2 == c / cs,
            x % cs == 0,
            c % cs == 0,
            cs > 0,
    ;
    assert(x + cs <= c || c + cs <= x) by (nonlinear_arith)
        requires
            x == q1 * cs,
            c == q2 * cs,
            x != c,
            cs > 0,
    ;
}

/// A table is the same in two files that agree where it lies.
pub proof fn lemma_same_table(d1: Seq<u8>, d2: Seq<u8>, c: int, count: nat, mask: u64)
    requires
        0 <= c,
        c + 8 * count <= d1.len(),
        c + 8 * count <= d2.len(),
        forall|j: int| c <= j < c + 8 * count ==> #[trigger] d2[j] == d1[j],
    ensures
        pointer_table_at(d1, c, count, mask) == pointer_table_at(d2, c, count, mask),
{
    assert forall|i: int| 0 <= i < count implies pointer_at(d1, c, i) == pointer_at(d2, c, i) by {
        assert(d1.subrange(c + 8 * i, c + 8 * i + 8) =~= d2.subrange(c + 8 * i, c + 8 * i + 8));
    }
    assert(pointer_table_at(d1, c, count, mask) =~= pointer_table_at(d2, c, count, mask));
}

/// A block of counts is the same in two files that agree where it lies.
pub proof fn lemma_same_block(d1: Seq<u8>, d2: Seq<u8>, c: int, count: nat)
    requires
        0 <= c,
        c + 2 * count <= d1.len(),
        c + 2 * count <= d2.len(),
        forall|j: int| c <= j < c + 2 * count ==> #[trigger] d2[j] == d1[j],
    ensures
        refcount_block_at(d1, c, count) == refcount_block_at(d2, c, count),
{
    assert forall|i: int| 0 <= i < count implies refcount_at(d1, c, i) == refcount_at(d2, c, i) by {
        assert(d1.subrange(c + 2 * i, c + 2 * i + 2) =~= d2.subrange(c + 2 * i, c + 2 * i + 2));
    }
    assert(refcount_block_at(d1, c, count) =~= refcount_block_at(d2, c, count));
}

/// The offset of a cluster of at least 512 bytes in a file of at most
/// `MAX_FILE_LEN` bytes is stored and read back unchanged: the flag that is
/// set when it is stored, and the mask that it is read with, leave it as it
/// is.
pub proof fn lemma_offset_reads_back(e: u64, cs: u64)
    requires
        cs % 512 == 0,
        cs > 0,
        e % cs == 0,
        e < MAX_FILE_LEN,
    ensures
        stamped(e, CLUSTER_USED_FLAG) & L2_TABLE_OFFSET_MASK == e,
        e & L2_TABLE_OFFSET_MASK == e,
{
    let q = e as int / cs as int;
    let k = cs as int / 512;
    assert(e == q * cs) by (nonlinear_arith)
        requires
            q == e as int / cs as int,
            e % cs == 0,
            cs > 0,
    ;
    assert(e == (q * k) * 512) by (nonlinear_arith)
        requires
            e == q * cs,
            cs == k * 512,
    ;
    vstd::arithmetic::div_mod::lemma_mod_multiples_basic(q * k, 512);
    assert((e | 0x8000_0000_0000_0000u64) & 0x00ff_ffff_ffff_fe00u64 == e && e
        & 0x00ff_ffff_ffff_fe00u64 == e) by (bit_vector)
        requires
            e % 512 == 0,
            e < 0x0100_0000_0000_0000u64,
    ;
    assert(0u64 & 0x00ff_ffff_ffff_fe00u64 == 0) by (bit_vector);
}

/// A table whose entries are stored and read back unchanged is read back
/// from the place in a file where it was written.
pub proof fn lemma_table_reads_back(d: Seq<u8>, c: nat, table: Seq<u64>)
    requires
        forall|i: int|
            0 <= i < table.len() ==> stamped(#[trigger] table[i], CLUSTER_USED_FLAG)
                & L2_TABLE_OFFSET_MASK == table[i],
    ensures
        pointer_table_at(
            written(d, c, pointer_table_bytes(table, CLUSTER_USED_FLAG)),
            c as int,
            table.len(),
            L2_TABLE_OFFSET_MASK,
        ) == table,
{
    let bytes = pointer_table_bytes(table, CLUSTER_USED_FLAG);
    lemma_pointer_table_bytes(table, CLUSTER_USED_FLAG);
    let d2 = written(d, c, bytes);
    assert forall|i: int| 0 <= i < table.len() implies pointer_at(d2, c as int, i) == stamped(
        table[i],
        CLUSTER_USED_FLAG,
    ) by {
        assert(d2.subrange(c + 8 * i, c + 8 * i + 8) =~= bytes.subrange(8 * i, 8 * i + 8));
        assert(pointer_at(bytes, 0, i) == stamped(table[i], CLUSTER_USED_FLAG));
    }
    assert(pointer_table_at(d2, c as int, table.len(), L2_TABLE_OFFSET_MASK) =~= table);
}

/// A block of counts is read back from the place in a file where it was
/// written.
pub proof fn lemma_block_reads_back(d: Seq<u8>, c: nat, counts: Seq<u16>)
    ensures
        refcount_block_at(written(d, c, refcount_block_bytes(counts)), c as int, counts.len())
            == counts,
{
    let bytes = refcount_block_bytes(counts);
    lemma_refcount_block_bytes(counts);
    let d2 = written(d, c, bytes);
    assert forall|i: int| 0 <= i < counts.len() implies refcount_at(d2, c as int, i)
        == counts[i] by {
        assert(d2.subrange(c + 2 * i, c + 2 * i + 2) =~= bytes.subrange(2 * i, 2 * i + 2));
        assert(refcount_at(bytes, 0, i) == counts[i]);
    }
    assert(refcount_block_at(d2, c as int, counts.len()) =~= counts);
}

/// In a consistent image, clusters have between 512 bytes and a gibibyte,
/// L2 tables and blocks of counts fill a cluster, and the file holds the
/// tables and at least the header.
pub proof fn lemma_consistent_geometry(s: ImageState)
    requires
        s.consistent(),
    ensures
        512 <= s.cluster_size <= 0x4000_0000,
        s.cluster_size % 512 == 0,
        s.l2_len() * 8 == s.cluster_size,
        s.refblock_len() * 2 == s.cluster_size,
        s.l2_len() >= 64,
        s.refblock_len() >= 256,
{
    lemma_cluster_size_bounds(s.header.cluster_bits);
    vstd::arithmetic::power2::lemma_pow2_adds(9, (s.header.cluster_bits - 9) as nat);
    vstd::arithmetic::power2::lemma2_to64();
    let k = vstd::arithmetic::power2::pow2((s.header.cluster_bits - 9) as nat) as int;
    vstd::arithmetic::power2::lemma_pow2_pos((s.header.cluster_bits - 9) as nat);
    assert(s.cluster_size == 512 * k);
    assert((512 * k) % 512 == 0) by (nonlinear_arith);
}

/// Whether the file contents `d2` start with the bytes that `d1` starts
/// with, as far as a header goes.
pub open spec fn same_start(d1: Seq<u8>, d2: Seq<u8>) -> bool {
    d2.subrange(0, HEADER_LEN as int) == d1.subrange(0, HEADER_LEN as int)
}

/// A file that starts as a file with a header does, and is as long, has the
/// same header.
pub proof fn lemma_header_kept(s: ImageState, d2: Seq<u8>)
    requires
        s.header_stored(),
        d2.len() >= s.disk.len(),
        same_start(s.disk, d2),
    ensures
        (ImageState { disk: d2, ..s }).header_stored(),
        parse_bytes(d2) == parse_bytes(s.disk),
{
    lemma_parsed_is_valid(s.disk);
    lemma_parse_bytes_prefix(s.disk);
    lemma_parse_bytes_prefix(d2);
}

/// Two files that agree outside a range behind the header start alike.
pub proof fn lemma_agree_start(d1: Seq<u8>, d2: Seq<u8>, lo: int, hi: int)
    requires
        agree_outside(d1, d2, lo, hi),
        lo >= HEADER_LEN,
        d1.len() >= HEADER_LEN,
    ensures
        same_start(d1, d2),
{
    assert(d2.subrange(0, HEADER_LEN as int) =~= d1.subrange(0, HEADER_LEN as int));
}

/// In a consistent image, the L1 table has an entry for every address
/// below the size of the image.
pub proof fn lemma_l1_covers(s: ImageState, address: u64)
    requires
        s.consistent(),
        address < s.virtual_size(),
    ensures
        0 <= s.l1_index(address) < s.l1.len(),
{
    lemma_consistent_geometry(s);
    let cs = s.cluster_size as int;
    let n = s.l2_len() as int;
    let last = (s.virtual_size() - 1) as int;
    vstd::arithmetic::div_mod::lemma_div_is_ordered(address as int, last, cs);
    vstd::arithmetic::div_mod::lemma_div_is_ordered(address as int / cs, last / cs, n);
    vstd::arithmetic::div_mod::lemma_div_pos_is_pos(address as int, cs);
    vstd::arithmetic::div_mod::lemma_div_pos_is_pos(address as int / cs, n);
}

/// Bytes written within one cluster leave every other cluster as it is, and
/// with it every L2 table and every block of counts that is cached or lies
/// in another cluster.
pub proof fn lemma_write_in_cluster(s: ImageState, d2: Seq<u8>, c: int)
    requires
        s.consistent(),
        0 <= c,
        c % (s.cluster_size as int) == 0,
        agree_outside(s.disk, d2, c, c + s.cluster_size),
    ensures
        ({
            let s2 = ImageState { disk: d2, ..s };
            &&& forall|x: u64|
                s.is_cluster(x) && x != c ==> #[trigger] kept(
                    s.disk,
                    d2,
                    x as int,
                    s.cluster_size as int,
                )
            &&& forall|i: int|
                0 <= i < s.l1.len() && (s.l2_cache.contains_key(i as usize) || s.l1[i] != c)
                    ==> #[trigger] s2.l2_table(i) == s.l2_table(i)
            &&& forall|t: int|
                0 <= t < s.ref_table.len() && (s.refblock_cache.contains_key(t as usize)
                    || s.ref_table[t] != c) ==> #[trigger] s2.refblock(t) == s.refblock(t)
            &&& c >= HEADER_LEN ==> same_start(s.disk, d2)
        }),
{
    let s2 = ImageState { disk: d2, ..s };
    let cs = s.cluster_size as int;
    lemma_consistent_geometry(s);
    if c >= HEADER_LEN {
        lemma_parsed_is_valid(s.disk);
        lemma_agree_start(s.disk, d2, c, c + cs);
    }
    assert forall|x: u64| s.is_cluster(x) && x != c implies #[trigger] kept(
        s.disk,
        d2,
        x as int,
        s.cluster_size as int,
    ) by {
        lemma_aligned_apart(x as int, c, cs);
    }
    assert forall|i: int|
        0 <= i < s.l1.len() && (s.l2_cache.contains_key(i as usize) || s.l1[i] != c)
        implies #[trigger] s2.l2_table(i) == s.l2_table(i) by {
        if !s.l2_cache.contains_key(i as usize) && s.l1[i] != 0 {
            let x = s.l1[i];
            assert(s.cluster_of(ClusterUse::L2Table(i)) == x);
            assert(s.is_cluster(x));
            lemma_aligned_apart(x as int, c, cs);
            lemma_same_table(s.disk, d2, x as int, s.l2_len(), L2_TABLE_OFFSET_MASK);
        }
    }
    assert forall|t: int|
        0 <= t < s.ref_table.len() && (s.refblock_cache.contains_key(t as usize) || s.ref_table[t]
            != c) implies #[trigger] s2.refblock(t) == s.refblock(t) by {
        if !s.refblock_cache.contains_key(t as usize) && s.ref_table[t] != 0 {
            let x = s.ref_table[t];
            assert(s.cluster_of(ClusterUse::RefBlock(t)) == x);
            assert(s.is_cluster(x));
            lemma_aligned_apart(x as int, c, cs);
            lemma_same_block(s.disk, d2, x as int, s.refblock_len());
        }
    }
}

/// A state that differs from a consistent one in the bytes of the file, in
/// what is cached, and in that it may lack clusters at the end of the two
/// lists, but has the same L2 tables as the engine sees them and cached
/// blocks that are what the file holds, is consistent, and every cluster has
/// the use that it had, if any.
pub proof fn lemma_same_uses(s: ImageState, s2: ImageState)
    requires
        s.consistent(),
        s2.wf(),
        s2 == (ImageState {
            disk: s2.disk,
            l2_cache: s2.l2_cache,
            refblock_cache: s2.refblock_cache,
            pending: s2.pending,
            available: s2.available,
            position: s2.position,
            ..s
        }),
        s.disk.len() <= s2.disk.len() <= MAX_FILE_LEN,
        same_start(s.disk, s2.disk),
        forall|i: int| 0 <= i < s.l1.len() ==> #[trigger] s2.l2_table(i) == s.l2_table(i),
        s2.l2_cache_backed(),
        s2.refblock_cache_backed(),
        s2.pending.len() <= s.pending.len(),
        forall|k: int| 0 <= k < s2.pending.len() ==> #[trigger] s2.pending[k] == s.pending[k],
        s2.available.len() <= s.available.len(),
        forall|k: int|
            0 <= k < s2.available.len() ==> #[trigger] s2.available[k] == s.available[k],
    ensures
        s2.consistent(),
        forall|vc: int| #[trigger] s2.entry(vc) == s.entry(vc),
        forall|u: ClusterUse|
            #[trigger] s2.cluster_of(u) == s.cluster_of(u) || s2.cluster_of(u) == 0,
        forall|x: u64| s.is_cluster(x) ==> #[trigger] s2.is_cluster(x),
        forall|x: u64| s.is_free(x) ==> #[trigger] s2.is_free(x),
        s2.uses_from(s, Set::empty()),
{
    lemma_header_kept(s, s2.disk);
    assert forall|vc: int| #[trigger] s2.entry(vc) == s.entry(vc) by {
        let i = vc / (s.l2_len() as int);
        if 0 <= vc && i < s.l1.len() {
            lemma_consistent_geometry(s);
            assert(s2.l2_table(i) == s.l2_table(i));
        }
    }
    assert forall|u: ClusterUse|
        #[trigger] s2.cluster_of(u) == s.cluster_of(u) || s2.cluster_of(u) == 0 by {
        match u {
            ClusterUse::Data(vc) => {
                assert(s2.entry(vc) == s.entry(vc));
            },
            _ => {},
        }
    }
    assert forall|u: ClusterUse| #[trigger] s2.cluster_of(u) != 0 implies s2.is_cluster(
        s2.cluster_of(u),
    ) by {
        assert(s.is_cluster(s.cluster_of(u)));
    }
    assert forall|u1: ClusterUse, u2: ClusterUse|
        #[trigger] s2.cluster_of(u1) != 0 && s2.cluster_of(u1) == #[trigger] s2.cluster_of(
            u2,
        ) implies u1 == u2 by {
        assert(s.cluster_of(u1) == s.cluster_of(u2));
    }
    assert forall|x: u64| s.is_free(x) implies #[trigger] s2.is_free(x) by {
        lemma_consistent_geometry(s);
        assert forall|u: ClusterUse| #[trigger] s2.cluster_of(u) != x by {
            assert(s.cluster_of(u) != x);
        }
    }
}

/// A state in which every cluster has the count that it had, and every use
/// the cluster that it had or none, counts references as the other does.
pub proof fn lemma_counts_kept(s: ImageState, s2: ImageState)
    requires
        s2.cluster_size == s.cluster_size,
        forall|a: u64| #[trigger] s2.refcount(a) == s.refcount(a),
        forall|u: ClusterUse|
            #[trigger] s2.cluster_of(u) == s.cluster_of(u) || s2.cluster_of(u) == 0,
    ensures
        s2.same_counts(s),
{
    assert forall|owed: Set<u64>| s.counted_but(owed) implies #[trigger] s2.counted_but(owed) by {
        assert forall|u: ClusterUse|
            #[trigger] s2.cluster_of(u) != 0
                && !owed.contains(s2.cluster_of(u)) implies if u.is_live() {
            s2.refcount(s2.cluster_of(u)) >= 1
        } else {
            s2.refcount(s2.cluster_of(u)) == 0
        } by {
            assert(s2.cluster_of(u) == s.cluster_of(u));
            assert(s2.refcount(s.cluster_of(u)) == s.refcount(s.cluster_of(u)));
        }
    }
}

/// A state in which every cluster has the count that it had, and every use
/// the cluster that it had, none, or one of the clusters in `more`, has
/// right counts wherever the other has, but for the clusters in `more`.
pub proof fn lemma_owing(s: ImageState, s2: ImageState, more: Set<u64>)
    requires
        forall|a: u64| #[trigger] s2.refcount(a) == s.refcount(a),
        forall|u: ClusterUse|
            #[trigger] s2.cluster_of(u) != 0 ==> more.contains(s2.cluster_of(u)) || s2.cluster_of(
                u,
            ) == s.cluster_of(u),
    ensures
        s2.keeps_counts_but(s, more),
{
    assert forall|owed: Set<u64>| s.counted_but(owed) implies #[trigger] s2.counted_but(
        owed.union(more),
    ) by {
        assert forall|u: ClusterUse|
            #[trigger] s2.cluster_of(u) != 0
                && !owed.union(more).contains(s2.cluster_of(u)) implies if u.is_live() {
            s2.refcount(s2.cluster_of(u)) >= 1
        } else {
            s2.refcount(s2.cluster_of(u)) == 0
        } by {
            assert(s2.cluster_of(u) == s.cluster_of(u));
            assert(s2.refcount(s.cluster_of(u)) == s.refcount(s.cluster_of(u)));
        }
    }
}

/// Where every cluster of the image has the cluster of the file that it
/// had, and those clusters hold what they held, every byte of the image is
/// what it was.
pub proof fn lemma_same_bytes(s: ImageState, s2: ImageState)
    requires
        s.consistent(),
        s2.header == s.header,
        s2.cluster_size == s.cluster_size,
        forall|vc: int| #[trigger] s2.entry(vc) == s.entry(vc),
        forall|vc: int|
            s.entry(vc) != 0 ==> #[trigger] kept(
                s.disk,
                s2.disk,
                s.entry(vc) as int,
                s.cluster_size as int,
            ),
    ensures
        s2.same_data(s),
{
    lemma_consistent_geometry(s);
    assert forall|a: u64| #[trigger] s2.byte_at(a) == s.byte_at(a) by {
        let vc = (a / s.cluster_size) as int;
        assert(s2.entry(vc) == s.entry(vc));
        let x = s.entry(vc);
        if x != 0 {
            assert(s.cluster_of(ClusterUse::Data(vc)) == x);
            assert(s.is_cluster(x));
            assert(kept(s.disk, s2.disk, x as int, s.cluster_size as int));
            let off = (x + a % s.cluster_size) as int;
            assert(x <= off < x + s.cluster_size);
            assert(s2.disk[off] == s.disk[off]);
        }
    }
}

/// A state that differs from a consistent one in the position only is
/// consistent, and maps, holds and counts what it did.
pub proof fn lemma_position_moved(s: ImageState, s2: ImageState)
    requires
        s.consistent(),
        s2 == (ImageState { position: s2.position, ..s }),
        s2.position <= s2.virtual_size(),
    ensures
        s2.consistent(),
        s2.same_data(s),
        s2.same_counts(s),
{
    assert forall|k: int| 0 <= k < s.l1.len() implies #[trigger] s2.l2_table(k) == s.l2_table(
        k,
    ) by {}
    lemma_same_uses(s, s2);
    assert forall|vc: int| s.entry(vc) != 0 implies #[trigger] kept(
        s.disk,
        s2.disk,
        s.entry(vc) as int,
        s.cluster_size as int,
    ) by {}
    lemma_same_bytes(s, s2);
}

/// The cached L2 table of L1 entry `v` leaves the cache, after it was
/// written to its cluster if it was dirty: the image is consistent, and maps
/// and holds what it did.
pub proof fn lemma_l2_evicted(s: ImageState, v: usize, s2: ImageState)
    requires
        s.consistent(),
        s.l2_cache.contains_key(v),
        s2.wf(),
        s2 == (ImageState { disk: s2.disk, l2_cache: s.l2_cache.remove(v), ..s }),
        s2.disk == if s.l2_cache[v].1 {
            written(
                s.disk,
                s.l1[v as int] as nat,
                pointer_table_bytes(s.l2_cache[v].0, CLUSTER_USED_FLAG),
            )
        } else {
            s.disk
        },
    ensures
        s2.consistent(),
        s2.same_data(s),
        s2.same_counts(s),
        s2.disk.len() == s.disk.len(),
{
    lemma_consistent_geometry(s);
    let cs = s.cluster_size as int;
    let (table, dirty) = s.l2_cache[v];
    let c = s.l1[v as int];
    assert(s.cluster_of(ClusterUse::L2Table(v as int)) == c);
    assert(s.is_cluster(c));
    lemma_pointer_table_bytes(table, CLUSTER_USED_FLAG);
    lemma_written_agrees(s.disk, c as nat, pointer_table_bytes(table, CLUSTER_USED_FLAG));
    assert(agree_outside(s.disk, s2.disk, c as int, c + cs));
    assert(s2.disk.len() == s.disk.len());
    lemma_write_in_cluster(s, s2.disk, c as int);
    let mid = ImageState { disk: s2.disk, ..s };
    // The table that left the cache is in the file.
    assert(s2.l2_table(v as int) == table) by {
        if dirty {
            assert forall|i: int| 0 <= i < table.len() implies stamped(
                #[trigger] table[i],
                CLUSTER_USED_FLAG,
            ) & L2_TABLE_OFFSET_MASK == table[i] by {
                let e = table[i];
                if e != 0 {
                    let vc = v * s.l2_len() + i;
                    assert(vc / (s.l2_len() as int) == v && vc % (s.l2_len() as int) == i)
                        by (nonlinear_arith)
                        requires
                            vc == v * s.l2_len() + i,
                            0 <= i < s.l2_len(),
                            v >= 0,
                    ;
                    assert(s.entry(vc) == e);
                    assert(s.cluster_of(ClusterUse::Data(vc)) == e);
                    assert(s.is_cluster(e));
                    lemma_offset_reads_back(e, s.cluster_size);
                } else {
                    assert(0u64 & 0x00ff_ffff_ffff_fe00u64 == 0) by (bit_vector);
                }
            }
            lemma_table_reads_back(s.disk, c as nat, table);
        }
    }
    assert forall|i: int| 0 <= i < s.l1.len() implies #[trigger] s2.l2_table(i) == s.l2_table(
        i,
    ) by {
        if i != v {
            if s.l1[i] != 0 {
                assert(s.cluster_of(ClusterUse::L2Table(i)) == s.l1[i]);
            }
            assert(mid.l2_table(i) == s.l2_table(i));
        }
    }
    assert(s2.l2_cache_backed()) by {
        assert forall|k: usize| #[trigger] s2.l2_cache.contains_key(k) implies s2.l1[k as int]
            != 0 && (!s2.l2_cache[k].1 ==> s2.l2_cache[k].0 == pointer_table_at(
            s2.disk,
            s2.l1[k as int] as int,
            s2.l2_len(),
            L2_TABLE_OFFSET_MASK,
        )) by {
            assert(s.l2_cache.contains_key(k));
            let x = s.l1[k as int];
            assert(s.cluster_of(ClusterUse::L2Table(k as int)) == x);
            assert(s.is_cluster(x));
            assert(kept(s.disk, s2.disk, x as int, cs));
            lemma_same_table(s.disk, s2.disk, x as int, s.l2_len(), L2_TABLE_OFFSET_MASK);
        }
    }
    assert(s2.refblock_cache_backed()) by {
        assert forall|k: usize| #[trigger] s2.refblock_cache.contains_key(k) implies s2.ref_table[k as int]
            != 0 && (!s2.refblock_cache[k].1 ==> s2.refblock_cache[k].0 == refcount_block_at(
            s2.disk,
            s2.ref_table[k as int] as int,
            s2.refblock_len(),
        )) by {
            let x = s.ref_table[k as int];
            assert(s.cluster_of(ClusterUse::RefBlock(k as int)) == x);
            assert(s.is_cluster(x));
            assert(kept(s.disk, s2.disk, x as int, cs));
            lemma_same_block(s.disk, s2.disk, x as int, s.refblock_len());
        }
    }
    lemma_same_uses(s, s2);
    assert forall|vc: int| s.entry(vc) != 0 implies #[trigger] kept(
        s.disk,
        s2.disk,
        s.entry(vc) as int,
        cs,
    ) by {
        assert(s.cluster_of(ClusterUse::Data(vc)) == s.entry(vc));
        assert(s.is_cluster(s.entry(vc)));
    }
    lemma_same_bytes(s, s2);
    assert forall|a: u64| #[trigger] s2.refcount(a) == s.refcount(a) by {
        let t = s.refcount_table_index(a);
        if t < s.ref_table.len() {
            if s.ref_table[t] != 0 {
                assert(s.cluster_of(ClusterUse::RefBlock(t)) == s.ref_table[t]);
            }
            assert(mid.refblock(t) == s.refblock(t));
        }
    }
}

/// The L2 table of L1 entry `i` enters the cache as the file holds it: the
/// image is consistent, and maps and holds what it did.
pub proof fn lemma_l2_loaded(s: ImageState, i: usize, s2: ImageState)
    requires
        s.consistent(),
        i < s.l1.len(),
        !s.l2_cache.contains_key(i),
        s.l1[i as int] != 0,
        s2.wf(),
        s2 == (ImageState {
            l2_cache: s.l2_cache.insert(
                i,
                (
                    pointer_table_at(
                        s.disk,
                        s.l1[i as int] as int,
                        s.l2_len(),
                        L2_TABLE_OFFSET_MASK,
                    ),
                    false,
                ),
            ),
            ..s
        }),
    ensures
        s2.consistent(),
        s2.same_data(s),
        s2.same_counts(s),
{
    lemma_consistent_geometry(s);
    assert forall|k: int| 0 <= k < s.l1.len() implies #[trigger] s2.l2_table(k) == s.l2_table(
        k,
    ) by {}
    lemma_same_uses(s, s2);
    assert forall|vc: int| s.entry(vc) != 0 implies #[trigger] kept(
        s.disk,
        s2.disk,
        s.entry(vc) as int,
        s.cluster_size as int,
    ) by {}
    lemma_same_bytes(s, s2);
}

/// An address that is `j` bytes behind `a`, within the cluster of `a`, has
/// the cluster number of `a`, and an offset in it that is `j` greater.
pub proof fn lemma_same_cluster(a: int, j: int, cs: int)
    requires
        a >= 0,
        cs > 0,
        0 <= j < cs - a % cs,
    ensures
        (a + j) / cs == a / cs,
        (a + j) % cs == a % cs + j,
{
    let q = a / cs;
    let r = a % cs;
    assert(a == q * cs + r && 0 <= r < cs) by (nonlinear_arith)
        requires
            q == a / cs,
            r == a % cs,
            cs > 0,
    ;
    vstd::arithmetic::div_mod::lemma_fundamental_div_mod_converse(a + j, cs, q, r + j);
}

/// The bytes of the image from `address` on, as far as they lie in one
/// cluster, are the bytes of the file from the offset of `address` on, or
/// zeros if the cluster has none in the file.
pub proof fn lemma_chunk_bytes(s: ImageState, address: u64, count: int)
    requires
        s.consistent(),
        0 <= count <= s.cluster_size - address % s.cluster_size,
        address + count <= u64::MAX,
    ensures
        forall|j: int|
            0 <= j < count ==> #[trigger] s.byte_at((address + j) as u64) == match s.translate(
                address,
            ) {
                Some(offset) => s.disk[offset + j],
                None => 0u8,
            },
        forall|j: int|
            0 <= j < count ==> #[trigger] s.host_cluster((address + j) as u64) == s.host_cluster(
                address,
            ),
        s.translate(address) matches Some(offset) ==> offset + count <= s.disk.len(),
{
    lemma_consistent_geometry(s);
    let cs = s.cluster_size as int;
    let a = address as int;
    assert forall|j: int| 0 <= j < count implies #[trigger] s.byte_at((address + j) as u64)
        == match s.translate(address) {
        Some(offset) => s.disk[offset + j],
        None => 0u8,
    } by {
        lemma_same_cluster(a, j, cs);
        let a2 = (address + j) as u64;
        assert(a2 as int / cs == a / cs);
        assert(a2 as int % cs == a % cs + j);
        assert(s.host_cluster(a2) == s.host_cluster(address));
        let x = s.host_cluster(address);
        if x != 0 {
            assert(s.cluster_of(ClusterUse::Data(a / cs)) == x);
            assert(s.is_cluster(x));
        }
    }
    assert forall|j: int| 0 <= j < count implies #[trigger] s.host_cluster((address + j) as u64)
        == s.host_cluster(address) by {
        lemma_same_cluster(a, j, cs);
    }
    if s.translate(address) is Some {
        let x = s.host_cluster(address);
        assert(s.cluster_of(ClusterUse::Data(a / cs)) == x);
        assert(s.is_cluster(x));
    }
}

/// A cluster was handed out: the last of the available clusters, or a new
/// one at the end of the file. The image is consistent and maps, holds and
/// counts what it did; the cluster is free, and so is every cluster that was
/// free, with the bytes that it held; the cluster handed out holds zeros.
pub proof fn lemma_allocated(s: ImageState, s2: ImageState, a: u64)
    requires
        s.consistent(),
        s2.wf(),
        s2 == (ImageState { disk: s2.disk, available: s2.available, ..s }),
        s2.disk.len() <= MAX_FILE_LEN,
        a != 0,
        if s.available.len() > 0 {
            &&& a == s.available.last()
            &&& s2.available == s.available.drop_last()
            &&& s2.disk == written(s.disk, a as nat, crate::model::zero_bytes(s.cluster_size as nat))
        } else {
            &&& a == crate::raw_file::round_up(s.disk.len() as int, s.cluster_size as int)
            &&& s2.available == s.available
            &&& s2.disk == resized(s.disk, (a + s.cluster_size) as nat)
        },
    ensures
        s2.consistent(),
        s2.same_data(s),
        s2.same_counts(s),
        s2.is_free(a),
        forall|x: u64|
            s.is_free(x) ==> #[trigger] s2.is_free(x) && x != a && kept(
                s.disk,
                s2.disk,
                x as int,
                s.cluster_size as int,
            ),
        forall|j: int| a <= j < a + s.cluster_size ==> #[trigger] s2.disk[j] == 0u8,
{
    lemma_consistent_geometry(s);
    let cs = s.cluster_size as int;
    assert(a % s.cluster_size == 0 && agree_outside(s.disk, s2.disk, a as int, a + cs)) by {
        if s.available.len() > 0 {
            assert(s.cluster_of(ClusterUse::Available(s.available.len() - 1)) == a);
            assert(s.is_cluster(a));
            lemma_written_agrees(s.disk, a as nat, crate::model::zero_bytes(s.cluster_size as nat));
        } else {
            lemma_round_up(s.disk.len() as int, cs);
        }
    }
    lemma_multiple_ge(a as int, cs);
    lemma_write_in_cluster(s, s2.disk, a as int);
    let mid = ImageState { disk: s2.disk, ..s };
    assert forall|i: int| 0 <= i < s.l1.len() implies #[trigger] s2.l2_table(i) == s.l2_table(
        i,
    ) by {
        if s.l1[i] != 0 {
            assert(s.cluster_of(ClusterUse::L2Table(i)) == s.l1[i]);
            assert(s.is_cluster(s.l1[i]));
            if s.available.len() > 0 {
                assert(s.cluster_of(ClusterUse::Available(s.available.len() - 1)) == a);
            }
        }
        assert(mid.l2_table(i) == s.l2_table(i));
    }
    assert(s2.l2_cache_backed()) by {
        assert forall|k: usize| #[trigger] s2.l2_cache.contains_key(k) implies s2.l1[k as int]
            != 0 && (!s2.l2_cache[k].1 ==> s2.l2_cache[k].0 == pointer_table_at(
            s2.disk,
            s2.l1[k as int] as int,
            s2.l2_len(),
            L2_TABLE_OFFSET_MASK,
        )) by {
            let x = s.l1[k as int];
            assert(s.cluster_of(ClusterUse::L2Table(k as int)) == x);
            assert(s.is_cluster(x));
            if s.available.len() > 0 {
                assert(s.cluster_of(ClusterUse::Available(s.available.len() - 1)) == a);
            }
            assert(kept(s.disk, s2.disk, x as int, cs));
            lemma_same_table(s.disk, s2.disk, x as int, s.l2_len(), L2_TABLE_OFFSET_MASK);
        }
    }
    assert(s2.refblock_cache_backed()) by {
        assert forall|k: usize| #[trigger] s2.refblock_cache.contains_key(k) implies s2.ref_table[k as int]
            != 0 && (!s2.refblock_cache[k].1 ==> s2.refblock_cache[k].0 == refcount_block_at(
            s2.disk,
            s2.ref_table[k as int] as int,
            s2.refblock_len(),
        )) by {
            let x = s.ref_table[k as int];
            assert(s.cluster_of(ClusterUse::RefBlock(k as int)) == x);
            assert(s.is_cluster(x));
            if s.available.len() > 0 {
                assert(s.cluster_of(ClusterUse::Available(s.available.len() - 1)) == a);
            }
            assert(kept(s.disk, s2.disk, x as int, cs));
            lemma_same_block(s.disk, s2.disk, x as int, s.refblock_len());
        }
    }
    lemma_same_uses(s, s2);
    assert forall|vc: int| s.entry(vc) != 0 implies #[trigger] kept(
        s.disk,
        s2.disk,
        s.entry(vc) as int,
        cs,
    ) by {
        assert(s.cluster_of(ClusterUse::Data(vc)) == s.entry(vc));
        assert(s.is_cluster(s.entry(vc)));
        if s.available.len() > 0 {
            assert(s.cluster_of(ClusterUse::Available(s.available.len() - 1)) == a);
        }
    }
    lemma_same_bytes(s, s2);
    assert forall|x: u64| #[trigger] s2.refcount(x) == s.refcount(x) by {
        let t = s.refcount_table_index(x);
        if t < s.ref_table.len() {
            if s.ref_table[t] != 0 {
                assert(s.cluster_of(ClusterUse::RefBlock(t)) == s.ref_table[t]);
                assert(s.is_cluster(s.ref_table[t]));
                if s.available.len() > 0 {
                    assert(s.cluster_of(ClusterUse::Available(s.available.len() - 1)) == a);
                }
            }
            assert(mid.refblock(t) == s.refblock(t));
        }
    }
    assert(s2.is_free(a)) by {
        lemma_multiple_ge(a as int, cs);
        if s.available.len() > 0 {
            assert(s.cluster_of(ClusterUse::Available(s.available.len() - 1)) == a);
            assert(s.is_cluster(a));
        } else {
            lemma_round_up(s.disk.len() as int, cs);
        }
        assert(s2.is_cluster(a));
        assert forall|u: ClusterUse| #[trigger] s2.cluster_of(u) != a by {
            if s.available.len() > 0 {
                let last = ClusterUse::Available(s.available.len() - 1);
                assert(s.cluster_of(last) == a);
                if s2.cluster_of(u) == a {
                    assert(s.cluster_of(u) == a);
                    assert(u == last);
                }
            } else {
                if s2.cluster_of(u) != 0 {
                    assert(s.cluster_of(u) == s2.cluster_of(u));
                    assert(s.is_cluster(s.cluster_of(u)));
                }
            }
        }
    }
    assert forall|x: u64| s.is_free(x) implies #[trigger] s2.is_free(x) && x != a && kept(
        s.disk,
        s2.disk,
        x as int,
        cs,
    ) by {
        if s.available.len() > 0 {
            assert(s.cluster_of(ClusterUse::Available(s.available.len() - 1)) == a);
        }
    }
}

/// A state that differs from a consistent one in the reference-count table,
/// the cached blocks of counts and the list of clusters that blocks have
/// left maps and holds what the other does.
pub proof fn lemma_counts_only(s: ImageState, s2: ImageState)
    requires
        s.consistent(),
        s2 == (ImageState {
            ref_table: s2.ref_table,
            refblock_cache: s2.refblock_cache,
            pending: s2.pending,
            ..s
        }),
    ensures
        s2.same_data(s),
        forall|i: int| 0 <= i < s.l1.len() ==> #[trigger] s2.l2_table(i) == s.l2_table(i),
        forall|vc: int| #[trigger] s2.entry(vc) == s.entry(vc),
{
    assert forall|i: int| 0 <= i < s.l1.len() implies #[trigger] s2.l2_table(i) == s.l2_table(
        i,
    ) by {}
    assert forall|vc: int| #[trigger] s2.entry(vc) == s.entry(vc) by {
        let i = vc / (s.l2_len() as int);
        if 0 <= vc && i < s.l1.len() {
            assert(s2.l2_table(i) == s.l2_table(i));
        }
    }
    assert forall|vc: int| s.entry(vc) != 0 implies #[trigger] kept(
        s.disk,
        s2.disk,
        s.entry(vc) as int,
        s.cluster_size as int,
    ) by {}
    lemma_same_bytes(s, s2);
}

/// The cached block of counts of table entry `v` leaves the cache, after it
/// was written to its cluster if it was dirty: the image is consistent, and
/// maps, holds and counts what it did.
pub proof fn lemma_refblock_evicted(s: ImageState, v: usize, s2: ImageState)
    requires
        s.consistent(),
        s.refblock_cache.contains_key(v),
        s2.wf(),
        s2 == (ImageState { disk: s2.disk, refblock_cache: s.refblock_cache.remove(v), ..s }),
        s2.disk == if s.refblock_cache[v].1 {
            written(
                s.disk,
                s.ref_table[v as int] as nat,
                refcount_block_bytes(s.refblock_cache[v].0),
            )
        } else {
            s.disk
        },
    ensures
        s2.consistent(),
        s2.same_data(s),
        s2.same_counts(s),
{
    lemma_consistent_geometry(s);
    let cs = s.cluster_size as int;
    let (block, dirty) = s.refblock_cache[v];
    let c = s.ref_table[v as int];
    assert(s.cluster_of(ClusterUse::RefBlock(v as int)) == c);
    assert(s.is_cluster(c));
    lemma_refcount_block_bytes(block);
    lemma_written_agrees(s.disk, c as nat, refcount_block_bytes(block));
    assert(agree_outside(s.disk, s2.disk, c as int, c + cs));
    assert(s2.disk.len() == s.disk.len());
    lemma_write_in_cluster(s, s2.disk, c as int);
    let mid = ImageState { disk: s2.disk, ..s };
    assert(s2.refblock(v as int) == block) by {
        if dirty {
            lemma_block_reads_back(s.disk, c as nat, block);
        }
    }
    assert forall|i: int| 0 <= i < s.l1.len() implies #[trigger] s2.l2_table(i) == s.l2_table(
        i,
    ) by {
        if s.l1[i] != 0 {
            assert(s.cluster_of(ClusterUse::L2Table(i)) == s.l1[i]);
        }
        assert(mid.l2_table(i) == s.l2_table(i));
    }
    assert(s2.l2_cache_backed()) by {
        assert forall|k: usize| #[trigger] s2.l2_cache.contains_key(k) implies s2.l1[k as int]
            != 0 && (!s2.l2_cache[k].1 ==> s2.l2_cache[k].0 == pointer_table_at(
            s2.disk,
            s2.l1[k as int] as int,
            s2.l2_len(),
            L2_TABLE_OFFSET_MASK,
        )) by {
            let x = s.l1[k as int];
            assert(s.cluster_of(ClusterUse::L2Table(k as int)) == x);
            assert(s.is_cluster(x));
            assert(kept(s.disk, s2.disk, x as int, cs));
            lemma_same_table(s.disk, s2.disk, x as int, s.l2_len(), L2_TABLE_OFFSET_MASK);
        }
    }
    assert(s2.refblock_cache_backed()) by {
        assert forall|k: usize| #[trigger] s2.refblock_cache.contains_key(k) implies s2.ref_table[k as int]
            != 0 && (!s2.refblock_cache[k].1 ==> s2.refblock_cache[k].0 == refcount_block_at(
            s2.disk,
            s2.ref_table[k as int] as int,
            s2.refblock_len(),
        )) by {
            assert(s.refblock_cache.contains_key(k));
            let x = s.ref_table[k as int];
            assert(s.cluster_of(ClusterUse::RefBlock(k as int)) == x);
            assert(s.is_cluster(x));
            assert(kept(s.disk, s2.disk, x as int, cs));
            lemma_same_block(s.disk, s2.disk, x as int, s.refblock_len());
        }
    }
    lemma_same_uses(s, s2);
    assert forall|vc: int| s.entry(vc) != 0 implies #[trigger] kept(
        s.disk,
        s2.disk,
        s.entry(vc) as int,
        cs,
    ) by {
        assert(s.cluster_of(ClusterUse::Data(vc)) == s.entry(vc));
        assert(s.is_cluster(s.entry(vc)));
    }
    lemma_same_bytes(s, s2);
    assert forall|a: u64| #[trigger] s2.refcount(a) == s.refcount(a) by {
        let t = s.refcount_table_index(a);
        if t < s.ref_table.len() && t != v {
            if s.ref_table[t] != 0 {
                assert(s.cluster_of(ClusterUse::RefBlock(t)) == s.ref_table[t]);
            }
            assert(mid.refblock(t) == s.refblock(t));
        }
    }
}

/// The block of counts of table entry `t` enters the cache as the file
/// holds it: the image is consistent, and maps, holds and counts what it did.
pub proof fn lemma_refblock_loaded(s: ImageState, t: usize, s2: ImageState)
    requires
        s.consistent(),
        t < s.ref_table.len(),
        !s.refblock_cache.contains_key(t),
        s.ref_table[t as int] != 0,
        s2.wf(),
        s2 == (ImageState {
            refblock_cache: s.refblock_cache.insert(
                t,
                (refcount_block_at(s.disk, s.ref_table[t as int] as int, s.refblock_len()), false),
            ),
            ..s
        }),
    ensures
        s2.consistent(),
        s2.same_data(s),
        s2.same_counts(s),
{
    lemma_consistent_geometry(s);
    lemma_counts_only(s, s2);
    lemma_same_uses(s, s2);
    assert forall|a: u64| #[trigger] s2.refcount(a) == s.refcount(a) by {}
}

/// A count is set in a cached block of counts that is dirty, or becomes
/// dirty by it without having been anything else in the file: the image is
/// consistent, and maps and holds what it did.
pub proof fn lemma_refblock_set(s: ImageState, t: usize, s2: ImageState)
    requires
        s.consistent(),
        s.refblock_cache.contains_key(t),
        s2.wf(),
        s2 == (ImageState {
            refblock_cache: s.refblock_cache.insert(t, (s2.refblock_cache[t].0, true)),
            ..s
        }),
    ensures
        s2.consistent(),
        s2.same_data(s),
        s2.uses_from(s, Set::empty()),
        forall|k: int|
            0 <= k < s.ref_table.len() && !s.refblock_cache.contains_key(k as usize)
                ==> #[trigger] s2.refblock(k) == s.refblock(k),
{
    lemma_consistent_geometry(s);
    lemma_counts_only(s, s2);
    lemma_same_uses(s, s2);
}

/// The block of counts of table entry `t`, which had none, is made in the
/// cache, with the free cluster `a` as its cluster: the image is consistent,
/// and maps, holds and counts what it did.
pub proof fn lemma_refblock_created(s: ImageState, t: usize, a: u64, s2: ImageState)
    requires
        s.consistent(),
        t < s.ref_table.len(),
        !s.refblock_cache.contains_key(t),
        s.ref_table[t as int] == 0,
        s.is_free(a),
        s2.wf(),
        s2 == (ImageState {
            ref_table: s.ref_table.update(t as int, a),
            refblock_cache: s.refblock_cache.insert(t, (zero_counts(s.refblock_len()), true)),
            ..s
        }),
    ensures
        s2.consistent(),
        s2.same_data(s),
        forall|x: u64| #[trigger] s2.refcount(x) == s.refcount(x),
        s2.keeps_counts_but(s, set![a]),
        s2.uses_from(s, set![a]),
        forall|x: u64| s.is_free(x) && x != a ==> #[trigger] s2.is_free(x),
{
    lemma_consistent_geometry(s);
    lemma_counts_only(s, s2);
    lemma_reowned(s, s2, ClusterUse::RefBlock(t as int), a, None);
    assert forall|x: u64| #[trigger] s2.refcount(x) == s.refcount(x) by {
        let k = s.refcount_table_index(x);
        if k < s.ref_table.len() {
            assert(s2.refblock(k) == s.refblock(k));
        }
    }
    lemma_owing(s, s2, set![a]);
}

/// The cached block of counts of table entry `t` moves to the free cluster
/// `a`, leaves its cluster to the list of such clusters, and is changed:
/// the image is consistent, and maps and holds what it did.
pub proof fn lemma_refblock_moved(s: ImageState, t: usize, a: u64, s2: ImageState)
    requires
        s.consistent(),
        s.refblock_cache.contains_key(t),
        s.is_free(a),
        s2.wf(),
        s2 == (ImageState {
            ref_table: s.ref_table.update(t as int, a),
            refblock_cache: s.refblock_cache.insert(t, (s2.refblock_cache[t].0, true)),
            pending: s.pending.push(s.ref_table[t as int]),
            ..s
        }),
    ensures
        s2.consistent(),
        s2.same_data(s),
        s2.uses_from(s, set![a, s.ref_table[t as int]]),
        s.ref_table[t as int] != 0,
        forall|k: int|
            0 <= k < s.ref_table.len() && !s.refblock_cache.contains_key(k as usize)
                ==> #[trigger] s2.refblock(k) == s.refblock(k),
{
    lemma_consistent_geometry(s);
    lemma_counts_only(s, s2);
    lemma_reowned(s, s2, ClusterUse::RefBlock(t as int), a, Some(s.ref_table[t as int]));
}

/// Right counts are right with more clusters left out.
pub proof fn lemma_counted_more(s: ImageState, owed: Set<u64>, more: Set<u64>)
    requires
        s.counted_but(owed),
        owed.subset_of(more),
    ensures
        s.counted_but(more),
{
}

/// Two different clusters have different numbers, and so different places
/// for their counts.
pub proof fn lemma_cluster_numbers(x: u64, y: u64, cs: u64)
    requires
        cs > 0,
        x % cs == 0,
        y % cs == 0,
        x != y,
    ensures
        x / cs != y / cs,
{
    vstd::arithmetic::div_mod::lemma_fundamental_div_mod(x as int, cs as int);
    vstd::arithmetic::div_mod::lemma_fundamental_div_mod(y as int, cs as int);
}

/// The count of the cluster at `address` is set in its block, which is
/// cached: every other cluster has the count that it had.
pub proof fn lemma_count_written(s: ImageState, address: u64, count: u16, s2: ImageState)
    requires
        s.wf(),
        s2.wf(),
        s.cluster_size > 0,
        s.refcount_table_index(address) < s.ref_table.len(),
        s.refblock_cache.contains_key(s.refcount_table_index(address) as usize),
        s2.cluster_size == s.cluster_size,
        s2.ref_table.len() == s.ref_table.len(),
        s2.refblock_cache == s.refblock_cache.insert(
            s.refcount_table_index(address) as usize,
            (
                s.refblock_cache[s.refcount_table_index(address) as usize].0.update(
                    s.refcount_block_index(address),
                    count,
                ),
                true,
            ),
        ),
        forall|t: int|
            0 <= t < s.ref_table.len() && !s.refblock_cache.contains_key(t as usize)
                ==> #[trigger] s2.refblock(t) == s.refblock(t),
    ensures
        s2.refcount(address) == count,
        forall|x: u64|
            x / s.cluster_size != address / s.cluster_size ==> #[trigger] s2.refcount(x)
                == s.refcount(x),
{
    let n = s.refblock_len() as int;
    lemma_cluster_size_bounds(s.header.cluster_bits);
    let t0 = s.refcount_table_index(address);
    let b0 = s.refcount_block_index(address);
    assert(0 <= b0 < n);
    assert forall|x: u64| x / s.cluster_size != address / s.cluster_size implies #[trigger] s2.refcount(
        x,
    ) == s.refcount(x) by {
        let t = s.refcount_table_index(x);
        let b = s.refcount_block_index(x);
        if t < s.ref_table.len() {
            if t == t0 {
                assert(b != b0) by {
                    vstd::arithmetic::div_mod::lemma_fundamental_div_mod(
                        (x / s.cluster_size) as int,
                        n,
                    );
                    vstd::arithmetic::div_mod::lemma_fundamental_div_mod(
                        (address / s.cluster_size) as int,
                        n,
                    );
                }
            } else if s.refblock_cache.contains_key(t as usize) {
            } else {
                assert(s2.refblock(t) == s.refblock(t));
            }
        }
    }
}

/// After the count of the cluster at `address` was set to a count that can
/// be set for it, and the clusters in `more` got or left a use, the counts
/// are right wherever they were, but for the clusters in `more`, and right
/// for the cluster at `address`.
pub proof fn lemma_count_settled(
    s: ImageState,
    address: u64,
    count: u16,
    s2: ImageState,
    more: Set<u64>,
    owed: Set<u64>,
)
    requires
        s.consistent(),
        s.can_count(address, count),
        s.counted_but(owed),
        s2.cluster_size == s.cluster_size,
        s2.refcount(address) == count,
        forall|x: u64|
            x / s.cluster_size != address / s.cluster_size ==> #[trigger] s2.refcount(x)
                == s.refcount(x),
        forall|u: ClusterUse|
            #[trigger] s2.cluster_of(u) != 0 ==> more.contains(s2.cluster_of(u)) || s2.cluster_of(
                u,
            ) == s.cluster_of(u),
    ensures
        s2.counted_but(owed.remove(address).union(more)),
{
    lemma_consistent_geometry(s);
    let d2 = owed.remove(address).union(more);
    assert forall|u: ClusterUse|
        #[trigger] s2.cluster_of(u) != 0 && !d2.contains(s2.cluster_of(u)) implies if u.is_live() {
        s2.refcount(s2.cluster_of(u)) >= 1
    } else {
        s2.refcount(s2.cluster_of(u)) == 0
    } by {
        let y = s2.cluster_of(u);
        assert(y == s.cluster_of(u));
        if y == address {
        } else {
            assert(s.is_cluster(y));
            lemma_cluster_numbers(y, address, s.cluster_size);
            assert(s2.refcount(y) == s.refcount(y));
            assert(!owed.contains(y));
        }
    }
}

/// The index of the block that counts a cluster is not negative.
pub proof fn lemma_index_not_negative(s: ImageState, a: u64)
    requires
        s.consistent(),
    ensures
        0 <= s.refcount_table_index(a),
        0 <= s.refcount_block_index(a) < s.refblock_len(),
{
    lemma_consistent_geometry(s);
    vstd::arithmetic::div_mod::lemma_div_pos_is_pos(a as int, s.cluster_size as int);
    vstd::arithmetic::div_mod::lemma_div_pos_is_pos(
        (a / s.cluster_size) as int,
        s.refblock_len() as int,
    );
}

/// A count of one can be set for the cluster of a block of counts that is
/// dirty in the cache.
pub proof fn lemma_can_count_refblock(s: ImageState, t: usize)
    requires
        s.consistent(),
        t < s.ref_table.len(),
        s.ref_table[t as int] != 0,
        s.refblock_cache.contains_key(t),
        s.refblock_cache[t].1,
    ensures
        s.can_count(s.ref_table[t as int], 1),
{
    let a = s.ref_table[t as int];
    let me = ClusterUse::RefBlock(t as int);
    assert(s.cluster_of(me) == a);
    assert(s.is_cluster(a));
    assert forall|k: int| 0 <= k < s.available.len() implies #[trigger] s.available[k] != a by {
        assert(s.cluster_of(ClusterUse::Available(k)) == s.available[k]);
    }
    assert forall|u: ClusterUse| #[trigger] s.cluster_of(u) == a && a != 0 implies if u.is_live() {
        1u16 >= 1
    } else {
        1u16 == 0
    } by {
        assert(u == me);
    }
    let t2 = s.refcount_table_index(a);
    lemma_index_not_negative(s, a);
    if t2 < s.ref_table.len() && s.ref_table[t2] == a {
        assert(s.cluster_of(ClusterUse::RefBlock(t2)) == a);
        assert(ClusterUse::RefBlock(t2) == me);
    }
}

/// A count of one can be set for the cluster of an L2 table.
pub proof fn lemma_can_count_l2(s: ImageState, i: int)
    requires
        s.consistent(),
        0 <= i < s.l1.len(),
        s.l1[i] != 0,
    ensures
        s.can_count(s.l1[i], 1),
{
    lemma_can_count_use(s, ClusterUse::L2Table(i));
}

/// A count of one can be set for the cluster of a use that is not a block
/// of counts nor a place in a list.
pub proof fn lemma_can_count_use(s: ImageState, me: ClusterUse)
    requires
        s.consistent(),
        s.cluster_of(me) != 0,
        me is L2Table || me is Data,
    ensures
        s.can_count(s.cluster_of(me), 1),
{
    let a = s.cluster_of(me);
    assert(s.is_cluster(a));
    assert forall|k: int| 0 <= k < s.available.len() implies #[trigger] s.available[k] != a by {
        assert(s.cluster_of(ClusterUse::Available(k)) == s.available[k]);
    }
    assert forall|u: ClusterUse| #[trigger] s.cluster_of(u) == a && a != 0 implies if u.is_live() {
        1u16 >= 1
    } else {
        1u16 == 0
    } by {
        assert(u == me);
    }
    let t2 = s.refcount_table_index(a);
    lemma_index_not_negative(s, a);
    if t2 < s.ref_table.len() && s.ref_table[t2] == a {
        assert(s.cluster_of(ClusterUse::RefBlock(t2)) == a);
        assert(ClusterUse::RefBlock(t2) == me);
    }
}

/// A count of zero can be set for a cluster that a block has left.
pub proof fn lemma_can_count_pending(s: ImageState, k: int)
    requires
        s.consistent(),
        0 <= k < s.pending.len(),
    ensures
        s.can_count(s.pending[k], 0),
{
    let a = s.pending[k];
    let me = ClusterUse::Pending(k);
    assert(s.cluster_of(me) == a);
    assert(s.is_cluster(a));
    assert forall|j: int| 0 <= j < s.available.len() implies #[trigger] s.available[j] != a by {
        assert(s.cluster_of(ClusterUse::Available(j)) == s.available[j]);
    }
    assert forall|u: ClusterUse| #[trigger] s.cluster_of(u) == a && a != 0 implies if u.is_live() {
        0u16 >= 1
    } else {
        0u16 == 0
    } by {
        assert(u == me);
    }
    let t2 = s.refcount_table_index(a);
    lemma_index_not_negative(s, a);
    if t2 < s.ref_table.len() && s.ref_table[t2] == a {
        assert(s.cluster_of(ClusterUse::RefBlock(t2)) == a);
        assert(ClusterUse::RefBlock(t2) == me);
    }
}

/// A count that can be set can still be set after a step that leaves the
/// file as long or longer, takes no use from a cluster but from available
/// ones, gives the cluster at the address no use, and leaves the block that
/// holds the count where and as it is, if it is in the cache.
pub proof fn lemma_can_count_kept(s: ImageState, s2: ImageState, address: u64, count: u16)
    requires
        s.consistent(),
        s2.consistent(),
        s.can_count(address, count),
        s2.cluster_size == s.cluster_size,
        s2.header == s.header,
        s2.l1.len() == s.l1.len(),
        s2.ref_table.len() == s.ref_table.len(),
        s2.disk.len() >= s.disk.len(),
        forall|u: ClusterUse|
            #[trigger] s2.cluster_of(u) == address && address != 0 ==> s.cluster_of(u) == address,
        forall|u: ClusterUse|
            #[trigger] s.cluster_of(u) == address && address != 0 && !(u is Available)
                ==> s2.cluster_of(u) == address,
        ({
            let t = s.refcount_table_index(address);
            t < s.ref_table.len() && s2.ref_table[t] == address && address != 0
                ==> s2.refblock_cache.contains_key(t as usize) && s2.refblock_cache[t as usize].1
        }),
    ensures
        s2.can_count(address, count),
{
    lemma_consistent_geometry(s);
    lemma_index_not_negative(s, address);
    assert(!s2.is_free(address)) by {
        if s2.is_free(address) {
            assert(s.is_cluster(address));
            assert(address != 0);
            assert forall|u: ClusterUse| #[trigger] s.cluster_of(u) != address by {
                if s.cluster_of(u) == address {
                    if u is Available {
                        let k = u->Available_0;
                        assert(0 <= k < s.available.len());
                        assert(s.available[k] != address);
                    } else {
                        assert(s2.cluster_of(u) == address);
                    }
                }
            }
        }
    }
    assert forall|k: int| 0 <= k < s2.available.len() implies #[trigger] s2.available[k]
        != address by {
        if s2.available[k] == address {
            assert(s2.cluster_of(ClusterUse::Available(k)) == address);
            assert(s.cluster_of(ClusterUse::Available(k)) == address);
        }
    }
}

/// One use gets the free cluster `a`; the cluster that it had, if it is
/// given, goes to the end of the list of clusters that blocks have left; all
/// other uses keep their clusters. Then every cluster in use is a cluster
/// that can be used, and no cluster has two uses. This is the part of the
/// consistency of `s2` that speaks of uses.
pub proof fn lemma_reowned(s: ImageState, s2: ImageState, moved: ClusterUse, a: u64, left: Option<u64>)
    requires
        s.consistent(),
        s2.wf(),
        s2.header == s.header,
        s2.cluster_size == s.cluster_size,
        s2.disk == s.disk,
        s2.l1.len() == s.l1.len(),
        s2.ref_table.len() == s.ref_table.len(),
        s2.available == s.available,
        s.is_free(a),
        s2.cluster_of(moved) == a,
        !(moved is Pending),
        match left {
            Some(old) => old != 0 && old == s.cluster_of(moved) && s2.pending == s.pending.push(
                old,
            ),
            None => s.cluster_of(moved) == 0 && s2.pending == s.pending,
        },
        forall|u: ClusterUse|
            u != moved && !(u is Pending) ==> #[trigger] s2.cluster_of(u) == s.cluster_of(u),
        s2.l2_cache_backed(),
        s2.refblock_cache_backed(),
    ensures
        s2.consistent(),
        forall|x: u64| s.is_free(x) && x != a ==> #[trigger] s2.is_free(x),
        forall|u: ClusterUse|
            #[trigger] s2.cluster_of(u) != 0 ==> s2.cluster_of(u) == a || (left is Some
                && s2.cluster_of(u) == left.unwrap() && u == ClusterUse::Pending(
                s.pending.len() as int,
            )) || s2.cluster_of(u) == s.cluster_of(u),
{
    lemma_consistent_geometry(s);
    let n = s.pending.len() as int;
    assert forall|u: ClusterUse| #[trigger] s2.cluster_of(u) != 0 implies (if u == moved {
        s2.cluster_of(u) == a
    } else if left is Some && u == ClusterUse::Pending(n) {
        s2.cluster_of(u) == s.cluster_of(moved)
    } else {
        s2.cluster_of(u) == s.cluster_of(u)
    }) by {
        match u {
            ClusterUse::Pending(k) => {
                if left is Some {
                    if k == n {
                    } else if 0 <= k < n {
                        assert(s2.pending[k] == s.pending[k]);
                    }
                }
            },
            _ => {},
        }
    }
    assert forall|x: u64| s.is_cluster(x) implies #[trigger] s2.is_cluster(x) by {}
    assert forall|u: ClusterUse| #[trigger] s2.cluster_of(u) != 0 implies s2.is_cluster(
        s2.cluster_of(u),
    ) by {
        if u == moved {
        } else if left is Some && u == ClusterUse::Pending(n) {
            assert(s.is_cluster(s.cluster_of(moved)));
        } else {
            assert(s.is_cluster(s.cluster_of(u)));
        }
    }
    assert forall|u1: ClusterUse, u2: ClusterUse|
        #[trigger] s2.cluster_of(u1) != 0 && s2.cluster_of(u1) == #[trigger] s2.cluster_of(
            u2,
        ) implies u1 == u2 by {
        let last = ClusterUse::Pending(n);
        let c1 = s2.cluster_of(u1);
        assert(s.cluster_of(moved) != a);
        assert(s.cluster_of(u1) != a);
        assert(s.cluster_of(u2) != a);
        if u1 == moved {
            if u2 != moved {
                if left is Some && u2 == last {
                } else {
                    assert(s2.cluster_of(u2) == s.cluster_of(u2));
                }
            }
        } else if left is Some && u1 == last {
            if u2 == moved {
            } else if u2 == last {
            } else {
                assert(s2.cluster_of(u2) == s.cluster_of(u2));
                assert(s.cluster_of(u2) == s.cluster_of(moved));
            }
        } else {
            assert(c1 == s.cluster_of(u1));
            if u2 == moved {
            } else if left is Some && u2 == last {
                assert(s.cluster_of(u1) == s.cluster_of(moved));
            } else {
                assert(s2.cluster_of(u2) == s.cluster_of(u2));
            }
        }
    }
    assert forall|x: u64| s.is_free(x) && x != a implies #[trigger] s2.is_free(x) by {
        assert forall|u: ClusterUse| #[trigger] s2.cluster_of(u) != x by {
            assert(s.cluster_of(u) != x);
            assert(s.cluster_of(moved) != x);
        }
    }
    assert(s2.l1_covers());
    assert(s2.tables_in_file());
}

/// The L2 table of L1 entry `i`, which had none, is made in the cache, with
/// the free cluster `a` as its cluster: the image is consistent, and maps,
/// holds and counts what it did.
pub proof fn lemma_l2_created(s: ImageState, i: usize, a: u64, s2: ImageState)
    requires
        s.consistent(),
        i < s.l1.len(),
        !s.l2_cache.contains_key(i),
        s.l1[i as int] == 0,
        s.is_free(a),
        s2.wf(),
        s2 == (ImageState {
            l1: s.l1.update(i as int, a),
            l2_cache: s.l2_cache.insert(i, (zero_table(s.l2_len()), true)),
            ..s
        }),
    ensures
        s2.consistent(),
        s2.same_data(s),
        forall|x: u64| #[trigger] s2.refcount(x) == s.refcount(x),
        s2.keeps_counts_but(s, set![a]),
        s2.uses_from(s, set![a]),
        forall|x: u64| s.is_free(x) && x != a ==> #[trigger] s2.is_free(x),
{
    lemma_consistent_geometry(s);
    assert forall|k: int| 0 <= k < s.l1.len() implies #[trigger] s2.l2_table(k) == s.l2_table(
        k,
    ) by {}
    assert forall|vc: int| #[trigger] s2.entry(vc) == s.entry(vc) by {
        let k = vc / (s.l2_len() as int);
        if 0 <= vc && k < s.l1.len() {
            assert(s2.l2_table(k) == s.l2_table(k));
        }
    }
    assert forall|vc: int| s.entry(vc) != 0 implies #[trigger] kept(
        s.disk,
        s2.disk,
        s.entry(vc) as int,
        s.cluster_size as int,
    ) by {}
    lemma_same_bytes(s, s2);
    assert forall|x: u64| #[trigger] s2.refcount(x) == s.refcount(x) by {}
    lemma_reowned(s, s2, ClusterUse::L2Table(i as int), a, None);
    lemma_owing(s, s2, set![a]);
}

/// Entry `j` of the cached L2 table of L1 entry `i`, which was zero, is set
/// to the free cluster `data`. If the table was clean, it moves to the free
/// cluster `moved_to` and leaves its cluster to the list of such clusters.
/// The image is consistent; the cluster of the image that the entry stands
/// for has the cluster `data`, and every other cluster of the image maps and
/// holds what it did.
pub proof fn lemma_mapped(
    s: ImageState,
    i: usize,
    j: int,
    data: u64,
    moved_to: Option<u64>,
    s2: ImageState,
)
    requires
        s.consistent(),
        s.l2_cache.contains_key(i),
        0 <= j < s.l2_len(),
        s.l2_cache[i].0[j] == 0,
        s.is_free(data),
        match moved_to {
            Some(n) => s.is_free(n) && n != data && s2.l1 == s.l1.update(i as int, n)
                && s2.pending == s.pending.push(s.l1[i as int]),
            None => s.l2_cache[i].1 && s2.l1 == s.l1 && s2.pending == s.pending,
        },
        s2 == (ImageState {
            l1: s2.l1,
            pending: s2.pending,
            l2_cache: s.l2_cache.insert(i, (s.l2_cache[i].0.update(j, data), true)),
            ..s
        }),
    ensures
        s2.wf(),
        s2.consistent(),
        forall|x: u64| #[trigger] s2.refcount(x) == s.refcount(x),
        s2.keeps_counts_but(
            s,
            match moved_to {
                Some(to) => set![data, to, s.l1[i as int]],
                None => set![data],
            },
        ),
        s2.entry(i * s.l2_len() + j) == data,
        s.entry(i * s.l2_len() + j) == 0,
        forall|vc: int| vc != i * s.l2_len() + j ==> #[trigger] s2.entry(vc) == s.entry(vc),
        forall|a: u64|
            (a / s.cluster_size) as int != i * s.l2_len() + j ==> #[trigger] s2.byte_at(a)
                == s.byte_at(a),
{
    lemma_consistent_geometry(s);
    let n = s.l2_len() as int;
    let vc0 = i * n + j;
    assert(vc0 / n == i && vc0 % n == j) by (nonlinear_arith)
        requires
            vc0 == i * n + j,
            0 <= j < n,
            i >= 0,
    ;
    let table = s.l2_cache[i].0.update(j, data);
    let m = ImageState { l2_cache: s.l2_cache.insert(i, (table, true)), ..s };
    assert(m.wf()) by {
        assert forall|k: usize, e: int|
            m.l2_cache.contains_key(k) && 0 <= e < m.l2_len() implies #[trigger] m.l2_cache[k].0[e]
            + m.cluster_size <= u64::MAX by {
            if k == i && e == j {
            } else if k == i {
                assert(s.l2_cache[k].0[e] + s.cluster_size <= u64::MAX);
            } else {
                assert(s.l2_cache[k].0[e] + s.cluster_size <= u64::MAX);
            }
        }
    }
    assert forall|vc: int| vc != vc0 implies #[trigger] m.entry(vc) == s.entry(vc) by {
        let k = vc / n;
        if 0 <= vc && k < s.l1.len() {
            if k == i {
                assert(vc % n != j) by {
                    if vc % n == j {
                        vstd::arithmetic::div_mod::lemma_fundamental_div_mod(vc, n);
                        assert(vc == n * (vc / n) + vc % n);
                        assert(n * i == i * n) by (nonlinear_arith);
                    }
                }
            }
        }
    }
    assert(m.entry(vc0) == data);
    assert(s.entry(vc0) == 0);
    assert(m.l2_cache_backed()) by {
        assert forall|k: usize| #[trigger] m.l2_cache.contains_key(k) implies m.l1[k as int] != 0
            && (!m.l2_cache[k].1 ==> m.l2_cache[k].0 == pointer_table_at(
            m.disk,
            m.l1[k as int] as int,
            m.l2_len(),
            L2_TABLE_OFFSET_MASK,
        )) by {
            if k != i {
                assert(s.l2_cache.contains_key(k));
            }
        }
    }
    assert(s.cluster_of(ClusterUse::Data(vc0)) == 0);
    assert forall|u: ClusterUse|
        u != ClusterUse::Data(vc0) && !(u is Pending) implies #[trigger] m.cluster_of(u)
        == s.cluster_of(u) by {
        match u {
            ClusterUse::Data(vc) => {
                assert(m.entry(vc) == s.entry(vc));
            },
            _ => {},
        }
    }
    lemma_reowned(s, m, ClusterUse::Data(vc0), data, None);
    assert forall|x: u64| #[trigger] m.refcount(x) == s.refcount(x) by {}
    assert forall|a: u64| (a / s.cluster_size) as int != vc0 implies #[trigger] m.byte_at(a)
        == s.byte_at(a) by {
        assert(m.entry((a / s.cluster_size) as int) == s.entry((a / s.cluster_size) as int));
    }
    match moved_to {
        Some(to) => {
            assert(s.cluster_of(ClusterUse::L2Table(i as int)) == s.l1[i as int]);
            assert(m.is_free(to));
            assert(s2.wf());
            assert forall|k: int| 0 <= k < s.l1.len() implies #[trigger] s2.l2_table(k)
                == m.l2_table(k) by {}
            assert forall|vc: int| #[trigger] s2.entry(vc) == m.entry(vc) by {
                let k = vc / n;
                if 0 <= vc && k < s.l1.len() {
                    assert(s2.l2_table(k) == m.l2_table(k));
                }
            }
            assert(s2.l2_cache_backed()) by {
                assert forall|k: usize| #[trigger] s2.l2_cache.contains_key(k) implies s2.l1[k as int]
                    != 0 && (!s2.l2_cache[k].1 ==> s2.l2_cache[k].0 == pointer_table_at(
                    s2.disk,
                    s2.l1[k as int] as int,
                    s2.l2_len(),
                    L2_TABLE_OFFSET_MASK,
                )) by {
                    if k != i {
                        assert(m.l2_cache.contains_key(k));
                    }
                }
            }
            assert forall|u: ClusterUse|
                u != ClusterUse::L2Table(i as int)
                    && !(u is Pending) implies #[trigger] s2.cluster_of(
                u,
            ) == m.cluster_of(u) by {
                match u {
                    ClusterUse::Data(vc) => {
                        assert(s2.entry(vc) == m.entry(vc));
                    },
                    _ => {},
                }
            }
            lemma_reowned(m, s2, ClusterUse::L2Table(i as int), to, Some(s.l1[i as int]));
            assert forall|x: u64| #[trigger] s2.refcount(x) == m.refcount(x) by {}
            assert forall|a: u64| #[trigger] s2.byte_at(a) == m.byte_at(a) by {
                assert(s2.entry((a / s.cluster_size) as int) == m.entry(
                    (a / s.cluster_size) as int,
                ));
            }
        },
        None => {
            assert(s2 == m);
        },
    }
}

/// Bytes are written to the file at the offset of `address`, within the
/// cluster of `address`: the image is consistent, maps and counts what it
/// did, and holds the bytes at the addresses from `address` on and what it
/// did elsewhere.
pub proof fn lemma_data_written(s: ImageState, address: u64, bytes: Seq<u8>, s2: ImageState)
    requires
        s.consistent(),
        s.translate(address) is Some,
        bytes.len() <= s.cluster_size - address % s.cluster_size,
        address + bytes.len() <= u64::MAX,
        s2 == (ImageState {
            disk: written(s.disk, s.translate(address).unwrap() as nat, bytes),
            ..s
        }),
    ensures
        s2.consistent(),
        s2.same_counts(s),
        forall|vc: int| #[trigger] s2.entry(vc) == s.entry(vc),
        forall|a: u64|
            #[trigger] s2.byte_at(a) == if address <= a < address + bytes.len() {
                bytes[a - address]
            } else {
                s.byte_at(a)
            },
{
    lemma_consistent_geometry(s);
    let cs = s.cluster_size as int;
    let vc0 = (address / s.cluster_size) as int;
    let c = s.host_cluster(address);
    let off = s.translate(address).unwrap();
    assert(s.cluster_of(ClusterUse::Data(vc0)) == c);
    assert(s.is_cluster(c));
    lemma_written_agrees(s.disk, off as nat, bytes);
    assert(agree_outside(s.disk, s2.disk, c as int, c + cs));
    assert(s2.disk.len() == s.disk.len());
    lemma_write_in_cluster(s, s2.disk, c as int);
    assert forall|i: int| 0 <= i < s.l1.len() implies #[trigger] s2.l2_table(i) == s.l2_table(
        i,
    ) by {
        if s.l1[i] != 0 {
            assert(s.cluster_of(ClusterUse::L2Table(i)) == s.l1[i]);
        }
    }
    assert(s2.l2_cache_backed()) by {
        assert forall|k: usize| #[trigger] s2.l2_cache.contains_key(k) implies s2.l1[k as int]
            != 0 && (!s2.l2_cache[k].1 ==> s2.l2_cache[k].0 == pointer_table_at(
            s2.disk,
            s2.l1[k as int] as int,
            s2.l2_len(),
            L2_TABLE_OFFSET_MASK,
        )) by {
            let x = s.l1[k as int];
            assert(s.cluster_of(ClusterUse::L2Table(k as int)) == x);
            assert(s.is_cluster(x));
            assert(kept(s.disk, s2.disk, x as int, cs));
            lemma_same_table(s.disk, s2.disk, x as int, s.l2_len(), L2_TABLE_OFFSET_MASK);
        }
    }
    assert(s2.refblock_cache_backed()) by {
        assert forall|k: usize| #[trigger] s2.refblock_cache.contains_key(k) implies s2.ref_table[k as int]
            != 0 && (!s2.refblock_cache[k].1 ==> s2.refblock_cache[k].0 == refcount_block_at(
            s2.disk,
            s2.ref_table[k as int] as int,
            s2.refblock_len(),
        )) by {
            let x = s.ref_table[k as int];
            assert(s.cluster_of(ClusterUse::RefBlock(k as int)) == x);
            assert(s.is_cluster(x));
            assert(kept(s.disk, s2.disk, x as int, cs));
            lemma_same_block(s.disk, s2.disk, x as int, s.refblock_len());
        }
    }
    lemma_same_uses(s, s2);
    assert forall|x: u64| #[trigger] s2.refcount(x) == s.refcount(x) by {
        let t = s.refcount_table_index(x);
        if t < s.ref_table.len() {
            if s.ref_table[t] != 0 {
                assert(s.cluster_of(ClusterUse::RefBlock(t)) == s.ref_table[t]);
            }
        }
    }
    assert forall|a: u64|
        #[trigger] s2.byte_at(a) == if address <= a < address + bytes.len() {
            bytes[a - address]
        } else {
            s.byte_at(a)
        } by {
        let vc = (a / s.cluster_size) as int;
        assert(s2.entry(vc) == s.entry(vc));
        let x = s.entry(vc);
        if x != 0 {
            assert(s.cluster_of(ClusterUse::Data(vc)) == x);
            assert(s.is_cluster(x));
            let at = (x + a % s.cluster_size) as int;
            if vc == vc0 {
                vstd::arithmetic::div_mod::lemma_fundamental_div_mod(a as int, cs);
                vstd::arithmetic::div_mod::lemma_fundamental_div_mod(address as int, cs);
                assert(a as int / cs == address as int / cs);
                assert(cs * (a as int / cs) == cs * (address as int / cs));
                assert(a as int - a as int % cs == address as int - address as int % cs);
                assert(x == c);
                assert(at - off == a as int - address as int);
            } else {
                if address <= a < address + bytes.len() {
                    lemma_same_cluster(address as int, a - address, cs);
                }
                assert(x != c);
                assert(kept(s.disk, s2.disk, x as int, cs));
                assert(s2.disk[at] == s.disk[at]);
            }
        } else {
            if vc == vc0 {
                assert(false);
            }
            if address <= a < address + bytes.len() {
                lemma_same_cluster(address as int, a - address, cs);
            }
        }
    }
}

/// One more part of a write: after `done` was written at `position`, the
/// cluster of the next address `position + done.len()` gets a cluster of the
/// file if it had none (`s1`), and `chunk` is written there, within that
/// cluster (`s2`). Then `done` and `chunk` together are written.
pub proof fn lemma_write_progress(
    start: ImageState,
    s: ImageState,
    s1: ImageState,
    s2: ImageState,
    position: u64,
    done: Seq<u8>,
    chunk: Seq<u8>,
)
    requires
        512 <= start.cluster_size,
        s.holds_written(start, position, done),
        position + done.len() + chunk.len() <= u64::MAX,
        s1.same_data_but(s, ((position + done.len()) / (start.cluster_size as int))),
        chunk.len() <= start.cluster_size - (position + done.len()) % (start.cluster_size as int),
        s2.header == s1.header,
        s2.cluster_size == s1.cluster_size,
        forall|vc: int| #[trigger] s2.entry(vc) == s1.entry(vc),
        forall|a: u64|
            #[trigger] s2.byte_at(a) == if position + done.len() <= a < position + done.len()
                + chunk.len() {
                chunk[a - (position + done.len())]
            } else {
                s1.byte_at(a)
            },
    ensures
        s2.holds_written(start, position, done + chunk),
{
    let cs = start.cluster_size as int;
    let curr = position + done.len();
    let vc0 = curr / cs;
    let all = done + chunk;
    assert(s.header == start.header && s.cluster_size == start.cluster_size);
    assert(s1.header == s.header && s1.cluster_size == s.cluster_size);
    assert(s2.header == start.header && s2.cluster_size == start.cluster_size);
    assert(all.len() == done.len() + chunk.len());
    assert forall|a: u64| position <= a < position + all.len() implies #[trigger] s2.byte_at(a)
        == all[a - position] && s2.host_cluster(a) != 0 by {
        let vc = (a / s.cluster_size) as int;
        assert(s2.entry(vc) == s1.entry(vc));
        if a < curr {
            assert(s.byte_at(a) == done[a - position] && s.host_cluster(a) != 0);
            if vc == vc0 {
                assert(s1.same_data(s));
            }
            assert(s1.byte_at(a) == s.byte_at(a));
            assert(s1.entry(vc) == s.entry(vc));
        } else {
            lemma_same_cluster(curr, a - curr, cs);
        }
    }
    assert forall|vc: int| start.entry(vc) != 0 implies #[trigger] s2.entry(vc) == start.entry(
        vc,
    ) by {
        assert(s.entry(vc) == start.entry(vc));
        assert(s2.entry(vc) == s1.entry(vc));
        if vc == vc0 {
            assert(s1.same_data(s));
        }
        assert(s1.entry(vc) == s.entry(vc));
    }
    assert forall|a: u64| !(position <= a < position + all.len()) implies #[trigger] s2.byte_at(a)
        == start.byte_at(a) by {
        assert(s2.byte_at(a) == s1.byte_at(a));
        assert(s1.byte_at(a) == s.byte_at(a));
        assert(s.byte_at(a) == start.byte_at(a));
    }
}

/// A state that maps and holds what a state does that is `start` after a
/// write, is `start` after that write.
pub proof fn lemma_same_data_written(
    s2: ImageState,
    s: ImageState,
    start: ImageState,
    position: u64,
    data: Seq<u8>,
)
    requires
        s2.same_data(s),
        s.holds_written(start, position, data),
    ensures
        s2.holds_written(start, position, data),
{
    assert forall|a: u64| position <= a < position + data.len() implies #[trigger] s2.byte_at(a)
        == data[a - position] && s2.host_cluster(a) != 0 by {
        assert(s2.byte_at(a) == s.byte_at(a));
        assert(s2.entry((a / s.cluster_size) as int) == s.entry((a / s.cluster_size) as int));
    }
    assert forall|vc: int| start.entry(vc) != 0 implies #[trigger] s2.entry(vc) == start.entry(
        vc,
    ) by {
        assert(s2.entry(vc) == s.entry(vc));
    }
    assert forall|a: u64| !(position <= a < position + data.len()) implies #[trigger] s2.byte_at(a)
        == start.byte_at(a) by {
        assert(s2.byte_at(a) == s.byte_at(a));
    }
}

/// The cached L2 table of L1 entry `k` is written to its cluster and is
/// clean: the image is consistent, and maps, holds and counts what it did.
pub proof fn lemma_l2_written_back(s: ImageState, k: usize, s2: ImageState)
    requires
        s.consistent(),
        s.l2_cache.contains_key(k),
        s2.wf(),
        s2 == (ImageState {
            disk: written(
                s.disk,
                s.l1[k as int] as nat,
                pointer_table_bytes(s.l2_cache[k].0, CLUSTER_USED_FLAG),
            ),
            l2_cache: s.l2_cache.insert(k, (s.l2_cache[k].0, false)),
            ..s
        }),
    ensures
        s2.consistent(),
        s2.same_data(s),
        s2.same_counts(s),
{
    lemma_consistent_geometry(s);
    let dirty_first = ImageState {
        l2_cache: s.l2_cache.insert(k, (s.l2_cache[k].0, true)),
        ..s
    };
    assert(dirty_first.wf());
    assert forall|i: int| 0 <= i < s.l1.len() implies #[trigger] dirty_first.l2_table(i)
        == s.l2_table(i) by {}
    lemma_same_uses(s, dirty_first);
    assert forall|vc: int| s.entry(vc) != 0 implies #[trigger] kept(
        s.disk,
        dirty_first.disk,
        s.entry(vc) as int,
        s.cluster_size as int,
    ) by {}
    lemma_same_bytes(s, dirty_first);
    assert forall|a: u64| #[trigger] dirty_first.refcount(a) == s.refcount(a) by {}
    let gone = ImageState { l2_cache: s.l2_cache.remove(k), ..s2 };
    assert(gone.wf());
    assert(gone.l2_cache =~= dirty_first.l2_cache.remove(k));
    lemma_l2_evicted(dirty_first, k, gone);
    lemma_same_data_trans(gone, dirty_first, s);
    assert(gone.l2_table(k as int) == s.l2_table(k as int)) by {
        assert forall|j: int| 0 <= j < s.l2_len() implies gone.l2_table(k as int)[j] == s.l2_table(
            k as int,
        )[j] by {
            let vc = k * s.l2_len() + j;
            assert(vc / (s.l2_len() as int) == k && vc % (s.l2_len() as int) == j)
                by (nonlinear_arith)
                requires
                    vc == k * s.l2_len() + j,
                    0 <= j < s.l2_len(),
                    k >= 0,
            ;
            assert(gone.entry(vc) == s.entry(vc));
        }
        assert(s.cluster_of(ClusterUse::L2Table(k as int)) == s.l1[k as int]);
        assert(gone.l2_table(k as int).len() == s.l2_len());
        assert(gone.l2_table(k as int) =~= s.l2_table(k as int));
    }
    assert(s2.l2_cache =~= gone.l2_cache.insert(
        k,
        (
            pointer_table_at(
                gone.disk,
                gone.l1[k as int] as int,
                gone.l2_len(),
                L2_TABLE_OFFSET_MASK,
            ),
            false,
        ),
    ));
    lemma_l2_loaded(gone, k, s2);
    lemma_same_data_trans(s2, gone, s);
    assert forall|a: u64| #[trigger] s2.refcount(a) == s.refcount(a) by {
        assert(s2.refcount(a) == gone.refcount(a));
        assert(gone.refcount(a) == dirty_first.refcount(a));
    }
}

/// The cached block of counts of table entry `k` is written to its cluster
/// and is clean: the image is consistent, and maps, holds and counts what it
/// did.
pub proof fn lemma_refblock_written_back(s: ImageState, k: usize, s2: ImageState)
    requires
        s.consistent(),
        s.refblock_cache.contains_key(k),
        s2.wf(),
        s2 == (ImageState {
            disk: written(
                s.disk,
                s.ref_table[k as int] as nat,
                refcount_block_bytes(s.refblock_cache[k].0),
            ),
            refblock_cache: s.refblock_cache.insert(k, (s.refblock_cache[k].0, false)),
            ..s
        }),
    ensures
        s2.consistent(),
        s2.same_data(s),
        s2.same_counts(s),
{
    lemma_consistent_geometry(s);
    let block = s.refblock_cache[k].0;
    let dirty_first = ImageState {
        refblock_cache: s.refblock_cache.insert(k, (block, true)),
        ..s
    };
    assert(dirty_first.wf());
    lemma_refblock_set(s, k, dirty_first);
    assert forall|a: u64| #[trigger] dirty_first.refcount(a) == s.refcount(a) by {}
    let gone = ImageState { refblock_cache: s.refblock_cache.remove(k), ..s2 };
    assert(gone.wf());
    assert(gone.refblock_cache =~= dirty_first.refblock_cache.remove(k));
    lemma_refblock_evicted(dirty_first, k, gone);
    assert(gone.refblock(k as int) == block) by {
        assert(dirty_first.cluster_of(ClusterUse::RefBlock(k as int)) == s.ref_table[k as int]);
        lemma_block_reads_back(s.disk, s.ref_table[k as int] as nat, block);
    }
    assert(s2.refblock_cache =~= gone.refblock_cache.insert(
        k,
        (
            refcount_block_at(gone.disk, gone.ref_table[k as int] as int, gone.refblock_len()),
            false,
        ),
    ));
    lemma_refblock_loaded(gone, k, s2);
    lemma_same_data_trans(gone, dirty_first, s);
    lemma_same_data_trans(s2, gone, s);
    assert forall|a: u64| #[trigger] s2.refcount(a) == s.refcount(a) by {
        assert(s2.refcount(a) == gone.refcount(a));
        assert(gone.refcount(a) == dirty_first.refcount(a));
    }
    assert forall|u: ClusterUse|
        #[trigger] s2.cluster_of(u) == s.cluster_of(u) || s2.cluster_of(u) == 0 by {
        match u {
            ClusterUse::Data(vc) => {
                assert(s2.entry(vc) == s.entry(vc));
            },
            _ => {},
        }
    }
    lemma_counts_kept(s, s2);
}

/// To map and hold the same is transitive.
pub proof fn lemma_same_data_trans(s3: ImageState, s2: ImageState, s1: ImageState)
    requires
        s3.same_data(s2),
        s2.same_data(s1),
    ensures
        s3.same_data(s1),
{
    assert forall|vc: int| #[trigger] s3.entry(vc) == s1.entry(vc) by {
        assert(s3.entry(vc) == s2.entry(vc));
    }
    assert forall|a: u64| #[trigger] s3.byte_at(a) == s1.byte_at(a) by {
        assert(s3.byte_at(a) == s2.byte_at(a));
    }
}

/// To count the same is transitive.
pub proof fn lemma_same_counts_trans(s3: ImageState, s2: ImageState, s1: ImageState)
    requires
        s3.same_counts(s2),
        s2.same_counts(s1),
    ensures
        s3.same_counts(s1),
{
    assert forall|a: u64| #[trigger] s3.refcount(a) == s1.refcount(a) by {
        assert(s3.refcount(a) == s2.refcount(a));
    }
    assert forall|owed: Set<u64>| s1.counted_but(owed) implies #[trigger] s3.counted_but(
        owed,
    ) by {
        assert(s2.counted_but(owed));
    }
}

/// Bytes are written within the L1 table or within the reference-count
/// table in the file: the image is consistent, and maps, holds and counts
/// what it did.
pub proof fn lemma_table_region_written(s: ImageState, lo: nat, bytes: Seq<u8>, s2: ImageState)
    requires
        s.consistent(),
        (s.header.l1_table_offset <= lo && lo + bytes.len() <= s.l1_end()) || (
        s.header.refcount_table_offset <= lo && lo + bytes.len() <= s.ref_table_end()),
        s2 == (ImageState { disk: written(s.disk, lo, bytes), ..s }),
    ensures
        s2.consistent(),
        s2.same_data(s),
        s2.same_counts(s),
        s2.disk.len() == s.disk.len(),
        forall|x: u64|
            s.is_cluster(x) ==> #[trigger] kept(s.disk, s2.disk, x as int, s.cluster_size as int),
{
    lemma_consistent_geometry(s);
    let cs = s.cluster_size as int;
    lemma_written_agrees(s.disk, lo, bytes);
    lemma_parsed_is_valid(s.disk);
    lemma_agree_start(s.disk, s2.disk, lo as int, (lo + bytes.len()) as int);
    assert forall|x: u64| s.is_cluster(x) implies #[trigger] kept(s.disk, s2.disk, x as int, cs) by {}
    assert forall|i: int| 0 <= i < s.l1.len() implies #[trigger] s2.l2_table(i) == s.l2_table(
        i,
    ) by {
        if !s.l2_cache.contains_key(i as usize) && s.l1[i] != 0 {
            let x = s.l1[i];
            assert(s.cluster_of(ClusterUse::L2Table(i)) == x);
            assert(s.is_cluster(x));
            assert(kept(s.disk, s2.disk, x as int, cs));
            lemma_same_table(s.disk, s2.disk, x as int, s.l2_len(), L2_TABLE_OFFSET_MASK);
        }
    }
    assert(s2.l2_cache_backed()) by {
        assert forall|k: usize| #[trigger] s2.l2_cache.contains_key(k) implies s2.l1[k as int]
            != 0 && (!s2.l2_cache[k].1 ==> s2.l2_cache[k].0 == pointer_table_at(
            s2.disk,
            s2.l1[k as int] as int,
            s2.l2_len(),
            L2_TABLE_OFFSET_MASK,
        )) by {
            let x = s.l1[k as int];
            assert(s.cluster_of(ClusterUse::L2Table(k as int)) == x);
            assert(s.is_cluster(x));
            assert(kept(s.disk, s2.disk, x as int, cs));
            lemma_same_table(s.disk, s2.disk, x as int, s.l2_len(), L2_TABLE_OFFSET_MASK);
        }
    }
    assert(s2.refblock_cache_backed()) by {
        assert forall|k: usize| #[trigger] s2.refblock_cache.contains_key(k) implies s2.ref_table[k as int]
            != 0 && (!s2.refblock_cache[k].1 ==> s2.refblock_cache[k].0 == refcount_block_at(
            s2.disk,
            s2.ref_table[k as int] as int,
            s2.refblock_len(),
        )) by {
            let x = s.ref_table[k as int];
            assert(s.cluster_of(ClusterUse::RefBlock(k as int)) == x);
            assert(s.is_cluster(x));
            assert(kept(s.disk, s2.disk, x as int, cs));
            lemma_same_block(s.disk, s2.disk, x as int, s.refblock_len());
        }
    }
    lemma_same_uses(s, s2);
    assert forall|vc: int| s.entry(vc) != 0 implies #[trigger] kept(
        s.disk,
        s2.disk,
        s.entry(vc) as int,
        cs,
    ) by {
        assert(s.cluster_of(ClusterUse::Data(vc)) == s.entry(vc));
        assert(s.is_cluster(s.entry(vc)));
    }
    lemma_same_bytes(s, s2);
    assert forall|a: u64| #[trigger] s2.refcount(a) == s.refcount(a) by {
        let t = s.refcount_table_index(a);
        if t < s.ref_table.len() {
            if !s.refblock_cache.contains_key(t as usize) && s.ref_table[t] != 0 {
                let x = s.ref_table[t];
                assert(s.cluster_of(ClusterUse::RefBlock(t)) == x);
                assert(s.is_cluster(x));
                assert(kept(s.disk, s2.disk, x as int, cs));
                lemma_same_block(s.disk, s2.disk, x as int, s.refblock_len());
            }
        }
    }
}

/// A table written without flags is read back, without a mask, from the
/// place in a file where it was written.
pub proof fn lemma_plain_table_reads_back(d: Seq<u8>, c: nat, table: Seq<u64>)
    ensures
        pointer_table_at(
            written(d, c, pointer_table_bytes(table, 0)),
            c as int,
            table.len(),
            0xffff_ffff_ffff_ffff,
        ) == table,
{
    let bytes = pointer_table_bytes(table, 0);
    lemma_pointer_table_bytes(table, 0);
    let d2 = written(d, c, bytes);
    assert forall|i: int| 0 <= i < table.len() implies pointer_at(d2, c as int, i)
        & 0xffff_ffff_ffff_ffff == table[i] by {
        assert(d2.subrange(c + 8 * i, c + 8 * i + 8) =~= bytes.subrange(8 * i, 8 * i + 8));
        assert(pointer_at(bytes, 0, i) == stamped(table[i], 0));
        let e = table[i];
        assert((e | 0u64) & 0xffff_ffff_ffff_ffffu64 == e) by (bit_vector);
        assert(0u64 & 0xffff_ffff_ffff_ffffu64 == 0) by (bit_vector);
    }
    assert(pointer_table_at(d2, c as int, table.len(), 0xffff_ffff_ffff_ffff) =~= table);
}

/// The L1 table and then the reference-count table are written to their
/// places in the file: the image is consistent, maps, holds and counts what
/// it did, and the file holds the two tables as they are in memory.
pub proof fn lemma_tables_written(s: ImageState, s1: ImageState, s2: ImageState)
    requires
        s.consistent(),
        s1 == (ImageState {
            disk: written(
                s.disk,
                s.header.l1_table_offset as nat,
                pointer_table_bytes(s.l1, 0),
            ),
            ..s
        }),
        s2 == (ImageState {
            disk: written(
                s1.disk,
                s.header.refcount_table_offset as nat,
                pointer_table_bytes(s.ref_table, 0),
            ),
            ..s
        }),
    ensures
        s1.consistent(),
        s1.same_data(s),
        s1.same_counts(s),
        s2.consistent(),
        s2.same_data(s),
        s2.same_counts(s),
        s2.tables_stored(),
        s2.disk.len() == s.disk.len(),
        s2.disk.subrange(0, crate::header::HEADER_LEN as int) == s.disk.subrange(
            0,
            crate::header::HEADER_LEN as int,
        ),
{
    lemma_pointer_table_bytes(s.l1, 0);
    lemma_pointer_table_bytes(s.ref_table, 0);
    lemma_table_region_written(s, s.header.l1_table_offset as nat, pointer_table_bytes(s.l1, 0), s1);
    lemma_table_region_written(
        s1,
        s.header.refcount_table_offset as nat,
        pointer_table_bytes(s.ref_table, 0),
        s2,
    );
    lemma_same_data_trans(s2, s1, s);
    assert forall|a: u64| #[trigger] s2.refcount(a) == s.refcount(a) by {
        assert(s2.refcount(a) == s1.refcount(a));
    }
    lemma_plain_table_reads_back(s.disk, s.header.l1_table_offset as nat, s.l1);
    lemma_plain_table_reads_back(s1.disk, s.header.refcount_table_offset as nat, s.ref_table);
    lemma_written_agrees(
        s1.disk,
        s.header.refcount_table_offset as nat,
        pointer_table_bytes(s.ref_table, 0),
    );
    lemma_written_agrees(s.disk, s.header.l1_table_offset as nat, pointer_table_bytes(s.l1, 0));
    lemma_same_table(
        s1.disk,
        s2.disk,
        s.header.l1_table_offset as int,
        s.l1.len(),
        0xffff_ffff_ffff_ffff,
    );
    assert(s2.disk.subrange(0, crate::header::HEADER_LEN as int) =~= s.disk.subrange(
        0,
        crate::header::HEADER_LEN as int,
    ));
}

/// The clusters that blocks have left become available: the image is
/// consistent, and maps, holds and counts what it did.
pub proof fn lemma_promoted(s: ImageState, s2: ImageState)
    requires
        s.consistent(),
        s2 == (ImageState {
            pending: Seq::empty(),
            available: s.available + s.pending,
            ..s
        }),
    ensures
        s2.consistent(),
        s2.same_data(s),
        s2.same_counts(s),
{
    lemma_consistent_geometry(s);
    let n = s.available.len() as int;
    assert forall|i: int| 0 <= i < s.l1.len() implies #[trigger] s2.l2_table(i) == s.l2_table(
        i,
    ) by {}
    assert forall|vc: int| #[trigger] s2.entry(vc) == s.entry(vc) by {
        let i = vc / (s.l2_len() as int);
        if 0 <= vc && i < s.l1.len() {
            assert(s2.l2_table(i) == s.l2_table(i));
        }
    }
    assert forall|vc: int| s.entry(vc) != 0 implies #[trigger] kept(
        s.disk,
        s2.disk,
        s.entry(vc) as int,
        s.cluster_size as int,
    ) by {}
    lemma_same_bytes(s, s2);
    assert forall|a: u64| #[trigger] s2.refcount(a) == s.refcount(a) by {}
    // Each use in `s2` is a use in `s`.
    let from = |u: ClusterUse|
        match u {
            ClusterUse::Available(k) => if k >= n {
                ClusterUse::Pending(k - n)
            } else {
                u
            },
            ClusterUse::Pending(k) => ClusterUse::Pending(-1),
            _ => u,
        };
    assert forall|u: ClusterUse| #[trigger] s2.cluster_of(u) == s.cluster_of(from(u)) by {
        match u {
            ClusterUse::Data(vc) => {
                assert(s2.entry(vc) == s.entry(vc));
            },
            _ => {},
        }
    }
    assert forall|u: ClusterUse| #[trigger] s2.cluster_of(u) != 0 implies s2.is_cluster(
        s2.cluster_of(u),
    ) by {
        assert(s.is_cluster(s.cluster_of(from(u))));
    }
    assert forall|u1: ClusterUse, u2: ClusterUse|
        #[trigger] s2.cluster_of(u1) != 0 && s2.cluster_of(u1) == #[trigger] s2.cluster_of(
            u2,
        ) implies u1 == u2 by {
        assert(s.cluster_of(from(u1)) == s.cluster_of(from(u2)));
        assert(from(u1) == from(u2));
    }
    assert(s2.lists_hold_clusters()) by {
        assert forall|k: int| 0 <= k < s2.available.len() implies #[trigger] s2.available[k]
            != 0 by {
            if k >= n {
                assert(s.pending[k - n] != 0);
            } else {
                assert(s.available[k] != 0);
            }
        }
    }
}

/// Rounding up to a multiple of the cluster size gives a multiple that is
/// not below the number, and less than a cluster above it.
pub proof fn lemma_round_up(n: int, cs: int)
    requires
        n >= 0,
        cs > 0,
    ensures
        crate::raw_file::round_up(n, cs) % cs == 0,
        n <= crate::raw_file::round_up(n, cs) < n + cs,
{
    let q = n / cs;
    let r = n % cs;
    assert(n == q * cs + r && 0 <= r < cs) by (nonlinear_arith)
        requires
            q == n / cs,
            r == n % cs,
            cs > 0,
    ;
    if r == 0 {
    } else {
        assert(n - r + cs == (q + 1) * cs + 0) by (nonlinear_arith)
            requires
                n == q * cs + r,
        ;
        vstd::arithmetic::div_mod::lemma_fundamental_div_mod_converse(n - r + cs, cs, q + 1, 0);
    }
}

/// Another data cluster with every count set in place. In a consistent
/// image in which the counts of all clusters before `end` are set in place,
/// and whose file ends a cluster before `end`, or two where the cached L2
/// table of L1 entry `l1_index` is clean and so moves, the counts that are
/// touched are set in place; the clusters can be handed out if the file may
/// grow to `end`; and afterwards the file has grown by as much at most, and
/// every count that was set in place still is.
pub proof fn lemma_append_in_place(
    s: ImageState,
    l1_index: usize,
    l2_index: int,
    end: int,
    max_len: nat,
)
    requires
        s.consistent(),
        s.l2_cache.contains_key(l1_index),
        s.counts_in_place_to(end),
        end + s.cluster_size <= MAX_FILE_LEN,
        crate::raw_file::round_up(s.disk.len() as int, s.cluster_size as int) + (if s.l2_cache[l1_index].1 {
            s.cluster_size as int
        } else {
            2 * s.cluster_size
        }) <= end,
    ensures
        s.appends_in_place(l1_index),
        end <= max_len ==> s.has_room_to_append(l1_index, max_len),
        ({
            let f = s.with_data_cluster(l1_index, l2_index);
            &&& f.ref_table == s.ref_table
            &&& crate::raw_file::round_up(f.disk.len() as int, s.cluster_size as int)
                <= crate::raw_file::round_up(s.disk.len() as int, s.cluster_size as int) + (if s.l2_cache[l1_index].1 {
                s.cluster_size as int
            } else {
                2 * s.cluster_size
            })
            &&& forall|x: u64| s.counts_in_place(x) ==> #[trigger] f.counts_in_place(x)
        }),
{
    lemma_consistent_geometry(s);
    let cs = s.cluster_size as int;
    let n = s.available.len() as int;
    lemma_round_up(s.disk.len() as int, cs);
    lemma_round_up_grown(s.disk.len() as int, cs);
    if n > 0 {
        assert(s.cluster_of(ClusterUse::Available(n - 1)) == s.available[n - 1]);
        assert(s.is_cluster(s.available[n - 1]));
    }
    let taken = s.without_next_cluster();
    assert(taken.disk.len() == s.disk.len() || taken.disk.len() == crate::raw_file::round_up(
        s.disk.len() as int,
        cs,
    ) + cs);
    lemma_round_up(taken.disk.len() as int, cs);
    lemma_round_up_grown(taken.disk.len() as int, cs);
    if taken.available.len() > 0 {
        assert(s.cluster_of(ClusterUse::Available(n - 2)) == s.available[n - 2]);
        assert(s.is_cluster(s.available[n - 2]));
        assert(taken.available.last() == s.available[n - 2]);
    }
    assert(s.cluster_of(ClusterUse::L2Table(l1_index as int)) == s.l1[l1_index as int]);
    assert(s.l1[l1_index as int] != 0 ==> s.is_cluster(s.l1[l1_index as int]));
    assert(s.counts_in_place(s.next_cluster() as u64));
    if !s.l2_cache[l1_index].1 {
        assert(s.counts_in_place(taken.next_cluster() as u64));
        assert(s.l1[l1_index as int] != 0 ==> s.counts_in_place(s.l1[l1_index as int]));
    }
}

/// The start of the cluster of an address: it is not behind the start of
/// the cluster of a later address, and a cluster further on for the address
/// behind the last one of the cluster.
pub proof fn lemma_cluster_starts(curr: int, last: int, cs: int)
    requires
        cs > 0,
        0 <= curr <= last,
    ensures
        curr - curr % cs <= last - last % cs,
        ({
            let next = curr - curr % cs + cs;
            next - next % cs == next
        }),
{
    vstd::arithmetic::div_mod::lemma_fundamental_div_mod(curr, cs);
    vstd::arithmetic::div_mod::lemma_fundamental_div_mod(last, cs);
    vstd::arithmetic::div_mod::lemma_div_is_ordered(curr, last, cs);
    vstd::arithmetic::mul::lemma_mul_inequality(curr / cs, last / cs, cs);
    vstd::arithmetic::mul::lemma_mul_is_commutative(curr / cs, cs);
    vstd::arithmetic::mul::lemma_mul_is_commutative(last / cs, cs);
    vstd::arithmetic::div_mod::lemma_mod_add_multiples_vanish(curr - curr % cs, cs);
    vstd::arithmetic::div_mod::lemma_mod_multiples_basic(curr / cs, cs);
}

/// Where the counts of the clusters of all uses that keep their cluster
/// are kept, but for that of the cluster at `address`, and the image is
/// mapped as it was, the clusters that hold contents of the image count what
/// they did, but for that one.
pub proof fn lemma_data_counts_step(s: ImageState, s2: ImageState, address: u64)
    requires
        s2.counts_of_uses_kept(s, address),
        forall|vc: int| #[trigger] s2.entry(vc) == s.entry(vc),
    ensures
        forall|vc: int|
            s.entry(vc) != 0 && s.entry(vc) != address ==> s2.refcount(#[trigger] s2.entry(vc))
                == s.refcount(s.entry(vc)),
{
    assert forall|vc: int| s.entry(vc) != 0 && s.entry(vc) != address implies s2.refcount(
        #[trigger] s2.entry(vc),
    ) == s.refcount(s.entry(vc)) by {
        assert(s.cluster_of(ClusterUse::Data(vc)) == s.entry(vc));
    }
}

/// Counting the clusters that hold contents as an earlier state did, in
/// two steps: where a cluster of the image keeps the cluster of the file
/// that it has got.
pub proof fn lemma_counts_data_trans(s3: ImageState, s2: ImageState, s1: ImageState)
    requires
        s3.counts_data_as(s2),
        s2.counts_data_as(s1),
        forall|vc: int| s2.entry(vc) != 0 ==> #[trigger] s3.entry(vc) == s2.entry(vc),
        forall|vc: int| s1.entry(vc) != 0 ==> #[trigger] s2.entry(vc) == s1.entry(vc),
    ensures
        s3.counts_data_as(s1),
{
    assert forall|vc: int| #[trigger] s3.entry(vc) != 0 implies s3.refcount(s3.entry(vc)) == if s1.entry(
        vc,
    ) != 0 {
        s1.refcount(s1.entry(vc))
    } else {
        1
    } by {
        assert(s2.entry(vc) != 0 ==> s3.entry(vc) == s2.entry(vc));
        assert(s1.entry(vc) != 0 ==> s2.entry(vc) == s1.entry(vc));
        if s2.entry(vc) != 0 {
            assert(s2.refcount(s2.entry(vc)) == if s1.entry(vc) != 0 {
                s1.refcount(s1.entry(vc))
            } else {
                1
            });
        }
    }
}

/// Cluster `vc` of the image, which had none, got the cluster `data` of the
/// file (`mapped`), and then the counts were set: of `data`, of the cluster
/// that the L2 table left (`dropped`, the waiting cluster `p` then), and of
/// the one that it took (`added`, the cluster of L1 entry `i` then). The
/// clusters that hold contents count what they did at the `start`, and
/// `data` counts one reference.
pub proof fn lemma_append_counts(
    start: ImageState,
    mapped: ImageState,
    counted_data: ImageState,
    counted_old: ImageState,
    fin: ImageState,
    vc: int,
    data: u64,
    dropped: Option<u64>,
    added: Option<u64>,
    p: int,
    i: int,
)
    requires
        mapped.consistent(),
        counted_data.consistent(),
        counted_old.consistent(),
        start.entry(vc) == 0,
        mapped.entry(vc) == data,
        data != 0,
        forall|k: int| k != vc ==> #[trigger] mapped.entry(k) == start.entry(k),
        forall|x: u64| #[trigger] mapped.refcount(x) == start.refcount(x),
        forall|k: int| #[trigger] counted_data.entry(k) == mapped.entry(k),
        forall|k: int| #[trigger] counted_old.entry(k) == mapped.entry(k),
        forall|k: int| #[trigger] fin.entry(k) == mapped.entry(k),
        counted_data.counts_of_uses_kept(mapped, data),
        counted_data.refcount(data) == 1,
        match dropped {
            Some(d) => counted_old.counts_of_uses_kept(counted_data, d) && counted_data.cluster_of(
                ClusterUse::Pending(p),
            ) == d,
            None => forall|x: u64| #[trigger] counted_old.refcount(x) == counted_data.refcount(x),
        },
        match added {
            Some(a) => fin.counts_of_uses_kept(counted_old, a) && counted_old.cluster_of(
                ClusterUse::L2Table(i),
            ) == a,
            None => forall|x: u64| #[trigger] fin.refcount(x) == counted_old.refcount(x),
        },
    ensures
        fin.counts_data_as(start),
{
    assert forall|k: int| #[trigger] fin.entry(k) != 0 implies fin.refcount(fin.entry(k)) == if start.entry(
        k,
    ) != 0 {
        start.refcount(start.entry(k))
    } else {
        1
    } by {
        let x = mapped.entry(k);
        let u = ClusterUse::Data(k);
        assert(fin.entry(k) == x && counted_old.entry(k) == x && counted_data.entry(k) == x);
        assert(mapped.cluster_of(u) == x && counted_data.cluster_of(u) == x
            && counted_old.cluster_of(u) == x);
        if k != vc {
            assert(mapped.entry(k) == start.entry(k));
            assert(x != data) by {
                if x == data {
                    assert(mapped.cluster_of(u) == mapped.cluster_of(ClusterUse::Data(vc)));
                }
            }
            assert(counted_data.refcount(x) == mapped.refcount(x));
        }
        match dropped {
            Some(d) => {
                assert(x != d) by {
                    if x == d {
                        assert(counted_data.cluster_of(u) == counted_data.cluster_of(
                            ClusterUse::Pending(p),
                        ));
                    }
                }
                assert(counted_old.refcount(x) == counted_data.refcount(x));
            },
            None => {},
        }
        match added {
            Some(a) => {
                assert(x != a) by {
                    if x == a {
                        assert(counted_old.cluster_of(u) == counted_old.cluster_of(
                            ClusterUse::L2Table(i),
                        ));
                    }
                }
                assert(fin.refcount(x) == counted_old.refcount(x));
            },
            None => {},
        }
    }
}

/// One more part of a write, as to the map and the counts: the cluster
/// numbered `vc` of the image, one of those from `first` to `last`, gets a
/// cluster of the file if it had none (`mapped`), and bytes are written
/// there (`after`). Outside of `first` to `last` the image is mapped as at
/// the `start`, and the clusters that hold contents count what they did, or
/// one reference where they are new.
pub proof fn lemma_write_step_counts(
    start: ImageState,
    entry: ImageState,
    mapped: ImageState,
    after: ImageState,
    vc: int,
    first: int,
    last: int,
)
    requires
        entry.counts_data_as(start),
        entry.maps_as_but(start, first, last),
        forall|k: int| start.entry(k) != 0 ==> #[trigger] entry.entry(k) == start.entry(k),
        mapped.counts_data_as(entry),
        mapped.same_data_but(entry, vc),
        first <= vc <= last,
        forall|k: int| #[trigger] after.entry(k) == mapped.entry(k),
        forall|x: u64| #[trigger] after.refcount(x) == mapped.refcount(x),
    ensures
        after.counts_data_as(start),
        after.maps_as_but(start, first, last),
{
    assert forall|k: int| entry.entry(k) != 0 implies #[trigger] mapped.entry(k) == entry.entry(
        k,
    ) by {
        if k == vc {
            assert(mapped.same_data(entry));
        }
    }
    lemma_counts_data_trans(mapped, entry, start);
    assert forall|k: int| #[trigger] after.entry(k) != 0 implies after.refcount(after.entry(k)) == if start.entry(
        k,
    ) != 0 {
        start.refcount(start.entry(k))
    } else {
        1
    } by {
        assert(after.entry(k) == mapped.entry(k));
        assert(mapped.entry(k) != 0);
    }
    assert forall|k: int| k < first || k > last implies #[trigger] after.entry(k) == start.entry(
        k,
    ) by {
        assert(after.entry(k) == mapped.entry(k));
        assert(mapped.entry(k) == entry.entry(k));
        assert(entry.entry(k) == start.entry(k));
    }
}

/// A cluster that was retired since a state was retired since an earlier
/// one, and stays so in a later one.
pub proof fn lemma_retired_kept(s3: ImageState, s2: ImageState, s1: ImageState, s0: ImageState, x: u64)
    requires
        s2.retired_since(s1, x),
        s3.pending_from(s2),
        s1.pending.len() >= s0.pending.len(),
    ensures
        s3.retired_since(s0, x),
{
    let k = choose|k: int| s1.pending.len() <= k < s2.pending.len() && #[trigger] s2.pending[k] == x;
    assert(s3.pending[k] == x);
}

/// The count of one cluster is set (`written`), and then those of the
/// cluster that its block took (`added`) and of the one that it left
/// (`dropped`), if it moved. Every count is then what it was at the `start`,
/// or one, or that of a cluster that was retired since, but for the count
/// that was set; and every cluster by which the file grew counts one
/// reference or was retired.
pub proof fn lemma_counts_set(
    start: ImageState,
    written: ImageState,
    counted_new: ImageState,
    fin: ImageState,
    address: u64,
    count: u16,
    added: Option<u64>,
    dropped: Option<u64>,
)
    requires
        start.cluster_size > 0,
        address % start.cluster_size == 0,
        written.cluster_size == start.cluster_size,
        counted_new.cluster_size == start.cluster_size,
        fin.cluster_size == start.cluster_size,
        written.pending_from(start),
        counted_new.pending_from(written),
        fin.pending_from(counted_new),
        start.disk.len() <= written.disk.len() <= counted_new.disk.len() <= fin.disk.len(),
        written.refcount(address) == count,
        forall|x: u64|
            x / start.cluster_size != address / start.cluster_size ==> #[trigger] written.refcount(
                x,
            ) == start.refcount(x),
        written.grew_by(start, added),
        match added {
            Some(a) => a % start.cluster_size == 0 && counted_new.counts_set_from(written, a, 1)
                && counted_new.new_clusters_counted(written),
            None => counted_new == written,
        },
        match dropped {
            Some(d) => d % start.cluster_size == 0 && written.pending.len() > start.pending.len()
                && written.pending[written.pending.len() - 1] == d && fin.counts_set_from(
                counted_new,
                d,
                0,
            ) && fin.new_clusters_counted(counted_new),
            None => fin == counted_new,
        },
    ensures
        fin.counts_set_from(start, address, count),
        fin.new_clusters_counted(start),
{
    let cs = start.cluster_size;
    assert forall|x: u64| x % cs == 0 implies ({
        &&& (x != address ==> #[trigger] fin.refcount(x) == start.refcount(x) || fin.refcount(x) == 1
            || fin.retired_since(start, x))
        &&& (x == address ==> fin.refcount(x) == count || fin.refcount(x) == 1 || fin.retired_since(
            start,
            x,
        ))
        &&& (start.disk.len() <= x < fin.disk.len() ==> fin.refcount(x) == 1 || fin.retired_since(
            start,
            x,
        ))
    }) by {
        assert(written.is_aligned(x));
        if x != address {
            lemma_cluster_numbers(x, address, cs);
            assert(written.refcount(x) == start.refcount(x));
        }
        // The count after that of the cluster that the block took was set.
        let c1 = counted_new.refcount(x);
        let kept1 = c1 == written.refcount(x);
        let gone1 = counted_new.retired_since(written, x);
        match added {
            Some(a) => {
                assert(kept1 && x != a || c1 == 1 || gone1);
                if start.disk.len() <= x < written.disk.len() {
                    assert(x == a);
                }
                if written.disk.len() <= x < counted_new.disk.len() {
                    assert(c1 == 1 || gone1);
                }
            },
            None => {
                assert(kept1);
                assert(!(start.disk.len() <= x < written.disk.len()));
            },
        }
        if gone1 {
            lemma_retired_kept(fin, counted_new, written, start, x);
        }
        // The count after that of the cluster that the block left was set.
        let c2 = fin.refcount(x);
        let gone2 = fin.retired_since(counted_new, x);
        match dropped {
            Some(d) => {
                assert(counted_new.pending[written.pending.len() - 1] == d);
                assert(fin.pending[written.pending.len() - 1] == d);
                assert(fin.retired_since(start, d));
                assert(c2 == c1 && x != d || c2 == 1 || gone2 || x == d);
                if counted_new.disk.len() <= x < fin.disk.len() {
                    assert(c2 == 1 || gone2);
                }
            },
            None => {
                assert(c2 == c1);
                assert(!gone2);
            },
        }
        if gone2 {
            lemma_retired_kept(fin, fin, counted_new, start, x);
        }
    }
}

/// Rounding up gives the least multiple that is not below the number, so
/// the only cluster that starts at or behind the end of a file and lies in
/// the file once it has grown by a cluster is the new one.
pub proof fn lemma_one_new_cluster(n: int, x: int, cs: int)
    requires
        n >= 0,
        cs > 0,
        x % cs == 0,
        n <= x < crate::raw_file::round_up(n, cs) + cs,
    ensures
        x == crate::raw_file::round_up(n, cs),
{
    lemma_round_up(n, cs);
    let r = crate::raw_file::round_up(n, cs);
    if x != r {
        lemma_aligned_apart(x, r, cs);
    }
}

/// The count of one cluster is set (`written`), and then those of the
/// cluster that its block took (`added`) and of the one that it left
/// (`dropped`), if the block of table entry `t` moved or was made. Every
/// cluster whose count changes only when it is set counts what it did at
/// the `start`, but for the cluster at `address`, which counts `count` if it
/// is such a cluster; and the cluster that the block left counts none.
pub proof fn lemma_counts_settled(
    start: ImageState,
    written: ImageState,
    counted_new: ImageState,
    fin: ImageState,
    address: u64,
    count: u16,
    added: Option<u64>,
    dropped: Option<u64>,
    t: int,
)
    requires
        start.consistent(),
        written.consistent(),
        written.block_changed(t),
        forall|i: int| start.block_changed(i) ==> #[trigger] written.block_changed(i),
        dropped is Some ==> !start.block_changed(t),
        added is Some ==> !start.block_changed(t),
        added is Some ==> counted_new.blocks_stay(written),
        dropped is Some ==> fin.blocks_stay(counted_new),
        counted_new.ref_table.len() == start.ref_table.len(),
        address % start.cluster_size == 0,
        0 <= t < start.ref_table.len(),
        written.cluster_size == start.cluster_size,
        written.disk.len() >= start.disk.len(),
        written.ref_table.len() == start.ref_table.len(),
        forall|i: int|
            0 <= i < start.ref_table.len() && i != t ==> #[trigger] written.ref_table[i]
                == start.ref_table[i],
        written.refcount(address) == count,
        forall|x: u64|
            x / start.cluster_size != address / start.cluster_size ==> #[trigger] written.refcount(
                x,
            ) == start.refcount(x),
        match added {
            Some(a) => written.ref_table[t] == a && a == start.next_cluster()
                && written.available == start.without_next_cluster().available
                && counted_new.keeps_settled_counts(written, a) && (written.count_is_settled(a)
                ==> counted_new.refcount(a) == 1 && counted_new.count_is_settled(a)),
            None => written.ref_table == start.ref_table && written.available == start.available
                && counted_new == written,
        },
        match dropped {
            Some(d) => d == start.ref_table[t] && d != 0 && added is Some
                && fin.keeps_settled_counts(counted_new, d) && (counted_new.count_is_settled(d)
                ==> fin.refcount(d) == 0 && fin.count_is_settled(d)),
            None => fin == counted_new,
        },
    ensures
        fin.keeps_settled_counts(start, address),
        start.count_is_settled(address) ==> fin.refcount(address) == count && fin.count_is_settled(
            address,
        ),
        dropped matches Some(d) ==> fin.refcount(d) == 0,
        added matches Some(a) ==> fin.ref_table[t] == a && fin.refcount(a) == 1,
        fin.blocks_stay(start),
{
    lemma_consistent_geometry(start);
    let cs = start.cluster_size;
    lemma_round_up(start.disk.len() as int, cs as int);
    let n = start.available.len() as int;
    assert forall|x: u64| #[trigger] start.count_is_settled(x) implies written.count_is_settled(x)
        && (added matches Some(a) ==> x != a) && (dropped matches Some(d) ==> x != d) && (x
        != address ==> written.refcount(x) == start.refcount(x)) by {
        if added is Some {
            if n > 0 {
                assert(start.available[n - 1] != x);
            }
        }
        assert forall|i: int| 0 <= i < written.ref_table.len() implies #[trigger] written.ref_table[i]
            != x || x == 0 || written.block_changed(i) by {
            if i != t {
                assert(written.ref_table[i] == start.ref_table[i]);
                assert(start.ref_table[i] != x || x == 0 || start.block_changed(i));
            }
        }
        assert forall|k: int| 0 <= k < written.available.len() implies #[trigger] written.available[k]
            != x by {
            assert(start.available[k] != x);
        }
        if dropped is Some {
            assert(start.ref_table[t] != x || x == 0 || start.block_changed(t));
        }
        if x != address {
            lemma_cluster_numbers(x, address, cs);
        }
    }
    assert forall|x: u64| #[trigger] start.count_is_settled(x) implies fin.count_is_settled(x) && (
    x != address ==> fin.refcount(x) == start.refcount(x)) && (x == address ==> fin.refcount(x)
        == count) by {
        assert(written.count_is_settled(x));
        assert(counted_new.count_is_settled(x) && counted_new.refcount(x) == written.refcount(x));
        assert(fin.count_is_settled(x) && fin.refcount(x) == counted_new.refcount(x));
    }
    if dropped is Some {
        let d = dropped.unwrap();
        assert(start.cluster_of(ClusterUse::RefBlock(t)) == d);
        assert(start.is_cluster(d));
        assert(written.count_is_settled(d)) by {
            assert forall|i: int| 0 <= i < written.ref_table.len() implies #[trigger] written.ref_table[i]
                != d || d == 0 || written.block_changed(i) by {
                if i != t {
                    assert(written.ref_table[i] == start.ref_table[i]);
                    if start.ref_table[i] == d {
                        assert(start.cluster_of(ClusterUse::RefBlock(i)) == start.cluster_of(
                            ClusterUse::RefBlock(t),
                        ));
                    }
                } else {
                    if n > 0 {
                        assert(start.cluster_of(ClusterUse::Available(n - 1)) == start.available[n
                            - 1]);
                    }
                }
            }
            assert forall|k: int| 0 <= k < written.available.len() implies #[trigger] written.available[k]
                != d by {
                assert(start.cluster_of(ClusterUse::Available(k)) == start.available[k]);
            }
        }
        assert(counted_new.count_is_settled(d));
    }
    if added is Some {
        let a = added.unwrap();
        assert(written.cluster_of(ClusterUse::RefBlock(t)) == a);
        assert(written.is_cluster(a));
        assert(written.count_is_settled(a)) by {
            assert forall|i: int| 0 <= i < written.ref_table.len() implies #[trigger] written.ref_table[i]
                != a || a == 0 || written.block_changed(i) by {
                if written.ref_table[i] == a && i != t {
                    assert(written.cluster_of(ClusterUse::RefBlock(i)) == written.cluster_of(
                        ClusterUse::RefBlock(t),
                    ));
                }
            }
            assert forall|k: int| 0 <= k < written.available.len() implies #[trigger] written.available[k]
                != a by {
                assert(written.cluster_of(ClusterUse::Available(k)) == written.available[k]);
            }
        }
        assert(counted_new.block_changed(t));
        assert(counted_new.ref_table[t] == a);
        if dropped is Some {
            let d = dropped.unwrap();
            assert(fin.block_changed(t));
            assert(fin.ref_table[t] == a);
            assert(start.cluster_of(ClusterUse::RefBlock(t)) == d);
            assert(start.is_cluster(d));
            if n > 0 {
                assert(start.cluster_of(ClusterUse::Available(n - 1)) == start.available[n - 1]);
            }
            assert(a != d);
        }
        assert(fin.ref_table[t] == a);
        assert(counted_new.refcount(a) == 1 && counted_new.count_is_settled(a));
        assert(fin.refcount(a) == 1);
    }
    assert forall|i: int|
        0 <= i < start.ref_table.len() && start.block_changed(i) implies #[trigger] fin.block_changed(
        i,
    ) && fin.ref_table[i] == start.ref_table[i] by {
        assert(written.block_changed(i));
        if i != t {
            assert(written.ref_table[i] == start.ref_table[i]);
        }
        if added is Some {
            assert(counted_new.block_changed(i));
            assert(counted_new.ref_table[i] == written.ref_table[i]);
        }
        assert(counted_new.block_changed(i));
        if dropped is Some {
            assert(fin.block_changed(i));
            assert(fin.ref_table[i] == counted_new.ref_table[i]);
        }
        assert(fin.block_changed(i));
    }
}

/// Counts that have grown in two steps have grown: if every count of `s1`
/// is that of `s0`, or one, or that of a cluster retired since, and likewise
/// `s2` from `s1`, and every cluster by which the file grew in either step
/// counts one reference or was retired, then the same holds of `s2` from
/// `s0`.
pub proof fn lemma_counts_grown_trans(s2: ImageState, s1: ImageState, s0: ImageState)
    requires
        s1.cluster_size == s0.cluster_size,
        s2.cluster_size == s0.cluster_size,
        s1.pending_from(s0),
        s2.pending_from(s1),
        s0.disk.len() <= s1.disk.len() <= s2.disk.len(),
        s1.counts_grown_from(s0),
        s1.new_clusters_counted(s0),
        s2.counts_grown_from(s1),
        s2.new_clusters_counted(s1),
    ensures
        s2.counts_grown_from(s0),
        s2.new_clusters_counted(s0),
{
    assert forall|x: u64| x % s0.cluster_size == 0 implies (#[trigger] s2.refcount(x) == s0.refcount(
        x,
    ) || s2.refcount(x) == 1 || s2.retired_since(s0, x)) && (s0.disk.len() <= x < s2.disk.len()
        ==> s2.refcount(x) == 1 || s2.retired_since(s0, x)) by {
        let c1 = s1.refcount(x);
        if s1.retired_since(s0, x) {
            lemma_retired_kept(s2, s1, s0, s0, x);
        }
        if s2.retired_since(s1, x) {
            lemma_retired_kept(s2, s2, s1, s0, x);
        }
    }
}

/// A state with the counts, the list of retired clusters and the file
/// length of a state whose counts have grown has counts that have grown.
pub proof fn lemma_counts_grown_same(s2: ImageState, s1: ImageState, s0: ImageState)
    requires
        s2.cluster_size == s1.cluster_size,
        s2.pending == s1.pending,
        s2.disk.len() == s1.disk.len(),
        forall|x: u64| #[trigger] s2.refcount(x) == s1.refcount(x),
        s1.counts_grown_from(s0),
        s1.new_clusters_counted(s0),
    ensures
        s2.counts_grown_from(s0),
        s2.new_clusters_counted(s0),
{
    assert forall|x: u64| x % s2.cluster_size == 0 implies (#[trigger] s2.refcount(x) == s0.refcount(
        x,
    ) || s2.refcount(x) == 1 || s2.retired_since(s0, x)) && (s0.disk.len() <= x < s2.disk.len()
        ==> s2.refcount(x) == 1 || s2.retired_since(s0, x)) by {
        assert(s2.refcount(x) == s1.refcount(x));
        if s1.retired_since(s0, x) {
            let k = choose|k: int|
                s0.pending.len() <= k < s1.pending.len() && #[trigger] s1.pending[k] == x;
            assert(s2.pending[k] == x);
        }
    }
}

/// A cluster is handed out (`s1`, with the counts of `s0`), it gets a use,
/// and its count is set to one (`s2`): the counts have grown, and every
/// cluster by which the file grew counts one reference or was retired.
pub proof fn lemma_made_counted(s0: ImageState, s1: ImageState, s2: ImageState, a: u64)
    requires
        s0.cluster_size > 0,
        s1.cluster_size == s0.cluster_size,
        s2.cluster_size == s0.cluster_size,
        a % s0.cluster_size == 0,
        s1.pending == s0.pending,
        s2.pending_from(s1),
        s0.disk.len() <= s1.disk.len() <= s2.disk.len(),
        forall|x: u64| #[trigger] s1.refcount(x) == s0.refcount(x),
        s1.grew_by(s0, Some(a)),
        s2.counts_set_from(s1, a, 1),
        s2.new_clusters_counted(s1),
    ensures
        s2.counts_grown_from(s0),
        s2.new_clusters_counted(s0),
{
    assert forall|x: u64| x % s0.cluster_size == 0 implies (#[trigger] s2.refcount(x) == s0.refcount(
        x,
    ) || s2.refcount(x) == 1 || s2.retired_since(s0, x)) && (s0.disk.len() <= x < s2.disk.len()
        ==> s2.refcount(x) == 1 || s2.retired_since(s0, x)) by {
        assert(s1.refcount(x) == s0.refcount(x));
        assert(s1.is_aligned(x));
        if s2.retired_since(s1, x) {
            lemma_retired_kept(s2, s2, s1, s0, x);
        }
    }
}

/// Another data cluster, as to the counts: the cluster `data` is handed
/// out, and one more (`added`) if the L2 table moves, which then leaves a
/// cluster (`dropped`) to the list of such clusters (`mapped`, with the
/// counts of the `start`); then the counts are set, to one for `data`, to
/// none for `dropped`, to one for `added`. The counts have grown, and every
/// cluster by which the file grew counts one reference or was retired.
pub proof fn lemma_append_grown(
    start: ImageState,
    mapped: ImageState,
    s1: ImageState,
    s2: ImageState,
    fin: ImageState,
    data: u64,
    dropped: Option<u64>,
    added: Option<u64>,
)
    requires
        start.cluster_size > 0,
        mapped.cluster_size == start.cluster_size,
        s1.cluster_size == start.cluster_size,
        s2.cluster_size == start.cluster_size,
        fin.cluster_size == start.cluster_size,
        data % start.cluster_size == 0,
        start.disk.len() <= mapped.disk.len() <= s1.disk.len() <= s2.disk.len() <= fin.disk.len(),
        forall|x: u64| #[trigger] mapped.refcount(x) == start.refcount(x),
        mapped.grew_by_two(start, data, added),
        mapped.pending_from(start),
        s1.pending_from(mapped),
        s2.pending_from(s1),
        fin.pending_from(s2),
        s1.counts_set_from(mapped, data, 1),
        s1.new_clusters_counted(mapped),
        match dropped {
            Some(d) => d % start.cluster_size == 0 && mapped.pending.len() > start.pending.len()
                && mapped.pending[mapped.pending.len() - 1] == d && s2.counts_set_from(s1, d, 0)
                && s2.new_clusters_counted(s1),
            None => s2 == s1,
        },
        match added {
            Some(to) => to % start.cluster_size == 0 && fin.counts_set_from(s2, to, 1)
                && fin.new_clusters_counted(s2),
            None => fin == s2,
        },
    ensures
        fin.counts_grown_from(start),
        fin.new_clusters_counted(start),
{
    assert forall|x: u64| x % start.cluster_size == 0 implies (#[trigger] fin.refcount(x)
        == start.refcount(x) || fin.refcount(x) == 1 || fin.retired_since(start, x)) && (
    start.disk.len() <= x < fin.disk.len() ==> fin.refcount(x) == 1 || fin.retired_since(
        start,
        x,
    )) by {
        assert(mapped.refcount(x) == start.refcount(x));
        assert(mapped.is_aligned(x));
        let c1 = s1.refcount(x);
        let c2 = s2.refcount(x);
        let c3 = fin.refcount(x);
        let gone1 = s1.retired_since(mapped, x);
        let gone2 = s2.retired_since(s1, x);
        let gone3 = fin.retired_since(s2, x);
        if gone1 {
            lemma_retired_kept(s2, s1, mapped, start, x);
            lemma_retired_kept(fin, s2, start, start, x);
        }
        if gone2 {
            lemma_retired_kept(fin, s2, s1, start, x);
        }
        if gone3 {
            lemma_retired_kept(fin, fin, s2, start, x);
        }
        match dropped {
            Some(d) => {
                let k = mapped.pending.len() - 1;
                assert(s1.pending[k] == d);
                assert(s2.pending[k] == d);
                assert(fin.pending[k] == d);
                assert(fin.retired_since(start, d));
            },
            None => {
                assert(c2 == c1);
            },
        }
        match added {
            Some(to) => {},
            None => {
                assert(c3 == c2);
            },
        }
    }
}

/// The L2 table of an address between two addresses of one L2 table is
/// that table.
pub proof fn lemma_one_table(s: ImageState, first: u64, curr: u64, last: u64)
    requires
        s.consistent(),
        first <= curr <= last,
        s.l1_index(first) == s.l1_index(last),
    ensures
        s.l1_index(curr) == s.l1_index(first),
{
    lemma_consistent_geometry(s);
    let cs = s.cluster_size as int;
    let n = s.l2_len() as int;
    vstd::arithmetic::div_mod::lemma_div_is_ordered(first as int, curr as int, cs);
    vstd::arithmetic::div_mod::lemma_div_is_ordered(curr as int, last as int, cs);
    vstd::arithmetic::div_mod::lemma_div_is_ordered(first as int / cs, curr as int / cs, n);
    vstd::arithmetic::div_mod::lemma_div_is_ordered(curr as int / cs, last as int / cs, n);
}

/// If the reference-count table has no entry for a cluster of the file,
/// it has none for the last cluster of the file.
pub proof fn lemma_table_short(s: ImageState, x: u64)
    requires
        s.consistent(),
        x + s.cluster_size <= s.disk.len(),
        s.refcount_table_index(x) >= s.ref_table.len(),
    ensures
        s.table_is_short(),
{
    lemma_consistent_geometry(s);
    let cs = s.cluster_size as int;
    let n = s.refblock_len() as int;
    let last = s.disk.len() - cs;
    vstd::arithmetic::div_mod::lemma_div_is_ordered(x as int, last, cs);
    vstd::arithmetic::div_mod::lemma_div_is_ordered(x as int / cs, last / cs, n);
}

/// Where every block that is in the cache with changes stays so, no more
/// blocks are without changes than were.
pub proof fn lemma_unchanged_le(s: ImageState, s2: ImageState, n: nat)
    requires
        forall|t: int| 0 <= t < n && s.block_changed(t) ==> #[trigger] s2.block_changed(t),
    ensures
        s2.unchanged_blocks(n) <= s.unchanged_blocks(n) <= n,
    decreases n,
{
    if n > 0 {
        lemma_unchanged_le(s, s2, (n - 1) as nat);
        assert(s.block_changed(n - 1) ==> s2.block_changed(n - 1));
    }
}

/// Where one block has come to be in the cache with changes, and every
/// other one that was stays so, one block less is without changes.
pub proof fn lemma_unchanged_one(s: ImageState, s2: ImageState, n: nat, t: int)
    requires
        0 <= t < n,
        !s.block_changed(t),
        s2.block_changed(t),
        forall|i: int| 0 <= i < n && s.block_changed(i) ==> #[trigger] s2.block_changed(i),
    ensures
        s2.unchanged_blocks(n) + 1 <= s.unchanged_blocks(n),
    decreases n,
{
    if t == n - 1 {
        lemma_unchanged_le(s, s2, (n - 1) as nat);
    } else {
        lemma_unchanged_one(s, s2, (n - 1) as nat, t);
        assert(s.block_changed(n - 1) ==> s2.block_changed(n - 1));
    }
}

/// The reference-count table has an entry for the block that counts a
/// cluster before the end of what it counts.
pub proof fn lemma_has_slot(s: ImageState, x: u64)
    requires
        s.consistent(),
        x < s.counted_end(),
    ensures
        0 <= s.refcount_table_index(x) < s.ref_table.len(),
{
    lemma_consistent_geometry(s);
    let cs = s.cluster_size as int;
    let n = s.refblock_len() as int;
    let l = s.ref_table.len() as int;
    assert(l * n * cs == (l * n) * cs);
    vstd::arithmetic::mul::lemma_mul_is_commutative(l * n, cs);
    vstd::arithmetic::div_mod::lemma_multiply_divide_lt(x as int, cs, l * n);
    vstd::arithmetic::div_mod::lemma_div_pos_is_pos(x as int, cs);
    vstd::arithmetic::mul::lemma_mul_is_commutative(l, n);
    vstd::arithmetic::div_mod::lemma_multiply_divide_lt(x as int / cs, n, l);
    vstd::arithmetic::div_mod::lemma_div_pos_is_pos(x as int / cs, n);
}

/// The file does not outgrow its room while counts are set: after the
/// block of table entry `t` came to be in the cache with changes, taking a
/// cluster at most if it was not there with changes, and every other block
/// that was there with changes stayed so, the end that the file may grow to
/// is where it was or before.
pub proof fn lemma_growth_kept(s: ImageState, s2: ImageState, t: int)
    requires
        s.consistent(),
        s2.cluster_size == s.cluster_size,
        s2.ref_table.len() == s.ref_table.len(),
        0 <= t < s.ref_table.len(),
        s2.block_changed(t),
        forall|i: int|
            0 <= i < s.ref_table.len() && s.block_changed(i) ==> #[trigger] s2.block_changed(i),
        crate::raw_file::round_up(s2.disk.len() as int, s.cluster_size as int)
            <= crate::raw_file::round_up(s.disk.len() as int, s.cluster_size as int) + if s.block_changed(
            t,
        ) {
            0
        } else {
            s.cluster_size as int
        },
    ensures
        s2.growth_end() <= s.growth_end(),
{
    lemma_consistent_geometry(s);
    let cs = s.cluster_size as int;
    let n = s.ref_table.len();
    let a = s.unchanged_blocks(n) as int;
    let b = s2.unchanged_blocks(n) as int;
    if s.block_changed(t) {
        lemma_unchanged_le(s, s2, n);
    } else {
        lemma_unchanged_one(s, s2, n, t);
    }
    assert(b * cs + (if s.block_changed(t) {
        0
    } else {
        cs
    }) <= a * cs) by (nonlinear_arith)
        requires
            cs > 0,
            b >= 0,
            if s.block_changed(t) {
                b <= a
            } else {
                b + 1 <= a
            },
    ;
}

/// Room for a cluster: where the file has room and a block of counts is
/// not in the cache with changes, a cluster can be handed out, and the
/// reference-count table has an entry for every cluster of the file and for
/// the next one.
pub proof fn lemma_room_for_one(s: ImageState, t: int, max_len: nat)
    requires
        s.consistent(),
        s.has_room(0, max_len),
        0 <= t < s.ref_table.len(),
    ensures
        !s.block_changed(t) ==> s.has_next_cluster(max_len) && s.next_cluster() < s.counted_end()
            && s.next_cluster() + s.cluster_size <= s.growth_end(),
        s.disk.len() <= s.growth_end() <= s.counted_end(),
{
    lemma_consistent_geometry(s);
    let cs = s.cluster_size as int;
    let n = s.ref_table.len();
    lemma_round_up(s.disk.len() as int, cs);
    lemma_unchanged_le(s, s, n);
    let a = s.unchanged_blocks(n) as int;
    assert(a * cs >= 0) by (nonlinear_arith)
        requires
            a >= 0,
            cs > 0,
    ;
    if !s.block_changed(t) {
        lemma_unchanged_at(s, n, t);
        assert(a * cs >= cs) by (nonlinear_arith)
            requires
                a >= 1,
                cs > 0,
        ;
        let k = s.available.len() as int;
        if k > 0 {
            assert(s.cluster_of(ClusterUse::Available(k - 1)) == s.available[k - 1]);
            assert(s.is_cluster(s.available[k - 1]));
        }
    }
}

/// A block that is not in the cache with changes is one of the blocks
/// without changes.
pub proof fn lemma_unchanged_at(s: ImageState, n: nat, t: int)
    requires
        0 <= t < n,
        !s.block_changed(t),
    ensures
        s.unchanged_blocks(n) >= 1,
    decreases n,
{
    if t != n - 1 {
        lemma_unchanged_at(s, (n - 1) as nat, t);
    }
}

/// Room that is left: a state whose file may grow to where that of `s`
/// may, or `used` bytes further, has the room of `s` less `used` bytes.
pub proof fn lemma_room_step(s: ImageState, s2: ImageState, bytes: int, used: int, max_len: nat)
    requires
        s.has_room(bytes, max_len),
        used <= bytes,
        s2.cluster_size == s.cluster_size,
        s2.ref_table.len() == s.ref_table.len(),
        s2.growth_end() <= s.growth_end() + used,
    ensures
        s2.has_room(bytes - used, max_len),
{
}

/// The file grows by `used` bytes at most and the blocks of counts in the
/// cache stay as they are: the end that the file may grow to moves by as
/// much at most.
pub proof fn lemma_growth_alloc(s: ImageState, s2: ImageState, used: int)
    requires
        s2.cluster_size == s.cluster_size,
        s2.ref_table.len() == s.ref_table.len(),
        s2.refblock_cache == s.refblock_cache,
        crate::raw_file::round_up(s2.disk.len() as int, s.cluster_size as int)
            <= crate::raw_file::round_up(s.disk.len() as int, s.cluster_size as int) + used,
    ensures
        s2.growth_end() <= s.growth_end() + used,
{
    lemma_unchanged_le(s, s2, s.ref_table.len());
    lemma_unchanged_le(s2, s, s.ref_table.len());
}

/// Room for a cluster or more is room for the next cluster to be handed
/// out, and the reference-count table has an entry for every cluster of the
/// file and for that one.
pub proof fn lemma_room_next(s: ImageState, bytes: int, max_len: nat)
    requires
        s.consistent(),
        s.has_room(bytes, max_len),
        bytes >= 0,
    ensures
        bytes >= s.cluster_size ==> s.has_next_cluster(max_len),
        s.disk.len() <= s.growth_end() <= s.counted_end(),
        s.has_room(0, max_len),
{
    lemma_consistent_geometry(s);
    let cs = s.cluster_size as int;
    lemma_round_up(s.disk.len() as int, cs);
    lemma_unchanged_le(s, s, s.ref_table.len());
    let a = s.unchanged_blocks(s.ref_table.len()) as int;
    assert(a * cs >= 0) by (nonlinear_arith)
        requires
            a >= 0,
            cs > 0,
    ;
}

/// Room for the clusters that are handed out when the cached L2 table of
/// L1 entry `l1_index` gets another data cluster: one, and a second one
/// where the table is clean.
pub proof fn lemma_room_to_append(s: ImageState, l1_index: usize, bytes: int, max_len: nat)
    requires
        s.consistent(),
        s.has_room(bytes, max_len),
        bytes >= if s.l2_cache[l1_index].1 {
            s.cluster_size as int
        } else {
            2 * s.cluster_size
        },
    ensures
        s.has_room_to_append(l1_index, max_len),
{
    lemma_consistent_geometry(s);
    lemma_room_next(s, bytes, max_len);
    let cs = s.cluster_size as int;
    lemma_round_up(s.disk.len() as int, cs);
    lemma_round_up_grown(s.disk.len() as int, cs);
    let n = s.available.len() as int;
    if n > 0 {
        assert(s.cluster_of(ClusterUse::Available(n - 1)) == s.available[n - 1]);
        assert(s.is_cluster(s.available[n - 1]));
    }
    let taken = s.without_next_cluster();
    lemma_round_up(taken.disk.len() as int, cs);
}

/// In a consistent image, the cluster of a use that keeps its cluster is
/// one whose count changes only when it is set; so where the counts of such
/// clusters are kept, those of the clusters of these uses are.
pub proof fn lemma_uses_are_settled(s: ImageState, s2: ImageState, address: u64)
    requires
        s.consistent(),
        s2.keeps_settled_counts(s, address),
    ensures
        s2.counts_of_uses_kept(s, address),
        s.has_settled_use(address) ==> s.count_is_settled(address),
{
    assert forall|u: ClusterUse| u.is_settled() && #[trigger] s.cluster_of(u) != 0 implies s.count_is_settled(
        s.cluster_of(u),
    ) by {
        let x = s.cluster_of(u);
        assert(s.is_cluster(x));
        assert forall|t: int| 0 <= t < s.ref_table.len() implies #[trigger] s.ref_table[t] != x || x
            == 0 || s.block_changed(t) by {
            if s.ref_table[t] == x {
                assert(s.cluster_of(ClusterUse::RefBlock(t)) == s.cluster_of(u));
            }
        }
        assert forall|k: int| 0 <= k < s.available.len() implies #[trigger] s.available[k] != x by {
            if s.available[k] == x {
                assert(s.cluster_of(ClusterUse::Available(k)) == s.cluster_of(u));
            }
        }
    }
    if s.has_settled_use(address) {
        let u = choose|u: ClusterUse| u.is_settled() && #[trigger] s.cluster_of(u) == address;
        assert(s.count_is_settled(s.cluster_of(u)));
    }
}

/// A block of counts that is in the cache with changes stays there, with
/// its cluster, while a count is set in the block of table entry `t` and
/// those that follow are set.
pub proof fn lemma_blocks_stay(
    start: ImageState,
    written: ImageState,
    counted_new: ImageState,
    fin: ImageState,
    t: int,
    added: Option<u64>,
    dropped: Option<u64>,
)
    requires
        written.ref_table.len() == start.ref_table.len(),
        forall|i: int|
            0 <= i < start.ref_table.len() && i != t ==> #[trigger] written.ref_table[i]
                == start.ref_table[i],
        forall|i: int| start.block_changed(i) ==> #[trigger] written.block_changed(i),
        added is None ==> written.ref_table == start.ref_table,
        added is Some ==> !start.block_changed(t),
        added is None ==> counted_new == written,
        added is Some ==> counted_new.blocks_stay(written),
        dropped is None ==> fin == counted_new,
        dropped is Some ==> fin.blocks_stay(counted_new),
        counted_new.ref_table.len() == start.ref_table.len(),
    ensures
        fin.blocks_stay(start),
{
    assert forall|i: int|
        0 <= i < start.ref_table.len() && start.block_changed(i) implies #[trigger] fin.block_changed(
        i,
    ) && fin.ref_table[i] == start.ref_table[i] by {
        assert(written.block_changed(i));
        if i != t {
            assert(written.ref_table[i] == start.ref_table[i]);
        }
        if added is Some {
            assert(counted_new.block_changed(i));
            assert(counted_new.ref_table[i] == written.ref_table[i]);
        }
        assert(counted_new.block_changed(i));
        if dropped is Some {
            assert(fin.block_changed(i));
            assert(fin.ref_table[i] == counted_new.ref_table[i]);
        }
        assert(fin.block_changed(i));
    }
}

/// A file that ends with a whole cluster, behind what its length was
/// rounded up to, has a length that rounding up leaves as it is.
pub proof fn lemma_round_up_grown(n: int, cs: int)
    requires
        n >= 0,
        cs > 0,
    ensures
        crate::raw_file::round_up(crate::raw_file::round_up(n, cs) + cs, cs)
            == crate::raw_file::round_up(n, cs) + cs,
{
    lemma_round_up(n, cs);
    vstd::arithmetic::div_mod::lemma_mod_add_multiples_vanish(crate::raw_file::round_up(n, cs), cs);
}

/// A positive multiple of the cluster size is at least the cluster size.
pub proof fn lemma_multiple_ge(a: int, cs: int)
    requires
        cs > 0,
        a > 0,
        a % cs == 0,
    ensures
        a >= cs,
{
    let q = a / cs;
    assert(a == q * cs) by (nonlinear_arith)
        requires
            q == a / cs,
            a % cs == 0,
            cs > 0,
    ;
    assert(a >= cs) by (nonlinear_arith)
        requires
            a == q * cs,
            a > 0,
            cs > 0,
    ;
}

} // verus!
