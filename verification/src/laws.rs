//! What holds of every image: the laws that relate creating, writing,
//! flushing, reading and reopening.

use vstd::prelude::*;
use crate::disk::written;
use crate::endian::be_u64;
use crate::error::Error;
use crate::geometry::{div_ceil, lemma_div_ceil, max_refcount_clusters_of};
use crate::header::{
    header_for_size,
    header_image,
    lemma_header_for_size,
    lemma_parse_header_image,
    lemma_parsed_is_valid,
    metadata_end,
    parse_bytes,
    QcowHeader,
    HEADER_LEN,
};
use crate::model::{
    address_space_error,
    has_compressed,
    l1_end_offset,
    open_error,
    opened,
    refcount_table_len,
    tables_error,
    zero_table,
    ClusterUse,
    ImageState,
};
use crate::raw_file::{pointer_at, pointer_table_at};
use crate::steps::lemma_consistent_geometry;

verus! {

/// The greatest size of a new image whose L1 table fits in the cluster that
/// the header reserves for it: 4 TiB.
pub const MAX_CONSISTENT_NEW_SIZE: u64 = 0x400_0000_0000;

/// A table that is read from zero bytes holds zeros.
pub proof fn lemma_zero_table_at(bytes: Seq<u8>, offset: int, count: nat, mask: u64)
    requires
        0 <= offset,
        offset + 8 * count <= bytes.len(),
        forall|j: int| offset <= j < offset + 8 * count ==> #[trigger] bytes[j] == 0u8,
    ensures
        pointer_table_at(bytes, offset, count, mask) == zero_table(count),
{
    assert forall|i: int| 0 <= i < count implies pointer_at(bytes, offset, i) & mask == 0 by {
        let w = bytes.subrange(offset + 8 * i, offset + 8 * i + 8);
        assert(forall|k: int| 0 <= k < 8 ==> w[k] == bytes[offset + 8 * i + k]);
        assert(be_u64(w) == 0);
        assert(0u64 & mask == 0) by (bit_vector);
    }
    assert(pointer_table_at(bytes, offset, count, mask) =~= zero_table(count));
}

/// An image of at most `2^26` clusters of 64 KiB needs at most 2049
/// reference-count clusters, whose table fits in one cluster.
proof fn lemma_small_counts(num_clusters: int)
    requires
        1 <= num_clusters <= 0x400_0000,
    ensures
        1 <= max_refcount_clusters_of(4, 0x1_0000, num_clusters) <= 0x801,
        div_ceil(max_refcount_clusters_of(4, 0x1_0000, num_clusters) * 8, 0x1_0000) == 1,
{
    vstd::arithmetic::power2::lemma2_to64();
    assert(crate::geometry::refcount_bytes_of(4) == 2);
    let for_data = (num_clusters * 2 + 0xffff) / 0x1_0000;
    assert(for_data == div_ceil(num_clusters * 2, 0x1_0000));
    assert(1 <= for_data <= 0x800);
    let for_refcounts = (for_data * 2 + 0xffff) / 0x1_0000;
    assert(for_refcounts == div_ceil(for_data * 2, 0x1_0000));
    assert(0 <= for_refcounts <= 1);
}

/// A new image: the file that holds nothing but the header of an image of
/// `size` bytes, written to an empty file, opens as a consistent image that
/// holds zeros and counts no references.
pub proof fn lemma_new_image(size: u64)
    requires
        0 < size <= MAX_CONSISTENT_NEW_SIZE,
    ensures
        ({
            let h = header_for_size(size);
            let image = header_image(Seq::empty(), h);
            let s = opened(image, h);
            &&& parse_bytes(image) == Ok::<QcowHeader, Error>(h)
            &&& open_error(image) is None
            &&& s.consistent()
            &&& s.virtual_size() == size
            &&& forall|a: u64| #[trigger] s.byte_at(a) == 0u8
            &&& forall|x: u64| #[trigger] s.refcount(x) == 0
            &&& s.counted()
            &&& forall|x: u64|
                x % s.cluster_size == 0 && x + s.cluster_size <= s.disk.len()
                    ==> #[trigger] s.can_count(x, 1)
            &&& s.l1 == zero_table(s.l1.len())
            &&& s.ref_table == zero_table(s.ref_table.len())
            &&& s.cluster_size == 0x1_0000
        }),
{
    let h = header_for_size(size);
    let image = header_image(Seq::empty(), h);
    let s = opened(image, h);
    let cs = 0x1_0000int;
    lemma_header_for_size(size);
    lemma_parse_header_image(Seq::empty(), h);
    vstd::arithmetic::power2::lemma2_to64();
    let num_clusters = div_ceil(size as int, cs);
    lemma_div_ceil(size as int, cs);
    lemma_div_ceil(num_clusters, 0x2000);
    assert(num_clusters <= 0x400_0000);
    assert(h.l1_size <= 0x2000);
    lemma_div_ceil(h.l1_size as int, cs);
    assert(h.refcount_table_offset == 0x2_0000);
    let max = max_refcount_clusters_of(h.refcount_order, cs, num_clusters);
    lemma_small_counts(num_clusters);
    assert(refcount_table_len(h) == max);
    assert(h.refcount_table_clusters == 1);
    assert(metadata_end(h) == 0x3_0000);
    assert(image.len() == 0x3_0000);
    assert forall|j: int| HEADER_LEN <= j < image.len() implies #[trigger] image[j] == 0u8 by {}
    lemma_zero_table_at(image, h.l1_table_offset as int, h.l1_size as nat, 0xffff_ffff_ffff_ffff);
    lemma_zero_table_at(image, h.refcount_table_offset as int, max as nat, 0xffff_ffff_ffff_ffff);
    let raw_l1 = pointer_table_at(
        image,
        h.l1_table_offset as int,
        h.l1_size as nat,
        0xffff_ffff_ffff_ffff,
    );
    assert(!has_compressed(raw_l1)) by {
        assert(0u64 & 0x4000_0000_0000_0000u64 == 0) by (bit_vector);
    }
    assert(s.l1 =~= zero_table(h.l1_size as nat)) by {
        assert(0u64 & 0x00ff_ffff_ffff_fe00u64 == 0) by (bit_vector);
    }
    assert(tables_error(image, h) is None);
    assert(l1_end_offset(h) <= size);
    assert(address_space_error(h) is None);
    assert(open_error(image) is None);
    assert(s.wf());
    assert(s.l1_covers()) by {
        let last = (size - 1) as int;
        assert(last / cs < num_clusters);
        assert((last / cs) / 0x2000 < h.l1_size);
    }
    assert forall|vc: int| #[trigger] s.entry(vc) == 0 by {}
    assert forall|u: ClusterUse| #[trigger] s.cluster_of(u) == 0 by {
        match u {
            ClusterUse::Data(vc) => {
                assert(s.entry(vc) == 0);
            },
            _ => {},
        }
    }
    assert forall|a: u64| #[trigger] s.byte_at(a) == 0u8 by {
        assert(s.entry((a / s.cluster_size) as int) == 0);
    }
    assert forall|x: u64| #[trigger] s.refcount(x) == 0 by {}
    assert forall|x: u64|
        x % s.cluster_size == 0
            && x + s.cluster_size <= s.disk.len() implies #[trigger] s.can_count(
        x,
        1,
    ) by {
        // The file holds the header, the L1 table and the reference-count table, a cluster
        // each, and none of them is a cluster that can be handed out.
        assert(x == 0 || x == 0x1_0000 || x == 0x2_0000);
        assert(h.l1_size >= 1);
        assert(max >= 1);
        assert(!s.is_cluster(x));
    }
}

/// The layout of a new image of at most 4 TiB: the header, the L1 table
/// and the reference-count table take a cluster each.
pub proof fn lemma_new_image_layout(size: u64)
    requires
        0 < size <= MAX_CONSISTENT_NEW_SIZE,
    ensures
        ({
            let h = header_for_size(size);
            let s = opened(header_image(Seq::empty(), h), h);
            &&& h.l1_table_offset == 0x1_0000
            &&& h.refcount_table_offset == 0x2_0000
            &&& h.refcount_table_clusters == 1
            &&& s.disk.len() == 0x3_0000
            &&& 1 <= s.l1.len() <= 0x2000
            &&& 1 <= s.ref_table.len() <= 0x801
        }),
{
    let h = header_for_size(size);
    let image = header_image(Seq::empty(), h);
    lemma_header_for_size(size);
    lemma_parse_header_image(Seq::empty(), h);
    vstd::arithmetic::power2::lemma2_to64();
    let num_clusters = div_ceil(size as int, 0x1_0000);
    lemma_div_ceil(size as int, 0x1_0000);
    lemma_div_ceil(num_clusters, 0x2000);
    assert(1 <= num_clusters <= 0x400_0000);
    assert(1 <= h.l1_size <= 0x2000);
    lemma_div_ceil(h.l1_size as int, 0x1_0000);
    lemma_small_counts(num_clusters);
    assert(h.refcount_table_clusters == 1);
    assert(image.len() == 0x3_0000);
}

/// The state of a new image of `size` bytes, of at most 4 TiB, in a file
/// that was empty, while its clusters are counted: `done` is the offset up
/// to which they are. The first count makes the first block of counts, in a
/// new cluster behind the tables, which is counted with it.
pub open spec fn new_image_counted_to(size: u64, done: u64) -> ImageState {
    let h = header_for_size(size);
    let fresh = opened(header_image(Seq::empty(), h), h);
    let first = fresh.with_new_refblock(0).with_count(0, 1).with_count(0x3_0000, 1);
    if done == 0 {
        fresh
    } else if done == 0x1_0000 {
        first
    } else if done == 0x2_0000 {
        first.with_count(0x1_0000, 1)
    } else {
        first.with_count(0x1_0000, 1).with_count(0x2_0000, 1)
    }
}

/// The state of a new image of `size` bytes, of at most 4 TiB, in a file
/// that was empty: four clusters, which hold the header, the L1 table, the
/// reference-count table and the first block of counts, and count a
/// reference each.
pub open spec fn new_image(size: u64) -> ImageState {
    new_image_counted_to(size, 0x3_0000)
}

/// With clusters of 64 KiB, the counts of the first four clusters are the
/// first four of the first block of counts.
pub proof fn lemma_first_clusters_index(s: ImageState)
    requires
        s.cluster_size == 0x1_0000,
    ensures
        s.refblock_len() == 0x8000,
        s.refcount_table_index(0) == 0 && s.refcount_block_index(0) == 0,
        s.refcount_table_index(0x1_0000) == 0 && s.refcount_block_index(0x1_0000) == 1,
        s.refcount_table_index(0x2_0000) == 0 && s.refcount_block_index(0x2_0000) == 2,
        s.refcount_table_index(0x3_0000) == 0 && s.refcount_block_index(0x3_0000) == 3,
{
    assert(0u64 / 0x1_0000u64 == 0);
    assert(0x1_0000u64 / 0x1_0000u64 == 1);
    assert(0x2_0000u64 / 0x1_0000u64 == 2);
    assert(0x3_0000u64 / 0x1_0000u64 == 3);
    assert(0x1_0000u64 / 2 == 0x8000);
}

/// The first block of counts of a new image counts the four clusters of
/// the file, and is in the cluster behind the tables.
pub proof fn lemma_new_image_counts(size: u64)
    requires
        0 < size <= MAX_CONSISTENT_NEW_SIZE,
    ensures
        ({
            let s = new_image(size);
            &&& s.disk.len() == 0x4_0000
            &&& s.cluster_size == 0x1_0000
            &&& s.virtual_size() == size
            &&& s.ref_table[0] == 0x3_0000
            &&& s.pending.len() == 0
            &&& s.available.len() == 0
            &&& s.all_counted_before(0x4_0000)
            &&& s.ref_table.len() >= 1
            &&& s.refblock_cache.contains_key(0)
            &&& s.refblock_cache[0].1
            &&& s.l1.len() >= 1
            &&& s.l1 == zero_table(s.l1.len())
            &&& s.l2_cache == Map::<usize, (Seq<u64>, bool)>::empty()
        }),
{
    let h = header_for_size(size);
    let fresh = opened(header_image(Seq::empty(), h), h);
    lemma_new_image(size);
    lemma_new_image_layout(size);
    lemma_header_for_size(size);
    vstd::arithmetic::power2::lemma2_to64();
    let s = new_image(size);
    assert(fresh.cluster_size == 0x1_0000);
    assert(fresh.refblock_len() == 0x8000);
    let made = fresh.with_new_refblock(0);
    assert(made.ref_table[0] == 0x3_0000);
    assert(made.disk.len() == 0x4_0000);
    let c0 = made.with_count(0, 1);
    let c3 = c0.with_count(0x3_0000, 1);
    let c1 = c3.with_count(0x1_0000, 1);
    let c2 = c1.with_count(0x2_0000, 1);
    assert(s == c2);
    lemma_first_clusters_index(made);
    let b = made.refblock_cache[0].0;
    assert(b.len() == 0x8000);
    let block = b.update(0, 1u16).update(3, 1u16).update(1, 1u16).update(2, 1u16);
    assert(c2.refblock_cache[0].0 == block);
    assert(c2.refblock(0) == block);
    assert forall|x: u64| x % s.cluster_size == 0 && x < 0x4_0000 implies #[trigger] s.refcount(
        x,
    ) != 0 by {
        assert(s.cluster_size == 0x1_0000);
        assert(x % 0x1_0000 == 0);
        assert(x == 0 || x == 0x1_0000 || x == 0x2_0000 || x == 0x3_0000);
        if x == 0 {
            assert(s.refcount(x) == block[0]);
        } else if x == 0x1_0000 {
            assert(s.refcount(x) == block[1]);
        } else if x == 0x2_0000 {
            assert(s.refcount(x) == block[2]);
        } else {
            assert(s.refcount(x) == block[3]);
        }
    }
}

/// An image without a cluster in use is consistent, holds zeros and counts
/// no references: a well-formed state whose file starts with the header and
/// holds the two tables, apart from each other, with an L1 table that covers
/// the image, if both tables hold zeros only, nothing is cached and no
/// cluster waits or is available. Such is an image that was opened from a
/// file that holds a header and zeros.
pub proof fn lemma_unused_image(s: ImageState)
    requires
        s.wf(),
        s.header_stored(),
        s.header.cluster_bits >= 9,
        s.disk.len() <= crate::model::MAX_FILE_LEN,
        s.l1_covers(),
        s.tables_in_file(),
        s.l1 == zero_table(s.l1.len()),
        s.ref_table == zero_table(s.ref_table.len()),
        s.l2_cache == Map::<usize, (Seq<u64>, bool)>::empty(),
        s.refblock_cache == Map::<usize, (Seq<u16>, bool)>::empty(),
        s.pending.len() == 0,
        s.available.len() == 0,
    ensures
        s.consistent(),
        s.is_zero(),
        forall|x: u64| #[trigger] s.refcount(x) == 0,
{
    crate::geometry::lemma_cluster_size_bounds(s.header.cluster_bits);
    vstd::arithmetic::power2::lemma_pow2_adds(9, (s.header.cluster_bits - 9) as nat);
    vstd::arithmetic::power2::lemma2_to64();
    vstd::arithmetic::power2::lemma_pow2_pos((s.header.cluster_bits - 9) as nat);
    let k = vstd::arithmetic::power2::pow2((s.header.cluster_bits - 9) as nat) as int;
    assert(s.cluster_size == 512 * k);
    assert(s.cluster_size >= 512);
    let n = s.l2_len() as int;
    let m = s.refblock_len() as int;
    assert forall|vc: int| #[trigger] s.entry(vc) == 0 by {
        if 0 <= vc && vc / n < s.l1.len() {
            vstd::arithmetic::div_mod::lemma_mod_bound(vc, n);
            vstd::arithmetic::div_mod::lemma_div_pos_is_pos(vc, n);
        }
    }
    assert forall|u: ClusterUse| #[trigger] s.cluster_of(u) == 0 by {
        match u {
            ClusterUse::Data(vc) => {
                assert(s.entry(vc) == 0);
            },
            _ => {},
        }
    }
    assert forall|a: u64| #[trigger] s.byte_at(a) == 0u8 by {
        assert(s.entry((a / s.cluster_size) as int) == 0);
    }
    assert forall|x: u64| #[trigger] s.refcount(x) == 0 by {
        let t = s.refcount_table_index(x);
        if t < s.ref_table.len() {
            vstd::arithmetic::div_mod::lemma_mod_bound((x / s.cluster_size) as int, m);
            vstd::arithmetic::div_mod::lemma_div_pos_is_pos((x / s.cluster_size) as int, m);
        }
    }
}

/// No cluster of the file is left without a count while nothing is
/// retired: if every cluster of the file counted a reference, the counts
/// have grown since, every cluster by which the file grew counts one, and
/// the list of clusters that blocks have left is as long as it was, then
/// every cluster of the file counts a reference.
pub proof fn lemma_all_counted_kept(before: ImageState, after: ImageState)
    requires
        before.all_counted_before(before.disk.len() as int),
        after.cluster_size == before.cluster_size,
        after.counts_grown_from(before),
        after.new_clusters_counted(before),
        after.pending.len() == before.pending.len(),
    ensures
        after.all_counted_before(after.disk.len() as int),
{
    assert forall|x: u64|
        x % after.cluster_size == 0 && x < after.disk.len() implies #[trigger] after.refcount(x)
        != 0 by {
        assert(!after.retired_since(before, x));
        if x < before.disk.len() {
            assert(before.refcount(x) != 0);
        }
    }
}

/// A file has room if it can grow by a cluster for each entry of the
/// reference-count table and by `bytes` more: no more blocks of counts can
/// take a cluster than the table has entries.
pub proof fn lemma_has_room(s: ImageState, bytes: int, max_len: nat)
    requires
        s.cluster_size > 0,
        crate::raw_file::round_up(s.disk.len() as int, s.cluster_size as int) + s.ref_table.len()
            * s.cluster_size + bytes <= max_len,
        crate::raw_file::round_up(s.disk.len() as int, s.cluster_size as int) + s.ref_table.len()
            * s.cluster_size + bytes + s.cluster_size <= crate::model::MAX_FILE_LEN,
        crate::raw_file::round_up(s.disk.len() as int, s.cluster_size as int) + s.ref_table.len()
            * s.cluster_size + bytes <= s.counted_end(),
    ensures
        s.has_room(bytes, max_len),
{
    crate::steps::lemma_unchanged_le(s, s, s.ref_table.len());
    let a = s.unchanged_blocks(s.ref_table.len()) as int;
    let l = s.ref_table.len() as int;
    let cs = s.cluster_size as int;
    assert(a * cs <= l * cs) by (nonlinear_arith)
        requires
            0 <= a <= l,
            cs > 0,
    ;
}

/// A count of one can be set for a cluster that holds the header or a part
/// of the L1 table or of the reference-count table.
pub proof fn lemma_can_count_table_cluster(s: ImageState, x: u64)
    requires
        s.consistent(),
        x % s.cluster_size == 0,
        x + s.cluster_size <= s.disk.len(),
        !s.is_cluster(x),
    ensures
        s.can_count(x, 1),
{
    lemma_consistent_geometry(s);
    assert forall|k: int| 0 <= k < s.available.len() implies #[trigger] s.available[k] != x by {
        assert(s.cluster_of(ClusterUse::Available(k)) == s.available[k]);
    }
    assert forall|u: ClusterUse| #[trigger] s.cluster_of(u) == x && x != 0 implies if u.is_live() {
        1u16 >= 1
    } else {
        1u16 == 0
    } by {
        assert(s.is_cluster(s.cluster_of(u)));
    }
    crate::steps::lemma_index_not_negative(s, x);
    let t = s.refcount_table_index(x);
    if t < s.ref_table.len() && s.ref_table[t] == x && x != 0 {
        assert(s.cluster_of(ClusterUse::RefBlock(t)) == x);
    }
}

/// The counts are right after a flush if they were right before: every
/// cluster that holds a table, a block of counts or contents of the image
/// counts at least one reference, and every cluster that is available, or
/// was left by a block, counts none.
pub proof fn lemma_counts_right(before: ImageState, after: ImageState)
    requires
        before.counted(),
        after.same_counts(before),
    ensures
        after.counted(),
        forall|k: int|
            0 <= k < after.available.len() && after.available[k] != 0 ==> after.refcount(
                #[trigger] after.available[k],
            ) == 0,
        forall|k: int|
            0 <= k < after.pending.len() && after.pending[k] != 0 ==> after.refcount(
                #[trigger] after.pending[k],
            ) == 0,
        forall|i: int|
            0 <= i < after.l1.len() && after.l1[i] != 0 ==> after.refcount(#[trigger] after.l1[i])
                >= 1,
        forall|t: int|
            0 <= t < after.ref_table.len() && after.ref_table[t] != 0 ==> after.refcount(
                #[trigger] after.ref_table[t],
            ) >= 1,
        forall|vc: int| after.entry(vc) != 0 ==> after.refcount(#[trigger] after.entry(vc)) >= 1,
{
    assert(after.counted_but(Set::empty()));
    assert forall|k: int|
        0 <= k < after.available.len() && after.available[k] != 0 implies after.refcount(
        #[trigger] after.available[k],
    ) == 0 by {
        assert(after.cluster_of(ClusterUse::Available(k)) == after.available[k]);
    }
    assert forall|k: int|
        0 <= k < after.pending.len() && after.pending[k] != 0 implies after.refcount(
        #[trigger] after.pending[k],
    ) == 0 by {
        assert(after.cluster_of(ClusterUse::Pending(k)) == after.pending[k]);
    }
    assert forall|i: int| 0 <= i < after.l1.len() && after.l1[i] != 0 implies after.refcount(
        #[trigger] after.l1[i],
    ) >= 1 by {
        assert(after.cluster_of(ClusterUse::L2Table(i)) == after.l1[i]);
    }
    assert forall|t: int|
        0 <= t < after.ref_table.len() && after.ref_table[t] != 0 implies after.refcount(
        #[trigger] after.ref_table[t],
    ) >= 1 by {
        assert(after.cluster_of(ClusterUse::RefBlock(t)) == after.ref_table[t]);
    }
    assert forall|vc: int| after.entry(vc) != 0 implies after.refcount(
        #[trigger] after.entry(vc),
    ) >= 1 by {
        assert(after.cluster_of(ClusterUse::Data(vc)) == after.entry(vc));
    }
}

/// What is written is read back after a flush: if `written` is the image
/// `before` after `data` was written at `position`, and `flushed` maps and
/// holds what `written` does, as it does after a flush, then `flushed` holds
/// `data` at `position`, which is what a read at that position returns.
pub proof fn lemma_written_is_read(
    before: ImageState,
    written: ImageState,
    flushed: ImageState,
    position: u64,
    data: Seq<u8>,
)
    requires
        written.holds_written(before, position, data),
        flushed.same_data(written),
        position + data.len() <= before.virtual_size(),
    ensures
        flushed.contents().subrange(position as int, position + data.len()) == data,
{
    assert forall|j: int| 0 <= j < data.len() implies flushed.contents()[position + j]
        == data[j] by {
        let a = (position + j) as u64;
        assert(flushed.byte_at(a) == written.byte_at(a));
    }
    assert(flushed.contents().subrange(position as int, position + data.len()) =~= data);
}

/// What was never written reads as zero: if `after` is the image `before`
/// after a write of `data` at `position`, and the address `a`, outside of
/// what was written, held a zero, then it holds a zero.
pub proof fn lemma_unwritten_stays_zero(
    before: ImageState,
    after: ImageState,
    position: u64,
    data: Seq<u8>,
    a: u64,
)
    requires
        after.holds_written(before, position, data),
        !(position <= a < position + data.len()),
        before.byte_at(a) == 0,
    ensures
        after.byte_at(a) == 0,
{
}

/// A write changes nothing but what it writes: the image holds what it
/// held, with `data` at `position`.
pub proof fn lemma_written_contents(
    before: ImageState,
    after: ImageState,
    position: u64,
    data: Seq<u8>,
)
    requires
        after.holds_written(before, position, data),
        position + data.len() <= before.virtual_size(),
    ensures
        after.contents() == before.contents().take(position as int) + data
            + before.contents().skip(position + data.len()),
{
    assert(after.contents() =~= before.contents().take(position as int) + data
        + before.contents().skip(position + data.len()));
}

/// After a flush, the tables in the file point at blocks that are written:
/// in a consistent image without dirty blocks, whose tables are stored, the
/// L1 table in the file is the L1 table in memory, and each L2 table that it
/// points at is, in the file, the table that the engine sees; and likewise
/// the reference-count table and the blocks of counts.
pub proof fn lemma_stored_tables_point_at_written(s: ImageState)
    requires
        s.consistent(),
        s.all_clean(),
        s.tables_stored(),
    ensures
        forall|i: int|
            0 <= i < s.l1.len()
                ==> #[trigger] pointer_at(s.disk, s.header.l1_table_offset as int, i)
                & 0xffff_ffff_ffff_ffff == s.l1[i],
        forall|i: int|
            0 <= i < s.l1.len() && s.l1[i] != 0 ==> pointer_table_at(
                s.disk,
                s.l1[i] as int,
                s.l2_len(),
                crate::geometry::L2_TABLE_OFFSET_MASK,
            ) == #[trigger] s.l2_table(i) && s.l1[i] + s.cluster_size <= s.disk.len(),
        forall|t: int|
            0 <= t < s.ref_table.len() ==> #[trigger] pointer_at(
                s.disk,
                s.header.refcount_table_offset as int,
                t,
            ) & 0xffff_ffff_ffff_ffff == s.ref_table[t],
        forall|t: int|
            0 <= t < s.ref_table.len()
                && s.ref_table[t] != 0
                ==> crate::raw_file::refcount_block_at(
                s.disk,
                s.ref_table[t] as int,
                s.refblock_len(),
            ) == #[trigger] s.refblock(t) && s.ref_table[t] + s.cluster_size <= s.disk.len(),
{
    let stored_l1 = pointer_table_at(
        s.disk,
        s.header.l1_table_offset as int,
        s.l1.len(),
        0xffff_ffff_ffff_ffff,
    );
    assert forall|i: int| 0 <= i < s.l1.len() implies #[trigger] pointer_at(
        s.disk,
        s.header.l1_table_offset as int,
        i,
    ) & 0xffff_ffff_ffff_ffff == s.l1[i] by {
        assert(stored_l1[i] == s.l1[i]);
    }
    assert forall|i: int| 0 <= i < s.l1.len() && s.l1[i] != 0 implies pointer_table_at(
        s.disk,
        s.l1[i] as int,
        s.l2_len(),
        crate::geometry::L2_TABLE_OFFSET_MASK,
    ) == #[trigger] s.l2_table(i) && s.l1[i] + s.cluster_size <= s.disk.len() by {
        assert(s.cluster_of(ClusterUse::L2Table(i)) == s.l1[i]);
        assert(s.is_cluster(s.l1[i]));
        if s.l2_cache.contains_key(i as usize) {
            assert(!s.l2_cache[i as usize].1);
        }
    }
    let stored_refs = pointer_table_at(
        s.disk,
        s.header.refcount_table_offset as int,
        s.ref_table.len(),
        0xffff_ffff_ffff_ffff,
    );
    assert forall|t: int| 0 <= t < s.ref_table.len() implies #[trigger] pointer_at(
        s.disk,
        s.header.refcount_table_offset as int,
        t,
    ) & 0xffff_ffff_ffff_ffff == s.ref_table[t] by {
        assert(stored_refs[t] == s.ref_table[t]);
    }
    assert forall|t: int|
        0 <= t < s.ref_table.len()
            && s.ref_table[t] != 0 implies crate::raw_file::refcount_block_at(
        s.disk,
        s.ref_table[t] as int,
        s.refblock_len(),
    ) == #[trigger] s.refblock(t) && s.ref_table[t] + s.cluster_size <= s.disk.len() by {
        assert(s.cluster_of(ClusterUse::RefBlock(t)) == s.ref_table[t]);
        assert(s.is_cluster(s.ref_table[t]));
        if s.refblock_cache.contains_key(t as usize) {
            assert(!s.refblock_cache[t as usize].1);
        }
    }
}

/// An image that was flushed can be opened again: the file of a consistent
/// image without dirty blocks, whose tables are stored, opens without error
/// as a consistent image of the same size, with the same tables, that maps,
/// holds and counts what the image did.
pub proof fn lemma_reopen(s: ImageState)
    requires
        s.consistent(),
        s.all_clean(),
        s.tables_stored(),
    ensures
        open_error(s.disk) is None,
        opened(s.disk, s.header).consistent(),
        opened(s.disk, s.header).virtual_size() == s.virtual_size(),
        opened(s.disk, s.header).same_data(s),
        opened(s.disk, s.header).same_counts(s),
        opened(s.disk, s.header).contents() == s.contents(),
        opened(s.disk, s.header).l1 == s.l1,
        opened(s.disk, s.header).ref_table == s.ref_table,
{
    let h = s.header;
    let r = opened(s.disk, h);
    lemma_consistent_geometry(s);
    lemma_parsed_is_valid(s.disk);
    lemma_stored_tables_point_at_written(s);
    let raw_l1 = pointer_table_at(
        s.disk,
        h.l1_table_offset as int,
        h.l1_size as nat,
        0xffff_ffff_ffff_ffff,
    );
    assert(raw_l1 == s.l1);
    assert forall|i: int| 0 <= i < s.l1.len() implies s.l1[i] & 0x4000_0000_0000_0000 == 0
        && s.l1[i] & 0x00ff_ffff_ffff_fe00 == #[trigger] s.l1[i] by {
        let e = s.l1[i];
        if e != 0 {
            assert(s.cluster_of(ClusterUse::L2Table(i)) == e);
            assert(s.is_cluster(e));
            crate::steps::lemma_offset_reads_back(e, s.cluster_size);
            assert(e & 0x4000_0000_0000_0000u64 == 0) by (bit_vector)
                requires
                    e < 0x0100_0000_0000_0000u64,
            ;
        } else {
            assert(0u64 & 0x4000_0000_0000_0000u64 == 0) by (bit_vector);
            assert(0u64 & 0x00ff_ffff_ffff_fe00u64 == 0) by (bit_vector);
        }
    }
    assert(!has_compressed(raw_l1));
    assert(r.l1 =~= s.l1);
    assert(r.ref_table == s.ref_table);
    assert(tables_error(s.disk, h) is None);
    assert(open_error(s.disk) is None);
    assert(r.wf());
    assert forall|i: int| 0 <= i < s.l1.len() implies #[trigger] r.l2_table(i) == s.l2_table(
        i,
    ) by {}
    assert(r.pending =~= s.pending.take(0));
    assert(r.available =~= s.available.take(0));
    crate::steps::lemma_same_uses(s, r);
    assert forall|vc: int| s.entry(vc) != 0 implies #[trigger] crate::steps::kept(
        s.disk,
        r.disk,
        s.entry(vc) as int,
        s.cluster_size as int,
    ) by {}
    crate::steps::lemma_same_bytes(s, r);
    assert forall|x: u64| #[trigger] r.refcount(x) == s.refcount(x) by {
        let t = s.refcount_table_index(x);
        if t < s.ref_table.len() {
            assert(r.refblock(t) == s.refblock(t));
        }
    }
    assert(r.contents() =~= s.contents());
}

/// A new image that was flushed can be opened again, holds zeros, and has
/// a count for every cluster of its file: if `flushed` is what a flush makes
/// of the new image of `size` bytes, then its file opens without error as an
/// image of `size` bytes, which holds nothing but zeros, and in which every
/// cluster of the file counts a reference.
pub proof fn lemma_new_image_reopens(size: u64, flushed: ImageState)
    requires
        0 < size <= MAX_CONSISTENT_NEW_SIZE,
        new_image(size).consistent(),
        new_image(size).is_zero(),
        flushed.consistent(),
        flushed.all_clean(),
        flushed.tables_stored(),
        flushed.same_data(new_image(size)),
        flushed.same_counts(new_image(size)),
        flushed.disk.len() == new_image(size).disk.len(),
    ensures
        open_error(flushed.disk) is None,
        opened(flushed.disk, flushed.header).virtual_size() == size,
        opened(flushed.disk, flushed.header).is_zero(),
        opened(flushed.disk, flushed.header).all_counted_before(flushed.disk.len() as int),
{
    let created = new_image(size);
    let r = opened(flushed.disk, flushed.header);
    lemma_new_image_counts(size);
    lemma_reopen(flushed);
    assert forall|a: u64| #[trigger] r.byte_at(a) == 0u8 by {
        assert(r.byte_at(a) == flushed.byte_at(a));
        assert(flushed.byte_at(a) == created.byte_at(a));
    }
    assert forall|x: u64|
        x % r.cluster_size == 0 && x < flushed.disk.len() implies #[trigger] r.refcount(x)
        != 0 by {
        assert(r.refcount(x) == flushed.refcount(x));
        assert(flushed.refcount(x) == created.refcount(x));
    }
}

} // verus!
