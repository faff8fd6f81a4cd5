//! The mathematical model of an open image.
//!
//! An [`ImageState`] holds what an engine's answers depend on: the bytes of
//! the file, the tables in memory, the cached blocks, and the lists of
//! clusters. The functions on it say how a virtual address is translated,
//! what the image contains, and what the reference count of a cluster is.

use vstd::prelude::*;
use crate::error::{Error, IoError};
use crate::geometry::{
    cluster_size_of,
    div_ceil,
    max_refcount_clusters_of,
    COMPRESSED_FLAG,
    L1_TABLE_OFFSET_MASK,
    L2_TABLE_OFFSET_MASK,
    MAX_CLUSTER_BITS,
    MIN_CLUSTER_BITS,
};
use crate::header::{parse_bytes, QcowHeader, HEADER_LEN};
use crate::raw_file::{pointer_table_at, refcount_block_at};

verus! {

/// The greatest length of a file whose every cluster has an offset that
/// fits the offset bits of a table entry.
pub const MAX_FILE_LEN: u64 = 0x0100_0000_0000_0000;

/// What a cluster of the file is used for.
pub enum ClusterUse {
    /// The L2 table of the L1 entry with this index.
    L2Table(int),
    /// The reference-count block of the table entry with this index.
    RefBlock(int),
    /// The contents of the cluster of the image with this number.
    Data(int),
    /// Left by a block that has moved: the entry of the list of such
    /// clusters with this index.
    Pending(int),
    /// Free to be handed out: the entry of the list of such clusters with
    /// this index.
    Available(int),
}

impl ClusterUse {
    /// Whether the use is one that the image needs: a table, a block of
    /// counts, or contents; not a place in a list of clusters without use.
    pub open spec fn is_live(self) -> bool {
        self is L2Table || self is RefBlock || self is Data
    }

    /// Whether the use is one that keeps its cluster while counts are set:
    /// an L2 table, contents of the image, or a place in the list of
    /// clusters that blocks have left. A block of counts may move, and an
    /// available cluster may be handed out.
    pub open spec fn is_settled(self) -> bool {
        self is L2Table || self is Data || self is Pending
    }
}

/// The state of an open image.
pub struct ImageState {
    /// The header that the image was opened with.
    pub header: QcowHeader,
    /// The size of a cluster in bytes.
    pub cluster_size: u64,
    /// The bytes of the file.
    pub disk: Seq<u8>,
    /// The L1 table: for each L2 table the offset of its cluster, or zero.
    pub l1: Seq<u64>,
    /// The reference-count table: for each block the offset of its cluster,
    /// or zero.
    pub ref_table: Seq<u64>,
    /// The L2 tables in memory, by L1 index, each with its dirty bit.
    pub l2_cache: Map<usize, (Seq<u64>, bool)>,
    /// The reference-count blocks in memory, by index in the reference-count
    /// table, each with its dirty bit.
    pub refblock_cache: Map<usize, (Seq<u16>, bool)>,
    /// The clusters that a changed block has left, and that the tables in
    /// the file may still point at.
    pub pending: Seq<u64>,
    /// The clusters that can be handed out again.
    pub available: Seq<u64>,
    /// The position of the next read or write.
    pub position: u64,
}

/// The cluster of a block of counts that was made: the cluster `added`
/// that a block took without leaving one.
pub open spec fn made_cluster(added: Option<u64>, dropped: Option<u64>) -> Set<u64> {
    if dropped is None && added is Some {
        set![added.unwrap()]
    } else {
        Set::empty()
    }
}

/// The clusters of a block of counts that has moved: the cluster `added`
/// that it took and the cluster `dropped` that it left.
pub open spec fn moved_clusters(added: Option<u64>, dropped: Option<u64>) -> Set<u64> {
    if dropped is Some {
        set![added.unwrap(), dropped.unwrap()]
    } else {
        Set::empty()
    }
}

/// A block of `n` zero entries.
pub open spec fn zero_table(n: nat) -> Seq<u64> {
    Seq::new(n, |i: int| 0u64)
}

/// `n` zero bytes.
pub open spec fn zero_bytes(n: nat) -> Seq<u8> {
    Seq::new(n, |i: int| 0u8)
}

/// A block of `n` zero counts.
pub open spec fn zero_counts(n: nat) -> Seq<u16> {
    Seq::new(n, |i: int| 0u16)
}

/// The number of entries of the reference-count table of an image with
/// header `h`: as many as the image can need reference-count clusters.
pub open spec fn refcount_table_len(h: QcowHeader) -> int {
    max_refcount_clusters_of(
        h.refcount_order,
        cluster_size_of(h.cluster_bits),
        div_ceil(h.size as int, cluster_size_of(h.cluster_bits)),
    )
}

/// The offset in the L1 table of the entry for the end of the image.
pub open spec fn l1_end_offset(h: QcowHeader) -> int {
    (h.size as int / cluster_size_of(h.cluster_bits)) / (cluster_size_of(h.cluster_bits) / 8) * 8
}

/// Whether a table of `count` entries at `offset` can be read from a file
/// of `len` bytes.
pub open spec fn table_read_error(offset: u64, count: int, len: nat) -> Option<IoError> {
    if 8 * count > usize::MAX {
        Some(IoError::InvalidInput)
    } else if offset + 8 * count > len {
        Some(IoError::UnexpectedEof)
    } else {
        None
    }
}

/// Whether an entry of `table` has the flag of a compressed cluster.
pub open spec fn has_compressed(table: Seq<u64>) -> bool {
    exists|i: int| 0 <= i < table.len() && #[trigger] table[i] & COMPRESSED_FLAG != 0
}

/// The entries of `table`, each reduced to the offset that it holds.
pub open spec fn offsets_of(table: Seq<u64>) -> Seq<u64> {
    Seq::new(table.len(), |i: int| table[i] & L1_TABLE_OFFSET_MASK)
}

/// The first reason for which the two tables of an image with header `h`
/// cannot be read from a reliable file that holds `bytes`: the L1 table does
/// not lie in the file, one of its entries is compressed, or the
/// reference-count table does not lie in the file.
pub open spec fn tables_error(bytes: Seq<u8>, h: QcowHeader) -> Option<Error> {
    if let Some(e) = table_read_error(h.l1_table_offset, h.l1_size as int, bytes.len()) {
        Some(Error::ReadingHeader(e))
    } else if has_compressed(
        pointer_table_at(
            bytes,
            h.l1_table_offset as int,
            h.l1_size as nat,
            0xffff_ffff_ffff_ffff,
        ),
    ) {
        Some(Error::CompressedBlocksNotSupported)
    } else if let Some(e) = table_read_error(
        h.refcount_table_offset,
        refcount_table_len(h),
        bytes.len(),
    ) {
        Some(Error::ReadingHeader(e))
    } else {
        None
    }
}

/// The reason for which the tables of an image with header `h` do not fit
/// in a file, if they do not: the entry of the L1 table for the end of the
/// image, or the end of the reference-count table, lies beyond the offsets
/// that 64 bits can hold.
pub open spec fn address_space_error(h: QcowHeader) -> Option<Error> {
    if h.l1_table_offset + l1_end_offset(h) > u64::MAX {
        Some(Error::InvalidL1TableOffset)
    } else if h.refcount_table_offset + h.refcount_table_clusters * cluster_size_of(
        h.cluster_bits,
    ) > u64::MAX {
        Some(Error::InvalidRefcountTableOffset)
    } else {
        None
    }
}

/// The first reason, in the order in which they are checked, for which a
/// reliable file that holds `bytes` cannot be opened as an image; `None` if
/// it can.
pub open spec fn open_error(bytes: Seq<u8>) -> Option<Error> {
    match parse_bytes(bytes) {
        Err(e) => Some(e),
        Ok(h) => match tables_error(bytes, h) {
            Some(e) => Some(e),
            None => address_space_error(h),
        },
    }
}

/// The state of an image that was just opened from a file that holds
/// `bytes`, with header `h`: the two tables as the file holds them, the L1
/// entries reduced to their offsets, nothing cached, and the position at the
/// start.
pub open spec fn opened(bytes: Seq<u8>, h: QcowHeader) -> ImageState {
    ImageState {
        header: h,
        cluster_size: cluster_size_of(h.cluster_bits) as u64,
        disk: bytes,
        l1: offsets_of(
            pointer_table_at(
                bytes,
                h.l1_table_offset as int,
                h.l1_size as nat,
                0xffff_ffff_ffff_ffff,
            ),
        ),
        ref_table: pointer_table_at(
            bytes,
            h.refcount_table_offset as int,
            refcount_table_len(h) as nat,
            0xffff_ffff_ffff_ffff,
        ),
        l2_cache: Map::empty(),
        refblock_cache: Map::empty(),
        pending: Seq::empty(),
        available: Seq::empty(),
        position: 0,
    }
}

impl ImageState {
    /// The size of the image as its user sees it.
    pub open spec fn virtual_size(self) -> u64 {
        self.header.size
    }

    /// The number of entries of an L2 table.
    pub open spec fn l2_len(self) -> nat {
        (self.cluster_size / 8) as nat
    }

    /// The number of counts of a reference-count block.
    pub open spec fn refblock_len(self) -> nat {
        (self.cluster_size / 2) as nat
    }

    /// The invariant of the engine's data: the cluster size is that of the
    /// header, every cached block has the length of a cluster and belongs to
    /// an entry of its table, no cached L2 entry is so large that an offset
    /// within its cluster would overflow, and the position is within the
    /// image.
    pub open spec fn wf(self) -> bool {
        &&& MIN_CLUSTER_BITS <= self.header.cluster_bits <= MAX_CLUSTER_BITS
        &&& self.cluster_size == cluster_size_of(self.header.cluster_bits)
        &&& self.l1.len() <= usize::MAX
        &&& self.ref_table.len() <= usize::MAX
        &&& forall|k: usize| #[trigger]
            self.l2_cache.contains_key(k) ==> k < self.l1.len() && self.l2_cache[k].0.len()
                == self.l2_len()
        &&& forall|k: usize, i: int|
            self.l2_cache.contains_key(k)
                && 0 <= i < self.l2_len()
                ==> #[trigger] self.l2_cache[k].0[i]
                + self.cluster_size <= u64::MAX
        &&& forall|k: usize| #[trigger]
            self.refblock_cache.contains_key(k) ==> k < self.ref_table.len()
                && self.refblock_cache[k].0.len() == self.refblock_len()
        &&& self.position <= self.header.size
    }

    /// A bound on the number of clusters that can still be handed out: those
    /// that are available, and the room that is left for the file to grow.
    pub open spec fn alloc_budget(self) -> int {
        self.available.len() + (u64::MAX - self.disk.len())
    }

    /// The index in the L1 table of the L2 table that maps `address`.
    pub open spec fn l1_index(self, address: u64) -> int {
        (address / self.cluster_size) as int / (self.l2_len() as int)
    }

    /// The index in its L2 table of the entry that maps `address`.
    pub open spec fn l2_index(self, address: u64) -> int {
        (address / self.cluster_size) as int % (self.l2_len() as int)
    }

    /// The L2 table of L1 entry `i` as the engine sees it: the cached table
    /// if there is one, a table of zeros if the L1 entry is zero, and else the
    /// table in the file at the offset of the L1 entry.
    pub open spec fn l2_table(self, i: int) -> Seq<u64> {
        if self.l2_cache.contains_key(i as usize) {
            self.l2_cache[i as usize].0
        } else if self.l1[i] == 0 {
            zero_table(self.l2_len())
        } else {
            pointer_table_at(self.disk, self.l1[i] as int, self.l2_len(), L2_TABLE_OFFSET_MASK)
        }
    }

    /// The offset of the cluster of the file that holds cluster number
    /// `vc` of the image; zero if there is none.
    pub open spec fn entry(self, vc: int) -> u64 {
        if 0 <= vc && vc / (self.l2_len() as int) < self.l1.len() {
            self.l2_table(vc / (self.l2_len() as int))[vc % (self.l2_len() as int)]
        } else {
            0
        }
    }

    /// The offset of the cluster of the file that holds the cluster of
    /// `address`; zero if there is none.
    pub open spec fn host_cluster(self, address: u64) -> u64 {
        self.entry((address / self.cluster_size) as int)
    }

    /// The offset in the file of the byte at `address`; `None` if its
    /// cluster has none in the file.
    pub open spec fn translate(self, address: u64) -> Option<u64> {
        if self.host_cluster(address) == 0 {
            None
        } else {
            Some((self.host_cluster(address) + address % self.cluster_size) as u64)
        }
    }

    /// The byte of the image at `address`: zero where the cluster has none
    /// in the file.
    pub open spec fn byte_at(self, address: u64) -> u8 {
        match self.translate(address) {
            Some(offset) => self.disk[offset as int],
            None => 0u8,
        }
    }

    /// The contents of the image.
    pub open spec fn contents(self) -> Seq<u8> {
        Seq::new(self.virtual_size() as nat, |a: int| self.byte_at(a as u64))
    }

    /// The offset of the cluster that is used for `u`; zero if there is
    /// none.
    pub open spec fn cluster_of(self, u: ClusterUse) -> u64 {
        match u {
            ClusterUse::L2Table(i) => if 0 <= i < self.l1.len() {
                self.l1[i]
            } else {
                0
            },
            ClusterUse::RefBlock(t) => if 0 <= t < self.ref_table.len() {
                self.ref_table[t]
            } else {
                0
            },
            ClusterUse::Data(vc) => self.entry(vc),
            ClusterUse::Pending(k) => if 0 <= k < self.pending.len() {
                self.pending[k]
            } else {
                0
            },
            ClusterUse::Available(k) => if 0 <= k < self.available.len() {
                self.available[k]
            } else {
                0
            },
        }
    }

    /// The offset just past the L1 table in the file.
    pub open spec fn l1_end(self) -> int {
        self.header.l1_table_offset + 8 * self.l1.len()
    }

    /// The offset just past the reference-count table in the file.
    pub open spec fn ref_table_end(self) -> int {
        self.header.refcount_table_offset + 8 * self.ref_table.len()
    }

    /// Whether the L1 table and the reference-count table lie in the file,
    /// behind the header, and apart from each other.
    pub open spec fn tables_in_file(self) -> bool {
        &&& HEADER_LEN <= self.header.l1_table_offset
        &&& self.l1_end() <= self.disk.len()
        &&& HEADER_LEN <= self.header.refcount_table_offset
        &&& self.ref_table_end() <= self.disk.len()
        &&& (self.l1_end() <= self.header.refcount_table_offset || self.ref_table_end()
            <= self.header.l1_table_offset)
    }

    /// Whether `a` is the offset of a cluster that can be used: a whole
    /// cluster of the file, not the first, that holds no part of the L1
    /// table or of the reference-count table.
    pub open spec fn is_cluster(self, a: u64) -> bool {
        &&& a % self.cluster_size == 0
        &&& a >= self.cluster_size
        &&& a + self.cluster_size <= self.disk.len()
        &&& (a + self.cluster_size <= self.header.l1_table_offset || self.l1_end() <= a)
        &&& (a + self.cluster_size <= self.header.refcount_table_offset || self.ref_table_end()
            <= a)
    }

    /// Whether the file holds the L1 table and the reference-count table as
    /// they are in memory.
    pub open spec fn tables_stored(self) -> bool {
        &&& pointer_table_at(
            self.disk,
            self.header.l1_table_offset as int,
            self.l1.len(),
            0xffff_ffff_ffff_ffff,
        ) == self.l1
        &&& pointer_table_at(
            self.disk,
            self.header.refcount_table_offset as int,
            self.ref_table.len(),
            0xffff_ffff_ffff_ffff,
        ) == self.ref_table
    }

    /// Whether no cached block is dirty.
    pub open spec fn all_clean(self) -> bool {
        &&& forall|k: usize| self.l2_cache.contains_key(k) ==> !(#[trigger] self.l2_cache[k]).1
        &&& forall|k: usize|
            self.refblock_cache.contains_key(k) ==> !(#[trigger] self.refblock_cache[k]).1
    }

    /// Whether `a` is the offset of a cluster that can be used and has no
    /// use.
    pub open spec fn is_free(self, a: u64) -> bool {
        &&& self.is_cluster(a)
        &&& forall|u: ClusterUse| #[trigger] self.cluster_of(u) != a
    }

    /// Whether every cached L2 table has a cluster, and every clean one is
    /// what the file holds in that cluster.
    pub open spec fn l2_cache_backed(self) -> bool {
        forall|k: usize| #[trigger]
            self.l2_cache.contains_key(k) ==> self.l1[k as int] != 0 && (!self.l2_cache[k].1
                ==> self.l2_cache[k].0 == pointer_table_at(
                self.disk,
                self.l1[k as int] as int,
                self.l2_len(),
                L2_TABLE_OFFSET_MASK,
            ))
    }

    /// Whether every cached reference-count block has a cluster, and every
    /// clean one is what the file holds in that cluster.
    pub open spec fn refblock_cache_backed(self) -> bool {
        forall|k: usize| #[trigger]
            self.refblock_cache.contains_key(k) ==> self.ref_table[k as int] != 0 && (
            !self.refblock_cache[k].1 ==> self.refblock_cache[k].0 == refcount_block_at(
                self.disk,
                self.ref_table[k as int] as int,
                self.refblock_len(),
            ))
    }

    /// Whether every cluster in use is a cluster that can be used.
    pub open spec fn uses_are_clusters(self) -> bool {
        forall|u: ClusterUse| #[trigger] self.cluster_of(u) != 0
            ==> self.is_cluster(self.cluster_of(u))
    }

    /// Whether no cluster has two uses.
    pub open spec fn uses_are_apart(self) -> bool {
        forall|u1: ClusterUse, u2: ClusterUse|
            #[trigger] self.cluster_of(u1) != 0
                && self.cluster_of(u1) == #[trigger] self.cluster_of(u2)
                ==> u1 == u2
    }

    /// Whether the L1 table has an entry for every address of the image.
    pub open spec fn l1_covers(self) -> bool {
        self.virtual_size() > 0 ==> self.l1_index((self.virtual_size() - 1) as u64) < self.l1.len()
    }

    /// Whether the two lists of clusters hold clusters, not zeros.
    pub open spec fn lists_hold_clusters(self) -> bool {
        &&& forall|k: int| 0 <= k < self.pending.len() ==> #[trigger] self.pending[k] != 0
        &&& forall|k: int| 0 <= k < self.available.len() ==> #[trigger] self.available[k] != 0
    }

    /// Whether the file starts with the header of the image, and the two
    /// tables have the lengths that the header gives them, fit in a file, and
    /// can be read at once.
    pub open spec fn header_stored(self) -> bool {
        &&& parse_bytes(self.disk) == Ok::<QcowHeader, Error>(self.header)
        &&& address_space_error(self.header) is None
        &&& self.l1.len() == self.header.l1_size
        &&& self.ref_table.len() == refcount_table_len(self.header)
        &&& 8 * self.l1.len() <= usize::MAX
        &&& 8 * self.ref_table.len() <= usize::MAX
    }

    /// Whether the image is consistent: the engine's data is well formed,
    /// the file starts with the header, clusters have at least 512 bytes, the
    /// file is short enough for table entries to hold its offsets, the L1
    /// table covers the image, the two tables lie in the file, every cluster
    /// in use is a whole cluster of the file apart from the tables and has
    /// one use only, and clean cached blocks are what the file holds.
    pub open spec fn consistent(self) -> bool {
        &&& self.wf()
        &&& self.header_stored()
        &&& self.header.cluster_bits >= 9
        &&& self.disk.len() <= MAX_FILE_LEN
        &&& self.l1_covers()
        &&& self.lists_hold_clusters()
        &&& self.tables_in_file()
        &&& self.uses_are_clusters()
        &&& self.uses_are_apart()
        &&& self.l2_cache_backed()
        &&& self.refblock_cache_backed()
    }

    /// Whether `self` maps the image to the file as `other` does and holds
    /// the same contents: every cluster of the image has the same cluster of
    /// the file, if any, and every address the same byte.
    pub open spec fn same_data(self, other: ImageState) -> bool {
        &&& self.header == other.header
        &&& self.cluster_size == other.cluster_size
        &&& forall|vc: int| #[trigger] self.entry(vc) == other.entry(vc)
        &&& forall|a: u64| #[trigger] self.byte_at(a) == other.byte_at(a)
    }

    /// Whether `self` is `other` but for a cluster of the file that cluster
    /// number `vc` of the image may have got: `vc` has a cluster of the file;
    /// every other cluster of the image maps and holds what it did; and so
    /// does `vc` if it had a cluster, while if it had none it holds the zeros
    /// that it held.
    pub open spec fn same_data_but(self, other: ImageState, vc: int) -> bool {
        &&& self.header == other.header
        &&& self.cluster_size == other.cluster_size
        &&& self.entry(vc) != 0
        &&& forall|k: int| k != vc ==> #[trigger] self.entry(k) == other.entry(k)
        &&& forall|a: u64|
            (a / self.cluster_size) as int != vc ==> #[trigger] self.byte_at(a) == other.byte_at(a)
        &&& other.entry(vc) != 0 ==> self.same_data(other)
        &&& other.entry(vc) == 0 ==> forall|a: u64| #[trigger] self.byte_at(a) == other.byte_at(a)
    }

    /// Whether `self` is `other` after `data` was written at `position`.
    /// The addresses written to hold `data` and have clusters in the file.
    /// Every cluster of the image that had a cluster of the file has it
    /// still. Every other address holds what it did.
    pub open spec fn holds_written(self, other: ImageState, position: u64, data: Seq<u8>) -> bool {
        &&& self.header == other.header
        &&& self.cluster_size == other.cluster_size
        &&& forall|a: u64|
            position <= a < position + data.len() ==> #[trigger] self.byte_at(a) == data[a
                - position] && self.host_cluster(a) != 0
        &&& forall|vc: int| other.entry(vc) != 0 ==> #[trigger] self.entry(vc) == other.entry(vc)
        &&& forall|a: u64|
            !(position <= a < position + data.len()) ==> #[trigger] self.byte_at(a)
                == other.byte_at(a)
    }

    /// Whether every address of the `count` from `position` on that lies in
    /// the image has a cluster of the file.
    pub open spec fn is_mapped(self, position: u64, count: int) -> bool {
        forall|a: u64|
            position <= a < position + count && a < self.virtual_size()
                ==> #[trigger] self.host_cluster(a) != 0
    }

    /// Whether the image holds nothing but zeros.
    pub open spec fn is_zero(self) -> bool {
        forall|a: u64| #[trigger] self.byte_at(a) == 0u8
    }

    /// The state after a block of counts was made for table entry `t`, which
    /// had none, with a new cluster at the end of the file as its cluster.
    pub open spec fn with_new_refblock(self, t: int) -> ImageState {
        let addr = crate::raw_file::round_up(self.disk.len() as int, self.cluster_size as int);
        ImageState {
            disk: crate::disk::resized(self.disk, (addr + self.cluster_size) as nat),
            ref_table: self.ref_table.update(t, addr as u64),
            refblock_cache: self.refblock_cache.insert(
                t as usize,
                (zero_counts(self.refblock_len()), true),
            ),
            ..self
        }
    }

    /// The state after the count of the cluster at `address` was set to
    /// `count` in its block, which is in the cache.
    pub open spec fn with_count(self, address: u64, count: u16) -> ImageState {
        let t = self.refcount_table_index(address) as usize;
        ImageState {
            refblock_cache: self.refblock_cache.insert(
                t,
                (self.refblock_cache[t].0.update(self.refcount_block_index(address), count), true),
            ),
            ..self
        }
    }

    /// Whether the count of the cluster at `address` is set where its block
    /// stands: the block is in the cache and has changed since it was stored,
    /// so that it neither is loaded nor moves.
    pub open spec fn counts_in_place(self, address: u64) -> bool {
        let t = self.refcount_table_index(address);
        &&& t < self.ref_table.len()
        &&& self.refblock_cache.contains_key(t as usize)
        &&& self.refblock_cache[t as usize].1
    }

    /// The number of bytes of the clusters of the image that hold the
    /// `count` addresses from `position` on.
    pub open spec fn span_of_clusters(self, position: u64, count: int) -> int {
        if count <= 0 {
            0
        } else {
            let last = position + count - 1;
            (last - last % (self.cluster_size as int)) - (position - position
                % self.cluster_size) + self.cluster_size
        }
    }

    /// Whether the count of every cluster before `end` is set in place.
    pub open spec fn counts_in_place_to(self, end: int) -> bool {
        forall|x: u64| x < end ==> #[trigger] self.counts_in_place(x)
    }

    /// Whether the file can grow by `bytes` beyond its last cluster with
    /// every count set in place: it may then be that long when it takes
    /// `max_len` bytes at most, it stays a cluster below `MAX_FILE_LEN`, and
    /// the counts of all clusters that it then has are set in place.
    pub open spec fn has_room_in_place(self, bytes: int, max_len: nat) -> bool {
        let end = crate::raw_file::round_up(self.disk.len() as int, self.cluster_size as int)
            + bytes;
        &&& end <= max_len
        &&& end + self.cluster_size <= MAX_FILE_LEN
        &&& self.counts_in_place_to(end)
    }

    /// The offset of the cluster that is handed out next: the last of the
    /// available ones, or else the first cluster behind the end of the file.
    pub open spec fn next_cluster(self) -> int {
        if self.available.len() > 0 {
            self.available.last() as int
        } else {
            crate::raw_file::round_up(self.disk.len() as int, self.cluster_size as int)
        }
    }

    /// Whether a cluster can be handed out when the file takes `max_len`
    /// bytes at most: one is available, or the file can grow by one, which
    /// it does while it ends two clusters or more before `MAX_FILE_LEN`.
    pub open spec fn has_next_cluster(self, max_len: nat) -> bool {
        self.available.len() > 0 || (self.next_cluster() + self.cluster_size <= max_len
            && self.disk.len() + 2 * self.cluster_size <= MAX_FILE_LEN)
    }

    /// The state after the next cluster was handed out: it has left the
    /// available ones and was filled with zeros, or the file has grown by
    /// it.
    pub open spec fn without_next_cluster(self) -> ImageState {
        if self.available.len() > 0 {
            ImageState {
                disk: crate::disk::written(
                    self.disk,
                    self.available.last() as nat,
                    zero_bytes(self.cluster_size as nat),
                ),
                available: self.available.drop_last(),
                ..self
            }
        } else {
            ImageState {
                disk: crate::disk::resized(
                    self.disk,
                    (self.next_cluster() + self.cluster_size) as nat,
                ),
                ..self
            }
        }
    }

    /// The state after the cached L2 table of L1 entry `l1_index` moved to
    /// the cluster at `to`: the L1 entry names that cluster, and the cluster
    /// that it named, if any, waits to be released.
    pub open spec fn with_l2_moved(self, l1_index: int, to: u64) -> ImageState {
        ImageState {
            l1: self.l1.update(l1_index, to),
            pending: if self.l1[l1_index] != 0 {
                self.pending.push(self.l1[l1_index])
            } else {
                self.pending
            },
            ..self
        }
    }

    /// The state after entry `l2_index` of the cached L2 table of L1 entry
    /// `l1_index` was set to `data`.
    pub open spec fn with_entry(self, l1_index: usize, l2_index: int, data: u64) -> ImageState {
        ImageState {
            l2_cache: self.l2_cache.insert(
                l1_index,
                (self.l2_cache[l1_index].0.update(l2_index, data), true),
            ),
            ..self
        }
    }

    /// Whether the counts of the clusters that are touched when entry
    /// `l1_index` of the L1 table gets another data cluster are all set in
    /// place: that of the data cluster and, where the cached L2 table is
    /// clean and so moves, those of the cluster that it takes and of the one
    /// that it leaves.
    pub open spec fn appends_in_place(self, l1_index: usize) -> bool {
        let taken = self.without_next_cluster();
        &&& self.counts_in_place(self.next_cluster() as u64)
        &&& !self.l2_cache[l1_index].1 ==> {
            &&& self.counts_in_place(taken.next_cluster() as u64)
            &&& self.l1[l1_index as int] != 0 ==> self.counts_in_place(self.l1[l1_index as int])
        }
    }

    /// Whether the clusters can be handed out that are taken when entry
    /// `l1_index` of the L1 table gets another data cluster, in a file of at
    /// most `max_len` bytes: one, and a second one where the cached L2 table
    /// is clean and so moves.
    pub open spec fn has_room_to_append(self, l1_index: usize, max_len: nat) -> bool {
        let taken = self.without_next_cluster();
        &&& self.has_next_cluster(max_len)
        &&& !self.l2_cache[l1_index].1 ==> taken.has_next_cluster(max_len)
    }

    /// The state after entry `l2_index` of the cached L2 table of L1 entry
    /// `l1_index`, which was zero, got the next cluster as its data cluster,
    /// before any count is set. A clean table first moves to the cluster
    /// after the next one.
    pub open spec fn with_cluster_mapped(self, l1_index: usize, l2_index: int) -> ImageState {
        let data = self.next_cluster() as u64;
        let taken = self.without_next_cluster();
        if self.l2_cache[l1_index].1 {
            taken.with_entry(l1_index, l2_index, data)
        } else {
            taken.without_next_cluster().with_l2_moved(
                l1_index as int,
                taken.next_cluster() as u64,
            ).with_entry(l1_index, l2_index, data)
        }
    }

    /// The cluster that the cached L2 table of L1 entry `l1_index` moves to
    /// when it gets another data cluster: none if it has changed already.
    pub open spec fn l2_moves_to(self, l1_index: usize) -> Option<u64> {
        if self.l2_cache[l1_index].1 {
            None
        } else {
            Some(self.without_next_cluster().next_cluster() as u64)
        }
    }

    /// The cluster that the cached L2 table of L1 entry `l1_index` leaves
    /// when it gets another data cluster: none if it has changed already.
    pub open spec fn l2_leaves(self, l1_index: usize) -> Option<u64> {
        if self.l2_cache[l1_index].1 || self.l1[l1_index as int] == 0 {
            None
        } else {
            Some(self.l1[l1_index as int])
        }
    }

    /// The state after entry `l2_index` of the cached L2 table of L1 entry
    /// `l1_index`, which was zero, got the next cluster as its data cluster,
    /// with every count set in place. A clean table first moves to the
    /// cluster after the next one. Then the entry is set, and the counts are
    /// set in turn: one for the data cluster, none for the cluster that the
    /// table left, one for the cluster that it took.
    pub open spec fn with_data_cluster(self, l1_index: usize, l2_index: int) -> ImageState {
        let data = self.next_cluster() as u64;
        let mapped = self.with_cluster_mapped(l1_index, l2_index).with_count(data, 1);
        let settled = match self.l2_leaves(l1_index) {
            Some(left) => mapped.with_count(left, 0),
            None => mapped,
        };
        match self.l2_moves_to(l1_index) {
            Some(to) => settled.with_count(to, 1),
            None => settled,
        }
    }

    /// The state after the block of counts of table entry `t`, which was not
    /// in the cache, was read from its cluster into the cache.
    pub open spec fn with_refblock_loaded(self, t: int) -> ImageState {
        ImageState {
            refblock_cache: self.refblock_cache.insert(
                t as usize,
                (refcount_block_at(self.disk, self.ref_table[t] as int, self.refblock_len()), false),
            ),
            ..self
        }
    }

    /// The state after the cached block of counts of table entry `v` left
    /// the cache: it was written to its cluster if it had changed.
    pub open spec fn with_refblock_evicted(self, v: usize) -> ImageState {
        ImageState {
            disk: if self.refblock_cache[v].1 && self.ref_table[v as int] != 0 {
                crate::disk::written(
                    self.disk,
                    self.ref_table[v as int] as nat,
                    crate::raw_file::refcount_block_bytes(self.refblock_cache[v].0),
                )
            } else {
                self.disk
            },
            refblock_cache: self.refblock_cache.remove(v),
            ..self
        }
    }

    /// The state after a block of counts was made for table entry `t`, which
    /// had none, with the next cluster as its cluster.
    pub open spec fn with_refblock_made(self, t: int) -> ImageState {
        let taken = self.without_next_cluster();
        ImageState {
            ref_table: taken.ref_table.update(t, self.next_cluster() as u64),
            refblock_cache: taken.refblock_cache.insert(
                t as usize,
                (zero_counts(self.refblock_len()), true),
            ),
            ..taken
        }
    }

    /// The state once the block of counts of table entry `t` is in the
    /// cache: as it is if the block is there, and else after the block
    /// `leaving`, if any, left the cache to make room, and the block was made
    /// if the table entry had none, or read from its cluster.
    pub open spec fn with_refblock_cached(self, t: int, leaving: Option<usize>) -> ImageState {
        if self.refblock_cache.contains_key(t as usize) {
            self
        } else {
            let room = match leaving {
                Some(v) => self.with_refblock_evicted(v),
                None => self,
            };
            if self.ref_table[t] == 0 {
                room.with_refblock_made(t)
            } else {
                room.with_refblock_loaded(t)
            }
        }
    }

    /// The state after the count of the cluster at `address` was set to
    /// `count` in its block, before the counts that follow are set: the block
    /// is brought into the cache, with the block `leaving`, if any, leaving
    /// the cache to make room; a block that is clean moves to the next
    /// cluster; and the count is set.
    pub open spec fn with_count_written(self, address: u64, count: u16, leaving: Option<usize>) -> ImageState {
        let t = self.refcount_table_index(address);
        let cached = self.with_refblock_cached(t, leaving);
        if cached.refblock_cache[t as usize].1 {
            cached.with_count(address, count)
        } else {
            cached.with_moved_count(address, count)
        }
    }

    /// The cluster that the block of counts of the cluster at `address`
    /// takes when the count is set: the next cluster, if the block is made
    /// or moves, and none if it is in the cache and has changed.
    pub open spec fn count_adds(self, address: u64, leaving: Option<usize>) -> Option<u64> {
        let t = self.refcount_table_index(address);
        let cached = self.with_refblock_cached(t, leaving);
        if self.refblock_cache.contains_key(t as usize) {
            if self.refblock_cache[t as usize].1 {
                None
            } else {
                Some(self.next_cluster() as u64)
            }
        } else if self.ref_table[t] == 0 {
            Some(cached.ref_table[t])
        } else {
            Some(cached.next_cluster() as u64)
        }
    }

    /// The cluster that the block of counts of the cluster at `address`
    /// leaves when the count is set: its cluster, if it moves.
    pub open spec fn count_drops(self, address: u64) -> Option<u64> {
        let t = self.refcount_table_index(address);
        if (self.refblock_cache.contains_key(t as usize) && self.refblock_cache[t as usize].1)
            || self.ref_table[t] == 0 {
            None
        } else {
            Some(self.ref_table[t])
        }
    }

    /// The state after the counts that follow were set in place: one for
    /// the cluster `added` that a block took, none for the cluster `dropped`
    /// that it left.
    pub open spec fn with_counts_followed(self, added: Option<u64>, dropped: Option<u64>) -> ImageState {
        let counted = match added {
            Some(a) => self.with_count(a, 1),
            None => self,
        };
        match dropped {
            Some(d) => counted.with_count(d, 0),
            None => counted,
        }
    }

    /// The state after the cached block of counts of table entry `t` moved
    /// to the cluster at `to`: the table entry names that cluster, and the
    /// cluster that it named, if any, waits to be released.
    pub open spec fn with_refblock_moved(self, t: int, to: u64) -> ImageState {
        ImageState {
            ref_table: self.ref_table.update(t, to),
            pending: if self.ref_table[t] != 0 {
                self.pending.push(self.ref_table[t])
            } else {
                self.pending
            },
            ..self
        }
    }

    /// The state after the block that counts the cluster at `address`, which
    /// is in the cache and clean, moved to the next cluster and the count was
    /// set in it to `count`.
    pub open spec fn with_moved_count(self, address: u64, count: u16) -> ImageState {
        self.without_next_cluster().with_refblock_moved(
            self.refcount_table_index(address),
            self.next_cluster() as u64,
        ).with_count(address, count)
    }

    /// Whether `self` maps every cluster of the image as `other` does, but
    /// for the clusters numbered `first` to `last`.
    pub open spec fn maps_as_but(self, other: ImageState, first: int, last: int) -> bool {
        forall|vc: int| vc < first || vc > last ==> #[trigger] self.entry(vc) == other.entry(vc)
    }

    /// Whether `self` counts the clusters that hold contents of the image as
    /// `other` does, and one reference for each cluster that holds contents
    /// in `self` of a cluster of the image that had none in `other`.
    pub open spec fn counts_data_as(self, other: ImageState) -> bool {
        forall|vc: int| #[trigger]
            self.entry(vc) != 0 ==> self.refcount(self.entry(vc)) == if other.entry(vc) != 0 {
                other.refcount(other.entry(vc))
            } else {
                1
            }
    }

    /// Whether `x` is the offset of the start of a cluster.
    pub open spec fn is_aligned(self, x: u64) -> bool {
        x % self.cluster_size == 0
    }

    /// Whether every cluster by which the file has grown since `other` is
    /// the cluster `new`, if there is one, and none else.
    pub open spec fn grew_by(self, other: ImageState, new: Option<u64>) -> bool {
        forall|x: u64|
            #[trigger] self.is_aligned(x) && other.disk.len() <= x < self.disk.len() ==> new
                == Some(x)
    }

    /// Whether the count of the cluster at `x` changes only when it is set:
    /// the cluster lies in the file, so that it is not handed out as a new
    /// one; it is not the cluster of a block of counts that may move, which
    /// would retire it; and it is not available, to be handed out again.
    pub open spec fn count_is_settled(self, x: u64) -> bool {
        &&& x % self.cluster_size == 0
        &&& x + self.cluster_size <= self.disk.len()
        &&& forall|t: int|
            0 <= t < self.ref_table.len() ==> #[trigger] self.ref_table[t] != x || x == 0
                || self.block_changed(t)
        &&& forall|k: int| 0 <= k < self.available.len() ==> #[trigger] self.available[k] != x
    }

    /// Whether every block of counts that is in the cache of `other` with
    /// changes is so in `self`, with the cluster that it has in `other`.
    pub open spec fn blocks_stay(self, other: ImageState) -> bool {
        forall|i: int|
            0 <= i < other.ref_table.len() && other.block_changed(i) ==> #[trigger] self.block_changed(
                i,
            ) && self.ref_table[i] == other.ref_table[i]
    }

    /// Whether every cluster whose count changes only when it is set counts
    /// in `self` what it counted in `other`, and is such a cluster still, but
    /// for the cluster at `address`.
    pub open spec fn keeps_settled_counts(self, other: ImageState, address: u64) -> bool {
        forall|x: u64|
            #[trigger] other.count_is_settled(x) && x != address ==> self.refcount(x)
                == other.refcount(x) && self.count_is_settled(x)
    }

    /// Whether every cluster by which the file has grown since `other` is
    /// the cluster `data` or the cluster `added`.
    pub open spec fn grew_by_two(self, other: ImageState, data: u64, added: Option<u64>) -> bool {
        forall|x: u64|
            #[trigger] self.is_aligned(x) && other.disk.len() <= x < self.disk.len() ==> x == data
                || added == Some(x)
    }

    /// Whether the L2 table of L1 entry `i` does not move when it is
    /// changed: there is none yet, or it is in the cache and has changed.
    pub open spec fn l2_is_settled(self, i: int) -> bool {
        0 <= i < self.l1.len() && (self.l1[i] == 0 || (self.l2_cache.contains_key(i as usize)
            && self.l2_cache[i as usize].1))
    }

    /// Whether the block of counts of table entry `t` is in the cache and
    /// has changed, so that it neither is made nor moves when a count is set
    /// in it.
    pub open spec fn block_changed(self, t: int) -> bool {
        self.refblock_cache.contains_key(t as usize) && self.refblock_cache[t as usize].1
    }

    /// The number of the first `n` entries of the reference-count table
    /// whose block is not in the cache with changes: each of these blocks
    /// may take a cluster once, when it is made or moves.
    pub open spec fn unchanged_blocks(self, n: nat) -> nat
        decreases n,
    {
        if n == 0 {
            0
        } else {
            self.unchanged_blocks((n - 1) as nat) + if self.block_changed(n - 1) {
                0nat
            } else {
                1nat
            }
        }
    }

    /// The end of the file once every block of counts has taken the cluster
    /// that it may take: the length of the file, rounded up to a cluster, and
    /// a cluster for each block that is not in the cache with changes.
    pub open spec fn growth_end(self) -> int {
        crate::raw_file::round_up(self.disk.len() as int, self.cluster_size as int)
            + self.unchanged_blocks(self.ref_table.len()) * self.cluster_size
    }

    /// The offset before which the reference-count table has an entry for
    /// the block that counts a cluster.
    pub open spec fn counted_end(self) -> int {
        self.ref_table.len() * self.refblock_len() * self.cluster_size
    }

    /// Whether the file has room to grow by `bytes` and by the clusters
    /// that the blocks of counts may take: it may then be that long when it
    /// takes `max_len` bytes at most, it stays a cluster below
    /// `MAX_FILE_LEN`, and the reference-count table has an entry for every
    /// cluster that the file then has.
    pub open spec fn has_room(self, bytes: int, max_len: nat) -> bool {
        let end = self.growth_end() + bytes;
        &&& end <= max_len
        &&& end + self.cluster_size <= MAX_FILE_LEN
        &&& end <= self.counted_end()
    }

    /// Whether the reference-count table has no entry for the block that
    /// counts the last cluster of the file.
    pub open spec fn table_is_short(self) -> bool {
        self.disk.len() >= self.cluster_size && self.refcount_table_index(
            (self.disk.len() - self.cluster_size) as u64,
        ) >= self.ref_table.len()
    }

    /// Whether the image has run out of room, in a file of at most `max_len`
    /// bytes: no cluster can be handed out, or the reference-count table has
    /// no entry for a cluster of the file.
    pub open spec fn is_exhausted(self, max_len: nat) -> bool {
        !self.has_next_cluster(max_len) || self.table_is_short()
    }

    /// Whether the cluster at `x` was retired since `other`: it is in the
    /// list of clusters that blocks have left, behind what the list held in
    /// `other`.
    pub open spec fn retired_since(self, other: ImageState, x: u64) -> bool {
        exists|k: int| other.pending.len() <= k < self.pending.len() && #[trigger] self.pending[k] == x
    }

    /// Whether every cluster counts in `self` what it counted in `other`,
    /// or one reference, or was retired since.
    pub open spec fn counts_grown_from(self, other: ImageState) -> bool {
        forall|x: u64|
            x % self.cluster_size == 0 ==> #[trigger] self.refcount(x) == other.refcount(x)
                || self.refcount(x) == 1 || self.retired_since(other, x)
    }

    /// Whether every cluster by which the file has grown since `other`
    /// counts one reference or was retired since.
    pub open spec fn new_clusters_counted(self, other: ImageState) -> bool {
        forall|x: u64|
            x % self.cluster_size == 0 && other.disk.len() <= x < self.disk.len()
                ==> #[trigger] self.refcount(x) == 1 || self.retired_since(other, x)
    }

    /// Whether `self` is `other` after the count of the cluster at `address`
    /// was set to `count`, as far as the counts go: that cluster counts
    /// `count`, unless it was handed out or retired in turn, and then it
    /// counts one reference or was retired since; every other cluster counts
    /// what it did, or one reference, or was retired since.
    pub open spec fn counts_set_from(self, other: ImageState, address: u64, count: u16) -> bool {
        &&& forall|x: u64|
            x % self.cluster_size == 0 && x != address ==> #[trigger] self.refcount(x)
                == other.refcount(x) || self.refcount(x) == 1 || self.retired_since(other, x)
        &&& self.refcount(address) == count || self.refcount(address) == 1 || self.retired_since(
            other,
            address,
        )
    }

    /// Whether the cluster at `address` has a use that keeps its cluster
    /// while counts are set.
    pub open spec fn has_settled_use(self, address: u64) -> bool {
        address != 0 && exists|u: ClusterUse| u.is_settled() && #[trigger] self.cluster_of(u) == address
    }

    /// Whether `self` counts what `other` counts for every cluster of a use
    /// that keeps its cluster while counts are set, but for the cluster at
    /// `address`.
    pub open spec fn counts_of_uses_kept(self, other: ImageState, address: u64) -> bool {
        forall|u: ClusterUse|
            u.is_settled() && #[trigger] other.cluster_of(u) != 0 && other.cluster_of(u) != address
                ==> self.refcount(other.cluster_of(u)) == other.refcount(other.cluster_of(u))
    }

    /// Whether every cluster of the file before `end` counts a reference.
    pub open spec fn all_counted_before(self, end: int) -> bool {
        forall|x: u64| x % self.cluster_size == 0 && x < end ==> #[trigger] self.refcount(x) != 0
    }

    /// Whether the reference counts are right but for the clusters in
    /// `owed`: every other cluster that holds a table, a block of counts or
    /// contents of the image counts at least one reference, and every other
    /// cluster of the two lists counts none.
    pub open spec fn counted_but(self, owed: Set<u64>) -> bool {
        forall|u: ClusterUse|
            #[trigger] self.cluster_of(u) != 0
                && !owed.contains(self.cluster_of(u))
                ==> if u.is_live() {
                self.refcount(self.cluster_of(u)) >= 1
            } else {
                self.refcount(self.cluster_of(u)) == 0
            }
    }

    /// Whether the reference counts are right: every cluster that holds a
    /// table, a block of counts or contents of the image counts at least one
    /// reference, and every cluster of the two lists counts none.
    pub open spec fn counted(self) -> bool {
        self.counted_but(Set::empty())
    }

    /// Whether the reference counts of `self` are right wherever those of
    /// `other` are.
    pub open spec fn keeps_counts(self, other: ImageState) -> bool {
        forall|owed: Set<u64>| other.counted_but(owed) ==> #[trigger] self.counted_but(owed)
    }

    /// Whether the reference counts of `self` are right wherever those of
    /// `other` are, but for the clusters in `more`.
    pub open spec fn keeps_counts_but(self, other: ImageState, more: Set<u64>) -> bool {
        forall|owed: Set<u64>|
            other.counted_but(owed) ==> #[trigger] self.counted_but(owed.union(more))
    }

    /// Whether every use in `self` has the cluster that it has in `other`,
    /// or one of the clusters in `more`, or none.
    pub open spec fn uses_from(self, other: ImageState, more: Set<u64>) -> bool {
        forall|u: ClusterUse|
            #[trigger] self.cluster_of(u) != 0 ==> more.contains(self.cluster_of(u))
                || self.cluster_of(u) == other.cluster_of(u)
    }

    /// Whether the list of clusters that blocks have left starts, in `self`,
    /// with what it holds in `other`.
    pub open spec fn pending_from(self, other: ImageState) -> bool {
        &&& other.pending.len() <= self.pending.len()
        &&& forall|k: int| 0 <= k < other.pending.len()
            ==> #[trigger] self.pending[k] == other.pending[k]
    }

    /// Whether the count `count` can be set for the cluster at `address`:
    /// the address is that of a cluster of the file which is not free to be
    /// handed out, neither for want of a use nor as one of the available
    /// clusters; the count is at least one if the cluster holds a table, a
    /// block of counts or contents of the image, and zero if it is in one of
    /// the two lists; and the cluster is not that of the block that holds its
    /// own count unless that block is dirty in the cache, so that it will not
    /// move.
    pub open spec fn can_count(self, address: u64, count: u16) -> bool {
        &&& address % self.cluster_size == 0
        &&& address + self.cluster_size <= self.disk.len()
        &&& !self.is_free(address)
        &&& forall|k: int| 0 <= k < self.available.len() ==> #[trigger] self.available[k] != address
        &&& forall|u: ClusterUse|
            #[trigger] self.cluster_of(u) == address && address != 0 ==> if u.is_live() {
                count >= 1
            } else {
                count == 0
            }
        &&& ({
            let t = self.refcount_table_index(address);
            t < self.ref_table.len() && self.ref_table[t] == address && address != 0
                ==> self.refblock_cache.contains_key(t as usize)
                    && self.refblock_cache[t as usize].1
        })
    }

    /// Whether the reference counts of `self` are right wherever those of
    /// `other` are once that of the cluster at `address` is.
    pub open spec fn settles(self, other: ImageState, address: u64) -> bool {
        forall|owed: Set<u64>|
            other.counted_but(owed) ==> #[trigger] self.counted_but(owed.remove(address))
    }

    /// Whether `self` counts references as `other` does: every cluster has
    /// the same reference count, and the counts are right wherever they were.
    pub open spec fn same_counts(self, other: ImageState) -> bool {
        &&& self.cluster_size == other.cluster_size
        &&& forall|a: u64| #[trigger] self.refcount(a) == other.refcount(a)
        &&& self.keeps_counts(other)
    }

    /// The index in the reference-count table of the block that counts the
    /// cluster at `address`.
    pub open spec fn refcount_table_index(self, address: u64) -> int {
        (address / self.cluster_size) as int / (self.refblock_len() as int)
    }

    /// The index in its block of the count of the cluster at `address`.
    pub open spec fn refcount_block_index(self, address: u64) -> int {
        (address / self.cluster_size) as int % (self.refblock_len() as int)
    }

    /// The reference-count block of table entry `t` as the engine sees it:
    /// the cached block if there is one, a block of zeros if the table entry
    /// is zero, and else the block in the file at the offset of the entry.
    pub open spec fn refblock(self, t: int) -> Seq<u16> {
        if self.refblock_cache.contains_key(t as usize) {
            self.refblock_cache[t as usize].0
        } else if self.ref_table[t] == 0 {
            zero_counts(self.refblock_len())
        } else {
            refcount_block_at(self.disk, self.ref_table[t] as int, self.refblock_len())
        }
    }

    /// The reference count of the cluster at `address`; zero if the
    /// reference-count table has no entry for it.
    pub open spec fn refcount(self, address: u64) -> u16 {
        if self.refcount_table_index(address) < self.ref_table.len() {
            self.refblock(self.refcount_table_index(address))[self.refcount_block_index(address)]
        } else {
            0
        }
    }
}

} // verus!
