//! The image engine: a seekable stream of `virtual_size` bytes over a qcow2
//! file.
//!
//! A virtual address is translated through two levels of tables, the L1
//! table and one L2 table per L1 entry, to a cluster of the file. Clusters
//! are handed out on the first write to a virtual cluster. A second pair of
//! levels, the reference-count table and its blocks, counts the uses of each
//! cluster of the file. L2 tables and reference-count blocks are kept in
//! bounded caches; a block that is changed after it was read from the file
//! moves to a new cluster, so that the tables in the file keep pointing at
//! blocks that are whole until [`QcowFile::flush`] has written the new ones.

use vstd::prelude::*;
use vstd::slice::slice_subrange;
use crate::cache::{CacheMap, VecCache};
use crate::disk::{resized, written, DiskFile};
use crate::error::{Error, IoError, IoResult, Result};
use crate::geometry::{
    cluster_size,
    cluster_size_of,
    div_round_up_u64,
    lemma_cluster_size_bounds,
    lemma_div_ceil,
    max_refcount_clusters,
    CLUSTER_USED_FLAG,
    COMPRESSED_FLAG,
    L1_TABLE_OFFSET_MASK,
    L2_TABLE_OFFSET_MASK,
    MAX_CLUSTER_BITS,
    MIN_CLUSTER_BITS,
};
use crate::header::{
    header_for_size,
    header_image,
    lemma_parse_header_image,
    metadata_end,
    parse_bytes,
    QcowHeader,
    MAX_NEW_IMAGE_SIZE,
};
use crate::model::{open_error, opened, ImageState};
use crate::steps::{
    kept,
    lemma_allocated,
    lemma_chunk_bytes,
    lemma_data_written,
    lemma_l1_covers,
    lemma_l2_created,
    lemma_l2_evicted,
    lemma_l2_loaded,
    lemma_l2_written_back,
    lemma_mapped,
    lemma_promoted,
    lemma_refblock_created,
    lemma_refblock_evicted,
    lemma_refblock_loaded,
    lemma_refblock_moved,
    lemma_refblock_set,
    lemma_refblock_written_back,
    lemma_same_counts_trans,
    lemma_same_data_trans,
    lemma_tables_written,
    lemma_write_progress,
};
use crate::model::{ClusterUse, MAX_FILE_LEN};
use crate::raw_file::{
    pointer_table_at,
    pointer_table_bytes,
    refcount_block_bytes,
    round_up,
    QcowRawFile,
};

verus! {

/// The number of L2 tables kept in memory.
pub const L2_CACHE_SIZE: usize = 100;

/// The least number of reference-count blocks that the cache has room for.
/// It has room for every block of the reference-count table, so that a block
/// that has changed stays in memory until the next flush.
pub const REFBLOCK_CACHE_SIZE: usize = 25;

/// Where a seek starts from.
#[derive(Debug, Clone, Copy, PartialEq, Eq, Structural)]
pub enum SeekFrom {
    /// From the start of the image.
    Start(u64),
    /// From the end of the image.
    End(i64),
    /// From the current position.
    Current(i64),
}

/// The position that a seek to `pos` leads to, in an image of `size` bytes
/// read up to `current`; `None` if it lies before the start or behind the end.
pub open spec fn seek_target(pos: SeekFrom, size: u64, current: u64) -> Option<u64> {
    let target: int = match pos {
        SeekFrom::Start(off) => off as int,
        SeekFrom::End(off) => size + off,
        SeekFrom::Current(off) => current + off,
    };
    if 0 <= target <= size {
        Some(target as u64)
    } else {
        None
    }
}

/// The number of bytes of a transfer of `count` bytes at `address` that lie
/// within an image of `size` bytes.
pub open spec fn range_in_file(address: u64, count: usize, size: u64) -> usize {
    if address > size {
        0
    } else if count <= size - address {
        count
    } else {
        (size - address) as usize
    }
}

/// The number of bytes of a transfer of `count` bytes at `address` that lie
/// within the cluster of `address`, for clusters of `cluster_size` bytes.
pub open spec fn range_in_cluster(address: u64, count: usize, cluster_size: u64) -> usize {
    let limit = cluster_size - address % cluster_size;
    if count <= limit {
        count
    } else {
        limit as usize
    }
}

/// Represents a qcow2 file. This is a sparse file format maintained by the qemu project.
/// Full documentation of the format can be found in the qemu repository.
pub struct QcowFile<F: DiskFile> {
    raw_file: QcowRawFile<F>,
    header: QcowHeader,
    l1_table: Vec<u64>,
    ref_table: Vec<u64>,
    l2_entries: u64,
    l2_cache: CacheMap<u64>,
    refblock_cache: CacheMap<u16>,
    current_offset: u64,
    refcount_block_entries: u64,
    // List of freshly unreferenced clusters.
    unref_clusters: Vec<u64>,
    // List of unreferenced clusters available to be used. unref clusters become available once the
    // removal of references to them have been synced to disk.
    avail_clusters: Vec<u64>,
}

impl<F: DiskFile> QcowFile<F> {
    /// The state of the image: what the engine's answers depend on.
    pub closed spec fn view(&self) -> ImageState {
        ImageState {
            header: self.header,
            cluster_size: self.raw_file.cluster_bytes(),
            disk: self.raw_file.backing().bytes(),
            l1: self.l1_table@,
            ref_table: self.ref_table@,
            l2_cache: self.l2_cache@,
            refblock_cache: self.refblock_cache@,
            pending: self.unref_clusters@,
            available: self.avail_clusters@,
            position: self.current_offset,
        }
    }

    /// The file that holds the image.
    pub closed spec fn backing(&self) -> F {
        self.raw_file.backing()
    }

    /// The L1 index of the L2 table that leaves the cache when it is full
    /// and another table comes in.
    pub closed spec fn l2_victim(&self) -> usize {
        self.l2_cache.oldest()
    }

    /// The index of the reference-count block that leaves the cache when it
    /// is full and another block comes in.
    pub closed spec fn refblock_victim(&self) -> usize {
        self.refblock_cache.oldest()
    }

    /// The caches themselves, of which the state holds the contents only.
    pub closed spec fn caches(&self) -> (CacheMap<u64>, CacheMap<u16>) {
        (self.l2_cache, self.refblock_cache)
    }

    /// Whether the cache of L2 tables has no room for another table.
    pub closed spec fn l2_cache_full(&self) -> bool {
        self.l2_cache@.len() >= self.l2_cache.limit()
    }

    /// Whether the cache of reference-count blocks has no room for another
    /// block.
    pub closed spec fn refblock_cache_full(&self) -> bool {
        self.refblock_cache@.len() >= self.refblock_cache.limit()
    }

    /// The block of counts that leaves the cache when the block of table
    /// entry `t` comes in: none if that block is in the cache or the cache
    /// has room.
    pub open spec fn refblock_leaving(&self, t: int) -> Option<usize> {
        if !self@.refblock_cache.contains_key(t as usize) && self.refblock_cache_full() {
            Some(self.refblock_victim())
        } else {
            None
        }
    }

    /// The invariant of the engine: that of its state, and that of its
    /// caches.
    pub closed spec fn wf(&self) -> bool {
        &&& self@.wf()
        &&& self.raw_file.wf()
        &&& self.l2_entries == self.raw_file.cluster_bytes() / 8
        &&& self.refcount_block_entries == self.raw_file.cluster_bytes() / 2
        &&& self.l2_cache.wf()
        &&& self.refblock_cache.wf()
        &&& self.refblock_cache.limit() >= self.ref_table@.len()
    }

    /// The file of `self` is that of `other`, but for its contents.
    pub open spec fn same_file_kind(&self, other: &Self) -> bool {
        &&& self.backing().reliable() == other.backing().reliable()
        &&& self.backing().max_len() == other.backing().max_len()
    }

    /// A well-formed engine has a well-formed state, clusters of 16 bytes to
    /// a gibibyte whose size is a multiple of 16, and a file whose length
    /// fits in 64 bits.
    pub proof fn lemma_wf(&self)
        requires
            self.wf(),
        ensures
            self@.wf(),
            16 <= self@.cluster_size <= 0x4000_0000,
            self@.cluster_size % 16 == 0,
            self@.l2_len() >= 2,
            self@.l2_len() * 8 == self@.cluster_size,
            self@.refblock_len() >= 8,
            self@.refblock_len() * 2 == self@.cluster_size,
            self@.disk.len() <= u64::MAX,
            self@.disk == self.backing().bytes(),
            self.backing().reliable() ==> self@.disk.len() <= self.backing().max_len(),
    {
        lemma_cluster_size_bounds(self.header.cluster_bits);
    }

    /// The file that holds the image.
    pub fn file(&self) -> (file: &F)
        ensures
            *file == self.backing(),
    {
        self.raw_file.file()
    }

    /// Gives up the image and hands back the file that holds it. What was
    /// not flushed are the cached blocks and tables.
    pub fn into_file(self) -> (file: F)
        ensures
            file == self.backing(),
    {
        self.raw_file.into_file()
    }

    /// Gets the maximum virtual size of this image.
    pub fn virtual_size(&self) -> (r: u64)
        ensures
            r == self@.virtual_size(),
    {
        self.header.size
    }

    // Limits the range so that it doesn't exceed the virtual size of the file.
    fn limit_range_file(&self, address: u64, count: usize) -> (r: usize)
        ensures
            r == range_in_file(address, count, self@.virtual_size()),
    {
        if address > self.virtual_size() {
            return 0;
        }
        let rest: u64 = self.virtual_size() - address;
        if count as u64 <= rest {
            count
        } else {
            rest as usize
        }
    }

    // Limits the range so that it doesn't overflow the end of a cluster.
    fn limit_range_cluster(&self, address: u64, count: usize) -> (r: usize)
        requires
            self.wf(),
        ensures
            r == range_in_cluster(address, count, self@.cluster_size),
    {
        proof {
            self.lemma_wf();
        }
        let offset: u64 = self.raw_file.cluster_offset(address);
        let limit: u64 = self.raw_file.cluster_size() - offset;
        if count as u64 <= limit {
            count
        } else {
            limit as usize
        }
    }

    // Gets the index of `address` in the L1 table.
    fn l1_table_index(&self, address: u64) -> (r: u64)
        requires
            self.wf(),
        ensures
            r == self@.l1_index(address),
    {
        proof {
            self.lemma_wf();
        }
        (address / self.raw_file.cluster_size()) / self.l2_entries
    }

    // Gets the index of `address` in the L2 table.
    fn l2_table_index(&self, address: u64) -> (r: u64)
        requires
            self.wf(),
        ensures
            r == self@.l2_index(address),
            r < self@.l2_len(),
    {
        proof {
            self.lemma_wf();
        }
        (address / self.raw_file.cluster_size()) % self.l2_entries
    }

    // Returns the offset of address within a cluster.
    fn cluster_offset(&self, address: u64) -> (r: u64)
        requires
            self.wf(),
        ensures
            r == address % self@.cluster_size,
    {
        self.raw_file.cluster_offset(address)
    }

    /// Moves the position of the next read or write. Fails, and leaves the
    /// position as it is, if the target lies before the start or behind the
    /// end of the image.
    pub fn seek(&mut self, pos: SeekFrom) -> (r: IoResult<u64>)
        requires
            old(self).wf(),
        ensures
            final(self).wf(),
            final(self).backing() == old(self).backing(),
            r == match seek_target(pos, old(self)@.virtual_size(), old(self)@.position) {
                Some(o) => Ok::<u64, IoError>(o),
                None => Err::<u64, IoError>(IoError::InvalidInput),
            },
            final(self)@ == (ImageState {
                position: match r {
                    Ok(o) => o,
                    Err(_) => old(self)@.position,
                },
                ..old(self)@
            }),
            old(self)@.consistent() ==> final(self)@.consistent() && final(self)@.same_data(
                old(self)@,
            ) && final(self)@.same_counts(old(self)@),
    {
        proof {
            if self@.consistent() {
                crate::steps::lemma_position_moved(self@, self@);
            }
        }
        let new_offset: Option<u64> = match pos {
            SeekFrom::Start(off) => Some(off),
            SeekFrom::End(off) => offset_by(self.virtual_size(), off),
            SeekFrom::Current(off) => offset_by(self.current_offset, off),
        };
        if let Some(o) = new_offset {
            if o <= self.virtual_size() {
                self.current_offset = o;
                proof {
                    if old(self)@.consistent() {
                        crate::steps::lemma_position_moved(old(self)@, self@);
                    }
                }
                return Ok(o);
            }
        }
        Err(IoError::InvalidInput)
    }

    // Writes an L2 cluster out to disk.
    fn write_l2_cluster(&mut self, l1_index: usize, cluster: &Vec<u64>) -> (r: IoResult<()>)
        requires
            old(self).wf(),
            l1_index < old(self)@.l1.len(),
        ensures
            final(self).wf(),
            old(self)@.l1[l1_index as int] + 8 * cluster@.len() <= old(self)@.disk.len() ==> final(self)@.disk.len() == old(self)@.disk.len(),
            final(self).same_file_kind(old(self)),
            old(self)@.l1[l1_index as int] == 0 ==> r == Err::<(), IoError>(IoError::InvalidInput)
                && final(self)@ == old(self)@,
            r is Ok ==> final(self)@ == (ImageState {
                disk: written(
                    old(self)@.disk,
                    old(self)@.l1[l1_index as int] as nat,
                    pointer_table_bytes(cluster@, CLUSTER_USED_FLAG),
                ),
                ..old(self)@
            }),
            r is Err ==> final(self)@ == (ImageState { disk: final(self)@.disk, ..old(self)@ }),
            final(self)@.disk.len() >= old(self)@.disk.len(),
            final(self).caches() == old(self).caches(),
            old(self).backing().reliable() && old(self)@.l1[l1_index as int] != 0
                && old(self)@.l1[l1_index as int] + 8 * cluster@.len() <= old(self)@.disk.len()
                ==> r is Ok,
    {
        proof {
            self.lemma_wf();
        }
        // The index was valid when the block was inserted.
        let addr: u64 = self.l1_table[l1_index];
        if addr != 0 {
            self.raw_file.write_pointer_table(addr, cluster, CLUSTER_USED_FLAG)
        } else {
            Err(IoError::InvalidInput)
        }
    }

    // Makes room in the cache for one more L2 table. The table that leaves the cache is written
    // out if it is dirty.
    fn check_l2_evict(&mut self) -> (r: IoResult<()>)
        requires
            old(self).wf(),
        ensures
            final(self).wf(),
            final(self)@.pending_from(old(self)@),
            old(self)@.consistent() ==> final(self)@.disk.len() == old(self)@.disk.len(),
            final(self).same_file_kind(old(self)),
            !final(self).l2_cache_full(),
            final(self).refblock_cache_full() == old(self).refblock_cache_full(),
            final(self)@ == (ImageState {
                disk: final(self)@.disk,
                l2_cache: final(self)@.l2_cache,
                ..old(self)@
            }),
            final(self)@.disk.len() >= old(self)@.disk.len(),
            !old(self).l2_cache_full() ==> r is Ok && final(self)@ == old(self)@,
            old(self).l2_cache_full() ==> ({
                let v = old(self).l2_victim();
                let (table, dirty) = old(self)@.l2_cache[v];
                &&& old(self)@.l2_cache.contains_key(v)
                &&& final(self)@.l2_cache == old(self)@.l2_cache.remove(v)
                &&& !dirty ==> r is Ok && final(self)@.disk == old(self)@.disk
                &&& dirty && r is Ok ==> final(self)@.disk == written(
                    old(self)@.disk,
                    old(self)@.l1[v as int] as nat,
                    pointer_table_bytes(table, CLUSTER_USED_FLAG),
                )
            }),
            old(self)@.consistent()
                && r is Ok
                ==> final(self)@.consistent()
                && final(self)@.same_data(old(self)@)
                && final(self)@.same_counts(old(self)@)
                && final(self)@.disk.len() == old(self)@.disk.len(),
            old(self)@.consistent() && old(self).backing().reliable() ==> r is Ok,
    {
        proof {
            self.lemma_wf();
        }
        if let Some((evicted_idx, evicted)) = self.l2_cache.evict_if_full() {
            assert(old(self)@.l2_cache.contains_key(evicted_idx));
            assert(self@.wf()) by {
                assert forall|k: usize| #[trigger]
                    self@.l2_cache.contains_key(k) implies old(self)@.l2_cache.contains_key(k)
                    && self@.l2_cache[k] == old(self)@.l2_cache[k] by {}
            }
            if evicted.dirty() {
                proof {
                    if old(self)@.consistent() {
                        let c = old(self)@.l1[evicted_idx as int];
                        assert(old(self)@.cluster_of(
                            ClusterUse::L2Table(evicted_idx as int),
                        ) == c);
                        assert(old(self)@.is_cluster(c));
                    }
                }
                let r = self.write_l2_cluster(evicted_idx, evicted.get_values());
                proof {
                    if old(self)@.consistent() && r is Ok {
                        lemma_l2_evicted(old(self)@, evicted_idx, self@);
                    }
                }
                return r;
            }
            proof {
                if old(self)@.consistent() {
                    lemma_l2_evicted(old(self)@, evicted_idx, self@);
                }
            }
        }
        Ok(())
    }

    /// The offset in the file of the byte at `address`, or `None` if its
    /// cluster has none. The L2 table that maps the address is read into the
    /// cache if it is not there.
    fn file_offset_read(&mut self, address: u64) -> (r: IoResult<Option<u64>>)
        requires
            old(self).wf(),
        ensures
            final(self).wf(),
            final(self).refblock_cache_full() == old(self).refblock_cache_full(),
            old(self)@.consistent() ==> final(self)@.disk.len() == old(self)@.disk.len(),
            final(self).same_file_kind(old(self)),
            final(self)@ == (ImageState {
                disk: final(self)@.disk,
                l2_cache: final(self)@.l2_cache,
                ..old(self)@
            }),
            final(self)@.disk.len() >= old(self)@.disk.len(),
            address >= old(self)@.virtual_size()
                || old(self)@.l1_index(address) >= old(self)@.l1.len()
                ==> r == Err::<Option<u64>, IoError>(IoError::InvalidInput)
                && final(self)@ == old(self)@,
            r matches Ok(x) ==> x == final(self)@.translate(address),
            old(self)@.l2_cache.contains_key(old(self)@.l1_index(address) as usize)
                || old(self)@.l1[old(self)@.l1_index(address)] == 0
                ==> final(self)@ == old(self)@,
            address < old(self)@.virtual_size()
                && old(self)@.l1_index(address) < old(self)@.l1.len()
                && (old(self)@.l2_cache.contains_key(old(self)@.l1_index(address) as usize)
                || old(self)@.l1[old(self)@.l1_index(address)] == 0) ==> r is Ok,
            old(self)@.consistent()
                && r is Ok
                ==> final(self)@.consistent()
                && final(self)@.same_data(old(self)@)
                && final(self)@.same_counts(old(self)@),
            old(self)@.consistent()
                && old(self).backing().reliable()
                && address < old(self)@.virtual_size()
                ==> r is Ok,
    {
        proof {
            self.lemma_wf();
        }
        if address >= self.virtual_size() {
            return Err(IoError::InvalidInput);
        }
        proof {
            if self@.consistent() {
                lemma_l1_covers(self@, address);
            }
        }
        let l1_index: u64 = self.l1_table_index(address);
        if l1_index >= self.l1_table.len() as u64 {
            return Err(IoError::InvalidInput);
        }
        let l1_index: usize = l1_index as usize;
        let l2_addr_disk: u64 = self.l1_table[l1_index];
        let l2_index: usize = self.l2_table_index(address) as usize;

        if !self.l2_cache.contains(l1_index) {
            // Not in the cache.
            if l2_addr_disk == 0 {
                // Reading from an unallocated cluster will return zeros.
                return Ok(None);
            }
            self.check_l2_evict()?;
            proof {
                if old(self)@.consistent() {
                    assert(self@.cluster_of(ClusterUse::L2Table(l1_index as int))
                        == l2_addr_disk);
                    assert(self@.is_cluster(l2_addr_disk));
                }
            }
            let table: Vec<u64> = self.raw_file.read_pointer_cluster(
                l2_addr_disk,
                Some(L2_TABLE_OFFSET_MASK),
            )?;
            proof {
                lemma_masked_entries(
                    self@.disk,
                    l2_addr_disk as int,
                    self@.l2_len(),
                    self@.cluster_size,
                );
            }
            let ghost before = self@;
            self.l2_cache.insert(l1_index, VecCache::from_vec(table));
            proof {
                if old(self)@.consistent() {
                    lemma_l2_loaded(before, l1_index, self@);
                }
            }
        }
        proof {
            if old(self)@.consistent() {
                assert(self@.host_cluster(address) == old(self)@.host_cluster(address));
            }
        }
        let cluster_addr: u64 = match self.l2_cache.get(l1_index) {
            Some(table) => table.get(l2_index),
            None => 0,
        };
        if cluster_addr == 0 {
            return Ok(None);
        }
        Ok(Some(cluster_addr + self.cluster_offset(address)))
    }

    /// Hands out a cluster that holds zeros: the last of the available ones
    /// if there is one, filled with zeros, and else a new cluster at the end
    /// of the file.
    fn get_new_cluster(&mut self) -> (r: IoResult<u64>)
        requires
            old(self).wf(),
        ensures
            final(self).wf(),
            old(self)@.consistent() && old(self).backing().reliable() && r is Err ==> final(self)@ == old(self)@
                && !old(self)@.has_next_cluster(old(self).backing().max_len()),
            final(self).same_file_kind(old(self)),
            final(self).caches() == old(self).caches(),
            final(self)@ == (ImageState {
                disk: final(self)@.disk,
                available: final(self)@.available,
                ..old(self)@
            }),
            final(self)@.disk.len() >= old(self)@.disk.len(),
            final(self)@.alloc_budget() <= old(self)@.alloc_budget(),
            match r {
                Ok(addr) => {
                    &&& addr != 0
                    &&& addr + old(self)@.cluster_size <= u64::MAX
                    &&& final(self)@.alloc_budget() < old(self)@.alloc_budget()
                    &&& if old(self)@.available.len() > 0 {
                        &&& addr == old(self)@.available.last()
                        &&& final(self)@.available == old(self)@.available.drop_last()
                        &&& final(self)@.disk == written(
                            old(self)@.disk,
                            addr as nat,
                            crate::model::zero_bytes(old(self)@.cluster_size as nat),
                        )
                    } else {
                        &&& addr == round_up(
                            old(self)@.disk.len() as int,
                            old(self)@.cluster_size as int,
                        )
                        &&& final(self)@.available == old(self)@.available
                        &&& final(self)@.disk == resized(
                            old(self)@.disk,
                            (addr + old(self)@.cluster_size) as nat,
                        )
                    }
                },
                Err(_) => final(self)@.available == old(self)@.available,
            },
            old(self)@.consistent() ==> (
            r matches Ok(addr) ==> {
                &&& final(self)@.consistent()
                &&& final(self)@.same_data(old(self)@)
                &&& final(self)@.same_counts(old(self)@)
                &&& final(self)@.is_free(addr)
                &&& forall|x: u64|
                    old(self)@.is_free(x) ==> #[trigger] final(self)@.is_free(x) && x != addr
                        && kept(
                        old(self)@.disk,
                        final(self)@.disk,
                        x as int,
                        old(self)@.cluster_size as int,
                    )
                &&& forall|j: int|
                    addr <= j < addr + old(self)@.cluster_size ==> #[trigger] final(self)@.disk[j]
                        == 0u8
                &&& final(self)@.uses_from(old(self)@, Set::empty())
                &&& forall|address: u64, count: u16|
                    old(self)@.can_count(address, count) ==> #[trigger] final(self)@.can_count(
                        address,
                        count,
                    ) && address != addr
            }),
            old(self)@.consistent() && old(self).backing().reliable()
                && old(self)@.has_next_cluster(old(self).backing().max_len()) ==> r is Ok,
            old(self)@.consistent() ==> final(self)@.disk.len() <= MAX_FILE_LEN,
            old(self)@.consistent() ==> final(self)@.grew_by(
                old(self)@,
                match r {
                    Ok(a) => Some(a),
                    Err(_) => None,
                },
            ),
            old(self)@.consistent() ==> round_up(
                final(self)@.disk.len() as int,
                old(self)@.cluster_size as int,
            ) <= round_up(old(self)@.disk.len() as int, old(self)@.cluster_size as int) + old(self)@.cluster_size,
    {
        proof {
            self.lemma_wf();
            crate::steps::lemma_round_up_grown(self@.disk.len() as int, self@.cluster_size as int);
        }
        // First use a pre allocated cluster if one is available.
        let n: usize = self.avail_clusters.len();
        if n > 0 {
            let free_cluster: u64 = self.avail_clusters[n - 1];
            proof {
                if self@.consistent() {
                    assert(self@.cluster_of(ClusterUse::Available(n - 1)) == free_cluster);
                    assert(free_cluster != 0 ==> self@.is_cluster(free_cluster));
                    crate::steps::lemma_consistent_geometry(self@);
                }
            }
            if free_cluster == 0 || free_cluster > u64::MAX - self.raw_file.cluster_size() {
                return Err(IoError::InvalidInput);
            }
            // A cluster that is used again holds zeros, as a new one does.
            let zeros: Vec<u8> = zero_cluster(self.raw_file.cluster_size());
            crate::disk::write_all_at(self.raw_file.file_mut(), free_cluster, zeros.as_slice())?;
            self.avail_clusters.pop();
            proof {
                if old(self)@.consistent() {
                    lemma_allocated(old(self)@, self@, free_cluster);
                    self.lemma_allocated_counts(old(self)@, free_cluster);
                }
            }
            return Ok(free_cluster);
        }
        proof {
            if self@.consistent() {
                crate::steps::lemma_consistent_geometry(self@);
                crate::steps::lemma_round_up(
                    self@.disk.len() as int,
                    self@.cluster_size as int,
                );
            }
        }
        // The file grows only while offsets in it stay below the greatest that a table can hold.
        let file_len: u64 = self.raw_file.file().len()?;
        if file_len > MAX_FILE_LEN - 2 * self.raw_file.cluster_size() {
            return Err(IoError::InvalidInput);
        }
        proof {
            crate::steps::lemma_round_up(self@.disk.len() as int, self@.cluster_size as int);
        }
        let new_addr: u64 = self.raw_file.add_cluster_end()?;
        proof {
            self.lemma_wf();
        }
        if new_addr == 0 {
            // The first cluster holds the header.
            return Err(IoError::InvalidInput);
        }
        proof {
            if old(self)@.consistent() {
                assert forall|x: u64|
                    #[trigger] self@.is_aligned(x) && old(self)@.disk.len() <= x
                        < self@.disk.len() implies x == new_addr by {
                    crate::steps::lemma_one_new_cluster(
                        old(self)@.disk.len() as int,
                        x as int,
                        self@.cluster_size as int,
                    );
                }
            }
        }
        proof {
            if old(self)@.consistent() && self@.disk.len() <= MAX_FILE_LEN {
                lemma_allocated(old(self)@, self@, new_addr);
                self.lemma_allocated_counts(old(self)@, new_addr);
            }
        }
        Ok(new_addr)
    }

    /// After a cluster was handed out, every use has the cluster that it
    /// had, or none, and every count that could be set can be set, for a
    /// cluster that is not the one handed out.
    proof fn lemma_allocated_counts(&self, before: ImageState, addr: u64)
        requires
            before.consistent(),
            self@.consistent(),
            self@.same_data(before),
            self@.is_free(addr),
            self@ == (ImageState {
                disk: self@.disk,
                available: self@.available,
                ..before
            }),
            self@.disk.len() >= before.disk.len(),
            before.available.len() > 0 ==> addr == before.available.last() && self@.available
                == before.available.drop_last(),
            before.available.len() == 0 ==> self@.available == before.available && addr
                >= before.disk.len(),
        ensures
            self@.uses_from(before, Set::empty()),
            forall|address: u64, count: u16|
                before.can_count(address, count) ==> #[trigger] self@.can_count(address, count)
                    && address != addr,
    {
        let s = before;
        let s2 = self@;
        assert forall|u: ClusterUse|
            #[trigger] s2.cluster_of(u) != 0 implies s2.cluster_of(u) == s.cluster_of(u) by {
            match u {
                ClusterUse::Data(vc) => {
                    assert(s2.entry(vc) == s.entry(vc));
                },
                _ => {},
            }
        }
        assert forall|address: u64, count: u16| s.can_count(address, count) implies #[trigger] s2.can_count(
            address,
            count,
        ) && address != addr by {
            assert(address != addr) by {
                crate::steps::lemma_consistent_geometry(s);
                if s.available.len() > 0 {
                    assert(s.available[s.available.len() - 1] != address);
                }
            }
            assert forall|u: ClusterUse|
                #[trigger] s.cluster_of(u) == address && address != 0 && !(u is Available)
                implies s2.cluster_of(u) == address by {
                match u {
                    ClusterUse::Data(vc) => {
                        assert(s2.entry(vc) == s.entry(vc));
                    },
                    _ => {},
                }
            }
            crate::steps::lemma_can_count_kept(s, s2, address, count);
        }
    }

    // Gets the address of the refcount block and the index into the block for the given address.
    fn get_refcount_index(&self, address: u64) -> (r: (u64, usize))
        requires
            self.wf(),
        ensures
            r.0 == self@.refcount_table_index(address),
            r.1 == self@.refcount_block_index(address),
            r.1 < self@.refblock_len(),
    {
        proof {
            self.lemma_wf();
        }
        let cluster_size: u64 = self.raw_file.cluster_size();
        let block_index: u64 = (address / cluster_size) % self.refcount_block_entries;
        let refcount_table_index: u64 = (address / cluster_size) / self.refcount_block_entries;
        (refcount_table_index, block_index as usize)
    }

    // Makes room in the cache for one more refcount block. The block that leaves the cache is
    // written out if it is dirty.
    fn check_refblock_evict(&mut self) -> (r: IoResult<()>)
        requires
            old(self).wf(),
        ensures
            final(self).wf(),
            old(self)@.consistent() ==> final(self)@.disk.len() == old(self)@.disk.len(),
            final(self).same_file_kind(old(self)),
            final(self).caches().0 == old(self).caches().0,
            !final(self).refblock_cache_full(),
            final(self)@ == (ImageState {
                disk: final(self)@.disk,
                refblock_cache: final(self)@.refblock_cache,
                ..old(self)@
            }),
            final(self)@.disk.len() >= old(self)@.disk.len(),
            !old(self).refblock_cache_full() ==> r is Ok && final(self)@ == old(self)@,
            old(self).refblock_cache_full() ==> ({
                let v = old(self).refblock_victim();
                let (block, dirty) = old(self)@.refblock_cache[v];
                &&& old(self)@.refblock_cache.contains_key(v)
                &&& final(self)@.refblock_cache == old(self)@.refblock_cache.remove(v)
                &&& !dirty || old(self)@.ref_table[v as int] == 0 ==> r is Ok && final(self)@.disk
                    == old(self)@.disk
                &&& dirty && old(self)@.ref_table[v as int] != 0 && r is Ok ==> final(self)@.disk
                    == written(
                    old(self)@.disk,
                    old(self)@.ref_table[v as int] as nat,
                    refcount_block_bytes(block),
                )
            }),
            old(self)@.consistent()
                && r is Ok
                ==> final(self)@.consistent()
                && final(self)@.same_data(
                old(self)@,
            ) && final(self)@.same_counts(old(self)@) && (forall|x: u64|
                old(self)@.is_free(x) ==> #[trigger] final(self)@.is_free(x)),
            old(self)@.consistent() && old(self).backing().reliable() ==> r is Ok,
    {
        proof {
            self.lemma_wf();
        }
        if let Some((evicted_idx, evicted)) = self.refblock_cache.evict_if_full() {
            assert(old(self)@.refblock_cache.contains_key(evicted_idx));
            assert(self@.wf()) by {
                assert forall|k: usize| #[trigger]
                    self@.refblock_cache.contains_key(k) implies old(self)@.refblock_cache.contains_key(k)
                        && self@.refblock_cache[k] == old(self)@.refblock_cache[k] by {}
            }
            if !evicted.dirty() {
                proof {
                    if old(self)@.consistent() {
                        lemma_refblock_evicted(old(self)@, evicted_idx, self@);
                        self.lemma_free_kept(old(self)@);
                    }
                }
                return Ok(());
            }
            let addr: u64 = self.ref_table[evicted_idx];
            proof {
                if old(self)@.consistent() {
                    assert(old(self)@.cluster_of(ClusterUse::RefBlock(evicted_idx as int))
                        == addr);
                    assert(old(self)@.is_cluster(addr));
                    crate::steps::lemma_consistent_geometry(old(self)@);
                }
            }
            if addr != 0 {
                let r = self.raw_file.write_refcount_block(addr, evicted.get_values());
                proof {
                    if old(self)@.consistent() && r is Ok {
                        lemma_refblock_evicted(old(self)@, evicted_idx, self@);
                        self.lemma_free_kept(old(self)@);
                    }
                }
                return r;
            }
        }
        Ok(())
    }

    /// A consistent state in which every cluster has the use that it had in
    /// `before`, if any, and in which the file is as long as it was, keeps
    /// the free clusters of `before` free.
    proof fn lemma_free_kept(&self, before: ImageState)
        requires
            before.consistent(),
            self@.consistent(),
            self@.header == before.header,
            self@.cluster_size == before.cluster_size,
            self@.l1 == before.l1,
            self@.ref_table == before.ref_table,
            self@.pending == before.pending,
            self@.available == before.available,
            self@.disk.len() >= before.disk.len(),
            self@.same_data(before),
        ensures
            forall|x: u64| before.is_free(x) ==> #[trigger] self@.is_free(x),
    {
        let s = before;
        let s2 = self@;
        assert forall|x: u64| s.is_free(x) implies #[trigger] s2.is_free(x) by {
            assert forall|u: ClusterUse| #[trigger] s2.cluster_of(u) != x by {
                assert(s.cluster_of(u) != x);
                match u {
                    ClusterUse::Data(vc) => {
                        assert(s2.entry(vc) == s.entry(vc));
                    },
                    _ => {},
                }
            }
        }
    }

    // Brings the block of counts of table entry `table_index` into the cache: the block in the
    // file, or a new block of zeros with a new cluster if the table entry has none. Returns the
    // new cluster, whose count is still to be set.
    fn cache_refblock(&mut self, table_index: usize) -> (r: IoResult<Option<u64>>)
        requires
            old(self).wf(),
            table_index < old(self)@.ref_table.len(),
            !old(self)@.refblock_cache.contains_key(table_index),
        ensures
            final(self).wf(),
            old(self)@.consistent() && old(self).backing().reliable() && (old(self)@.ref_table[table_index as int]
                != 0 || old(self)@.has_next_cluster(old(self).backing().max_len())) ==> r is Ok,
            old(self)@.consistent() ==> round_up(
                final(self)@.disk.len() as int,
                old(self)@.cluster_size as int,
            ) <= round_up(old(self)@.disk.len() as int, old(self)@.cluster_size as int) + old(self)@.cluster_size,
            old(self)@.consistent() && old(self).backing().reliable() && r is Err ==> final(self)@.is_exhausted(old(self).backing().max_len()),
            old(self)@.consistent() ==> final(self)@.disk.len() <= MAX_FILE_LEN,
            final(self).same_file_kind(old(self)),
            final(self).caches().0 == old(self).caches().0,
            final(self)@ == (ImageState {
                disk: final(self)@.disk,
                ref_table: final(self)@.ref_table,
                refblock_cache: final(self)@.refblock_cache,
                available: final(self)@.available,
                ..old(self)@
            }),
            final(self)@.ref_table.len() == old(self)@.ref_table.len(),
            final(self)@.disk.len() >= old(self)@.disk.len(),
            final(self)@.alloc_budget() <= old(self)@.alloc_budget(),
            old(self)@.available.len() == 0 ==> final(self)@.available.len() == 0,
            r is Ok ==> final(self)@.refblock_cache.contains_key(table_index),
            r is Ok ==> final(self)@ == old(self)@.with_refblock_cached(
                table_index as int,
                old(self).refblock_leaving(table_index as int),
            ),
            r matches Ok(None) ==> final(self)@.ref_table == old(self)@.ref_table && final(self)@.available
                == old(self)@.available && !final(self)@.refblock_cache[table_index].1 && old(self)@.ref_table[table_index as int]
                != 0 && (old(self)@.consistent() ==> final(self)@.disk.len() == old(self)@.disk.len()),
            r matches Ok(Some(_)) ==> old(self)@.ref_table[table_index as int] == 0,
            r matches Ok(Some(addr)) ==> final(self)@.alloc_budget() < old(self)@.alloc_budget()
                && addr != 0
                    && final(self)@.ref_table[table_index as int] == addr
                    && final(self)@.refblock_cache[table_index].1,
            !old(self).refblock_cache_full() && old(self)@.ref_table[table_index as int] == 0
                && old(self)@.available.len() == 0 ==> (r matches Ok(x) ==> x == Some(
                round_up(old(self)@.disk.len() as int, old(self)@.cluster_size as int) as u64,
            ) && final(self)@ == old(self)@.with_new_refblock(table_index as int)),
            !old(self).refblock_cache_full() && old(self)@.ref_table[table_index as int] == 0
                && old(self)@.available.len() == 0
                    && old(self)@.consistent()
                    && old(self).backing().reliable()
                    && old(self)@.has_next_cluster(old(self).backing().max_len()) ==> r is Ok,
            !old(self).refblock_cache_full() && old(self)@.ref_table[table_index as int] != 0
                ==> (r matches Ok(x) ==> x is None && final(self)@ == old(self)@.with_refblock_loaded(table_index as int)),
            !old(self).refblock_cache_full() && old(self)@.ref_table[table_index as int] != 0
                && old(self)@.consistent() && old(self).backing().reliable() ==> r is Ok,
            old(self)@.consistent() && r is Ok ==> {
                &&& final(self)@.consistent()
                &&& r matches Ok(Some(addr)) ==> addr == old(self)@.next_cluster() && final(self)@.available == old(self)@.without_next_cluster().available
                &&& forall|i: int|
                    0 <= i < old(self)@.ref_table.len() && i != table_index ==> #[trigger] final(self)@.ref_table[i] == old(self)@.ref_table[i]
                &&& final(self)@.grew_by(old(self)@, r.unwrap())
                &&& final(self)@.same_data(old(self)@)
                &&& forall|x: u64| #[trigger] final(self)@.refcount(x) == old(self)@.refcount(x)
                &&& match r {
                    Ok(Some(addr)) => final(self)@.keeps_counts_but(old(self)@, set![addr]),
                    _ => final(self)@.keeps_counts(old(self)@),
                }
                &&& forall|address: u64, count: u16|
                    old(self)@.can_count(address, count) && old(self)@.refcount_table_index(
                        address,
                    ) == table_index ==> #[trigger] final(self)@.can_count(address, count)
            },
    {
        proof {
            self.lemma_wf();
        }
        let ghost start = old(self)@;
        proof {
            self.lemma_refblock_room(table_index);
        }
        let stored_addr: u64 = self.ref_table[table_index];
        self.check_refblock_evict()?;
        let ghost evicted = self@;
        if stored_addr == 0 {
            let new_addr: u64 = self.get_new_cluster()?;
            let ghost before = self@;
            self.ref_table[table_index] = new_addr;
            self.refblock_cache.insert(
                table_index,
                VecCache::<u16>::new(self.refcount_block_entries as usize),
            );
            proof {
                if start.consistent() {
                    assert forall|x: u64|
                        #[trigger] self@.is_aligned(x) && start.disk.len() <= x
                            < self@.disk.len() implies x == new_addr by {
                        assert(before.is_aligned(x));
                    }
                }
            }
            proof {
                if start.consistent() && self@.disk.len() <= MAX_FILE_LEN {
                    lemma_refblock_created(before, table_index, new_addr, self@);
                    self.lemma_created_counts(start, evicted, before, table_index, new_addr);
                }
            }
            Ok(Some(new_addr))
        } else {
            proof {
                if start.consistent() {
                    assert(self@.cluster_of(ClusterUse::RefBlock(table_index as int))
                        == stored_addr);
                    assert(self@.is_cluster(stored_addr));
                }
            }
            let block: Vec<u16> = self.raw_file.read_refcount_block(stored_addr)?;
            let ghost before = self@;
            self.refblock_cache.insert(table_index, VecCache::from_vec(block));
            proof {
                if start.consistent() {
                    lemma_refblock_loaded(before, table_index, self@);
                    lemma_same_data_trans(self@, before, start);
                    lemma_same_counts_trans(self@, before, start);
                    self.lemma_loaded_counts(start, table_index);
                }
            }
            Ok(None)
        }
    }

    /// After a block of counts was made for table entry `t`, with the new
    /// cluster `addr`: the counts are right wherever they were, but for
    /// `addr`, and a count that could be set for a cluster that the block
    /// counts can be set.
    proof fn lemma_created_counts(
        &self,
        start: ImageState,
        evicted: ImageState,
        allocated: ImageState,
        t: usize,
        addr: u64,
    )
        requires
            start.consistent(),
            evicted.consistent(),
            allocated.consistent(),
            self@.consistent(),
            t < start.ref_table.len(),
            !start.refblock_cache.contains_key(t),
            start.ref_table[t as int] == 0,
            evicted.same_data(start),
            evicted.same_counts(start),
            evicted == (ImageState {
                disk: evicted.disk,
                refblock_cache: evicted.refblock_cache,
                ..start
            }),
            evicted.disk.len() >= start.disk.len(),
            forall|k: usize| #[trigger]
                evicted.refblock_cache.contains_key(k) ==> start.refblock_cache.contains_key(k)
                    && evicted.refblock_cache[k] == start.refblock_cache[k],
            allocated.same_data(evicted),
            allocated.same_counts(evicted),
            allocated.uses_from(evicted, Set::empty()),
            allocated.ref_table == evicted.ref_table,
            allocated.refblock_cache == evicted.refblock_cache,
            allocated.disk.len() >= evicted.disk.len(),
            forall|address: u64, count: u16|
                evicted.can_count(address, count) ==> #[trigger] allocated.can_count(
                    address,
                    count,
                ) && address != addr,
            self@.same_data(allocated),
            self@.keeps_counts_but(allocated, set![addr]),
            self@.uses_from(allocated, set![addr]),
            self@ == (ImageState {
                ref_table: allocated.ref_table.update(t as int, addr),
                refblock_cache: allocated.refblock_cache.insert(
                    t,
                    (crate::model::zero_counts(allocated.refblock_len()), true),
                ),
                ..allocated
            }),
        ensures
            self@.same_data(start),
            self@.keeps_counts_but(start, set![addr]),
            forall|address: u64, count: u16|
                start.can_count(address, count) && start.refcount_table_index(address) == t
                    ==> #[trigger] self@.can_count(address, count),
    {
        let s = self@;
        lemma_same_data_trans(allocated, evicted, start);
        lemma_same_data_trans(s, allocated, start);
        assert forall|owed: Set<u64>| start.counted_but(owed) implies #[trigger] s.counted_but(
            owed.union(set![addr]),
        ) by {
            assert(evicted.counted_but(owed));
            assert(allocated.counted_but(owed));
        }
        assert forall|address: u64, count: u16|
            start.can_count(address, count) && start.refcount_table_index(address) == t
            implies #[trigger] s.can_count(address, count) by {
            self.lemma_evicted_can_count(start, evicted, address, count);
            assert(evicted.can_count(address, count));
            assert(allocated.can_count(address, count));
            assert(address != addr);
            assert forall|u: ClusterUse|
                #[trigger] allocated.cluster_of(u) == address && address != 0 && !(u is Available)
                implies s.cluster_of(u) == address by {
                match u {
                    ClusterUse::Data(vc) => {
                        assert(s.entry(vc) == allocated.entry(vc));
                    },
                    ClusterUse::RefBlock(k) => {
                        if k == t {
                            assert(allocated.ref_table[k] == 0);
                        }
                    },
                    _ => {},
                }
            }
            crate::steps::lemma_can_count_kept(allocated, s, address, count);
        }
    }

    /// A count that could be set for a cluster whose count is held by a
    /// block that is not in the cache can be set after a block has left the
    /// cache.
    proof fn lemma_evicted_can_count(
        &self,
        start: ImageState,
        evicted: ImageState,
        address: u64,
        count: u16,
    )
        requires
            start.consistent(),
            evicted.consistent(),
            start.can_count(address, count),
            !start.refblock_cache.contains_key(start.refcount_table_index(address) as usize),
            evicted.same_data(start),
            evicted == (ImageState {
                disk: evicted.disk,
                refblock_cache: evicted.refblock_cache,
                ..start
            }),
            evicted.disk.len() >= start.disk.len(),
        ensures
            evicted.can_count(address, count),
    {
        assert forall|u: ClusterUse| #[trigger] evicted.cluster_of(u) == start.cluster_of(u) by {
            match u {
                ClusterUse::Data(vc) => {
                    assert(evicted.entry(vc) == start.entry(vc));
                },
                _ => {},
            }
        }
        crate::steps::lemma_index_not_negative(start, address);
        crate::steps::lemma_can_count_kept(start, evicted, address, count);
    }

    /// After a block of counts was read into the cache for table entry `t`,
    /// a count that could be set for a cluster that the block counts can be
    /// set.
    proof fn lemma_loaded_counts(&self, start: ImageState, t: usize)
        requires
            start.consistent(),
            self@.consistent(),
            t < start.ref_table.len(),
            !start.refblock_cache.contains_key(t),
            start.ref_table[t as int] != 0,
            self@.same_data(start),
            self@ == (ImageState {
                disk: self@.disk,
                refblock_cache: self@.refblock_cache,
                ..start
            }),
            self@.disk.len() >= start.disk.len(),
        ensures
            forall|address: u64, count: u16|
                start.can_count(address, count) && start.refcount_table_index(address) == t
                    ==> #[trigger] self@.can_count(address, count),
    {
        let s = self@;
        assert forall|u: ClusterUse| #[trigger] s.cluster_of(u) == start.cluster_of(u) by {
            match u {
                ClusterUse::Data(vc) => {
                    assert(s.entry(vc) == start.entry(vc));
                },
                _ => {},
            }
        }
        assert forall|address: u64, count: u16|
            start.can_count(address, count) && start.refcount_table_index(address) == t
            implies #[trigger] s.can_count(address, count) by {
            crate::steps::lemma_index_not_negative(start, address);
            crate::steps::lemma_can_count_kept(start, s, address, count);
        }
    }

    // Sets the count of the cluster at `address` in its block, after bringing the block into
    // the cache and moving it to a new cluster if it is clean. Returns the cluster that the
    // block took, if it was made or has moved, and the one that it left, if it has moved: their
    // counts are still to be set.
    #[verifier::rlimit(100)]
    #[verifier::spinoff_prover]
    fn write_refcount(&mut self, address: u64, refcount: u16) -> (r: IoResult<
        (Option<u64>, Option<u64>),
    >)
        requires
            old(self).wf(),
        ensures
            final(self).wf(),
            old(self)@.consistent() && old(self).backing().reliable() && old(self)@.refcount_table_index(address)
                < old(self)@.ref_table.len() && (old(self)@.block_changed(
                old(self)@.refcount_table_index(address),
            ) || old(self)@.has_next_cluster(old(self).backing().max_len())) ==> r is Ok,
            old(self)@.consistent() && r is Ok ==> final(self)@.growth_end() <= old(self)@.growth_end()
                && final(self)@.block_changed(old(self)@.refcount_table_index(address)) && (forall|i: int|
                old(self)@.block_changed(i) ==> #[trigger] final(self)@.block_changed(i)),
            old(self)@.consistent() && old(self).backing().reliable() && r is Err ==> old(self)@.refcount_table_index(address)
                >= old(self)@.ref_table.len() || final(self)@.is_exhausted(old(self).backing().max_len()),
            old(self)@.consistent() ==> final(self)@.disk.len() <= MAX_FILE_LEN,
            final(self).same_file_kind(old(self)),
            final(self).caches().0 == old(self).caches().0,
            final(self)@ == (ImageState {
                disk: final(self)@.disk,
                ref_table: final(self)@.ref_table,
                refblock_cache: final(self)@.refblock_cache,
                pending: final(self)@.pending,
                available: final(self)@.available,
                ..old(self)@
            }),
            final(self)@.ref_table.len() == old(self)@.ref_table.len(),
            final(self)@.disk.len() >= old(self)@.disk.len(),
            final(self)@.alloc_budget() <= old(self)@.alloc_budget(),
            final(self)@.pending_from(old(self)@),
            old(self)@.available.len() == 0 ==> final(self)@.available.len() == 0,
            r matches Ok((added, dropped)) ==> (added is Some ==> final(self)@.alloc_budget() < old(self)@.alloc_budget()) && (dropped is Some ==> added is Some) && old(self)@.refcount_table_index(address) < old(self)@.ref_table.len(),
            old(self)@.refcount_table_index(address) >= old(self)@.ref_table.len() ==> r is Err
                && final(self)@ == old(self)@,
            r matches Err(e) ==> old(self)@.refcount_table_index(address) < old(self)@.ref_table.len() || e == IoError::InvalidInput,
            ({
                let t = old(self)@.refcount_table_index(address);
                t < old(self)@.ref_table.len() && old(self)@.refblock_cache.contains_key(t as usize)
                    && old(self)@.refblock_cache[t as usize].1 ==> r == Ok::<
                    (Option<u64>, Option<u64>),
                    IoError,
                >((None, None)) && final(self)@ == old(self)@.with_count(address, refcount)
            }),
            ({
                let t = old(self)@.refcount_table_index(address);
                let made = old(self)@.with_new_refblock(t);
                t < old(self)@.ref_table.len()
                    && !old(self)@.refblock_cache.contains_key(t as usize)
                    && !old(self).refblock_cache_full()
                        && old(self)@.ref_table[t] == 0
                        && old(self)@.available.len() == 0 ==> (r matches Ok((added, dropped))
                    ==> added == Some(made.ref_table[t]) && dropped is None && final(self)@
                    == made.with_count(address, refcount)) && (old(self)@.consistent() && old(self).backing().reliable() && old(self)@.has_next_cluster(
                    old(self).backing().max_len(),
                ) ==> r is Ok)
            }),
            ({
                let t = old(self)@.refcount_table_index(address);
                let loaded = old(self)@.with_refblock_loaded(t);
                let base = if old(self)@.refblock_cache.contains_key(t as usize) {
                    old(self)@
                } else {
                    loaded
                };
                t < old(self)@.ref_table.len() && (if old(self)@.refblock_cache.contains_key(
                    t as usize,
                ) {
                    !old(self)@.refblock_cache[t as usize].1
                } else {
                    !old(self).refblock_cache_full() && old(self)@.ref_table[t] != 0
                }) ==> (r matches Ok((added, dropped)) ==> added == Some(
                    old(self)@.next_cluster() as u64,
                ) && dropped == (if old(self)@.ref_table[t] != 0 {
                    Some(old(self)@.ref_table[t])
                } else {
                    None
                }) && final(self)@ == base.with_moved_count(address, refcount)) && (old(self)@.consistent() && old(self).backing().reliable() && old(self)@.has_next_cluster(
                    old(self).backing().max_len(),
                ) ==> r is Ok)
            }),
            r matches Ok((added, dropped)) ==> {
                let leaving = old(self).refblock_leaving(old(self)@.refcount_table_index(address));
                &&& final(self)@ == old(self)@.with_count_written(address, refcount, leaving)
                &&& added == old(self)@.count_adds(address, leaving)
                &&& dropped == old(self)@.count_drops(address)
            },
            old(self)@.consistent() ==> (r matches Ok((added, dropped)) ==> {
                let t = old(self)@.refcount_table_index(address);
                &&& final(self)@.consistent()
                &&& final(self)@.same_data(old(self)@)
                &&& final(self)@.grew_by(old(self)@, added)
                &&& final(self)@.refcount(address) == refcount
                &&& forall|x: u64|
                    x / old(self)@.cluster_size != address / old(self)@.cluster_size
                        ==> #[trigger] final(self)@.refcount(x) == old(self)@.refcount(x)
                &&& forall|i: int|
                    0 <= i < old(self)@.ref_table.len() && i != t ==> #[trigger] final(self)@.ref_table[i] == old(self)@.ref_table[i]
                &&& added matches Some(a) ==> a == old(self)@.next_cluster() && final(self)@.available == old(self)@.without_next_cluster().available
                &&& added is None ==> final(self)@.ref_table == old(self)@.ref_table && final(self)@.available == old(self)@.available
                &&& dropped is Some <==> !(old(self)@.refblock_cache.contains_key(t as usize)
                    && old(self)@.refblock_cache[t as usize].1) && old(self)@.ref_table[t] != 0
                &&& added matches Some(a) ==> a != 0 && final(self)@.ref_table[t] == a
                &&& dropped matches Some(d) ==> d != 0 && d == old(self)@.ref_table[t] && final(self)@.pending == old(self)@.pending.push(d)
                &&& dropped is None ==> final(self)@.pending == old(self)@.pending
                &&& old(self)@.can_count(address, refcount) ==> {
                    &&& forall|owed: Set<u64>|
                        old(self)@.counted_but(owed) ==> #[trigger] final(self)@.counted_but(
                            owed.union(crate::model::made_cluster(added, dropped)).remove(
                                address,
                            ).union(crate::model::moved_clusters(added, dropped)),
                        )
                    &&& added matches Some(a) ==> final(self)@.can_count(a, 1)
                }
            }),
    {
        proof {
            self.lemma_wf();
        }
        let ghost start = old(self)@;
        let (table_index, block_index) = self.get_refcount_index(address);
        if table_index >= self.ref_table.len() as u64 {
            return Err(IoError::InvalidInput);
        }
        let table_index: usize = table_index as usize;
        let mut added: Option<u64> = None;
        let mut dropped: Option<u64> = None;
        if !self.refblock_cache.contains(table_index) {
            proof {
                self.lemma_refblock_room(table_index);
            }
            added = self.cache_refblock(table_index)?;
        }
        let ghost cached = self@;
        let ghost made: Set<u64> = match added {
            Some(a) => set![a],
            None => Set::empty(),
        };
        let dirty: bool = match self.refblock_cache.get(table_index) {
            Some(block) => block.dirty(),
            None => true,
        };
        let ghost mut allocated = cached;
        let ghost mut more: Set<u64> = Set::empty();
        if !dirty {
            // Free the previously used block and use a new one. Writing modified counts to new
            // blocks keeps the on-disk state consistent even if it's out of date.
            let new_addr: u64 = self.get_new_cluster()?;
            let ghost before = self@;
            let stored_addr: u64 = self.ref_table[table_index];
            if stored_addr != 0 {
                self.unref_clusters.push(stored_addr);
                dropped = Some(stored_addr);
            }
            self.ref_table[table_index] = new_addr;
            added = Some(new_addr);
            self.refblock_cache.set(table_index, block_index, refcount);
            proof {
                allocated = before;
                more = set![new_addr, stored_addr];
                if start.consistent() && self@.disk.len() <= MAX_FILE_LEN {
                    lemma_refblock_moved(before, table_index, new_addr, self@);
                }
            }
        } else {
            let ghost before = self@;
            self.refblock_cache.set(table_index, block_index, refcount);
            proof {
                if start.consistent() && self@.disk.len() <= MAX_FILE_LEN {
                    lemma_refblock_set(before, table_index, self@);
                }
            }
        }
        let ghost written = self@;
        proof {
            self.lemma_wf();
        }
        proof {
            if start.consistent() && self@.disk.len() <= MAX_FILE_LEN && start.can_count(
                address,
                refcount,
            ) {
                self.lemma_written_counts(
                    start,
                    cached,
                    allocated,
                    address,
                    refcount,
                    made,
                    more,
                    added,
                    dropped,
                );
            }
        }
        proof {
            if start.consistent() {
                crate::steps::lemma_consistent_geometry(start);
                assert(made =~= crate::model::made_cluster(added, dropped));
                assert(more =~= crate::model::moved_clusters(added, dropped));
                assert(written.consistent());
                assert(written.same_data(start)) by {
                    lemma_same_data_trans(written, allocated, start);
                }
                crate::steps::lemma_count_written(allocated, address, refcount, written);
                assert forall|i: int| start.block_changed(i) implies #[trigger] written.block_changed(
                    i,
                ) by {
                    assert(cached.block_changed(i));
                    assert(allocated.block_changed(i));
                }
                crate::steps::lemma_round_up(start.disk.len() as int, start.cluster_size as int);
                crate::steps::lemma_growth_kept(start, written, table_index as int);
                assert(written.grew_by(start, added)) by {
                    assert forall|x: u64|
                        #[trigger] written.is_aligned(x) && start.disk.len() <= x
                            < written.disk.len() implies added == Some(x) by {
                        assert(cached.is_aligned(x) && allocated.is_aligned(x));
                    }
                }
            }
        }
        Ok((added, dropped))
    }

    /// Sets the reference count of the cluster at `address`. A block that
    /// is clean moves to a new cluster before it is changed, and the counts
    /// of the cluster that it takes and of the one that it leaves are set in
    /// turn. The cluster then has the count, unless it is the cluster of a
    /// block of counts or available, which may be retired or handed out in
    /// turn; every other such cluster of the file counts what it did; and the
    /// cluster that the block left counts none. On a reliable file this
    /// succeeds where the table has an entry for the cluster and the file has
    /// room for a cluster for each block that is not in the cache with
    /// changes, and fails only where the table has no entry for the cluster
    /// or the image has run out of room.
    #[verifier::rlimit(100)]
    #[verifier::spinoff_prover]
    fn set_cluster_refcount(&mut self, address: u64, refcount: u16) -> (r: IoResult<()>)
        requires
            old(self).wf(),
        ensures
            final(self).wf(),
            old(self)@.consistent() && old(self).backing().reliable() && old(self)@.refcount_table_index(address)
                < old(self)@.ref_table.len() && old(self)@.has_room(0, old(self).backing().max_len())
                ==> r is Ok,
            old(self)@.consistent() && r is Ok ==> final(self)@.growth_end() <= old(self)@.growth_end()
                && (forall|i: int|
                old(self)@.block_changed(i) ==> #[trigger] final(self)@.block_changed(i)),
            old(self)@.consistent() && r is Ok ==> final(self)@.blocks_stay(old(self)@),
            old(self)@.consistent() && r is Ok && address % old(self)@.cluster_size == 0 && !old(self)@.block_changed(old(self)@.refcount_table_index(address)) ==> Some(
                final(self)@.ref_table[old(self)@.refcount_table_index(address)],
            ) == old(self)@.count_adds(
                address,
                old(self).refblock_leaving(old(self)@.refcount_table_index(address)),
            ) && final(self)@.refcount(
                final(self)@.ref_table[old(self)@.refcount_table_index(address)],
            ) == 1,
            old(self)@.consistent() && old(self).backing().reliable() && r is Err ==> old(self)@.refcount_table_index(address)
                >= old(self)@.ref_table.len() || final(self)@.is_exhausted(old(self).backing().max_len()),
            old(self)@.consistent() ==> final(self)@.disk.len() <= MAX_FILE_LEN,
            final(self).same_file_kind(old(self)),
            final(self).caches().0 == old(self).caches().0,
            final(self)@ == (ImageState {
                disk: final(self)@.disk,
                ref_table: final(self)@.ref_table,
                refblock_cache: final(self)@.refblock_cache,
                pending: final(self)@.pending,
                available: final(self)@.available,
                ..old(self)@
            }),
            final(self)@.ref_table.len() == old(self)@.ref_table.len(),
            final(self)@.disk.len() >= old(self)@.disk.len(),
            final(self)@.alloc_budget() <= old(self)@.alloc_budget(),
            final(self)@.pending_from(old(self)@),
            old(self)@.refcount_table_index(address) >= old(self)@.ref_table.len() ==> r == Err::<
                (),
                IoError,
            >(IoError::InvalidInput) && final(self)@ == old(self)@,
            ({
                let t = old(self)@.refcount_table_index(address);
                t < old(self)@.ref_table.len() && old(self)@.refblock_cache.contains_key(t as usize)
                    && old(self)@.refblock_cache[t as usize].1 ==> r is Ok && final(self)@ == (
                ImageState {
                    refblock_cache: old(self)@.refblock_cache.insert(
                        t as usize,
                        (
                            old(self)@.refblock_cache[t as usize].0.update(
                                old(self)@.refcount_block_index(address),
                                refcount,
                            ),
                            true,
                        ),
                    ),
                    ..old(self)@
                })
            }),
            old(self)@.consistent() && r is Ok
                ==> final(self)@.consistent() && final(self)@.same_data(old(self)@),
            old(self)@.consistent()
                && r is Ok
                && old(self)@.can_count(address, refcount)
                ==> final(self)@.settles(old(self)@, address),
            old(self)@.available.len() == 0 ==> final(self)@.available.len() == 0,
            ({
                let t = old(self)@.refcount_table_index(address);
                let made = old(self)@.with_new_refblock(t);
                t < old(self)@.ref_table.len()
                    && !old(self)@.refblock_cache.contains_key(t as usize)
                    && !old(self).refblock_cache_full()
                        && old(self)@.ref_table[t] == 0
                        && old(self)@.available.len() == 0
                        && made.refcount_table_index(made.ref_table[t]) == t
                    && r is Ok ==> final(self)@ == made.with_count(address, refcount).with_count(
                    made.ref_table[t],
                    1,
                )
            }),
            ({
                let t = old(self)@.refcount_table_index(address);
                let made = old(self)@.with_new_refblock(t);
                t < old(self)@.ref_table.len()
                    && !old(self)@.refblock_cache.contains_key(t as usize)
                    && !old(self).refblock_cache_full()
                        && old(self)@.ref_table[t] == 0
                        && old(self)@.available.len() == 0
                        && made.refcount_table_index(made.ref_table[t]) == t
                    && old(self)@.consistent() && old(self).backing().reliable() && old(self)@.has_next_cluster(old(self).backing().max_len()) ==> r is Ok
            }),
            old(self)@.consistent() && r is Ok && address % old(self)@.cluster_size == 0 ==> final(self)@.counts_set_from(old(self)@, address, refcount) && final(self)@.new_clusters_counted(
                old(self)@,
            ),
            old(self)@.consistent() && r is Ok && address % old(self)@.cluster_size == 0 ==> {
                let t = old(self)@.refcount_table_index(address);
                &&& final(self)@.keeps_settled_counts(old(self)@, address)
                &&& old(self)@.count_is_settled(address) ==> final(self)@.refcount(address)
                    == refcount && final(self)@.count_is_settled(address)
                &&& !(old(self)@.refblock_cache.contains_key(t as usize) && old(self)@.refblock_cache[t as usize].1) && old(self)@.ref_table[t] != 0 ==> final(self)@.pending.len() > old(self)@.pending.len() && final(self)@.pending[old(self)@.pending.len() as int] == old(self)@.ref_table[t] && final(self)@.refcount(
                    old(self)@.ref_table[t],
                ) == 0
            },
            ({
                let leaving = old(self).refblock_leaving(old(self)@.refcount_table_index(address));
                let written = old(self)@.with_count_written(address, refcount, leaving);
                let added = old(self)@.count_adds(address, leaving);
                let dropped = old(self)@.count_drops(address);
                (added matches Some(a) ==> written.counts_in_place(a)) && (dropped matches Some(d)
                    ==> written.counts_in_place(d)) && r is Ok ==> final(self)@
                    == written.with_counts_followed(added, dropped)
            }),
        decreases old(self)@.alloc_budget(),
    {
        proof {
            self.lemma_wf();
        }
        let ghost start = old(self)@;
        let ghost table_index: int = start.refcount_table_index(address);
        let ghost max_len = old(self).backing().max_len();
        let ghost roomy: bool = start.consistent() && 0 <= table_index < start.ref_table.len()
            && start.has_room(0, max_len);
        proof {
            if roomy {
                crate::steps::lemma_room_for_one(start, table_index, max_len);
            }
        }
        let (added, dropped) = self.write_refcount(address, refcount)?;
        let ghost written = self@;
        proof {
            if roomy {
                crate::steps::lemma_room_for_one(written, table_index, max_len);
                if added is Some {
                    assert(written.cluster_of(ClusterUse::RefBlock(table_index)) == added.unwrap());
                    assert(written.is_cluster(added.unwrap()));
                    crate::steps::lemma_has_slot(written, added.unwrap());
                }
            }
        }
        let ghost made: Set<u64> = crate::model::made_cluster(added, dropped);
        let ghost more: Set<u64> = crate::model::moved_clusters(added, dropped);
        proof {
            self.lemma_wf();
        }
        if let Some(new_addr) = added {
            proof {
                self.lemma_short(new_addr);
                if self@.consistent() {
                    assert(self@.is_cluster(new_addr) ==> new_addr + self@.cluster_size <= self@.disk.len());
                }
            }
            self.set_cluster_refcount(new_addr, 1)?;
        }
        let ghost counted_new = self@;
        proof {
            self.lemma_wf();
            if start.consistent() && self@.disk.len() <= MAX_FILE_LEN {
                lemma_same_data_trans(self@, written, start);
                if dropped is Some {
                    assert(self@.pending[written.pending.len() - 1] == dropped.unwrap());
                    crate::steps::lemma_can_count_pending(self@, written.pending.len() - 1);
                }
            }
        }
        proof {
            if roomy && dropped is Some {
                let d = dropped.unwrap();
                crate::steps::lemma_room_for_one(self@, table_index, max_len);
                assert(self@.cluster_of(ClusterUse::Pending(written.pending.len() - 1)) == d);
                assert(self@.is_cluster(d));
                crate::steps::lemma_has_slot(self@, d);
            }
        }
        if let Some(old_addr) = dropped {
            proof {
                self.lemma_short(old_addr);
                if self@.consistent() {
                    assert(self@.is_cluster(old_addr) ==> old_addr + self@.cluster_size <= self@.disk.len());
                }
            }
            self.set_cluster_refcount(old_addr, 0)?;
        }
        proof {
            if start.consistent() && self@.disk.len() <= MAX_FILE_LEN {
                lemma_same_data_trans(self@, counted_new, start);
                if start.can_count(address, refcount) {
                    assert forall|owed: Set<u64>| start.counted_but(owed) implies #[trigger] self@.counted_but(
                        owed.remove(address),
                    ) by {
                        let d1 = owed.union(made).remove(address).union(more);
                        assert(written.counted_but(d1));
                        let d2 = match added {
                            Some(a) => d1.remove(a),
                            None => d1,
                        };
                        assert(counted_new.counted_but(d2));
                        let d3 = match dropped {
                            Some(o) => d2.remove(o),
                            None => d2,
                        };
                        assert(self@.counted_but(d3));
                        assert(d3.subset_of(owed.remove(address)));
                        crate::steps::lemma_counted_more(self@, d3, owed.remove(address));
                    }
                }
            }
            if start.consistent() {
                crate::steps::lemma_blocks_stay(
                    start,
                    written,
                    counted_new,
                    self@,
                    table_index,
                    added,
                    dropped,
                );
            }
            if start.consistent() && address % start.cluster_size == 0 {
                if added is Some {
                    let a = added.unwrap();
                    assert(written.cluster_of(ClusterUse::RefBlock(table_index)) == a);
                    assert(written.is_cluster(a));
                }
                if dropped is Some {
                    let d = dropped.unwrap();
                    let last = ClusterUse::Pending(written.pending.len() - 1);
                    assert(counted_new.cluster_of(last) == d);
                    assert(counted_new.is_cluster(d));
                }
                crate::steps::lemma_counts_set(
                    start,
                    written,
                    counted_new,
                    self@,
                    address,
                    refcount,
                    added,
                    dropped,
                );
                crate::steps::lemma_counts_settled(
                    start,
                    written,
                    counted_new,
                    self@,
                    address,
                    refcount,
                    added,
                    dropped,
                    table_index,
                );
            }
        }
        Ok(())
    }

    /// The cache of blocks of counts has room for a block that is not in it.
    proof fn lemma_refblock_room(&self, t: usize)
        requires
            self.wf(),
            t < self@.ref_table.len(),
            !self@.refblock_cache.contains_key(t),
        ensures
            !self.refblock_cache_full(),
    {
        self.lemma_wf();
        self.refblock_cache.lemma_size();
        let n = self@.ref_table.len();
        let all = Set::new(|k: usize| k < n);
        crate::cache::lemma_indices_below(n);
        let rest = all.remove(t);
        assert(self.refblock_cache@.dom().subset_of(rest));
        vstd::set_lib::lemma_len_subset(self.refblock_cache@.dom(), rest);
    }

    /// A cluster of the file without an entry in the reference-count table
    /// shows that the table is short.
    proof fn lemma_short(&self, x: u64)
        requires
            self.wf(),
        ensures
            self@.consistent() && x + self@.cluster_size <= self@.disk.len()
                && self@.refcount_table_index(x) >= self@.ref_table.len()
                ==> self@.table_is_short(),
    {
        if self@.consistent() && x + self@.cluster_size <= self@.disk.len()
            && self@.refcount_table_index(x) >= self@.ref_table.len() {
            crate::steps::lemma_table_short(self@, x);
        }
    }

    /// After the count of the cluster at `address` was written to its block:
    /// the counts are right wherever they were at the start, but for the
    /// cluster of a block that was made (`made`) and the clusters that the
    /// block took and left if it moved (`more`); and the count of the cluster
    /// that the block has taken can be set to one.
    proof fn lemma_written_counts(
        &self,
        start: ImageState,
        cached: ImageState,
        allocated: ImageState,
        address: u64,
        count: u16,
        made: Set<u64>,
        more: Set<u64>,
        added: Option<u64>,
        dropped: Option<u64>,
    )
        requires
            start.consistent(),
            cached.consistent(),
            allocated.consistent(),
            self@.consistent(),
            start.can_count(address, count),
            cached.can_count(address, count),
            cached.keeps_counts_but(start, made),
            allocated.can_count(address, count),
            allocated.keeps_counts(cached),
            allocated.refcount_table_index(address) < allocated.ref_table.len(),
            allocated.refblock_cache.contains_key(allocated.refcount_table_index(address) as usize),
            self@.cluster_size == allocated.cluster_size,
            self@.ref_table.len() == allocated.ref_table.len(),
            self@.refblock_cache == allocated.refblock_cache.insert(
                allocated.refcount_table_index(address) as usize,
                (
                    allocated.refblock_cache[allocated.refcount_table_index(address) as usize].0.update(
                        allocated.refcount_block_index(address),
                        count,
                    ),
                    true,
                ),
            ),
            forall|t: int|
                0 <= t < allocated.ref_table.len() && !allocated.refblock_cache.contains_key(
                    t as usize,
                ) ==> #[trigger] self@.refblock(t) == allocated.refblock(t),
            self@.uses_from(allocated, more),
            match added {
                Some(a) => a != 0 && self@.ref_table[allocated.refcount_table_index(address)] == a,
                None => true,
            },
        ensures
            forall|owed: Set<u64>|
                start.counted_but(owed) ==> #[trigger] self@.counted_but(
                    owed.union(made).remove(address).union(more),
                ),
            added matches Some(a) ==> self@.can_count(a, 1),
    {
        let s = self@;
        crate::steps::lemma_consistent_geometry(allocated);
        crate::steps::lemma_count_written(allocated, address, count, s);
        assert forall|owed: Set<u64>| start.counted_but(owed) implies #[trigger] s.counted_but(
            owed.union(made).remove(address).union(more),
        ) by {
            assert(cached.counted_but(owed.union(made)));
            assert(allocated.counted_but(owed.union(made)));
            crate::steps::lemma_count_settled(
                allocated,
                address,
                count,
                s,
                more,
                owed.union(made),
            );
        }
        if added is Some {
            crate::steps::lemma_index_not_negative(allocated, address);
            crate::steps::lemma_can_count_refblock(
                s,
                allocated.refcount_table_index(address) as usize,
            );
        }
    }

    /// Gets the reference count of the cluster at `address`. The block that
    /// holds it is read into the cache if it is not there.
    fn get_cluster_refcount(&mut self, address: u64) -> (r: IoResult<u16>)
        requires
            old(self).wf(),
        ensures
            final(self).wf(),
            old(self)@.consistent() ==> final(self)@.disk.len() == old(self)@.disk.len(),
            final(self).same_file_kind(old(self)),
            final(self).caches().0 == old(self).caches().0,
            final(self)@ == (ImageState {
                disk: final(self)@.disk,
                refblock_cache: final(self)@.refblock_cache,
                ..old(self)@
            }),
            final(self)@.disk.len() >= old(self)@.disk.len(),
            old(self)@.refcount_table_index(address) >= old(self)@.ref_table.len() ==> r == Err::<
                u16,
                IoError,
            >(IoError::InvalidInput) && final(self)@ == old(self)@,
            r matches Ok(count) ==> count == final(self)@.refcount(address),
            ({
                let t = old(self)@.refcount_table_index(address);
                t < old(self)@.ref_table.len()
                    && (old(self)@.refblock_cache.contains_key(t as usize)
                    || old(self)@.ref_table[t] == 0) ==> r is Ok && final(self)@ == old(self)@
            }),
            old(self)@.consistent()
                && r is Ok
                ==> final(self)@.consistent()
                && final(self)@.same_data(
                old(self)@,
            ) && final(self)@.same_counts(old(self)@),
            old(self)@.consistent()
                && old(self).backing().reliable()
                && old(self)@.refcount_table_index(address) < old(self)@.ref_table.len()
                ==> r is Ok,
    {
        proof {
            self.lemma_wf();
        }
        let (table_index, block_index) = self.get_refcount_index(address);
        if table_index >= self.ref_table.len() as u64 {
            return Err(IoError::InvalidInput);
        }
        let table_index: usize = table_index as usize;
        if !self.refblock_cache.contains(table_index) {
            let stored_addr: u64 = self.ref_table[table_index];
            if stored_addr == 0 {
                return Ok(0);
            }
            self.check_refblock_evict()?;
            proof {
                if old(self)@.consistent() {
                    assert(self@.cluster_of(ClusterUse::RefBlock(table_index as int))
                        == stored_addr);
                    assert(self@.is_cluster(stored_addr));
                }
            }
            let block: Vec<u16> = self.raw_file.read_refcount_block(stored_addr)?;
            let ghost before = self@;
            self.refblock_cache.insert(table_index, VecCache::from_vec(block));
            proof {
                if old(self)@.consistent() {
                    lemma_refblock_loaded(before, table_index, self@);
                }
            }
        }
        proof {
            if old(self)@.consistent() {
                assert(self@.refcount(address) == old(self)@.refcount(address));
            }
        }
        match self.refblock_cache.get(table_index) {
            Some(block) => Ok(block.get(block_index)),
            None => Ok(0),
        }
    }

    /// The offset in the file of the byte at `address`, after giving its
    /// cluster one in the file if it had none. An L2 table that is clean
    /// moves to a new cluster before it is changed. A cluster that is new
    /// counts one reference, and the others that hold contents what they
    /// did. On a reliable file this succeeds where the file has room for two
    /// clusters and for the clusters that the blocks of counts may take.
    #[verifier::rlimit(60)]
    #[verifier::spinoff_prover]
    fn file_offset_write(&mut self, address: u64) -> (r: IoResult<u64>)
        requires
            old(self).wf(),
        ensures
            final(self).wf(),
            old(self)@.consistent() && old(self).backing().reliable() && address < old(self)@.virtual_size()
                && old(self)@.has_room(2 * old(self)@.cluster_size, old(self).backing().max_len())
                ==> r is Ok,
            old(self)@.consistent() && r is Ok ==> final(self)@.growth_end() <= old(self)@.growth_end() + 2
                * old(self)@.cluster_size && (forall|i: int|
                old(self)@.block_changed(i) ==> #[trigger] final(self)@.block_changed(i)),
            old(self)@.consistent() && old(self).backing().reliable() && r is Err ==> address >= old(self)@.virtual_size()
                || final(self)@.is_exhausted(old(self).backing().max_len()),
            final(self)@.pending_from(old(self)@),
            old(self)@.consistent() ==> final(self)@.disk.len() <= MAX_FILE_LEN,
            final(self).same_file_kind(old(self)),
            final(self)@.header == old(self)@.header,
            final(self)@.cluster_size == old(self)@.cluster_size,
            final(self)@.position == old(self)@.position,
            final(self)@.l1.len() == old(self)@.l1.len(),
            final(self)@.ref_table.len() == old(self)@.ref_table.len(),
            final(self)@.disk.len() >= old(self)@.disk.len(),
            old(self)@.available.len() == 0 ==> final(self)@.available.len() == 0,
            address >= old(self)@.virtual_size()
                || old(self)@.l1_index(address) >= old(self)@.l1.len()
                ==> r == Err::<u64, IoError>(IoError::InvalidInput)
                && final(self)@ == old(self)@,
            r matches Ok(x) ==> final(self)@.translate(address) == Some(x),
            old(self)@.l1_index(address) < old(self)@.l1.len() && old(self)@.l2_cache.contains_key(
                old(self)@.l1_index(address) as usize,
            ) && old(self)@.translate(address) is Some && address < old(self)@.virtual_size() ==> r
                == Ok::<u64, IoError>(old(self)@.translate(address).unwrap()) && final(self)@
                == old(self)@,
            old(self)@.consistent() && r is Ok
                ==> final(self)@.consistent() && final(self)@.same_data_but(
                old(self)@,
                (address / old(self)@.cluster_size) as int,
            ) && final(self)@.keeps_counts(old(self)@) && final(self)@.counts_data_as(old(self)@)
                && final(self)@.counts_grown_from(old(self)@) && final(self)@.new_clusters_counted(
                old(self)@,
            ),
            old(self)@.consistent()
                && old(self).backing().reliable()
                && address < old(self)@.virtual_size()
                && old(self)@.host_cluster(address) != 0
                ==> r is Ok
                && final(self)@.disk.len() == old(self)@.disk.len()
                && final(self)@.available == old(self)@.available,
            old(self)@.consistent() && old(self).backing().reliable() && address < old(self)@.virtual_size() && old(self)@.has_room_in_place(
                2 * old(self)@.cluster_size,
                old(self).backing().max_len(),
            ) ==> r is Ok,
            old(self)@.consistent() && old(self)@.counts_in_place_to(
                round_up(old(self)@.disk.len() as int, old(self)@.cluster_size as int) + 2 * old(self)@.cluster_size,
            ) && round_up(old(self)@.disk.len() as int, old(self)@.cluster_size as int) + 3 * old(self)@.cluster_size <= MAX_FILE_LEN && r is Ok ==> {
                &&& final(self)@.ref_table == old(self)@.ref_table
                &&& round_up(final(self)@.disk.len() as int, old(self)@.cluster_size as int)
                    <= round_up(old(self)@.disk.len() as int, old(self)@.cluster_size as int) + 2
                    * old(self)@.cluster_size
                &&& forall|x: u64|
                    old(self)@.counts_in_place(x) ==> #[trigger] final(self)@.counts_in_place(x)
            },
            old(self)@.consistent() && old(self)@.counts_in_place_to(
                round_up(old(self)@.disk.len() as int, old(self)@.cluster_size as int) + 2 * old(self)@.cluster_size,
            ) && round_up(old(self)@.disk.len() as int, old(self)@.cluster_size as int) + 3 * old(self)@.cluster_size <= MAX_FILE_LEN && old(self)@.l2_is_settled(
                old(self)@.l1_index(address),
            ) && r is Ok ==> final(self)@.pending == old(self)@.pending && final(self)@.l2_is_settled(old(self)@.l1_index(address)) && final(self)@.l1[old(self)@.l1_index(address)] != 0,
    {
        proof {
            self.lemma_wf();
            if self@.consistent() && address < self@.virtual_size() {
                lemma_l1_covers(self@, address);
                crate::steps::lemma_consistent_geometry(self@);
            }
            if self@.consistent() {
                crate::steps::lemma_consistent_geometry(self@);
                crate::steps::lemma_round_up(self@.disk.len() as int, self@.cluster_size as int);
            }
        }
        let ghost end: int = round_up(old(self)@.disk.len() as int, old(self)@.cluster_size as int)
            + 2 * old(self)@.cluster_size;
        if address >= self.virtual_size() {
            return Err(IoError::InvalidInput);
        }
        let l1_index: u64 = self.l1_table_index(address);
        if l1_index >= self.l1_table.len() as u64 {
            return Err(IoError::InvalidInput);
        }
        let l1_index: usize = l1_index as usize;
        let l2_index: usize = self.l2_table_index(address) as usize;
        let ghost vc: int = (address / old(self)@.cluster_size) as int;
        let ghost start = old(self)@;
        proof {
            if start.consistent() && start.counts_in_place_to(end) {
                let n = start.available.len() as int;
                if n > 0 {
                    assert(start.cluster_of(ClusterUse::Available(n - 1)) == start.available[n - 1]);
                    assert(start.is_cluster(start.available[n - 1]));
                }
                assert(start.counts_in_place(start.next_cluster() as u64));
            }
        }

        if !self.l2_cache.contains(l1_index) {
            self.cache_l2_table(l1_index)?;
        }
        let ghost cached = self@;
        let cluster_addr_from_table: u64 = match self.l2_cache.get(l1_index) {
            Some(table) => table.get(l2_index),
            None => 0,
        };
        proof {
            let n = cached.l2_len() as int;
            assert(vc == l1_index * n + l2_index) by {
                vstd::arithmetic::div_mod::lemma_fundamental_div_mod(vc, n);
                assert(n * (l1_index as int) == l1_index * n) by (nonlinear_arith);
            }
            assert(vc / n == l1_index as int && vc % n == l2_index as int);
        }
        let cluster_addr: u64 = if cluster_addr_from_table == 0 {
            // Need to allocate a data cluster
            proof {
                if start.consistent() && old(self).backing().reliable() && start.host_cluster(
                    address,
                ) != 0 {
                    assert(cached.consistent() && cached.same_data(start));
                    assert(cached.entry(vc) == cluster_addr_from_table);
                    assert(start.entry(vc) == cached.entry(vc));
                    assert(false);
                }
            }
            proof {
                if start.consistent() && start.counts_in_place_to(end) && end + start.cluster_size
                    <= MAX_FILE_LEN {
                    assert forall|x: u64| x < end implies #[trigger] cached.counts_in_place(x) by {
                        assert(start.counts_in_place(x));
                    }
                    crate::steps::lemma_append_in_place(
                        cached,
                        l1_index,
                        l2_index as int,
                        end,
                        old(self).backing().max_len(),
                    );
                }
            }
            let data_addr: u64 = self.append_data_cluster(l1_index, l2_index)?;
            proof {
                if start.consistent() && self@.disk.len() <= MAX_FILE_LEN {
                    assert(cached.counts_data_as(start));
                    assert forall|k: int| cached.entry(k) != 0 implies #[trigger] self@.entry(k)
                        == cached.entry(k) by {
                        if k == vc {
                            assert(self@.same_data(cached));
                        }
                    }
                    crate::steps::lemma_counts_data_trans(self@, cached, start);
                    assert(cached.counts_grown_from(start) && cached.new_clusters_counted(start));
                    crate::steps::lemma_counts_grown_trans(self@, cached, start);
                    self.lemma_but_after(cached, start, vc);
                }
            }
            data_addr
        } else {
            proof {
                if start.consistent() && self@.disk.len() <= MAX_FILE_LEN {
                    assert(cached.entry(vc) == cluster_addr_from_table);
                    assert(start.entry(vc) == cluster_addr_from_table);
                }
            }
            cluster_addr_from_table
        };
        Ok(cluster_addr + self.cluster_offset(address))
    }

    // Brings the L2 table of L1 entry `l1_index` into the cache: the table in the file, or a new
    // table of zeros with a new cluster if the L1 entry has none.
    #[verifier::rlimit(40)]
    #[verifier::spinoff_prover]
    fn cache_l2_table(&mut self, l1_index: usize) -> (r: IoResult<()>)
        requires
            old(self).wf(),
            l1_index < old(self)@.l1.len(),
            !old(self)@.l2_cache.contains_key(l1_index),
        ensures
            final(self).wf(),
            old(self)@.consistent() && old(self).backing().reliable() && old(self)@.has_room(
                old(self)@.cluster_size as int,
                old(self).backing().max_len(),
            ) ==> r is Ok,
            old(self)@.consistent() && r is Ok ==> final(self)@.growth_end() <= old(self)@.growth_end() + (
            if old(self)@.l1[l1_index as int] == 0 {
                old(self)@.cluster_size as int
            } else {
                0
            }) && (old(self)@.l1[l1_index as int] == 0 ==> final(self)@.l2_cache[l1_index].1) && (forall|i: int|
                old(self)@.block_changed(i) ==> #[trigger] final(self)@.block_changed(i)),
            old(self)@.consistent() && old(self).backing().reliable() && r is Err ==> final(self)@.is_exhausted(old(self).backing().max_len()),
            final(self)@.pending_from(old(self)@),
            old(self)@.consistent() ==> final(self)@.disk.len() <= MAX_FILE_LEN,
            final(self).same_file_kind(old(self)),
            final(self)@.header == old(self)@.header,
            final(self)@.cluster_size == old(self)@.cluster_size,
            final(self)@.position == old(self)@.position,
            final(self)@.l1.len() == old(self)@.l1.len(),
            final(self)@.ref_table.len() == old(self)@.ref_table.len(),
            final(self)@.disk.len() >= old(self)@.disk.len(),
            old(self)@.available.len() == 0 ==> final(self)@.available.len() == 0,
            r is Ok ==> final(self)@.l2_cache.contains_key(l1_index),
            old(self)@.consistent() && r is Ok
                ==> final(self)@.consistent()
                    && final(self)@.same_data(old(self)@)
                    && final(self)@.keeps_counts(old(self)@)
                    && final(self)@.counts_data_as(old(self)@)
                    && final(self)@.counts_grown_from(old(self)@)
                    && final(self)@.new_clusters_counted(old(self)@),
            old(self)@.consistent()
                && old(self).backing().reliable()
                && old(self)@.l1[l1_index as int] != 0
                ==> r is Ok
                && final(self)@.disk.len() == old(self)@.disk.len()
                && final(self)@.available == old(self)@.available,
            old(self)@.l1[l1_index as int] != 0 ==> final(self)@.refblock_cache == old(self)@.refblock_cache && final(self)@.ref_table == old(self)@.ref_table,
            old(self)@.consistent() && old(self)@.l1[l1_index as int] != 0 ==> final(self)@.disk.len()
                == old(self)@.disk.len(),
            old(self)@.consistent() && old(self).backing().reliable() && old(self)@.l1[l1_index as int]
                == 0 && old(self)@.has_next_cluster(old(self).backing().max_len()) && old(self)@.counts_in_place(old(self)@.next_cluster() as u64) ==> r is Ok,
            old(self)@.l1[l1_index as int] != 0 ==> final(self).refblock_cache_full() == old(self).refblock_cache_full(),
            old(self)@.consistent() && old(self)@.l1[l1_index as int] == 0 && old(self)@.counts_in_place(old(self)@.next_cluster() as u64) && r is Ok ==> {
                &&& final(self)@.l2_cache[l1_index].1
                &&& final(self)@.pending == old(self)@.pending
                &&& final(self)@.ref_table == old(self)@.ref_table
                &&& round_up(final(self)@.disk.len() as int, old(self)@.cluster_size as int)
                    <= round_up(old(self)@.disk.len() as int, old(self)@.cluster_size as int) + old(self)@.cluster_size
                &&& forall|x: u64|
                    old(self)@.counts_in_place(x) ==> #[trigger] final(self)@.counts_in_place(x)
            },
    {
        proof {
            self.lemma_wf();
        }
        let ghost start = old(self)@;
        let ghost max_len = old(self).backing().max_len();
        let ghost roomy: bool = start.consistent() && start.has_room(
            start.cluster_size as int,
            max_len,
        );
        proof {
            if roomy {
                crate::steps::lemma_room_next(start, start.cluster_size as int, max_len);
            }
        }
        let l2_addr_disk: u64 = self.l1_table[l1_index];
        self.check_l2_evict()?;
        let ghost evicted = self@;
        if l2_addr_disk == 0 {
            // Allocate a new cluster to store the L2 table and update the L1 table to point to
            // the new table.
            let new_addr: u64 = self.get_new_cluster()?;
            let ghost before = self@;
            self.l1_table[l1_index] = new_addr;
            self.l2_cache.insert(l1_index, VecCache::<u64>::new(self.l2_entries as usize));
            let ghost created = self@;
            proof {
                if start.consistent() && self@.disk.len() <= MAX_FILE_LEN {
                    lemma_l2_created(before, l1_index, new_addr, self@);
                    crate::steps::lemma_can_count_l2(self@, l1_index as int);
                }
            }
            // The cluster refcount starts at one indicating it is used but doesn't need COW.
            proof {
                if start.consistent() {
                    assert(created.is_cluster(new_addr)) by {
                        assert(created.cluster_of(ClusterUse::L2Table(l1_index as int))
                            == new_addr);
                    }
                    crate::steps::lemma_growth_alloc(evicted, before, start.cluster_size as int);
                    crate::steps::lemma_growth_alloc(start, evicted, 0);
                    crate::steps::lemma_growth_alloc(before, created, 0);
                }
                if roomy {
                    crate::steps::lemma_room_step(
                        start,
                        created,
                        start.cluster_size as int,
                        start.cluster_size as int,
                        max_len,
                    );
                    crate::steps::lemma_room_next(created, 0, max_len);
                    crate::steps::lemma_has_slot(created, new_addr);
                }
            }
            proof {
                self.lemma_short(new_addr);
                if self@.consistent() {
                    assert(self@.is_cluster(new_addr) ==> new_addr + self@.cluster_size <= self@.disk.len());
                }
            }
            self.set_cluster_refcount(new_addr, 1)?;
            proof {
                if start.consistent() {
                    assert(created.cluster_of(ClusterUse::L2Table(l1_index as int)) == new_addr);
                    assert(created.is_cluster(new_addr));
                    assert(created.grew_by(start, Some(new_addr))) by {
                        assert forall|x: u64|
                            #[trigger] created.is_aligned(x) && start.disk.len() <= x
                                < created.disk.len() implies x == new_addr by {
                            assert(before.is_aligned(x));
                        }
                    }
                    assert forall|x: u64| #[trigger] created.refcount(x) == start.refcount(x) by {
                        assert(evicted.refcount(x) == start.refcount(x));
                        assert(before.refcount(x) == evicted.refcount(x));
                    }
                    crate::steps::lemma_made_counted(start, created, self@, new_addr);
                    crate::steps::lemma_uses_are_settled(created, self@, new_addr);
                    crate::steps::lemma_data_counts_step(created, self@, new_addr);
                    assert forall|vc: int| #[trigger] self@.entry(vc) != 0 implies self@.refcount(
                        self@.entry(vc),
                    ) == start.refcount(start.entry(vc)) && start.entry(vc) != 0 by {
                        assert(created.entry(vc) == start.entry(vc));
                        assert(self@.entry(vc) == created.entry(vc));
                        assert(created.cluster_of(ClusterUse::Data(vc)) == created.entry(vc));
                        assert(created.refcount(created.entry(vc)) == start.refcount(start.entry(vc)));
                    }
                }
                if start.consistent() && self@.disk.len() <= MAX_FILE_LEN {
                    assert forall|owed: Set<u64>| start.counted_but(owed) implies #[trigger] self@.counted_but(
                        owed,
                    ) by {
                        assert(evicted.counted_but(owed));
                        assert(before.counted_but(owed));
                        assert(created.counted_but(owed.union(set![new_addr])));
                        assert(self@.counted_but(owed.union(set![new_addr]).remove(new_addr)));
                        crate::steps::lemma_counted_more(
                            self@,
                            owed.union(set![new_addr]).remove(new_addr),
                            owed,
                        );
                    }
                }
            }
        } else {
            proof {
                if start.consistent() {
                    assert(self@.cluster_of(ClusterUse::L2Table(l1_index as int)) == l2_addr_disk);
                    assert(self@.is_cluster(l2_addr_disk));
                }
            }
            let table: Vec<u64> = self.raw_file.read_pointer_cluster(
                l2_addr_disk,
                Some(L2_TABLE_OFFSET_MASK),
            )?;
            proof {
                lemma_masked_entries(
                    self@.disk,
                    l2_addr_disk as int,
                    self@.l2_len(),
                    self@.cluster_size,
                );
            }
            let ghost before = self@;
            self.l2_cache.insert(l1_index, VecCache::from_vec(table));
            proof {
                if start.consistent() {
                    lemma_l2_loaded(before, l1_index, self@);
                    crate::steps::lemma_growth_alloc(start, self@, 0);
                }
            }
        }
        Ok(())
    }

    // Hands out a cluster for entry `l2_index` of the cached L2 table of L1 entry `l1_index`,
    // which is zero, and sets the entry. A table that is clean first moves to another new
    // cluster. No count is set yet. Returns the cluster of the data, the cluster that the table
    // took and the one that it left.
    fn take_data_cluster(&mut self, l1_index: usize, l2_index: usize) -> (r: IoResult<
        (u64, Option<u64>, Option<u64>),
    >)
        requires
            old(self).wf(),
            old(self)@.l2_cache.contains_key(l1_index),
            l2_index < old(self)@.l2_len(),
            old(self)@.l2_cache[l1_index].0[l2_index as int] == 0,
        ensures
            final(self).wf(),
            final(self)@.refblock_cache == old(self)@.refblock_cache,
            final(self)@.ref_table == old(self)@.ref_table,
            old(self)@.consistent() && old(self).backing().reliable() && r is Err ==> final(self)@.is_exhausted(old(self).backing().max_len()),
            final(self)@.pending_from(old(self)@),
            final(self).same_file_kind(old(self)),
            final(self).caches().1 == old(self).caches().1,
            final(self)@ == (ImageState {
                disk: final(self)@.disk,
                available: final(self)@.available,
                l1: final(self)@.l1,
                pending: final(self)@.pending,
                l2_cache: final(self)@.l2_cache,
                ..old(self)@
            }),
            final(self)@.l1.len() == old(self)@.l1.len(),
            final(self)@.disk.len() >= old(self)@.disk.len(),
            old(self)@.consistent() ==> final(self)@.disk.len() <= MAX_FILE_LEN,
            old(self)@.available.len() == 0 ==> final(self)@.available.len() == 0,
            r matches Ok((data, added, dropped)) ==> {
                &&& data != 0
                &&& data == old(self)@.next_cluster()
                &&& data + old(self)@.cluster_size <= u64::MAX
                &&& added == old(self)@.l2_moves_to(l1_index)
                &&& dropped == old(self)@.l2_leaves(l1_index)
                &&& final(self)@ == old(self)@.with_cluster_mapped(l1_index, l2_index as int)
                &&& final(self)@.l2_cache.contains_key(l1_index)
                &&& final(self)@.l2_cache[l1_index].0[l2_index as int] == data
            },
            old(self)@.consistent() ==> (r matches Ok((data, added, dropped)) ==> {
                &&& final(self)@.consistent()
                &&& final(self)@.same_data_but(
                    old(self)@,
                    l1_index * old(self)@.l2_len() + l2_index,
                )
                &&& old(self)@.entry(l1_index * old(self)@.l2_len() + l2_index) == 0
                &&& final(self)@.entry(l1_index * old(self)@.l2_len() + l2_index) == data
                &&& final(self)@.grew_by_two(old(self)@, data, added)
                &&& forall|x: u64| #[trigger] final(self)@.refcount(x) == old(self)@.refcount(x)
                &&& final(self)@.keeps_counts_but(
                    old(self)@,
                    match added {
                        Some(to) => set![data, to, old(self)@.l1[l1_index as int]],
                        None => set![data],
                    },
                )
                &&& dropped matches Some(d) ==> final(self)@.pending == old(self)@.pending.push(d)
                &&& dropped is None ==> final(self)@.pending == old(self)@.pending
                &&& added matches Some(to) ==> final(self)@.l1[l1_index as int] == to
                &&& round_up(final(self)@.disk.len() as int, old(self)@.cluster_size as int)
                    <= round_up(old(self)@.disk.len() as int, old(self)@.cluster_size as int) + if old(self)@.l2_cache[l1_index].1 {
                    old(self)@.cluster_size as int
                } else {
                    2 * old(self)@.cluster_size
                }
            }),
            old(self)@.consistent() && old(self).backing().reliable() && old(self)@.has_room_to_append(l1_index, old(self).backing().max_len()) ==> r is Ok,
    {
        proof {
            self.lemma_wf();
        }
        let ghost start = old(self)@;
        let ghost vc: int = l1_index * start.l2_len() + l2_index;
        let dirty: bool = match self.l2_cache.get(l1_index) {
            Some(table) => table.dirty(),
            None => true,
        };
        let data_addr: u64 = self.get_new_cluster()?;
        let ghost with_data = self@;
        let ghost mut grown = with_data;
        let mut added: Option<u64> = None;
        let mut dropped: Option<u64> = None;
        if !dirty {
            // Free the previously used cluster if one exists. Modified tables are always
            // written to new clusters so the L1 table can be committed to disk after they
            // are and L1 never points at an invalid table.
            let new_addr: u64 = self.get_new_cluster()?;
            proof {
                grown = self@;
            }
            let addr: u64 = self.l1_table[l1_index];
            if addr != 0 {
                self.unref_clusters.push(addr);
                dropped = Some(addr);
            }
            // Update the L1 table to point to the new table.
            self.l1_table[l1_index] = new_addr;
            added = Some(new_addr);
        }
        let ghost allocated = ImageState { l1: with_data.l1, pending: with_data.pending, ..self@ };
        self.l2_cache.set(l1_index, l2_index, data_addr);
        assert(self@.wf()) by {
            assert forall|k: usize, i: int|
                self@.l2_cache.contains_key(k)
                    && 0 <= i < self@.l2_len() implies #[trigger] self@.l2_cache[k].0[i]
                + self@.cluster_size <= u64::MAX by {}
        }
        proof {
            if start.consistent() {
                assert(allocated.consistent() && allocated.same_data(start));
                assert(allocated.is_free(data_addr));
                lemma_mapped(allocated, l1_index, l2_index as int, data_addr, added, self@);
                self.lemma_mapped_but(start, with_data, allocated, vc, data_addr);
                assert forall|x: u64| #[trigger] self@.refcount(x) == start.refcount(x) by {
                    assert(with_data.refcount(x) == start.refcount(x));
                    assert(allocated.refcount(x) == with_data.refcount(x));
                }
                let owing: Set<u64> = match added {
                    Some(to) => set![data_addr, to, allocated.l1[l1_index as int]],
                    None => set![data_addr],
                };
                assert forall|owed: Set<u64>| start.counted_but(owed) implies #[trigger] self@.counted_but(
                    owed.union(owing),
                ) by {
                    assert(with_data.counted_but(owed));
                    assert(allocated.counted_but(owed));
                }
                assert(self@.grew_by_two(start, data_addr, added)) by {
                    assert forall|x: u64|
                        #[trigger] self@.is_aligned(x) && start.disk.len() <= x
                            < self@.disk.len() implies x == data_addr || added == Some(x) by {
                        assert(with_data.is_aligned(x));
                        assert(grown.is_aligned(x));
                    }
                }
                crate::steps::lemma_round_up(with_data.disk.len() as int, start.cluster_size as int);
            }
            assert(self@ == start.with_cluster_mapped(l1_index, l2_index as int));
        }
        Ok((data_addr, added, dropped))
    }

    // Allocate a new data cluster for entry `l2_index` of the cached L2 table of L1 entry
    // `l1_index`. Returns the offset of the cluster in the file on success. It succeeds on a
    // reliable file wherever the file has room for the clusters that are handed out and for
    // those that the blocks of counts may take.
    #[verifier::rlimit(100)]
    #[verifier::spinoff_prover]
    fn append_data_cluster(&mut self, l1_index: usize, l2_index: usize) -> (r: IoResult<u64>)
        requires
            old(self).wf(),
            old(self)@.l2_cache.contains_key(l1_index),
            l2_index < old(self)@.l2_len(),
            old(self)@.l2_cache[l1_index].0[l2_index as int] == 0,
        ensures
            final(self).wf(),
            old(self)@.consistent() && old(self).backing().reliable() && old(self)@.has_room(
                if old(self)@.l2_cache[l1_index].1 {
                    old(self)@.cluster_size as int
                } else {
                    2 * old(self)@.cluster_size
                },
                old(self).backing().max_len(),
            ) ==> r is Ok,
            old(self)@.consistent() && r is Ok ==> final(self)@.growth_end() <= old(self)@.growth_end() + (
            if old(self)@.l2_cache[l1_index].1 {
                old(self)@.cluster_size as int
            } else {
                2 * old(self)@.cluster_size
            }) && (forall|i: int|
                old(self)@.block_changed(i) ==> #[trigger] final(self)@.block_changed(i)),
            old(self)@.consistent() && old(self).backing().reliable() && r is Err ==> final(self)@.is_exhausted(old(self).backing().max_len()),
            final(self)@.pending_from(old(self)@),
            old(self)@.consistent() ==> final(self)@.disk.len() <= MAX_FILE_LEN,
            final(self).same_file_kind(old(self)),
            final(self)@.header == old(self)@.header,
            final(self)@.cluster_size == old(self)@.cluster_size,
            final(self)@.position == old(self)@.position,
            final(self)@.l1.len() == old(self)@.l1.len(),
            final(self)@.ref_table.len() == old(self)@.ref_table.len(),
            final(self)@.disk.len() >= old(self)@.disk.len(),
            old(self)@.available.len() == 0 ==> final(self)@.available.len() == 0,
            r matches Ok(addr)
                ==> addr != 0
                && addr == old(self)@.next_cluster()
                && addr + old(self)@.cluster_size <= u64::MAX
                && final(self)@.l2_cache.contains_key(l1_index)
                && final(self)@.l2_cache[l1_index].0[l2_index as int]
                == addr,
            old(self)@.consistent() && r is Ok
                ==> final(self)@.consistent() && final(self)@.same_data_but(
                old(self)@,
                l1_index * old(self)@.l2_len() + l2_index,
            ) && final(self)@.keeps_counts(old(self)@) && final(self)@.counts_data_as(old(self)@)
                && final(self)@.counts_grown_from(old(self)@) && final(self)@.new_clusters_counted(
                old(self)@,
            ),
            old(self)@.appends_in_place(l1_index) && r is Ok ==> final(self)@
                == old(self)@.with_data_cluster(l1_index, l2_index as int),
            old(self)@.consistent()
                && old(self).backing().reliable()
                && old(self)@.appends_in_place(l1_index)
                && old(self)@.has_room_to_append(l1_index, old(self).backing().max_len())
                ==> r is Ok,
    {
        proof {
            self.lemma_wf();
        }
        let ghost start = old(self)@;
        let ghost vc: int = l1_index * start.l2_len() + l2_index;
        let ghost max_len = old(self).backing().max_len();
        let ghost room: int = if start.l2_cache[l1_index].1 {
            start.cluster_size as int
        } else {
            2 * start.cluster_size
        };
        let ghost roomy: bool = start.consistent() && start.has_room(room, max_len);
        proof {
            if roomy {
                crate::steps::lemma_room_to_append(start, l1_index, room, max_len);
            }
        }
        let (data_addr, added, dropped) = self.take_data_cluster(l1_index, l2_index)?;
        let ghost mapped = self@;
        proof {
            if start.consistent() {
                crate::steps::lemma_growth_alloc(start, mapped, room);
            }
            if roomy {
                crate::steps::lemma_room_step(start, mapped, room, room, max_len);
                crate::steps::lemma_room_next(mapped, 0, max_len);
                assert(mapped.is_cluster(data_addr)) by {
                    assert(mapped.cluster_of(ClusterUse::Data(vc)) == data_addr);
                }
                crate::steps::lemma_has_slot(mapped, data_addr);
            }
        }
        let ghost owing: Set<u64> = match added {
            Some(to) => set![data_addr, to, start.l1[l1_index as int]],
            None => set![data_addr],
        };
        proof {
            self.lemma_wf();
            if start.consistent() {
                assert(mapped.cluster_of(ClusterUse::Data(vc)) == data_addr);
                crate::steps::lemma_can_count_use(mapped, ClusterUse::Data(vc));
            }
        }
        // The cluster refcount starts at one indicating it is used but doesn't need COW.
        proof {
            self.lemma_short(data_addr);
            if self@.consistent() {
                assert(self@.is_cluster(data_addr) ==> data_addr + self@.cluster_size <= self@.disk.len());
            }
        }
        self.set_cluster_refcount(data_addr, 1)?;
        let ghost counted_data = self@;
        proof {
            if start.consistent() {
                if dropped is Some {
                    assert(self@.pending[mapped.pending.len() - 1] == dropped.unwrap());
                    crate::steps::lemma_can_count_pending(self@, mapped.pending.len() - 1);
                }
            }
            if roomy && dropped is Some {
                let d = dropped.unwrap();
                crate::steps::lemma_room_step(mapped, self@, 0, 0, max_len);
                crate::steps::lemma_room_next(self@, 0, max_len);
                assert(self@.is_cluster(d)) by {
                    assert(self@.cluster_of(ClusterUse::Pending(mapped.pending.len() - 1)) == d);
                }
                crate::steps::lemma_has_slot(self@, d);
            }
        }
        if let Some(old_addr) = dropped {
            proof {
                self.lemma_short(old_addr);
                if self@.consistent() {
                    assert(self@.is_cluster(old_addr) ==> old_addr + self@.cluster_size <= self@.disk.len());
                }
            }
            self.set_cluster_refcount(old_addr, 0)?;
        }
        let ghost counted_old = self@;
        proof {
            if start.consistent() {
                if added is Some {
                    crate::steps::lemma_can_count_l2(self@, l1_index as int);
                }
            }
            if roomy && added is Some {
                let a = added.unwrap();
                crate::steps::lemma_room_step(mapped, self@, 0, 0, max_len);
                crate::steps::lemma_room_next(self@, 0, max_len);
                assert(self@.is_cluster(a)) by {
                    assert(self@.cluster_of(ClusterUse::L2Table(l1_index as int)) == a);
                }
                crate::steps::lemma_has_slot(self@, a);
            }
        }
        if let Some(new_addr) = added {
            proof {
                self.lemma_short(new_addr);
                if self@.consistent() {
                    assert(self@.is_cluster(new_addr) ==> new_addr + self@.cluster_size <= self@.disk.len());
                }
            }
            self.set_cluster_refcount(new_addr, 1)?;
        }
        proof {
            if start.consistent() {
                lemma_same_data_trans(counted_old, counted_data, mapped);
                lemma_same_data_trans(self@, counted_old, mapped);
                self.lemma_still_but(mapped, start, vc);
                assert forall|owed: Set<u64>| start.counted_but(owed) implies #[trigger] self@.counted_but(
                    owed,
                ) by {
                    let d0 = owed.union(owing);
                    assert(mapped.counted_but(d0));
                    let d1 = d0.remove(data_addr);
                    assert(counted_data.counted_but(d1));
                    let d2 = match dropped {
                        Some(o) => d1.remove(o),
                        None => d1,
                    };
                    assert(counted_old.counted_but(d2));
                    let d3 = match added {
                        Some(n) => d2.remove(n),
                        None => d2,
                    };
                    assert(self@.counted_but(d3));
                    assert(d3.subset_of(owed));
                    crate::steps::lemma_counted_more(self@, d3, owed);
                }
                let p = mapped.pending.len() - 1;
                assert(mapped.is_cluster(data_addr));
                assert(mapped.has_settled_use(data_addr));
                crate::steps::lemma_uses_are_settled(mapped, counted_data, data_addr);
                if dropped is Some {
                    crate::steps::lemma_uses_are_settled(counted_data, counted_old, dropped.unwrap());
                }
                if added is Some {
                    crate::steps::lemma_uses_are_settled(counted_old, self@, added.unwrap());
                }
                if dropped is Some {
                    assert(counted_data.cluster_of(ClusterUse::Pending(p)) == dropped.unwrap());
                    assert(counted_data.is_cluster(dropped.unwrap()));
                }
                if added is Some {
                    assert(counted_old.cluster_of(ClusterUse::L2Table(l1_index as int))
                        == added.unwrap());
                    assert(counted_old.is_cluster(added.unwrap()));
                }
                crate::steps::lemma_append_counts(
                    start,
                    mapped,
                    counted_data,
                    counted_old,
                    self@,
                    vc,
                    data_addr,
                    dropped,
                    added,
                    p,
                    l1_index as int,
                );
                crate::steps::lemma_consistent_geometry(start);
                crate::steps::lemma_append_grown(
                    start,
                    mapped,
                    counted_data,
                    counted_old,
                    self@,
                    data_addr,
                    dropped,
                    added,
                );
            }
        }
        Ok(data_addr)
    }

    /// After cluster `vc` of the image, which had none, got the cluster
    /// `data` of the file, the image is what it was at the `start` but for
    /// that. `with_data` is the state after `data` was handed out, and
    /// `allocated` the state before the table entry was set.
    proof fn lemma_mapped_but(
        &self,
        start: ImageState,
        with_data: ImageState,
        allocated: ImageState,
        vc: int,
        data: u64,
    )
        requires
            start.consistent(),
            start.entry(vc) == 0,
            with_data.same_data(start),
            forall|j: int|
                data <= j < data + start.cluster_size ==> #[trigger] with_data.disk[j] == 0u8,
            kept(with_data.disk, allocated.disk, data as int, start.cluster_size as int),
            allocated.same_data(start),
            allocated.disk == self@.disk,
            self@.header == start.header,
            self@.cluster_size == start.cluster_size,
            self@.entry(vc) == data,
            data != 0,
            data + start.cluster_size <= u64::MAX,
            forall|k: int| k != vc ==> #[trigger] self@.entry(k) == allocated.entry(k),
            forall|a: u64|
                (a / start.cluster_size) as int != vc ==> #[trigger] self@.byte_at(a)
                    == allocated.byte_at(a),
        ensures
            self@.same_data_but(start, vc),
    {
        let s = self@;
        crate::steps::lemma_consistent_geometry(start);
        assert forall|k: int| k != vc implies #[trigger] s.entry(k) == start.entry(k) by {
            assert(s.entry(k) == allocated.entry(k));
        }
        assert forall|a: u64| (a / s.cluster_size) as int != vc implies #[trigger] s.byte_at(a)
            == start.byte_at(a) by {
            assert(s.byte_at(a) == allocated.byte_at(a));
        }
        {
            assert forall|a: u64| #[trigger] s.byte_at(a) == start.byte_at(a) by {
                if (a / s.cluster_size) as int == vc {
                    let at = (data + a % s.cluster_size) as int;
                    assert(with_data.disk[at] == 0u8);
                    assert(allocated.disk[at] == with_data.disk[at]);
                } else {
                    assert(s.byte_at(a) == allocated.byte_at(a));
                }
            }
        }
    }

    /// A state that is `cached` but for a cluster of the file for `vc` is
    /// `start` but for that, if `cached` maps and holds what `start` does
    /// and no more clusters are available in it.
    proof fn lemma_but_after(&self, cached: ImageState, start: ImageState, vc: int)
        requires
            self@.same_data_but(cached, vc),
            cached.same_data(start),
            start.available.len() == 0 ==> cached.available.len() == 0,
        ensures
            self@.same_data_but(start, vc),
    {
        let s = self@;
        assert(cached.entry(vc) == start.entry(vc));
        assert forall|k: int| k != vc implies #[trigger] s.entry(k) == start.entry(k) by {
            assert(s.entry(k) == cached.entry(k));
        }
        assert forall|a: u64| (a / s.cluster_size) as int != vc implies #[trigger] s.byte_at(a)
            == start.byte_at(a) by {
            assert(s.byte_at(a) == cached.byte_at(a));
        }
        if start.entry(vc) != 0 {
            assert forall|k: int| #[trigger] s.entry(k) == start.entry(k) by {
                assert(s.entry(k) == cached.entry(k));
            }
            assert forall|a: u64| #[trigger] s.byte_at(a) == start.byte_at(a) by {
                assert(s.byte_at(a) == cached.byte_at(a));
            }
        }
        if start.entry(vc) == 0 {
            assert forall|a: u64| #[trigger] s.byte_at(a) == start.byte_at(a) by {
                assert(s.byte_at(a) == cached.byte_at(a));
            }
        }
    }

    /// A state that maps and holds what `mapped` does is `start` but for a
    /// cluster of the file for `vc` if `mapped` is.
    proof fn lemma_still_but(&self, mapped: ImageState, start: ImageState, vc: int)
        requires
            self@.same_data(mapped),
            mapped.same_data_but(start, vc),
        ensures
            self@.same_data_but(start, vc),
    {
        let s = self@;
        assert forall|k: int| k != vc implies #[trigger] s.entry(k) == start.entry(k) by {
            assert(s.entry(k) == mapped.entry(k));
        }
        assert forall|a: u64| (a / s.cluster_size) as int != vc implies #[trigger] s.byte_at(a)
            == start.byte_at(a) by {
            assert(s.byte_at(a) == mapped.byte_at(a));
        }
        assert(s.entry(vc) == mapped.entry(vc));
        if start.entry(vc) != 0 {
            assert forall|k: int| #[trigger] s.entry(k) == start.entry(k) by {
                assert(s.entry(k) == mapped.entry(k));
            }
            assert forall|a: u64| #[trigger] s.byte_at(a) == start.byte_at(a) by {
                assert(s.byte_at(a) == mapped.byte_at(a));
            }
        }
        if start.entry(vc) == 0 {
            assert forall|a: u64| #[trigger] s.byte_at(a) == start.byte_at(a) by {
                assert(s.byte_at(a) == mapped.byte_at(a));
            }
        }
    }

    /// Writes every dirty block to the cluster that its table points at,
    /// makes the file durable, then writes the L1 table and the
    /// reference-count table, and makes the file durable again.
    #[verifier::loop_isolation(false)]
    fn sync_caches(&mut self) -> (r: IoResult<()>)
        requires
            old(self).wf(),
        ensures
            final(self).wf(),
            final(self).same_file_kind(old(self)),
            final(self)@ == (ImageState {
                disk: final(self)@.disk,
                l2_cache: final(self)@.l2_cache,
                refblock_cache: final(self)@.refblock_cache,
                ..old(self)@
            }),
            final(self)@.disk.len() >= old(self)@.disk.len(),
            same_blocks(final(self)@.l2_cache, old(self)@.l2_cache),
            same_blocks(final(self)@.refblock_cache, old(self)@.refblock_cache),
            r is Ok
                ==> final(self)@.all_clean()
                && final(self).backing().durable() == final(self)@.disk,
            old(self)@.consistent()
                && r is Ok
                ==> final(self)@.consistent()
                && final(self)@.same_data(old(self)@)
                && final(self)@.same_counts(old(self)@)
                && final(self)@.tables_stored()
                && final(self)@.disk.len() == old(self)@.disk.len()
                && final(self)@.disk.subrange(0, crate::header::HEADER_LEN as int) == old(self)@.disk.subrange(
                0,
                crate::header::HEADER_LEN as int,
            ),
            old(self)@.consistent() && old(self).backing().reliable() ==> r is Ok,
    {
        proof {
            self.lemma_wf();
        }
        let ghost start = old(self)@;
        // Write out all dirty L2 tables.
        let l2_keys: Vec<usize> = self.l2_cache.dirty_keys();
        let mut i: usize = 0;
        while i < l2_keys.len()
            invariant
                i <= l2_keys@.len(),
                self.wf(),
                self.same_file_kind(old(self)),
                self@ == (ImageState { disk: self@.disk, l2_cache: self@.l2_cache, ..start }),
                self@.disk.len() >= start.disk.len(),
                same_blocks(self@.l2_cache, start.l2_cache),
                forall|k: usize| l2_keys@.contains(k) ==> start.l2_cache.contains_key(k),
                forall|k: usize|
                    start.l2_cache.contains_key(k) && !l2_keys@.contains(k) ==> !(
                    #[trigger] self@.l2_cache[k]).1,
                forall|j: int| 0 <= j < i ==> !(#[trigger] self@.l2_cache[l2_keys@[j]]).1,
                start.consistent() ==> self@.consistent() && self@.same_data(start)
                    && self@.same_counts(start) && self@.disk.len() == start.disk.len()
                    && self@.disk.subrange(0, crate::header::HEADER_LEN as int)
                    == start.disk.subrange(0, crate::header::HEADER_LEN as int),
            decreases l2_keys@.len() - i,
        {
            let l1_index: usize = l2_keys[i];
            assert(l2_keys@.contains(l1_index));
            // The index was valid when the block was inserted.
            let addr: u64 = self.l1_table[l1_index];
            if addr == 0 {
                return Err(IoError::InvalidInput);
            }
            let ghost before = self@;
            proof {
                self.lemma_wf();
                if start.consistent() {
                    assert(before.cluster_of(ClusterUse::L2Table(l1_index as int)) == addr);
                    assert(before.is_cluster(addr));
                    crate::steps::lemma_consistent_geometry(before);
                }
            }
            match self.l2_cache.get(l1_index) {
                Some(l2_table) => {
                    self.raw_file.write_pointer_table(
                        addr,
                        l2_table.get_values(),
                        CLUSTER_USED_FLAG,
                    )?;
                },
                None => {},
            }
            self.l2_cache.mark_clean(l1_index);
            assert(self@.wf()) by {
                assert forall|k: usize| #[trigger]
                    self@.l2_cache.contains_key(k) implies before.l2_cache.contains_key(k)
                    && self@.l2_cache[k].0 == before.l2_cache[k].0 by {}
            }
            proof {
                if start.consistent() {
                    lemma_l2_written_back(before, l1_index, self@);
                    lemma_same_data_trans(self@, before, start);
                    lemma_same_counts_trans(self@, before, start);
                    crate::raw_file::lemma_pointer_table_bytes(
                        before.l2_cache[l1_index].0,
                        CLUSTER_USED_FLAG,
                    );
                    assert(self@.disk.subrange(0, crate::header::HEADER_LEN as int)
                        =~= before.disk.subrange(0, crate::header::HEADER_LEN as int));
                }
            }
            i += 1;
        }
        assert(forall|k: usize| self@.l2_cache.contains_key(k) ==> !(#[trigger] self@.l2_cache[k]).1)
            by {
            assert forall|k: usize| self@.l2_cache.contains_key(k) implies !(
            #[trigger] self@.l2_cache[k]).1 by {
                if l2_keys@.contains(k) {
                    let j = choose|j: int| 0 <= j < l2_keys@.len() && l2_keys@[j] == k;
                    assert(!self@.l2_cache[l2_keys@[j]].1);
                }
            }
        }
        // Write the modified refcount blocks.
        let ref_keys: Vec<usize> = self.refblock_cache.dirty_keys();
        let ghost mid = self@;
        let mut i: usize = 0;
        while i < ref_keys.len()
            invariant
                i <= ref_keys@.len(),
                self.wf(),
                self.same_file_kind(old(self)),
                self@ == (ImageState {
                    disk: self@.disk,
                    refblock_cache: self@.refblock_cache,
                    ..mid
                }),
                self@.disk.len() >= mid.disk.len(),
                same_blocks(self@.refblock_cache, mid.refblock_cache),
                forall|k: usize| ref_keys@.contains(k) ==> mid.refblock_cache.contains_key(k),
                forall|k: usize|
                    mid.refblock_cache.contains_key(k) && !ref_keys@.contains(k) ==> !(
                    #[trigger] self@.refblock_cache[k]).1,
                forall|j: int| 0 <= j < i ==> !(#[trigger] self@.refblock_cache[ref_keys@[j]]).1,
                start.consistent() ==> self@.consistent() && self@.same_data(start)
                    && self@.same_counts(start) && self@.disk.len() == start.disk.len()
                    && self@.disk.subrange(0, crate::header::HEADER_LEN as int)
                    == start.disk.subrange(0, crate::header::HEADER_LEN as int),
            decreases ref_keys@.len() - i,
        {
            let ref_index: usize = ref_keys[i];
            assert(ref_keys@.contains(ref_index));
            // The index was valid when the block was inserted.
            let addr: u64 = self.ref_table[ref_index];
            if addr == 0 {
                return Err(IoError::InvalidInput);
            }
            let ghost before = self@;
            proof {
                self.lemma_wf();
                if start.consistent() {
                    assert(before.cluster_of(ClusterUse::RefBlock(ref_index as int)) == addr);
                    assert(before.is_cluster(addr));
                    crate::steps::lemma_consistent_geometry(before);
                }
            }
            match self.refblock_cache.get(ref_index) {
                Some(block) => {
                    self.raw_file.write_refcount_block(addr, block.get_values())?;
                },
                None => {},
            }
            self.refblock_cache.mark_clean(ref_index);
            assert(self@.wf()) by {
                assert forall|k: usize| #[trigger]
                    self@.refblock_cache.contains_key(k) implies before.refblock_cache.contains_key(
                    k,
                ) && self@.refblock_cache[k].0 == before.refblock_cache[k].0 by {}
            }
            proof {
                if start.consistent() {
                    lemma_refblock_written_back(before, ref_index, self@);
                    lemma_same_data_trans(self@, before, start);
                    lemma_same_counts_trans(self@, before, start);
                    crate::raw_file::lemma_refcount_block_bytes(before.refblock_cache[ref_index].0);
                    assert(self@.disk.subrange(0, crate::header::HEADER_LEN as int)
                        =~= before.disk.subrange(0, crate::header::HEADER_LEN as int));
                }
            }
            i += 1;
        }
        assert(self@.all_clean()) by {
            assert forall|k: usize| self@.refblock_cache.contains_key(k) implies !(
            #[trigger] self@.refblock_cache[k]).1 by {
                if ref_keys@.contains(k) {
                    let j = choose|j: int| 0 <= j < ref_keys@.len() && ref_keys@[j] == k;
                    assert(!self@.refblock_cache[ref_keys@[j]].1);
                }
            }
        }
        // Make sure metadata(file len) and all data clusters are written.
        self.raw_file.file_mut().sync_all()?;

        // Push L1 table and refcount table last as all the clusters they point to are now
        // guaranteed to be valid.
        let ghost blocks_done = self@;
        self.write_tables()?;
        proof {
            if start.consistent() {
                lemma_same_data_trans(self@, blocks_done, start);
                lemma_same_counts_trans(self@, blocks_done, start);
            }
        }
        self.raw_file.file_mut().sync_data()?;
        Ok(())
    }

    // Writes the L1 table and the reference-count table to their places in the file. This is
    // for a time at which the blocks that they point at are in the file for good: no block is
    // dirty, and the file is durable.
    fn write_tables(&mut self) -> (r: IoResult<()>)
        requires
            old(self).wf(),
            old(self)@.all_clean(),
            old(self).backing().durable() == old(self)@.disk,
        ensures
            final(self).wf(),
            final(self).same_file_kind(old(self)),
            final(self).caches() == old(self).caches(),
            final(self)@ == (ImageState { disk: final(self)@.disk, ..old(self)@ }),
            final(self)@.disk.len() >= old(self)@.disk.len(),
            r is Ok ==> final(self)@.disk == written(
                written(
                    old(self)@.disk,
                    old(self)@.header.l1_table_offset as nat,
                    pointer_table_bytes(old(self)@.l1, 0),
                ),
                old(self)@.header.refcount_table_offset as nat,
                pointer_table_bytes(old(self)@.ref_table, 0),
            ),
            old(self)@.consistent() && r is Ok ==> final(self)@.consistent() && final(self)@.same_data(old(self)@) && final(self)@.same_counts(old(self)@) && final(self)@.tables_stored() && final(self)@.disk.len() == old(self)@.disk.len() && final(self)@.disk.subrange(0, crate::header::HEADER_LEN as int) == old(self)@.disk.subrange(
                0,
                crate::header::HEADER_LEN as int,
            ),
            old(self)@.consistent() && old(self).backing().reliable() ==> r is Ok,
    {
        let ghost start = old(self)@;
        proof {
            self.lemma_wf();
            crate::raw_file::lemma_pointer_table_bytes(start.l1, 0);
            crate::raw_file::lemma_pointer_table_bytes(start.ref_table, 0);
        }
        self.raw_file.write_pointer_table(self.header.l1_table_offset, &self.l1_table, 0)?;
        let ghost l1_done = self@;
        proof {
            self.lemma_wf();
            if start.consistent() {
                lemma_tables_written(
                    start,
                    l1_done,
                    ImageState {
                        disk: written(
                            l1_done.disk,
                            start.header.refcount_table_offset as nat,
                            pointer_table_bytes(start.ref_table, 0),
                        ),
                        ..start
                    },
                );
            }
        }
        self.raw_file.write_pointer_table(self.header.refcount_table_offset, &self.ref_table, 0)
    }

    // Makes the clusters that blocks have left available. This is for a time at which the tables
    // in the file do not point at them any more, for good: no block is dirty, the tables were
    // written, and the file is durable.
    fn release_unref_clusters(&mut self)
        requires
            old(self).wf(),
            old(self)@.all_clean(),
            old(self).backing().durable() == old(self)@.disk,
        ensures
            final(self).wf(),
            final(self).backing() == old(self).backing(),
            final(self).caches() == old(self).caches(),
            final(self)@ == (ImageState {
                pending: Seq::empty(),
                available: old(self)@.available + old(self)@.pending,
                ..old(self)@
            }),
            old(self)@.consistent() ==> final(self)@.consistent() && final(self)@.same_data(
                old(self)@,
            ) && final(self)@.same_counts(old(self)@),
    {
        self.avail_clusters.append(&mut self.unref_clusters);
        proof {
            if old(self)@.consistent() {
                lemma_promoted(old(self)@, self@);
            }
        }
    }

    /// Writes the changed blocks and then the two tables to the file, makes
    /// the file durable, and makes the clusters that changed blocks have left
    /// available.
    pub fn flush(&mut self) -> (r: IoResult<()>)
        requires
            old(self).wf(),
        ensures
            final(self).wf(),
            final(self).same_file_kind(old(self)),
            final(self)@ == (ImageState {
                disk: final(self)@.disk,
                l2_cache: final(self)@.l2_cache,
                refblock_cache: final(self)@.refblock_cache,
                pending: final(self)@.pending,
                available: final(self)@.available,
                ..old(self)@
            }),
            final(self)@.disk.len() >= old(self)@.disk.len(),
            same_blocks(final(self)@.l2_cache, old(self)@.l2_cache),
            same_blocks(final(self)@.refblock_cache, old(self)@.refblock_cache),
            r is Ok
                ==> final(self)@.all_clean()
                && final(self).backing().durable() == final(self)@.disk
                && final(self)@.pending == Seq::<u64>::empty()
                && final(self)@.available
                == old(self)@.available + old(self)@.pending,
            r is Err ==> final(self)@.pending == old(self)@.pending && final(self)@.available
                == old(self)@.available,
            old(self)@.consistent()
                && r is Ok
                ==> final(self)@.consistent()
                && final(self)@.same_data(old(self)@)
                && final(self)@.same_counts(old(self)@)
                && final(self)@.tables_stored()
                && final(self)@.disk.len() == old(self)@.disk.len()
                && final(self)@.disk.subrange(0, crate::header::HEADER_LEN as int) == old(self)@.disk.subrange(
                0,
                crate::header::HEADER_LEN as int,
            ),
            old(self)@.consistent() && old(self).backing().reliable() ==> r is Ok,
    {
        self.sync_caches()?;
        let ghost synced = self@;
        self.release_unref_clusters();
        proof {
            if old(self)@.consistent() {
                lemma_same_data_trans(self@, synced, old(self)@);
                lemma_same_counts_trans(self@, synced, old(self)@);
            }
        }
        Ok(())
    }

    /// Creates a QcowFile from `file`. File must be a valid qcow2 image.
    pub fn from(file: F) -> (r: Result<QcowFile<F>>)
        ensures
            file.reliable() ==> match open_error(file.bytes()) {
                Some(e) => r == Err::<QcowFile<F>, Error>(e),
                None => r is Ok,
            },
            r matches Ok(q) ==> q.wf() && q.backing() == file && open_error(file.bytes()) is None
                && q@ == opened(file.bytes(), parse_bytes(file.bytes()).unwrap())
                && !q.l2_cache_full() && !q.refblock_cache_full(),
            r matches Err(e) ==> open_error(file.bytes()) == Some(e) || (
            e matches Error::ReadingHeader(_)),
    {
        let header: QcowHeader = QcowHeader::new(&file)?;
        let cluster_size: u64 = cluster_size(header.cluster_bits);
        proof {
            lemma_cluster_size_bounds(header.cluster_bits);
        }
        let raw_file: QcowRawFile<F> = QcowRawFile::from(file, cluster_size, cluster_size - 1);
        let (l1_table, ref_table) = read_tables(&raw_file, &header)?;
        check_address_space(&header)?;
        // The cache has room for every block of counts of the table, so that none that has
        // changed leaves it before a flush.
        let refblock_cache_size: usize = if ref_table.len() > REFBLOCK_CACHE_SIZE {
            ref_table.len()
        } else {
            REFBLOCK_CACHE_SIZE
        };
        let qcow = QcowFile {
            raw_file,
            header,
            l1_table,
            ref_table,
            l2_entries: cluster_size / 8,
            l2_cache: CacheMap::new(L2_CACHE_SIZE),
            refblock_cache: CacheMap::new(refblock_cache_size),
            current_offset: 0,
            refcount_block_entries: cluster_size / 2,
            unref_clusters: Vec::new(),
            avail_clusters: Vec::new(),
        };
        Ok(qcow)
    }

    /// Creates a new QcowFile in `file`, for an image of `virtual_size`
    /// bytes: writes the header, opens the image, and counts one reference
    /// for each cluster up to the end of the reference-count table.
    pub fn new(file: F, virtual_size: u64) -> (r: Result<QcowFile<F>>)
        requires
            virtual_size <= MAX_NEW_IMAGE_SIZE,
        ensures
            r matches Ok(q)
                ==> q.wf()
                && q.backing().reliable() == file.reliable()
                && q.backing().max_len()
                == file.max_len() && q@.header == header_for_size(virtual_size) && q@.position == 0
                && q@.l2_cache == Map::<
                usize,
                (Seq<u64>, bool),
            >::empty() && q@.l1 == opened(
                header_image(file.bytes(), header_for_size(virtual_size)),
                header_for_size(virtual_size),
            ).l1,
            virtual_size == 0 ==> r is Err,
            virtual_size == 0 && file.reliable() && file.max_len() >= 0x4_0000 ==> r == Err::<
                QcowFile<F>,
                Error,
            >(Error::NoRefcountClusters),
            file.bytes().len() == 0 && virtual_size <= crate::laws::MAX_CONSISTENT_NEW_SIZE ==> (
            r matches Ok(q) ==> q@ == crate::laws::new_image(virtual_size) && q@.consistent()
                && q@.is_zero() && q@.counted()),
            r matches Ok(q) ==> q@.disk.len() >= metadata_end(header_for_size(virtual_size))
                && q@.virtual_size() == virtual_size,
            file.reliable() && file.bytes().len() == 0 && 0 < virtual_size
                <= crate::laws::MAX_CONSISTENT_NEW_SIZE && file.max_len() >= 0x4_0000 ==> r is Ok,
    {
        let ghost before = file.bytes();
        let ghost reliable = file.reliable();
        let ghost max_len = file.max_len();
        let mut disk_file: F = file;
        let header: QcowHeader = QcowHeader::create_for_size(virtual_size);
        proof {
            if before.len() == 0 && 0 < virtual_size <= crate::laws::MAX_CONSISTENT_NEW_SIZE {
                crate::laws::lemma_new_image_layout(virtual_size);
            }
        }
        header.write_to(&mut disk_file)?;
        proof {
            vstd::arithmetic::power2::lemma2_to64();
            lemma_parse_header_image(before, header);
        }
        let ghost image = disk_file.bytes();
        let ghost ideal = before.len() == 0 && 0 < virtual_size
            <= crate::laws::MAX_CONSISTENT_NEW_SIZE;
        proof {
            if ideal {
                assert(before =~= Seq::<u8>::empty());
                crate::laws::lemma_new_image(virtual_size);
            }
        }
        let mut qcow: QcowFile<F> = Self::from(disk_file)?;
        let ghost fresh = qcow@;
        proof {
            if ideal {
                assert(fresh == opened(image, header));
                assert(fresh.l1.len() >= 1 && fresh.ref_table.len() >= 1 && fresh.disk.len()
                    == 0x3_0000 && header.refcount_table_offset == 0x2_0000
                    && header.refcount_table_clusters == 1) by {
                    crate::laws::lemma_new_image_layout(virtual_size);
                }
            }
        }

        // Set the refcount for each refcount table cluster.
        let cluster_size: u64 = cluster_size(header.cluster_bits);
        let refcount_table_base: u64 = header.refcount_table_offset;
        assert(header.refcount_table_clusters * cluster_size <= u64::MAX) by (nonlinear_arith)
            requires
                header.refcount_table_clusters <= 0xffff_ffff,
                cluster_size <= 0x4000_0000,
        ;
        let end_cluster_addr: u64 = refcount_table_base + header.refcount_table_clusters as u64
            * cluster_size;

        let mut cluster_addr: u64 = 0;
        while cluster_addr < end_cluster_addr
            invariant
                qcow.wf(),
                qcow.backing().reliable() == reliable,
                qcow.backing().max_len() == max_len,
                virtual_size == 0 ==> !(reliable && max_len >= 0x4_0000),
                qcow@ == (ImageState {
                    disk: qcow@.disk,
                    ref_table: qcow@.ref_table,
                    refblock_cache: qcow@.refblock_cache,
                    pending: qcow@.pending,
                    available: qcow@.available,
                    ..opened(image, header)
                }),
                cluster_size == 0x1_0000,
                header == header_for_size(virtual_size),
                image == header_image(before, header),
                before == file.bytes(),
                qcow@.disk.len() >= fresh.disk.len(),
                ideal ==> fresh.consistent() && fresh.is_zero(),
                ideal && qcow@.disk.len() <= MAX_FILE_LEN ==> qcow@.consistent()
                    && qcow@.same_data(fresh) && qcow@.counted(),
                cluster_addr % cluster_size == 0,
                qcow@.cluster_size == cluster_size,
                end_cluster_addr <= fresh.disk.len(),
                end_cluster_addr % cluster_size == 0,
                ideal == (before.len() == 0 && 0 < virtual_size
                    <= crate::laws::MAX_CONSISTENT_NEW_SIZE),
                reliable == file.reliable(),
                max_len == file.max_len(),
                ideal ==> qcow@ == crate::laws::new_image_counted_to(virtual_size, cluster_addr)
                    && (cluster_addr == 0 ==> !qcow.refblock_cache_full()) && (cluster_addr == 0
                    || cluster_addr == 0x1_0000 || cluster_addr == 0x2_0000 || cluster_addr
                    == 0x3_0000),
                ideal ==> end_cluster_addr == 0x3_0000 && fresh == opened(image, header)
                    && fresh.l1.len() >= 1 && fresh.ref_table.len() >= 1 && fresh.disk.len()
                    == 0x3_0000 && header.refcount_table_offset == 0x2_0000
                    && header.l1_table_offset == 0x1_0000,
            decreases
                    if cluster_addr < end_cluster_addr {
                        end_cluster_addr - cluster_addr
                    } else {
                        0
                    },
        {
            let ghost entry = qcow@;
            proof {
                if ideal {
                    vstd::arithmetic::power2::lemma2_to64();
                    crate::laws::lemma_new_image_layout(virtual_size);
                    crate::laws::lemma_new_image(virtual_size);
                    assert(entry.cluster_size == 0x1_0000);
                    crate::laws::lemma_first_clusters_index(entry);
                    assert(entry.refcount_table_index(cluster_addr) == 0);
                    if cluster_addr == 0 {
                        let made = entry.with_new_refblock(0);
                        crate::laws::lemma_first_clusters_index(made);
                        assert(round_up(entry.disk.len() as int, entry.cluster_size as int)
                            == 0x3_0000);
                        assert(made.ref_table[0] == 0x3_0000);
                        assert(made.refcount_table_index(0x3_0000) == 0);
                        assert(!entry.refblock_cache.contains_key(0));
                        assert(entry.ref_table[0] == 0);
                    } else {
                        assert(entry.refblock_cache.contains_key(0));
                        assert(entry.refblock_cache[0].1);
                    }
                }
                if ideal && entry.disk.len() <= MAX_FILE_LEN {
                    assert(cluster_addr == 0 || cluster_addr == 0x1_0000 || cluster_addr
                        == 0x2_0000);
                    assert(!entry.is_cluster(cluster_addr)) by {
                        assert(entry.header == fresh.header);
                        assert(entry.l1.len() >= 1);
                        assert(entry.ref_table.len() >= 1);
                    }
                    crate::laws::lemma_can_count_table_cluster(entry, cluster_addr);
                }
            }
            match qcow.set_cluster_refcount(cluster_addr, 1) {
                Ok(()) => {},
                Err(e) => {
                    return Err(Error::SettingRefcountRefcount(e));
                },
            }
            proof {
                if ideal {
                    if cluster_addr != 0 {
                        assert(qcow@ == entry.with_count(cluster_addr, 1));
                    }
                    assert(qcow@ == crate::laws::new_image_counted_to(
                        virtual_size,
                        (cluster_addr + cluster_size) as u64,
                    ));
                    assert(qcow@.disk.len() == 0x4_0000);
                }
                if ideal && qcow@.disk.len() <= MAX_FILE_LEN {
                    lemma_same_data_trans(qcow@, entry, fresh);
                    assert(entry.counted_but(Set::empty()));
                    assert(qcow@.counted_but(Set::<u64>::empty().remove(cluster_addr)));
                    assert(Set::<u64>::empty().remove(cluster_addr) =~= Set::<u64>::empty());
                }
            }
            if cluster_addr > u64::MAX - cluster_size {
                return Ok(qcow);
            }
            cluster_addr += cluster_size;
        }
        proof {
            if ideal {
                crate::laws::lemma_new_image_counts(virtual_size);
                assert(cluster_addr == 0x3_0000);
            }
            if ideal && qcow@.disk.len() <= MAX_FILE_LEN {
                assert forall|a: u64| #[trigger] qcow@.byte_at(a) == 0u8 by {
                    assert(qcow@.byte_at(a) == fresh.byte_at(a));
                }
            }
        }
        Ok(qcow)
    }

    /// Returns the first cluster in the file with a 0 refcount. Used for testing.
    pub fn first_zero_refcount(&mut self) -> (r: Result<Option<u64>>)
        requires
            old(self).wf(),
        ensures
            final(self).wf(),
            old(self)@.consistent() ==> final(self)@.disk.len() == old(self)@.disk.len(),
            final(self).same_file_kind(old(self)),
            final(self).caches().0 == old(self).caches().0,
            final(self)@ == (ImageState {
                disk: final(self)@.disk,
                refblock_cache: final(self)@.refblock_cache,
                ..old(self)@
            }),
            final(self)@.disk.len() >= old(self)@.disk.len(),
            r matches Ok(Some(addr))
                ==> addr % old(self)@.cluster_size == 0
                && addr < old(self)@.disk.len()
                && final(self)@.refcount(addr) == 0,
            r matches Err(e) ==> (e matches Error::GettingFileSize(_)) || (
            e matches Error::GettingRefcount(_)),
            old(self)@.consistent()
                && r is Ok
                ==> final(self)@.consistent()
                && final(self)@.same_data(
                old(self)@,
            ) && final(self)@.same_counts(old(self)@),
            old(self)@.consistent() ==> match r {
                Ok(Some(addr)) => old(self)@.refcount(addr) == 0 && old(self)@.all_counted_before(
                    addr as int,
                ),
                Ok(None) => old(self)@.all_counted_before(old(self)@.disk.len() as int),
                Err(_) => true,
            },
            old(self)@.consistent()
                && old(self).backing().reliable()
                && old(self)@.refcount_table_index((old(self)@.disk.len() - 1) as u64) < old(self)@.ref_table.len()
                ==> r is Ok,
    {
        proof {
            self.lemma_wf();
        }
        let ghost start = old(self)@;
        let file_size: u64 = match self.raw_file.file().len() {
            Ok(n) => n,
            Err(e) => {
                return Err(Error::GettingFileSize(e));
            },
        };
        let cluster_size: u64 = self.raw_file.cluster_size();

        let mut cluster_addr: u64 = 0;
        while cluster_addr < file_size
            invariant
                cluster_addr <= u64::MAX,
                self.wf(),
                self.same_file_kind(old(self)),
                self.caches().0 == old(self).caches().0,
                self@ == (ImageState {
                    disk: self@.disk,
                    refblock_cache: self@.refblock_cache,
                    ..old(self)@
                }),
                self@.disk.len() >= old(self)@.disk.len(),
                cluster_size == old(self)@.cluster_size,
                16 <= cluster_size <= 0x4000_0000,
                cluster_addr % cluster_size == 0,
                file_size == old(self)@.disk.len(),
                start == old(self)@,
                start.consistent() ==> self@.consistent() && self@.same_data(start)
                    && self@.same_counts(start) && start.all_counted_before(cluster_addr as int)
                    && self@.disk.len() == start.disk.len(),
            decreases
                    if cluster_addr < file_size {
                        file_size - cluster_addr
                    } else {
                        0
                    },
        {
            let ghost entry = self@;
            proof {
                if start.consistent() {
                    // The block that counts this cluster is one that counts the last.
                    crate::steps::lemma_consistent_geometry(start);
                    vstd::arithmetic::div_mod::lemma_div_is_ordered(
                        cluster_addr as int,
                        file_size - 1,
                        cluster_size as int,
                    );
                    vstd::arithmetic::div_mod::lemma_div_is_ordered(
                        (cluster_addr / cluster_size) as int,
                        ((file_size - 1) as u64 / cluster_size) as int,
                        start.refblock_len() as int,
                    );
                }
            }
            match self.get_cluster_refcount(cluster_addr) {
                Ok(count) => {
                    proof {
                        if start.consistent() {
                            lemma_same_data_trans(self@, entry, start);
                            lemma_same_counts_trans(self@, entry, start);
                            assert(count == start.refcount(cluster_addr));
                        }
                    }
                    if count == 0 {
                        return Ok(Some(cluster_addr));
                    }
                },
                Err(e) => {
                    return Err(Error::GettingRefcount(e));
                },
            }
            proof {
                if start.consistent() {
                    assert forall|x: u64|
                        x % start.cluster_size == 0 && x < cluster_addr
                            + cluster_size implies #[trigger] start.refcount(x) != 0 by {
                        if x >= cluster_addr {
                            if x != cluster_addr {
                                crate::steps::lemma_aligned_apart(
                                    x as int,
                                    cluster_addr as int,
                                    cluster_size as int,
                                );
                            }
                        }
                    }
                }
            }
            if cluster_addr > u64::MAX - cluster_size {
                return Ok(None);
            }
            assert((cluster_addr + cluster_size) % (cluster_size as int) == 0) by (nonlinear_arith)
                requires
                    cluster_addr % cluster_size == 0,
                    cluster_size > 0,
            ;
            cluster_addr += cluster_size;
        }
        Ok(None)
    }

    /// Reads from the position into `buf`, as far as the image goes, and
    /// moves the position behind what was read. Clusters that have none in
    /// the file read as zeros.
    pub fn read(&mut self, buf: &mut [u8]) -> (r: IoResult<usize>)
        requires
            old(self).wf(),
        ensures
            final(self).wf(),
            final(self).same_file_kind(old(self)),
            final(self)@ == (ImageState {
                disk: final(self)@.disk,
                l2_cache: final(self)@.l2_cache,
                position: final(self)@.position,
                ..old(self)@
            }),
            final(self)@.disk.len() >= old(self)@.disk.len(),
            old(self)@.consistent() ==> final(self)@.disk.len() == old(self)@.disk.len(),
            final(buf)@.len() == old(buf)@.len(),
            r matches Ok(n) ==> n == range_in_file(
                old(self)@.position,
                old(buf)@.len() as usize,
                old(self)@.virtual_size(),
            ) && final(self)@.position == old(self)@.position + n && final(buf)@.skip(n as int)
                == old(buf)@.skip(n as int),
            r is Err ==> final(self)@.position == old(self)@.position,
            old(self)@.consistent()
                && r is Ok
                ==> final(self)@.consistent()
                && final(self)@.same_data(
                old(self)@,
            ) && final(self)@.same_counts(old(self)@),
            old(self)@.consistent()
                ==> (r matches Ok(n) ==> final(buf)@.take(n as int) == old(self)@.contents().subrange(
                old(self)@.position as int,
                old(self)@.position + n,
            )),
            old(self)@.consistent() && old(self).backing().reliable() ==> r is Ok,
    {
        proof {
            self.lemma_wf();
        }
        let address: u64 = self.current_offset;
        let read_count: usize = self.limit_range_file(address, buf.len());
        let ghost image = old(self)@.contents();

        let mut nread: usize = 0;
        assert(buf@.take(0) =~= image.subrange(address as int, address as int));
        while nread < read_count
            invariant
                nread <= read_count,
                read_count <= old(buf)@.len(),
                address + read_count <= old(self)@.virtual_size(),
                address == old(self)@.position,
                image == old(self)@.contents(),
                self.refblock_cache_full() == old(self).refblock_cache_full(),
                self.wf(),
                self.same_file_kind(old(self)),
                self@ == (ImageState {
                    disk: self@.disk,
                    l2_cache: self@.l2_cache,
                    ..old(self)@
                }),
                self@.disk.len() >= old(self)@.disk.len(),
                buf@.len() == old(buf)@.len(),
                buf@.skip(read_count as int) == old(buf)@.skip(read_count as int),
                old(self)@.consistent() ==> self@.consistent() && self@.same_data(old(self)@)
                    && self@.same_counts(old(self)@) && self@.disk.len() == old(self)@.disk.len(),
                old(self)@.consistent() ==> buf@.take(nread as int) == image.subrange(
                    address as int,
                    address + nread,
                ),
            decreases read_count - nread,
        {
            let curr_addr: u64 = address + nread as u64;
            let file_offset: Option<u64> = self.file_offset_read(curr_addr)?;
            let count: usize = self.limit_range_cluster(curr_addr, read_count - nread);
            proof {
                self.lemma_wf();
                if old(self)@.consistent() {
                    lemma_chunk_bytes(self@, curr_addr, count as int);
                }
            }
            let ghost before = buf@;
            if let Some(offset) = file_offset {
                let data: Vec<u8> = self.raw_file.file().read_exact_at(offset, count)?;
                copy_into(buf, nread, &data);
            } else {
                // Previously unwritten region, return zeros
                zero_fill(buf, nread, count);
            }
            assert(buf@.skip(read_count as int) =~= before.skip(read_count as int));
            proof {
                if old(self)@.consistent() {
                    assert(buf@.take(nread + count) =~= image.subrange(
                        address as int,
                        address + nread + count,
                    )) by {
                        assert forall|k: int| 0 <= k < nread + count implies buf@[k] == image[address
                            + k] by {
                            if k < nread {
                                assert(buf@[k] == before.take(nread as int)[k]);
                            } else {
                                let j = k - nread;
                                assert(self@.byte_at((curr_addr + j) as u64) == old(self)@.byte_at((curr_addr + j) as u64));
                            }
                        }
                    }
                }
            }
            nread += count;
        }
        let ghost before = self@;
        self.current_offset += read_count as u64;
        proof {
            assert(self@ == (ImageState { position: (address + read_count) as u64, ..before }));
            if old(self)@.consistent() {
                self.lemma_moved(before, old(self)@);
            }
        }
        Ok(read_count)
    }

    /// A state that differs from a consistent one in the position only is
    /// consistent, and maps, holds and counts what it did.
    proof fn lemma_moved(&self, before: ImageState, start: ImageState)
        requires
            before.consistent(),
            before.same_data(start),
            before.same_counts(start),
            self@ == (ImageState { position: self@.position, ..before }),
            self@.position <= self@.virtual_size(),
        ensures
            self@.consistent(),
            self@.same_data(start),
            self@.same_counts(start),
    {
        crate::steps::lemma_position_moved(before, self@);
    }

    // Writes a prefix of `data` to the file at `offset`, and returns its length.
    fn write_data(&mut self, offset: u64, data: &[u8]) -> (r: IoResult<usize>)
        requires
            old(self).wf(),
        ensures
            final(self).wf(),
            final(self).same_file_kind(old(self)),
            final(self).caches() == old(self).caches(),
            final(self)@ == (ImageState { disk: final(self)@.disk, ..old(self)@ }),
            r matches Ok(n) ==> n <= data@.len() && final(self)@.disk == written(
                old(self)@.disk,
                offset as nat,
                data@.take(n as int),
            ),
            r is Err ==> final(self)@.disk == old(self)@.disk,
            old(self).backing().reliable() && r is Ok ==> r == Ok::<usize, IoError>(
                data@.len() as usize,
            ),
            old(self).backing().reliable() && offset + data@.len() <= old(self)@.disk.len()
                ==> r is Ok,
            offset + data@.len() <= old(self)@.disk.len() ==> final(self)@.disk.len() == old(self)@.disk.len(),
    {
        proof {
            self.lemma_wf();
        }
        self.raw_file.file_mut().write_at(offset, data)
    }

    /// Writes `buf` at the position, as far as the image goes, and moves the
    /// position behind what was written. Clusters that had none in the file
    /// get one, which counts one reference; no other cluster of the image is
    /// mapped anew, and no address outside of what was written changes. Fewer
    /// bytes are written where the file takes fewer. At the end of the image
    /// nothing can be written: a write of one byte or more fails there.
    ///
    /// On a reliable file the write succeeds where every cluster of its
    /// range has a cluster of the file, and where the file has room: for two
    /// clusters for each cluster of the range, and for the clusters that the
    /// blocks of counts may take, one for each block that is not in the
    /// cache with changes, or none where every count is set in place. It
    /// fails there only at the end of the image or when the image has run
    /// out of room: no cluster can be handed out, or the reference-count
    /// table has no entry for a cluster of the file.
    ///
    /// Every count is afterwards what it was, or one, or that of a cluster
    /// that was retired; every cluster by which the file grew counts one
    /// reference or was retired.
    #[verifier::rlimit(60)]
    #[verifier::spinoff_prover]
    pub fn write(&mut self, buf: &[u8]) -> (r: IoResult<usize>)
        requires
            old(self).wf(),
        ensures
            final(self).wf(),
            old(self)@.consistent() ==> final(self)@.disk.len() <= MAX_FILE_LEN,
            final(self).same_file_kind(old(self)),
            final(self)@.header == old(self)@.header,
            final(self)@.cluster_size == old(self)@.cluster_size,
            final(self)@.l1.len() == old(self)@.l1.len(),
            final(self)@.ref_table.len() == old(self)@.ref_table.len(),
            final(self)@.disk.len() >= old(self)@.disk.len(),
            old(self)@.available.len() == 0 ==> final(self)@.available.len() == 0,
            r matches Ok(n) ==> n <= range_in_file(
                old(self)@.position,
                buf@.len() as usize,
                old(self)@.virtual_size(),
            ) && final(self)@.position == old(self)@.position + n,
            old(self).backing().reliable() ==> (r matches Ok(n) ==> n == range_in_file(
                old(self)@.position,
                buf@.len() as usize,
                old(self)@.virtual_size(),
            )),
            r is Err ==> final(self)@.position == old(self)@.position,
            ({
                let count = range_in_file(
                    old(self)@.position,
                    buf@.len() as usize,
                    old(self)@.virtual_size(),
                );
                let end = round_up(old(self)@.disk.len() as int, old(self)@.cluster_size as int) + 2
                    * old(self)@.span_of_clusters(old(self)@.position, count as int);
                let i = old(self)@.l1_index(old(self)@.position);
                old(self)@.consistent() && old(self)@.counts_in_place_to(end) && end + old(self)@.cluster_size <= MAX_FILE_LEN && old(self)@.l2_is_settled(i) && (count == 0 || old(self)@.l1_index((old(self)@.position + count - 1) as u64) == i) && r is Ok ==> final(self)@.pending == old(self)@.pending && final(self)@.l2_is_settled(i)
            }),
            final(self)@.pending_from(old(self)@),
            old(self)@.consistent() && old(self).backing().reliable() && old(self)@.position < old(self)@.virtual_size() && old(self)@.has_room(
                2 * old(self)@.span_of_clusters(
                    old(self)@.position,
                    range_in_file(
                        old(self)@.position,
                        buf@.len() as usize,
                        old(self)@.virtual_size(),
                    ) as int,
                ),
                old(self).backing().max_len(),
            ) ==> r is Ok,
            old(self)@.consistent() && r is Ok ==> final(self)@.growth_end() <= old(self)@.growth_end() + 2
                * old(self)@.span_of_clusters(
                old(self)@.position,
                range_in_file(
                    old(self)@.position,
                    buf@.len() as usize,
                    old(self)@.virtual_size(),
                ) as int,
            ) && (forall|i: int|
                old(self)@.block_changed(i) ==> #[trigger] final(self)@.block_changed(i)),
            old(self)@.consistent() && old(self).backing().reliable() && r is Err ==> (buf@.len() > 0
                && old(self)@.position >= old(self)@.virtual_size()) || final(self)@.is_exhausted(
                old(self).backing().max_len(),
            ),
            old(self)@.consistent() && r is Ok ==> final(self)@.counts_grown_from(old(self)@)
                && final(self)@.new_clusters_counted(old(self)@),
            old(self)@.consistent() && r is Ok ==> final(self)@.counts_data_as(old(self)@) && final(self)@.maps_as_but(
                old(self)@,
                old(self)@.position as int / (old(self)@.cluster_size as int),
                (old(self)@.position + range_in_file(
                    old(self)@.position,
                    buf@.len() as usize,
                    old(self)@.virtual_size(),
                ) - 1) / (old(self)@.cluster_size as int),
            ),
            old(self)@.consistent() ==> (
            r matches Ok(n) ==> final(self)@.consistent() && final(self)@.holds_written(
                old(self)@,
                old(self)@.position,
                buf@.take(n as int),
            ) && final(self)@.keeps_counts(old(self)@)),
            buf@.len() > 0 && old(self)@.position >= old(self)@.virtual_size() ==> r == Err::<
                usize,
                IoError,
            >(IoError::InvalidInput) && final(self)@ == old(self)@,
            old(self)@.consistent() && old(self).backing().reliable() && old(self)@.is_mapped(
                old(self)@.position,
                buf@.len() as int,
            ) && (buf@.len() == 0 || old(self)@.position < old(self)@.virtual_size()) ==> r is Ok,
            old(self)@.consistent() && old(self).backing().reliable() && old(self)@.position < old(self)@.virtual_size() && old(self)@.has_room_in_place(
                2 * old(self)@.span_of_clusters(
                    old(self)@.position,
                    range_in_file(
                        old(self)@.position,
                        buf@.len() as usize,
                        old(self)@.virtual_size(),
                    ) as int,
                ),
                old(self).backing().max_len(),
            ) ==> r is Ok,
            ({
                let end = round_up(old(self)@.disk.len() as int, old(self)@.cluster_size as int) + 2
                    * old(self)@.span_of_clusters(
                    old(self)@.position,
                    range_in_file(
                        old(self)@.position,
                        buf@.len() as usize,
                        old(self)@.virtual_size(),
                    ) as int,
                );
                old(self)@.consistent() && old(self)@.counts_in_place_to(end) && end + old(self)@.cluster_size <= MAX_FILE_LEN && r is Ok ==> round_up(
                    final(self)@.disk.len() as int,
                    old(self)@.cluster_size as int,
                ) <= end && (forall|x: u64|
                    old(self)@.counts_in_place(x) ==> #[trigger] final(self)@.counts_in_place(x))
            }),
    {
        proof {
            self.lemma_wf();
        }
        let address: u64 = self.current_offset;
        if buf.len() > 0 && address >= self.virtual_size() {
            // Nothing can be written at the end of the image.
            return Err(IoError::InvalidInput);
        }
        let write_count: usize = self.limit_range_file(address, buf.len());
        let ghost start = old(self)@;
        let ghost cs: int = start.cluster_size as int;
        let ghost last: int = address + write_count - 1;
        let ghost end: int = round_up(start.disk.len() as int, cs) + 2 * start.span_of_clusters(
            address,
            write_count as int,
        );
        let ghost in_place: bool = start.consistent() && start.counts_in_place_to(end) && end + cs
            <= MAX_FILE_LEN;
        let ghost max_len = old(self).backing().max_len();
        let ghost bound: int = start.growth_end() + 2 * start.span_of_clusters(
            address,
            write_count as int,
        );
        let ghost roomy: bool = start.consistent() && start.has_room(
            2 * start.span_of_clusters(address, write_count as int),
            max_len,
        );
        let ghost table: int = start.l1_index(address);
        let ghost one_table: bool = in_place && start.l2_is_settled(table) && (write_count == 0
            || start.l1_index(last as u64) == table);

        let mut nwritten: usize = 0;
        proof {
            assert(buf@.take(0) =~= Seq::<u8>::empty());
            if start.consistent() {
                crate::steps::lemma_consistent_geometry(start);
                if write_count > 0 {
                    crate::steps::lemma_cluster_starts(address as int, last, cs);
                }
            }
            if start.consistent() {
                crate::steps::lemma_growth_alloc(start, start, 0);
            }
        }
        while nwritten < write_count
            invariant_except_break
                start.consistent() && nwritten < write_count ==> self@.growth_end() + 2 * ((last
                    - last % cs) - ((address + nwritten) - (address + nwritten) % cs) + cs)
                    <= bound,
                in_place && nwritten < write_count ==> round_up(self@.disk.len() as int, cs) + 2 * ((
                last - last % cs) - ((address + nwritten) - (address + nwritten) % cs) + cs) <= end,
            invariant
                write_count == range_in_file(
                    start.position,
                    buf@.len() as usize,
                    start.virtual_size(),
                ),
                cs == start.cluster_size,
                last == address + write_count - 1,
                end == round_up(start.disk.len() as int, cs) + 2 * start.span_of_clusters(
                    address,
                    write_count as int,
                ),
                in_place == (start.consistent() && start.counts_in_place_to(end) && end + cs
                    <= MAX_FILE_LEN),
                in_place ==> forall|x: u64|
                    start.counts_in_place(x) ==> #[trigger] self@.counts_in_place(x),
                in_place ==> round_up(self@.disk.len() as int, cs) <= end,
                start.consistent() ==> self@.counts_data_as(start) && self@.maps_as_but(
                    start,
                    address as int / cs,
                    last / cs,
                ),
                max_len == old(self).backing().max_len(),
                bound == start.growth_end() + 2 * start.span_of_clusters(address, write_count as int),
                roomy == (start.consistent() && start.has_room(
                    2 * start.span_of_clusters(address, write_count as int),
                    max_len,
                )),
                start.consistent() ==> self@.growth_end() <= bound && (forall|i: int|
                    start.block_changed(i) ==> #[trigger] self@.block_changed(i)),
                self@.pending_from(start),
                table == start.l1_index(address),
                one_table == (in_place && start.l2_is_settled(table) && (write_count == 0
                    || start.l1_index(last as u64) == table)),
                one_table ==> self@.pending == start.pending && self@.l2_is_settled(table),
                start.consistent() ==> self@.counts_grown_from(start) && self@.new_clusters_counted(
                    start,
                ),
                nwritten <= write_count,
                write_count <= buf@.len(),
                address + write_count <= start.virtual_size(),
                address == start.position,
                start == old(self)@,
                self.wf(),
                self.same_file_kind(old(self)),
                self@.header == start.header,
                self@.cluster_size == start.cluster_size,
                self@.position == start.position,
                self@.l1.len() == start.l1.len(),
                self@.ref_table.len() == start.ref_table.len(),
                self@.disk.len() >= start.disk.len(),
                start.available.len() == 0 ==> self@.available.len() == 0,
                start.consistent() ==> self@.consistent() && self@.holds_written(
                    start,
                    address,
                    buf@.take(nwritten as int),
                ) && self@.keeps_counts(start),
                start.consistent() && old(self).backing().reliable() && start.is_mapped(
                    address,
                    buf@.len() as int,
                ) ==> self@.disk.len() == start.disk.len(),
            ensures
                write_count == range_in_file(
                    start.position,
                    buf@.len() as usize,
                    start.virtual_size(),
                ),
                cs == start.cluster_size,
                end == round_up(start.disk.len() as int, cs) + 2 * start.span_of_clusters(
                    address,
                    write_count as int,
                ),
                in_place == (start.consistent() && start.counts_in_place_to(end) && end + cs
                    <= MAX_FILE_LEN),
                in_place ==> forall|x: u64|
                    start.counts_in_place(x) ==> #[trigger] self@.counts_in_place(x),
                in_place ==> round_up(self@.disk.len() as int, cs) <= end,
                last == address + write_count - 1,
                start.consistent() ==> self@.counts_data_as(start) && self@.maps_as_but(
                    start,
                    address as int / cs,
                    last / cs,
                ),
                max_len == old(self).backing().max_len(),
                bound == start.growth_end() + 2 * start.span_of_clusters(address, write_count as int),
                roomy == (start.consistent() && start.has_room(
                    2 * start.span_of_clusters(address, write_count as int),
                    max_len,
                )),
                start.consistent() ==> self@.growth_end() <= bound && (forall|i: int|
                    start.block_changed(i) ==> #[trigger] self@.block_changed(i)),
                self@.pending_from(start),
                table == start.l1_index(address),
                one_table == (in_place && start.l2_is_settled(table) && (write_count == 0
                    || start.l1_index(last as u64) == table)),
                one_table ==> self@.pending == start.pending && self@.l2_is_settled(table),
                start.consistent() ==> self@.counts_grown_from(start) && self@.new_clusters_counted(
                    start,
                ),
                nwritten <= write_count,
                write_count <= buf@.len(),
                address + write_count <= start.virtual_size(),
                address == start.position,
                old(self).backing().reliable() ==> nwritten == write_count,
                self.wf(),
                self.same_file_kind(old(self)),
                self@.header == start.header,
                self@.cluster_size == start.cluster_size,
                self@.position == start.position,
                self@.l1.len() == start.l1.len(),
                self@.ref_table.len() == start.ref_table.len(),
                self@.disk.len() >= start.disk.len(),
                start.available.len() == 0 ==> self@.available.len() == 0,
                start.consistent() ==> self@.consistent() && self@.holds_written(
                    start,
                    address,
                    buf@.take(nwritten as int),
                ) && self@.keeps_counts(start),
            decreases write_count - nwritten,
        {
            let curr_addr: u64 = address + nwritten as u64;
            let ghost entry = self@;
            proof {
                if start.consistent() && old(self).backing().reliable() && start.is_mapped(
                    address,
                    buf@.len() as int,
                ) {
                    crate::steps::lemma_consistent_geometry(start);
                    assert(start.host_cluster(curr_addr) != 0);
                    assert(entry.entry((curr_addr / start.cluster_size) as int) == start.entry(
                        (curr_addr / start.cluster_size) as int,
                    ));
                }
            }
            proof {
                if start.consistent() {
                    crate::steps::lemma_consistent_geometry(start);
                    crate::steps::lemma_cluster_starts(curr_addr as int, last, cs);
                }
                if roomy {
                    assert(entry.has_room(2 * cs, max_len));
                }
            }
            proof {
                if one_table {
                    crate::steps::lemma_one_table(start, address, curr_addr, last as u64);
                    assert(entry.l1_index(curr_addr) == table);
                }
            }
            proof {
                if in_place {
                    crate::steps::lemma_consistent_geometry(start);
                    crate::steps::lemma_cluster_starts(curr_addr as int, last, cs);
                    assert forall|x: u64|
                        x < round_up(entry.disk.len() as int, cs) + 2 * cs implies #[trigger] entry.counts_in_place(
                        x,
                    ) by {
                        assert(start.counts_in_place(x));
                    }
                }
            }
            let offset: u64 = self.file_offset_write(curr_addr)?;
            let count: usize = self.limit_range_cluster(curr_addr, write_count - nwritten);
            proof {
                self.lemma_wf();
            }
            let ghost mapped = self@;
            let chunk: &[u8] = slice_subrange(buf, nwritten, nwritten + count);
            proof {
                if start.consistent() && self@.disk.len() <= MAX_FILE_LEN {
                    crate::steps::lemma_chunk_bytes(mapped, curr_addr, count as int);
                }
            }
            let written_now: usize = self.write_data(offset, chunk)?;
            proof {
                if start.consistent() && self@.disk.len() <= MAX_FILE_LEN {
                    crate::steps::lemma_consistent_geometry(start);
                    let part = chunk@.take(written_now as int);
                    lemma_data_written(mapped, curr_addr, part, self@);
                    lemma_write_progress(
                        start,
                        entry,
                        mapped,
                        self@,
                        address,
                        buf@.take(nwritten as int),
                        part,
                    );
                    assert(buf@.take(nwritten as int) + part =~= buf@.take(nwritten + written_now));
                }
            }
            proof {
                if start.consistent() {
                    crate::steps::lemma_consistent_geometry(start);
                    vstd::arithmetic::div_mod::lemma_div_is_ordered(
                        address as int,
                        curr_addr as int,
                        cs,
                    );
                    vstd::arithmetic::div_mod::lemma_div_is_ordered(curr_addr as int, last, cs);
                    crate::steps::lemma_write_step_counts(
                        start,
                        entry,
                        mapped,
                        self@,
                        curr_addr as int / cs,
                        address as int / cs,
                        last / cs,
                    );
                    crate::steps::lemma_counts_grown_trans(mapped, entry, start);
                    crate::steps::lemma_counts_grown_same(self@, mapped, start);
                    crate::steps::lemma_growth_alloc(mapped, self@, 0);
                    assert forall|i: int| start.block_changed(i) implies #[trigger] self@.block_changed(
                        i,
                    ) by {
                        assert(entry.block_changed(i));
                        assert(mapped.block_changed(i));
                    }
                }
            }
            proof {
                if in_place {
                    assert(self@.disk.len() == mapped.disk.len());
                    assert forall|x: u64| start.counts_in_place(x) implies #[trigger] self@.counts_in_place(
                        x,
                    ) by {
                        assert(entry.counts_in_place(x));
                        assert(mapped.counts_in_place(x));
                    }
                }
            }
            nwritten += written_now;
            if written_now < count {
                break;
            }
        }
        let ghost before = self@;
        proof {
            self.lemma_wf();
        }
        self.current_offset += nwritten as u64;
        proof {
            if in_place {
                assert forall|x: u64| start.counts_in_place(x) implies #[trigger] self@.counts_in_place(
                    x,
                ) by {
                    assert(before.counts_in_place(x));
                }
                assert(self@.disk == before.disk);
            }
            if start.consistent() {
                assert forall|x: u64| #[trigger] self@.refcount(x) == before.refcount(x) by {}
                crate::steps::lemma_counts_grown_same(self@, before, start);
                crate::steps::lemma_growth_alloc(before, self@, 0);
                assert forall|i: int| start.block_changed(i) implies #[trigger] self@.block_changed(
                    i,
                ) by {
                    assert(before.block_changed(i));
                }
            }
            assert(self@ == (ImageState { position: (address + nwritten) as u64, ..before }));
            if start.consistent() && self@.disk.len() <= MAX_FILE_LEN {
                crate::steps::lemma_position_moved(before, self@);
                crate::steps::lemma_same_data_written(
                    self@,
                    before,
                    start,
                    address,
                    buf@.take(nwritten as int),
                );
            }
        }
        Ok(nwritten)
    }
}

/// Reads the L1 table and the reference-count table of the image with
/// header `header`.
fn read_tables<F: DiskFile>(raw_file: &QcowRawFile<F>, header: &QcowHeader) -> (r: Result<
    (Vec<u64>, Vec<u64>),
>)
    requires
        crate::header::validation_error(*header) is None,
        raw_file.cluster_bytes() == cluster_size_of(header.cluster_bits),
    ensures
        raw_file.backing().reliable() ==> match crate::model::tables_error(
            raw_file.backing().bytes(),
            *header,
        ) {
            Some(e) => r == Err::<(Vec<u64>, Vec<u64>), Error>(e),
            None => r is Ok,
        },
        r matches Ok((l1, refs)) ==> crate::model::tables_error(
            raw_file.backing().bytes(),
            *header,
        ) is None && l1@ == opened(raw_file.backing().bytes(), *header).l1 && refs@ == opened(
            raw_file.backing().bytes(),
            *header,
        ).ref_table,
        r matches Err(e) ==> crate::model::tables_error(raw_file.backing().bytes(), *header)
            == Some(e) || (e matches Error::ReadingHeader(_)),
{
    let cluster_size: u64 = raw_file.cluster_size();
    proof {
        lemma_cluster_size_bounds(header.cluster_bits);
    }
    let raw_l1: Vec<u64> = match raw_file.read_pointer_table(
        header.l1_table_offset,
        header.l1_size as u64,
        None,
    ) {
        Ok(t) => t,
        Err(e) => {
            return Err(Error::ReadingHeader(e));
        },
    };
    let l1_table: Vec<u64> = match l1_offsets(&raw_l1) {
        Some(t) => t,
        None => {
            return Err(Error::CompressedBlocksNotSupported);
        },
    };
    let num_clusters: u64 = div_round_up_u64(header.size, cluster_size);
    proof {
        lemma_div_ceil(header.size as int, cluster_size as int);
        let a = header.size as int;
        let cs = cluster_size as int;
        assert(a / cs <= 0x0fff_ffff_ffff_ffff) by (nonlinear_arith)
            requires
                0 <= a <= u64::MAX,
                cs >= 16,
        ;
        vstd::arithmetic::power2::lemma2_to64();
    }
    let refcount_clusters: u64 = max_refcount_clusters(
        header.refcount_order,
        cluster_size,
        num_clusters,
    );
    let ref_table: Vec<u64> = match raw_file.read_pointer_table(
        header.refcount_table_offset,
        refcount_clusters,
        None,
    ) {
        Ok(t) => t,
        Err(e) => {
            return Err(Error::ReadingHeader(e));
        },
    };
    Ok((l1_table, ref_table))
}

/// The offset of an entry in the L1 table is no greater than the address that
/// the entry maps.
proof fn lemma_l1_offset_small(a: int, cs: int, n: int)
    requires
        a >= 0,
        cs >= 16,
        n >= 2,
        n * 8 == cs,
    ensures
        0 <= (a / cs) / n * 8 <= a,
{
    assert(0 <= (a / cs) / n * 8 <= a) by (nonlinear_arith)
        requires
            a >= 0,
            cs >= 16,
            n >= 2,
            n * 8 == cs,
    ;
}

/// A 32-bit number of clusters takes fewer bytes than 64 bits can count.
proof fn lemma_clusters_fit(count: int, cs: int)
    requires
        0 <= count <= 0xffff_ffff,
        0 <= cs <= 0x4000_0000,
    ensures
        0 <= count * cs <= 0x3fff_ffff_c000_0000,
{
    assert(0 <= count * cs <= 0x3fff_ffff_c000_0000) by (nonlinear_arith)
        requires
            0 <= count <= 0xffff_ffff,
            0 <= cs <= 0x4000_0000,
    ;
}

/// Checks that the L1 and refcount tables fit in a 64bit address space.
#[verifier::spinoff_prover]
fn check_address_space(header: &QcowHeader) -> (r: Result<()>)
    requires
        MIN_CLUSTER_BITS <= header.cluster_bits <= MAX_CLUSTER_BITS,
    ensures
        r == match crate::model::address_space_error(*header) {
            Some(e) => Err::<(), Error>(e),
            None => Ok::<(), Error>(()),
        },
{
    let cluster_size: u64 = cluster_size(header.cluster_bits);
    proof {
        lemma_cluster_size_bounds(header.cluster_bits);
    }
    let l2_entries: u64 = cluster_size / 8;
    let l1_index: u64 = (header.size / cluster_size) / l2_entries;
    proof {
        lemma_l1_offset_small(header.size as int, cluster_size as int, l2_entries as int);
        lemma_clusters_fit(header.refcount_table_clusters as int, cluster_size as int);
    }
    let l1_offset: u64 = l1_index * 8;
    assert(l1_offset == crate::model::l1_end_offset(*header));
    if header.l1_table_offset.checked_add(l1_offset).is_none() {
        return Err(Error::InvalidL1TableOffset);
    }
    let table_bytes: u64 = header.refcount_table_clusters as u64 * cluster_size;
    if header.refcount_table_offset.checked_add(table_bytes).is_none() {
        return Err(Error::InvalidRefcountTableOffset);
    }
    Ok(())
}

/// The entries of an L1 table as it is read from the file, each reduced to
/// the offset that it holds; `None` if an entry has the flag of a compressed
/// cluster.
fn l1_offsets(raw: &Vec<u64>) -> (r: Option<Vec<u64>>)
    ensures
        match r {
            Some(table) => !crate::model::has_compressed(raw@) && table@
                == crate::model::offsets_of(raw@),
            None => crate::model::has_compressed(raw@),
        },
{
    let mut table: Vec<u64> = Vec::with_capacity(raw.len());
    let mut i: usize = 0;
    while i < raw.len()
        invariant
            i <= raw@.len(),
            table@ == crate::model::offsets_of(raw@.take(i as int)),
            forall|k: int| 0 <= k < i ==> #[trigger] raw@[k] & COMPRESSED_FLAG == 0,
        decreases raw@.len() - i,
    {
        let entry: u64 = raw[i];
        if entry & COMPRESSED_FLAG != 0 {
            return None;
        }
        table.push(entry & L1_TABLE_OFFSET_MASK);
        assert(table@ =~= crate::model::offsets_of(raw@.take(i + 1)));
        i += 1;
    }
    assert(raw@.take(raw@.len() as int) =~= raw@);
    Some(table)
}

/// Copies `data` into `buf` at `at`.
fn copy_into(buf: &mut [u8], at: usize, data: &Vec<u8>)
    requires
        at + data@.len() <= old(buf)@.len(),
    ensures
        final(buf)@ == old(buf)@.take(at as int) + data@ + old(buf)@.skip(at + data@.len()),
{
    let len: usize = buf.len();
    let n: usize = data.len();
    let mut i: usize = 0;
    while i < n
        invariant
            i <= n,
            n == data@.len(),
            buf@.len() <= usize::MAX,
            at + n <= buf@.len(),
            buf@.len() == old(buf)@.len(),
            forall|j: int| 0 <= j < buf@.len() && !(at <= j < at + i) ==> buf@[j] == old(buf)@[j],
            forall|j: int| at <= j < at + i ==> buf@[j] == data@[j - at],
        decreases n - i,
    {
        buf[at + i] = data[i];
        i += 1;
    }
    assert(buf@ =~= old(buf)@.take(at as int) + data@ + old(buf)@.skip(at + data@.len()));
}

/// The zero bytes that fill a cluster of `size` bytes.
fn zero_cluster(size: u64) -> (r: Vec<u8>)
    requires
        size <= 0x4000_0000,
    ensures
        r@ == crate::model::zero_bytes(size as nat),
{
    let mut zeros: Vec<u8> = Vec::new();
    zeros.resize(size as usize, 0u8);
    assert(zeros@ =~= crate::model::zero_bytes(size as nat));
    zeros
}

/// Sets `count` bytes of `buf` at `at` to zero.
fn zero_fill(buf: &mut [u8], at: usize, count: usize)
    requires
        at + count <= old(buf)@.len(),
    ensures
        final(buf)@ == old(buf)@.take(at as int) + Seq::new(count as nat, |i: int| 0u8) + old(
            buf,
        )@.skip(at + count),
{
    let len: usize = buf.len();
    let mut i: usize = 0;
    while i < count
        invariant
            i <= count,
            buf@.len() <= usize::MAX,
            at + count <= buf@.len(),
            buf@.len() == old(buf)@.len(),
            forall|j: int| 0 <= j < buf@.len() && !(at <= j < at + i) ==> buf@[j] == old(buf)@[j],
            forall|j: int| at <= j < at + i ==> buf@[j] == 0u8,
        decreases count - i,
    {
        buf[at + i] = 0;
        i += 1;
    }
    assert(buf@ =~= old(buf)@.take(at as int) + Seq::new(count as nat, |i: int| 0u8) + old(
        buf,
    )@.skip(at + count));
}

/// Whether the cache `a` holds the blocks of the cache `b`, whatever their
/// dirty bits.
pub open spec fn same_blocks<T>(a: Map<usize, (Seq<T>, bool)>, b: Map<usize, (Seq<T>, bool)>) -> bool {
    &&& forall|k: usize| a.contains_key(k) <==> b.contains_key(k)
    &&& forall|k: usize| a.contains_key(k) ==> (#[trigger] a[k]).0 == b[k].0
}

/// An entry of a table read with the offset mask leaves room for an offset
/// within a cluster.
pub proof fn lemma_masked_entries(disk: Seq<u8>, offset: int, count: nat, cluster_size: u64)
    requires
        cluster_size <= 0x4000_0000,
    ensures
        forall|i: int|
            0 <= i < count ==> #[trigger] pointer_table_at(
                disk,
                offset,
                count,
                L2_TABLE_OFFSET_MASK,
            )[i] + cluster_size <= u64::MAX,
{
    assert forall|i: int| 0 <= i < count implies #[trigger] pointer_table_at(
        disk,
        offset,
        count,
        L2_TABLE_OFFSET_MASK,
    )[i] + cluster_size <= u64::MAX by {
        let w = crate::raw_file::pointer_at(disk, offset, i);
        assert(w & 0x00ff_ffff_ffff_fe00u64 <= 0x00ff_ffff_ffff_fe00u64) by (bit_vector);
    }
}

/// The sum of `base` and `off`, if it is a 64-bit unsigned number.
fn offset_by(base: u64, off: i64) -> (r: Option<u64>)
    ensures
        r == if 0 <= base + off <= u64::MAX {
            Some((base + off) as u64)
        } else {
            None::<u64>
        },
{
    if off < 0 {
        let back: u64 = if off == i64::MIN {
            0x8000_0000_0000_0000
        } else {
            (-off) as u64
        };
        base.checked_sub(back)
    } else {
        base.checked_add(off as u64)
    }
}

} // verus!
