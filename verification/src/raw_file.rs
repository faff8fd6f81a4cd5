//! Typed access to the image file: tables of 64-bit pointers, blocks of
//! 16-bit reference counts, and new clusters at the end.

use vstd::prelude::*;
use vstd::slice::slice_subrange;
use crate::disk::{file_inv, resized, write_all_at, written, DiskFile};
use crate::endian::{
    be_u16,
    be_u64,
    lemma_be_u16_of_bytes,
    lemma_be_u64_of_bytes,
    put_u16,
    put_u64,
    read_be_u16,
    read_be_u64,
    u16_be_bytes,
    u64_be_bytes,
};
use crate::error::{IoError, IoResult};
use crate::geometry::{is_cluster_geometry, lemma_cluster_geometry};

verus! {

/// Entry `i` of the table of 64-bit big-endian words that starts at `offset`
/// of `bytes`.
pub open spec fn pointer_at(bytes: Seq<u8>, offset: int, i: int) -> u64 {
    be_u64(bytes.subrange(offset + 8 * i, offset + 8 * i + 8))
}

/// The table of `count` 64-bit big-endian words that starts at `offset` of
/// `bytes`, each word and-ed with `mask`.
pub open spec fn pointer_table_at(bytes: Seq<u8>, offset: int, count: nat, mask: u64) -> Seq<u64> {
    Seq::new(count, |i: int| pointer_at(bytes, offset, i) & mask)
}

/// The mask that `mask` stands for: all ones if there is none.
pub open spec fn mask_or_all(mask: Option<u64>) -> u64 {
    match mask {
        Some(m) => m,
        None => 0xffff_ffff_ffff_ffff,
    }
}

/// The word stored for table entry `entry`: zero for zero, and otherwise the
/// entry with `flags` set.
pub open spec fn stamped(entry: u64, flags: u64) -> u64 {
    if entry == 0 {
        0
    } else {
        entry | flags
    }
}

/// The bytes that store `table`, with `flags` set in each word that is not
/// zero.
pub open spec fn pointer_table_bytes(table: Seq<u64>, flags: u64) -> Seq<u8>
    decreases table.len(),
{
    if table.len() == 0 {
        Seq::empty()
    } else {
        pointer_table_bytes(table.drop_last(), flags) + u64_be_bytes(stamped(table.last(), flags))
    }
}

/// Entry `i` of the block of 16-bit big-endian counts that starts at
/// `offset` of `bytes`.
pub open spec fn refcount_at(bytes: Seq<u8>, offset: int, i: int) -> u16 {
    be_u16(bytes.subrange(offset + 2 * i, offset + 2 * i + 2))
}

/// The block of `count` 16-bit big-endian counts that starts at `offset` of
/// `bytes`.
pub open spec fn refcount_block_at(bytes: Seq<u8>, offset: int, count: nat) -> Seq<u16> {
    Seq::new(count, |i: int| refcount_at(bytes, offset, i))
}

/// The bytes that store the reference counts `counts`.
pub open spec fn refcount_block_bytes(counts: Seq<u16>) -> Seq<u8>
    decreases counts.len(),
{
    if counts.len() == 0 {
        Seq::empty()
    } else {
        refcount_block_bytes(counts.drop_last()) + u16_be_bytes(counts.last())
    }
}

/// The least multiple of `size` that is not below `n`.
pub open spec fn round_up(n: int, size: int) -> int
    recommends
        size > 0,
{
    if n % size == 0 {
        n
    } else {
        n - n % size + size
    }
}

/// A stored pointer table takes eight bytes per entry, and its words are the
/// entries, stamped.
pub proof fn lemma_pointer_table_bytes(table: Seq<u64>, flags: u64)
    ensures
        pointer_table_bytes(table, flags).len() == 8 * table.len(),
        forall|i: int|
            0 <= i < table.len() ==> #[trigger] pointer_at(pointer_table_bytes(table, flags), 0, i)
                == stamped(table[i], flags),
    decreases table.len(),
{
    if table.len() > 0 {
        let head = table.drop_last();
        lemma_pointer_table_bytes(head, flags);
        lemma_be_u64_of_bytes(stamped(table.last(), flags));
        let all = pointer_table_bytes(table, flags);
        let front = pointer_table_bytes(head, flags);
        assert forall|i: int| 0 <= i < table.len() implies #[trigger] pointer_at(all, 0, i)
            == stamped(table[i], flags) by {
            if i < head.len() {
                assert(all.subrange(8 * i, 8 * i + 8) =~= front.subrange(8 * i, 8 * i + 8));
                assert(pointer_at(front, 0, i) == stamped(head[i], flags));
            } else {
                assert(all.subrange(8 * i, 8 * i + 8) =~= u64_be_bytes(
                    stamped(table.last(), flags),
                ));
            }
        }
    }
}

/// A stored block of reference counts takes two bytes per count, and its
/// words are the counts.
pub proof fn lemma_refcount_block_bytes(counts: Seq<u16>)
    ensures
        refcount_block_bytes(counts).len() == 2 * counts.len(),
        forall|i: int|
            0 <= i < counts.len() ==> #[trigger] refcount_at(refcount_block_bytes(counts), 0, i)
                == counts[i],
    decreases counts.len(),
{
    if counts.len() > 0 {
        let head = counts.drop_last();
        lemma_refcount_block_bytes(head);
        lemma_be_u16_of_bytes(counts.last());
        let all = refcount_block_bytes(counts);
        let front = refcount_block_bytes(head);
        assert forall|i: int| 0 <= i < counts.len() implies #[trigger] refcount_at(all, 0, i)
            == counts[i] by {
            if i < head.len() {
                assert(all.subrange(2 * i, 2 * i + 2) =~= front.subrange(2 * i, 2 * i + 2));
                assert(refcount_at(front, 0, i) == head[i]);
            } else {
                assert(all.subrange(2 * i, 2 * i + 2) =~= u16_be_bytes(counts.last()));
            }
        }
    }
}

/// The table of pointers that `buf` stores, each and-ed with `mask`.
pub fn decode_pointer_table(buf: &[u8], mask: u64) -> (table: Vec<u64>)
    requires
        buf@.len() % 8 == 0,
    ensures
        table@ == pointer_table_at(buf@, 0, (buf@.len() / 8) as nat, mask),
{
    let count: usize = buf.len() / 8;
    let mut table: Vec<u64> = Vec::with_capacity(count);
    let mut i: usize = 0;
    while i < count
        invariant
            i <= count,
            count == buf@.len() / 8,
            buf@.len() % 8 == 0,
            buf@.len() <= usize::MAX,
            table@ == pointer_table_at(buf@, 0, i as nat, mask),
        decreases count - i,
    {
        let word: u64 = read_be_u64(slice_subrange(buf, 8 * i, 8 * i + 8));
        table.push(word & mask);
        assert(table@ =~= pointer_table_at(buf@, 0, (i + 1) as nat, mask));
        i += 1;
    }
    table
}

/// The bytes that store `table`, with `flags` set in each word that is not
/// zero.
pub fn encode_pointer_table(table: &Vec<u64>, flags: u64) -> (out: Vec<u8>)
    ensures
        out@ == pointer_table_bytes(table@, flags),
{
    let mut out: Vec<u8> = Vec::new();
    let n: usize = table.len();
    let mut i: usize = 0;
    while i < n
        invariant
            i <= n,
            n == table@.len(),
            out@ == pointer_table_bytes(table@.take(i as int), flags),
        decreases n - i,
    {
        let addr: u64 = table[i];
        let val: u64 = if addr == 0 {
            0
        } else {
            addr | flags
        };
        put_u64(&mut out, val);
        assert(table@.take(i + 1).drop_last() =~= table@.take(i as int));
        i += 1;
    }
    assert(table@.take(n as int) =~= table@);
    out
}

/// The reference counts that `buf` stores.
pub fn decode_refcount_block(buf: &[u8]) -> (counts: Vec<u16>)
    requires
        buf@.len() % 2 == 0,
    ensures
        counts@ == refcount_block_at(buf@, 0, (buf@.len() / 2) as nat),
{
    let count: usize = buf.len() / 2;
    let mut counts: Vec<u16> = Vec::with_capacity(count);
    let mut i: usize = 0;
    while i < count
        invariant
            i <= count,
            count == buf@.len() / 2,
            buf@.len() % 2 == 0,
            buf@.len() <= usize::MAX,
            counts@ == refcount_block_at(buf@, 0, i as nat),
        decreases count - i,
    {
        let word: u16 = read_be_u16(slice_subrange(buf, 2 * i, 2 * i + 2));
        counts.push(word);
        assert(counts@ =~= refcount_block_at(buf@, 0, (i + 1) as nat));
        i += 1;
    }
    counts
}

/// The bytes that store the reference counts `counts`.
pub fn encode_refcount_block(counts: &Vec<u16>) -> (out: Vec<u8>)
    ensures
        out@ == refcount_block_bytes(counts@),
{
    let mut out: Vec<u8> = Vec::new();
    let n: usize = counts.len();
    let mut i: usize = 0;
    while i < n
        invariant
            i <= n,
            n == counts@.len(),
            out@ == refcount_block_bytes(counts@.take(i as int)),
        decreases n - i,
    {
        put_u16(&mut out, counts[i]);
        assert(counts@.take(i + 1).drop_last() =~= counts@.take(i as int));
        i += 1;
    }
    assert(counts@.take(n as int) =~= counts@);
    out
}

/// A table read from a part of a file is the table at that place of the
/// file.
pub proof fn lemma_pointer_table_of_subrange(
    bytes: Seq<u8>,
    offset: int,
    count: nat,
    mask: u64,
)
    requires
        0 <= offset,
        offset + 8 * count <= bytes.len(),
    ensures
        pointer_table_at(bytes.subrange(offset, offset + 8 * count), 0, count, mask)
            == pointer_table_at(bytes, offset, count, mask),
{
    let part = bytes.subrange(offset, offset + 8 * count);
    assert forall|i: int| 0 <= i < count implies pointer_at(part, 0, i) == pointer_at(
        bytes,
        offset,
        i,
    ) by {
        assert(part.subrange(8 * i, 8 * i + 8) =~= bytes.subrange(
            offset + 8 * i,
            offset + 8 * i + 8,
        ));
    }
    assert(pointer_table_at(part, 0, count, mask) =~= pointer_table_at(
        bytes,
        offset,
        count,
        mask,
    ));
}

/// A block of counts read from a part of a file is the block at that place
/// of the file.
pub proof fn lemma_refcount_block_of_subrange(bytes: Seq<u8>, offset: int, count: nat)
    requires
        0 <= offset,
        offset + 2 * count <= bytes.len(),
    ensures
        refcount_block_at(bytes.subrange(offset, offset + 2 * count), 0, count)
            == refcount_block_at(bytes, offset, count),
{
    let part = bytes.subrange(offset, offset + 2 * count);
    assert forall|i: int| 0 <= i < count implies refcount_at(part, 0, i) == refcount_at(
        bytes,
        offset,
        i,
    ) by {
        assert(part.subrange(2 * i, 2 * i + 2) =~= bytes.subrange(
            offset + 2 * i,
            offset + 2 * i + 2,
        ));
    }
    assert(refcount_block_at(part, 0, count) =~= refcount_block_at(bytes, offset, count));
}

/// A qcow file. Allows reading/writing clusters and appending clusters.
pub struct QcowRawFile<F: DiskFile> {
    file: F,
    cluster_size: u64,
    cluster_mask: u64,
}

impl<F: DiskFile> QcowRawFile<F> {
    /// The file that holds the image.
    pub closed spec fn backing(&self) -> F {
        self.file
    }

    /// The size of a cluster in bytes.
    pub closed spec fn cluster_bytes(&self) -> u64 {
        self.cluster_size
    }

    /// The mask of the offsets within a cluster.
    pub closed spec fn offset_mask(&self) -> u64 {
        self.cluster_mask
    }

    /// Whether the file is as its operations leave it.
    pub open spec fn inv(&self) -> bool {
        file_inv(&self.backing())
    }

    /// Whether the cluster size is a supported one, the mask is its mask,
    /// and the file is as its operations leave it.
    pub open spec fn wf(&self) -> bool {
        is_cluster_geometry(self.cluster_bytes(), self.offset_mask()) && self.inv()
    }

    /// Wraps `file`, whose clusters have `cluster_size` bytes, with
    /// `cluster_mask` the mask of the offsets within a cluster.
    pub fn from(file: F, cluster_size: u64, cluster_mask: u64) -> (r: Self)
        ensures
            r.backing() == file,
            r.cluster_bytes() == cluster_size,
            r.offset_mask() == cluster_mask,
    {
        QcowRawFile { file, cluster_size, cluster_mask }
    }

    /// Reads a `count` 64 bit offsets and returns them as a vector.
    /// `mask` optionally ands out some of the bits on the file.
    pub fn read_pointer_table(&self, offset: u64, count: u64, mask: Option<u64>) -> (r: IoResult<
        Vec<u64>,
    >)
        ensures
            r matches Ok(table) ==> 8 * count <= usize::MAX && offset + 8 * count
                <= self.backing().bytes().len() && table@ == pointer_table_at(
                self.backing().bytes(),
                offset as int,
                count as nat,
                mask_or_all(mask),
            ),
            self.backing().reliable() ==> (r is Ok <==> 8 * count <= usize::MAX && offset + 8
                * count <= self.backing().bytes().len()),
            self.backing().reliable() && r is Err ==> r == Err::<Vec<u64>, IoError>(
                if 8 * count > usize::MAX {
                    IoError::InvalidInput
                } else {
                    IoError::UnexpectedEof
                },
            ),
    {
        if count > (usize::MAX / 8) as u64 {
            return Err(IoError::InvalidInput);
        }
        let nbytes: usize = (count as usize) * 8;
        let buf: Vec<u8> = self.file.read_exact_at(offset, nbytes)?;
        let mask: u64 = match mask {
            Some(m) => m,
            None => 0xffff_ffff_ffff_ffff,
        };
        proof {
            lemma_pointer_table_of_subrange(
                self.file.bytes(),
                offset as int,
                count as nat,
                mask,
            );
        }
        Ok(decode_pointer_table(buf.as_slice(), mask))
    }

    /// Reads a cluster's worth of 64 bit offsets and returns them as a vector.
    /// `mask` optionally ands out some of the bits on the file.
    pub fn read_pointer_cluster(&self, offset: u64, mask: Option<u64>) -> (r: IoResult<Vec<u64>>)
        requires
            self.wf(),
        ensures
            r matches Ok(table) ==> offset + self.cluster_bytes() <= self.backing().bytes().len()
                && table@ == pointer_table_at(
                self.backing().bytes(),
                offset as int,
                (self.cluster_bytes() / 8) as nat,
                mask_or_all(mask),
            ),
            self.backing().reliable() ==> (r is Ok <==> offset + self.cluster_bytes()
                <= self.backing().bytes().len()),
    {
        proof {
            lemma_cluster_geometry(self.cluster_size, self.cluster_mask);
        }
        let count: u64 = self.cluster_size / 8;
        self.read_pointer_table(offset, count, mask)
    }

    /// Writes `table`, a `Vec` of u64 pointers to `offset` in the file.
    /// `non_zero_flags` will be ORed with all non-zero values in `table`.
    /// writing.
    pub fn write_pointer_table(&mut self, offset: u64, table: &Vec<u64>, non_zero_flags: u64) -> (r:
        IoResult<()>)
        requires
            old(self).inv(),
        ensures
            final(self).inv(),
            final(self).cluster_bytes() == old(self).cluster_bytes(),
            final(self).offset_mask() == old(self).offset_mask(),
            final(self).backing().reliable() == old(self).backing().reliable(),
            final(self).backing().max_len() == old(self).backing().max_len(),
            r is Ok ==> final(self).backing().bytes() == written(
                old(self).backing().bytes(),
                offset as nat,
                pointer_table_bytes(table@, non_zero_flags),
            ),
            old(self).backing().reliable() && r is Err ==> final(self).backing().bytes() == old(
                self,
            ).backing().bytes(),
            old(self).backing().reliable() ==> (r is Ok <==> table@.len() == 0 || offset + 8
                * table@.len() <= old(self).backing().max_len()),
            final(self).backing().bytes().len() >= old(self).backing().bytes().len(),
            offset + 8 * table@.len() <= old(self).backing().bytes().len() ==> final(self).backing().bytes().len() == old(self).backing().bytes().len(),
    {
        let bytes: Vec<u8> = encode_pointer_table(table, non_zero_flags);
        proof {
            lemma_pointer_table_bytes(table@, non_zero_flags);
        }
        if bytes.len() as u64 > u64::MAX - offset {
            return Err(IoError::InvalidInput);
        }
        write_all_at(&mut self.file, offset, bytes.as_slice())
    }

    /// Read a refcount block from the file and returns a Vec containing the block.
    /// Always returns a cluster's worth of data.
    pub fn read_refcount_block(&self, offset: u64) -> (r: IoResult<Vec<u16>>)
        requires
            self.wf(),
        ensures
            r matches Ok(counts) ==> offset + self.cluster_bytes() <= self.backing().bytes().len()
                && counts@ == refcount_block_at(
                self.backing().bytes(),
                offset as int,
                (self.cluster_bytes() / 2) as nat,
            ),
            self.backing().reliable() ==> (r is Ok <==> offset + self.cluster_bytes()
                <= self.backing().bytes().len()),
    {
        proof {
            lemma_cluster_geometry(self.cluster_size, self.cluster_mask);
        }
        let nbytes: usize = self.cluster_size as usize;
        let buf: Vec<u8> = self.file.read_exact_at(offset, nbytes)?;
        proof {
            lemma_refcount_block_of_subrange(
                self.file.bytes(),
                offset as int,
                (self.cluster_size / 2) as nat,
            );
        }
        Ok(decode_refcount_block(buf.as_slice()))
    }

    /// Writes a refcount block to the file.
    pub fn write_refcount_block(&mut self, offset: u64, table: &Vec<u16>) -> (r: IoResult<()>)
        requires
            old(self).inv(),
        ensures
            final(self).inv(),
            final(self).cluster_bytes() == old(self).cluster_bytes(),
            final(self).offset_mask() == old(self).offset_mask(),
            final(self).backing().reliable() == old(self).backing().reliable(),
            final(self).backing().max_len() == old(self).backing().max_len(),
            r is Ok ==> final(self).backing().bytes() == written(
                old(self).backing().bytes(),
                offset as nat,
                refcount_block_bytes(table@),
            ),
            old(self).backing().reliable() && r is Err ==> final(self).backing().bytes() == old(
                self,
            ).backing().bytes(),
            old(self).backing().reliable() ==> (r is Ok <==> table@.len() == 0 || offset + 2
                * table@.len() <= old(self).backing().max_len()),
            final(self).backing().bytes().len() >= old(self).backing().bytes().len(),
            offset + 2 * table@.len() <= old(self).backing().bytes().len() ==> final(self).backing().bytes().len()
                == old(self).backing().bytes().len(),
    {
        let bytes: Vec<u8> = encode_refcount_block(table);
        proof {
            lemma_refcount_block_bytes(table@);
        }
        if bytes.len() as u64 > u64::MAX - offset {
            return Err(IoError::InvalidInput);
        }
        write_all_at(&mut self.file, offset, bytes.as_slice())
    }

    /// Allocates a new cluster at the end of the current file, return the address.
    pub fn add_cluster_end(&mut self) -> (r: IoResult<u64>)
        requires
            old(self).wf(),
        ensures
            final(self).inv(),
            final(self).cluster_bytes() == old(self).cluster_bytes(),
            final(self).offset_mask() == old(self).offset_mask(),
            final(self).backing().reliable() == old(self).backing().reliable(),
            final(self).backing().max_len() == old(self).backing().max_len(),
            r matches Ok(addr) ==> addr == round_up(
                old(self).backing().bytes().len() as int,
                old(self).cluster_bytes() as int,
            ) && final(self).backing().bytes() == resized(
                old(self).backing().bytes(),
                (addr + old(self).cluster_bytes()) as nat,
            ),
            r is Err ==> final(self).backing().bytes() == old(self).backing().bytes(),
            old(self).backing().reliable() ==> (r is Ok <==> round_up(
                old(self).backing().bytes().len() as int,
                old(self).cluster_bytes() as int,
            ) + old(self).cluster_bytes() <= old(self).backing().max_len()),
    {
        proof {
            lemma_cluster_geometry(self.cluster_size, self.cluster_mask);
        }
        // Determine where the new end of the file should be and set_len, which
        // translates to truncate(2).
        let file_end: u64 = self.file.len()?;
        let rem: u64 = file_end & self.cluster_mask;
        let pad: u64 = if rem == 0 {
            0
        } else {
            self.cluster_size - rem
        };
        if file_end > u64::MAX - pad || file_end + pad > u64::MAX - self.cluster_size {
            return Err(IoError::InvalidInput);
        }
        let new_cluster_address: u64 = file_end + pad;
        self.file.set_len(new_cluster_address + self.cluster_size)?;
        Ok(new_cluster_address)
    }

    /// Hands back the underlying file.
    pub fn into_file(self) -> (f: F)
        ensures
            f == self.backing(),
    {
        self.file
    }

    /// Returns a reference to the underlying file.
    pub fn file(&self) -> (f: &F)
        ensures
            *f == self.backing(),
    {
        &self.file
    }

    /// Returns a mutable reference to the underlying file.
    pub fn file_mut(&mut self) -> (f: &mut F)
        ensures
            *f == old(self).backing(),
            final(self).backing() == *final(f),
            final(self).cluster_bytes() == old(self).cluster_bytes(),
            final(self).offset_mask() == old(self).offset_mask(),
    {
        &mut self.file
    }

    /// Returns the size of the file's clusters.
    pub fn cluster_size(&self) -> (r: u64)
        ensures
            r == self.cluster_bytes(),
    {
        self.cluster_size
    }

    /// Returns the offset of `address` within a cluster.
    pub fn cluster_offset(&self, address: u64) -> (r: u64)
        requires
            self.wf(),
        ensures
            r == address % self.cluster_bytes(),
    {
        proof {
            lemma_cluster_geometry(self.cluster_size, self.cluster_mask);
        }
        address & self.cluster_mask
    }
}

} // verus!
