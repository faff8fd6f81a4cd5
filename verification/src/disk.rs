//! The backing file, as the engine sees it.
//!
//! [`DiskFile`] is the interface the engine needs from the file that holds an
//! image: positioned reads and writes, a length that can be set, and the two
//! kinds of synchronisation. Its contracts are stated over four ghost
//! quantities: the bytes the file holds, the bytes known to be on stable
//! storage, whether the file is *reliable*, that is, fails only for the
//! reasons the contracts name, and the greatest length that a reliable file
//! accepts. [`MemFile`] is a reliable file held in memory.

use vstd::prelude::*;
use vstd::slice::{slice_subrange, slice_to_vec};
use crate::error::{IoError, IoResult};

verus! {

/// The contents of a file of contents `b` after its length is set to `n`:
/// cut off, or padded with zero bytes.
pub open spec fn resized(b: Seq<u8>, n: nat) -> Seq<u8> {
    Seq::new(
        n,
        |i: int|
            if i < b.len() {
                b[i]
            } else {
                0u8
            },
    )
}

/// The contents of a file of contents `b` after `data` is written at
/// `offset`. A write that ends past the end of the file lengthens it, and a
/// gap between the old end and `offset` reads as zero bytes. Writing nothing
/// changes nothing.
pub open spec fn written(b: Seq<u8>, offset: nat, data: Seq<u8>) -> Seq<u8> {
    if data.len() == 0 {
        b
    } else {
        Seq::new(
            if b.len() >= offset + data.len() {
                b.len()
            } else {
                offset + data.len()
            },
            |i: int|
                if offset <= i < offset + data.len() {
                    data[i - offset]
                } else if i < b.len() {
                    b[i]
                } else {
                    0u8
                },
        )
    }
}

/// What every operation of a file leaves true of it: its length fits in 64
/// bits, and a reliable file is within the length that it accepts.
pub open spec fn file_inv<F: DiskFile + ?Sized>(f: &F) -> bool {
    &&& f.bytes().len() <= u64::MAX
    &&& f.max_len() <= u64::MAX
    &&& f.reliable() ==> f.bytes().len() <= f.max_len()
}

/// A file that can back an image.
///
/// The four ghost quantities have default values for the sake of
/// implementations that are not verified, of which nothing is known: they
/// are not reliable.
pub trait DiskFile {
    /// The bytes the file holds.
    open spec fn bytes(&self) -> Seq<u8> {
        Seq::empty()
    }

    /// The bytes that are known to have reached stable storage.
    open spec fn durable(&self) -> Seq<u8> {
        Seq::empty()
    }

    /// Whether every operation succeeds unless its contract names a reason to
    /// fail.
    open spec fn reliable(&self) -> bool {
        false
    }

    /// The greatest length a reliable file accepts.
    open spec fn max_len(&self) -> nat {
        0
    }

    /// The length of the file in bytes.
    fn len(&self) -> (r: IoResult<u64>)
        ensures
            self.bytes().len() <= u64::MAX,
            self.max_len() <= u64::MAX,
            self.reliable() ==> self.bytes().len() <= self.max_len(),
            r matches Ok(n) ==> n == self.bytes().len(),
            self.reliable() ==> r is Ok,
    ;

    /// Sets the length of the file, cutting it off or padding it with zeros.
    fn set_len(&mut self, size: u64) -> (r: IoResult<()>)
        ensures
            final(self).bytes().len() <= u64::MAX,
            final(self).max_len() <= u64::MAX,
            final(self).reliable() ==> final(self).bytes().len() <= final(self).max_len(),
            final(self).reliable() == old(self).reliable(),
            final(self).max_len() == old(self).max_len(),
            r is Ok ==> final(self).bytes() == resized(old(self).bytes(), size as nat),
            r is Err ==> final(self).bytes() == old(self).bytes(),
            old(self).reliable() ==> (r is Ok <==> size <= old(self).max_len()),
            old(self).reliable() && r is Err ==> r == Err::<(), IoError>(IoError::InvalidInput),
    ;

    /// Reads exactly `count` bytes starting at `offset`.
    fn read_exact_at(&self, offset: u64, count: usize) -> (r: IoResult<Vec<u8>>)
        ensures
            self.bytes().len() <= u64::MAX,
            self.max_len() <= u64::MAX,
            self.reliable() ==> self.bytes().len() <= self.max_len(),
            r matches Ok(v) ==> offset + count <= self.bytes().len() && v@ == self.bytes().subrange(
                offset as int,
                offset + count,
            ),
            self.reliable() ==> (r is Ok <==> offset + count <= self.bytes().len()),
            self.reliable() && r is Err ==> r == Err::<Vec<u8>, IoError>(IoError::UnexpectedEof),
    ;

    /// Writes a prefix of `data` at `offset` and returns its length. An
    /// error means that nothing was written.
    fn write_at(&mut self, offset: u64, data: &[u8]) -> (r: IoResult<usize>)
        ensures
            final(self).bytes().len() <= u64::MAX,
            final(self).max_len() <= u64::MAX,
            final(self).reliable() ==> final(self).bytes().len() <= final(self).max_len(),
            final(self).reliable() == old(self).reliable(),
            final(self).max_len() == old(self).max_len(),
            r matches Ok(n) ==> n <= data@.len() && final(self).bytes() == written(
                old(self).bytes(),
                offset as nat,
                data@.take(n as int),
            ),
            r is Err ==> final(self).bytes() == old(self).bytes(),
            old(self).reliable() ==> (r is Ok <==> offset + data@.len() <= old(self).max_len()),
            old(self).reliable() && r is Ok ==> r == Ok::<usize, IoError>(data@.len() as usize),
            old(self).reliable() && r is Err ==> r == Err::<usize, IoError>(IoError::InvalidInput),
    ;

    /// Forces contents and metadata to stable storage.
    fn sync_all(&mut self) -> (r: IoResult<()>)
        ensures
            final(self).bytes().len() <= u64::MAX,
            final(self).max_len() <= u64::MAX,
            final(self).reliable() ==> final(self).bytes().len() <= final(self).max_len(),
            final(self).reliable() == old(self).reliable(),
            final(self).max_len() == old(self).max_len(),
            final(self).bytes() == old(self).bytes(),
            r is Ok ==> final(self).durable() == final(self).bytes(),
            old(self).reliable() ==> r is Ok,
    ;

    /// Forces contents to stable storage.
    fn sync_data(&mut self) -> (r: IoResult<()>)
        ensures
            final(self).bytes().len() <= u64::MAX,
            final(self).max_len() <= u64::MAX,
            final(self).reliable() ==> final(self).bytes().len() <= final(self).max_len(),
            final(self).reliable() == old(self).reliable(),
            final(self).max_len() == old(self).max_len(),
            final(self).bytes() == old(self).bytes(),
            r is Ok ==> final(self).durable() == final(self).bytes(),
            old(self).reliable() ==> r is Ok,
    ;
}

/// Writing `d1` and then `d2` right behind it is writing both at once.
pub proof fn lemma_written_twice(b: Seq<u8>, offset: nat, d1: Seq<u8>, d2: Seq<u8>)
    ensures
        written(written(b, offset, d1), offset + d1.len(), d2) == written(b, offset, d1 + d2),
{
    if d1.len() == 0 {
        assert(d1 + d2 =~= d2);
    } else if d2.len() == 0 {
        assert(d1 + d2 =~= d1);
    } else {
        assert(written(written(b, offset, d1), offset + d1.len(), d2) =~= written(
            b,
            offset,
            d1 + d2,
        ));
    }
}

/// Writes all of `data` at `offset`, in as many writes as the file takes.
/// An error may leave a prefix of `data` written.
pub fn write_all_at<F: DiskFile>(f: &mut F, offset: u64, data: &[u8]) -> (r: IoResult<()>)
    requires
        offset + data@.len() <= u64::MAX,
    ensures
        file_inv(old(f)) || data@.len() > 0 ==> file_inv(final(f)),
        final(f).reliable() == old(f).reliable(),
        final(f).max_len() == old(f).max_len(),
        r is Ok ==> final(f).bytes() == written(old(f).bytes(), offset as nat, data@),
        r is Err ==> exists|n: int|
            0 <= n <= data@.len() && final(f).bytes() == written(
                old(f).bytes(),
                offset as nat,
                #[trigger] data@.take(n),
            ),
        old(f).reliable() ==> (r is Ok <==> data@.len() == 0 || offset + data@.len() <= old(
            f,
        ).max_len()),
        old(f).reliable() && r is Err ==> final(f).bytes() == old(f).bytes(),
        final(f).bytes().len() >= old(f).bytes().len(),
{
    let len: usize = data.len();
    let mut done: usize = 0;
    assert(data@.take(0) =~= Seq::<u8>::empty());
    while done < len
        invariant
            done <= len,
            len == data@.len(),
            offset + len <= u64::MAX,
            f.reliable() == old(f).reliable(),
            f.max_len() == old(f).max_len(),
            f.bytes() == written(old(f).bytes(), offset as nat, data@.take(done as int)),
            old(f).reliable() && done > 0 ==> done == len && offset + len <= f.max_len(),
            file_inv(old(f)) || done > 0 ==> file_inv(f),
        decreases len - done,
    {
        let rest: &[u8] = slice_subrange(data, done, len);
        let n: usize = match f.write_at(offset + done as u64, rest) {
            Ok(n) => n,
            Err(e) => {
                return Err(e);
            },
        };
        if n == 0 {
            return Err(IoError::Other);
        }
        proof {
            lemma_written_twice(
                old(f).bytes(),
                offset as nat,
                data@.take(done as int),
                rest@.take(n as int),
            );
            assert(data@.take(done as int) + rest@.take(n as int) =~= data@.take(done + n));
        }
        done += n;
    }
    assert(data@.take(len as int) =~= data@);
    Ok(())
}

/// A reliable file held in memory.
pub struct MemFile {
    data: Vec<u8>,
    synced: Ghost<Seq<u8>>,
}

impl MemFile {
    /// An empty file.
    pub fn new() -> (f: MemFile)
        ensures
            f.bytes() == Seq::<u8>::empty(),
            f.durable() == Seq::<u8>::empty(),
    {
        MemFile { data: Vec::new(), synced: Ghost(Seq::empty()) }
    }

    /// A file that holds `data`, all of it on stable storage.
    pub fn from_vec(data: Vec<u8>) -> (f: MemFile)
        ensures
            f.bytes() == data@,
            f.durable() == data@,
    {
        let ghost d = data@;
        MemFile { data, synced: Ghost(d) }
    }

    /// A vector is no longer than the greatest length of a file.
    proof fn lemma_len(&self)
        ensures
            self.data@.len() <= usize::MAX,
    {
        assert(self.data.len() == self.data@.len());
    }

    /// The bytes of the file.
    pub fn into_vec(self) -> (data: Vec<u8>)
        ensures
            data@ == self.bytes(),
    {
        self.data
    }

    /// The bytes of the file.
    pub fn contents(&self) -> (data: &Vec<u8>)
        ensures
            data@ == self.bytes(),
    {
        &self.data
    }
}

impl DiskFile for MemFile {
    closed spec fn bytes(&self) -> Seq<u8> {
        self.data@
    }

    closed spec fn durable(&self) -> Seq<u8> {
        self.synced@
    }

    open spec fn reliable(&self) -> bool {
        true
    }

    open spec fn max_len(&self) -> nat {
        usize::MAX as nat
    }

    fn len(&self) -> (r: IoResult<u64>) {
        Ok(self.data.len() as u64)
    }

    fn set_len(&mut self, size: u64) -> (r: IoResult<()>) {
        proof {
            self.lemma_len();
        }
        if size > usize::MAX as u64 {
            return Err(IoError::InvalidInput);
        }
        let ghost before = self.data@;
        self.data.resize(size as usize, 0u8);
        assert(self.data@ =~= resized(before, size as nat));
        Ok(())
    }

    fn read_exact_at(&self, offset: u64, count: usize) -> (r: IoResult<Vec<u8>>) {
        let len: usize = self.data.len();
        if offset > len as u64 || count > len - offset as usize {
            return Err(IoError::UnexpectedEof);
        }
        let start: usize = offset as usize;
        Ok(slice_to_vec(slice_subrange(self.data.as_slice(), start, start + count)))
    }

    fn write_at(&mut self, offset: u64, data: &[u8]) -> (r: IoResult<usize>) {
        proof {
            self.lemma_len();
        }
        let count: usize = data.len();
        if offset > usize::MAX as u64 || count > usize::MAX - offset as usize {
            return Err(IoError::InvalidInput);
        }
        if count == 0 {
            assert(data@.take(0) =~= Seq::<u8>::empty());
            return Ok(0);
        }
        let start: usize = offset as usize;
        let ghost before = self.data@;
        if self.data.len() < start + count {
            self.data.resize(start + count, 0u8);
            assert forall|j: int| 0 <= j < before.len() implies self.data@[j] == before[j] by {
                assert(self.data@.subrange(0, before.len() as int)[j] == before[j]);
            }
        }
        let ghost padded = self.data@;
        let ghost new_len: nat = if before.len() >= start + count {
            before.len()
        } else {
            (start + count) as nat
        };
        assert(padded =~= resized(before, new_len));
        let mut i: usize = 0;
        while i < count
            invariant
                i <= count,
                count == data@.len(),
                start + count <= self.data@.len(),
                start + count <= usize::MAX,
                padded == resized(before, new_len),
                new_len == if before.len() >= start + count {
                    before.len()
                } else {
                    (start + count) as nat
                },
                self.data@.len() == padded.len(),
                forall|j: int| start <= j < start + i ==> self.data@[j] == data@[j - start],
                forall|j: int|
                    0 <= j < padded.len() && !(start <= j < start + i) ==> self.data@[j]
                        == padded[j],
            decreases count - i,
        {
            self.data[start + i] = data[i];
            i += 1;
        }
        assert(data@.take(count as int) =~= data@);
        let ghost w = written(before, offset as nat, data@);
        assert(self.data@.len() == w.len());
        assert forall|j: int| 0 <= j < w.len() implies self.data@[j] == w[j] by {
            if start <= j < start + count {
            } else {
                assert(self.data@[j] == padded[j]);
            }
        }
        assert(self.data@ =~= w);
        Ok(count)
    }

    fn sync_all(&mut self) -> (r: IoResult<()>) {
        proof {
            self.lemma_len();
        }
        self.synced = Ghost(self.data@);
        Ok(())
    }

    fn sync_data(&mut self) -> (r: IoResult<()>) {
        proof {
            self.lemma_len();
        }
        self.synced = Ghost(self.data@);
        Ok(())
    }
}

} // verus!
