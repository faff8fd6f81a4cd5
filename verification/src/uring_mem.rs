//! Memory that asynchronous transfers read from, addressed by ranges
//! relative to its start.

use vstd::prelude::*;
use vstd::slice::slice_subrange;

verus! {

/// Why a range of backing memory could not be handed out.
#[derive(Debug, Clone, Copy, PartialEq, Eq, Structural)]
pub enum MemError {
    /// The range does not lie within the memory.
    InvalidOffset,
}

/// Used to index subslices of backing memory. Like an iovec, but relative to the start of the
/// memory region instead of an absolute pointer.
#[derive(Debug)]
pub struct MemVec {
    pub offset: u64,
    pub len: usize,
}

/// Whether the range `mem_off` lies within a memory of `len` bytes.
pub open spec fn in_bounds(mem_off: MemVec, len: nat) -> bool {
    mem_off.offset + mem_off.len <= len && mem_off.offset + mem_off.len <= u64::MAX
}

/// Memory that can hand out the bytes of a range of itself.
pub trait BackingMemory {
    /// The bytes of the memory.
    spec fn bytes(&self) -> Seq<u8>;

    /// Returns a slice for reading the backing memory.
    fn io_slice(&self, mem_off: &MemVec) -> (r: Result<&[u8], MemError>)
        ensures
            match r {
                Ok(s) => in_bounds(*mem_off, self.bytes().len()) && s@ == self.bytes().subrange(
                    mem_off.offset as int,
                    mem_off.offset + mem_off.len,
                ),
                Err(e) => !in_bounds(*mem_off, self.bytes().len()) && e == MemError::InvalidOffset,
            },
    ;
}

/// Wrapper to be used for passing a Vec in as backing memory for asynchronous operations.
#[derive(Debug)]
pub struct VecIoWrapper {
    inner: Vec<u8>,
}

impl VecIoWrapper {
    /// Wraps `vec`.
    pub fn from(vec: Vec<u8>) -> (r: VecIoWrapper)
        ensures
            r.bytes() == vec@,
    {
        VecIoWrapper { inner: vec }
    }

    /// Gives the vector back.
    pub fn into(self) -> (vec: Vec<u8>)
        ensures
            vec@ == self.bytes(),
    {
        self.inner
    }

    /// The number of bytes of the memory.
    pub fn len(&self) -> (r: usize)
        ensures
            r == self.bytes().len(),
    {
        self.inner.len()
    }

    /// Checks that the range `mem_off` lies within the memory.
    pub fn check_addrs(&self, mem_off: &MemVec) -> (r: Result<(), MemError>)
        ensures
            r == if in_bounds(*mem_off, self.bytes().len()) {
                Ok::<(), MemError>(())
            } else {
                Err::<(), MemError>(MemError::InvalidOffset)
            },
    {
        let end: u64 = match mem_off.offset.checked_add(mem_off.len as u64) {
            Some(end) => end,
            None => {
                return Err(MemError::InvalidOffset);
            },
        };
        if end > self.inner.len() as u64 {
            return Err(MemError::InvalidOffset);
        }
        Ok(())
    }
}

impl BackingMemory for VecIoWrapper {
    closed spec fn bytes(&self) -> Seq<u8> {
        self.inner@
    }

    fn io_slice(&self, mem_off: &MemVec) -> (r: Result<&[u8], MemError>) {
        // The mem_off ranges are checked.
        match self.check_addrs(mem_off) {
            Ok(()) => {},
            Err(e) => {
                return Err(e);
            },
        }
        let len: usize = self.inner.len();
        let start: usize = mem_off.offset as usize;
        Ok(slice_subrange(self.inner.as_slice(), start, start + mem_off.len))
    }
}

} // verus!
