//! The image header: its layout, its validation, and the header of a new
//! image.
//!
//! The header is a packed record of 104 bytes at the start of the file, every
//! field big-endian. [`header_bytes`] and [`header_from_bytes`] define the
//! layout; [`parse_bytes`] defines which byte strings are accepted as the
//! header of a supported image and which error rejects each of the others.

use vstd::prelude::*;
use vstd::slice::slice_subrange;
use vstd::array::array_as_slice;
use crate::disk::{file_inv, write_all_at, written, DiskFile};
use crate::endian::{
    be_u32,
    be_u64,
    lemma_be_u32_of_bytes,
    lemma_be_u64_of_bytes,
    put_u32,
    put_u64,
    read_be_u32,
    read_be_u64,
    u32_be_bytes,
    u64_be_bytes,
};
use crate::error::{Error, IoError, Result};
use crate::geometry::{
    cluster_size,
    cluster_size_of,
    div_ceil,
    div_round_up_u64,
    lemma_div_ceil,
    max_refcount_clusters,
    max_refcount_clusters_of,
    offset_is_cluster_boundary,
    DEFAULT_CLUSTER_BITS,
    DEFAULT_REFCOUNT_ORDER,
    MAX_CLUSTER_BITS,
    MIN_CLUSTER_BITS,
    QCOW_MAGIC,
    V3_BARE_HEADER_SIZE,
};

verus! {

/// The length of the header in bytes.
pub const HEADER_LEN: usize = 104;

/// The greatest virtual size for which the header of a new image can be
/// made: beyond it the number of L2 tables does not fit the header's field.
pub const MAX_NEW_IMAGE_SIZE: u64 = 0x1fff_ffff_e000_0000;

/// Contains the information from the header of a qcow file.
#[derive(Debug, Clone, Copy, PartialEq, Eq, Structural)]
pub struct QcowHeader {
    pub magic: u32,
    pub version: u32,
    pub backing_file_offset: u64,
    pub backing_file_size: u32,
    pub cluster_bits: u32,
    pub size: u64,
    pub crypt_method: u32,
    pub l1_size: u32,
    pub l1_table_offset: u64,
    pub refcount_table_offset: u64,
    pub refcount_table_clusters: u32,
    pub nb_snapshots: u32,
    pub snapshots_offset: u64,
    // v3 entries
    pub incompatible_features: u64,
    pub compatible_features: u64,
    pub autoclear_features: u64,
    pub refcount_order: u32,
    pub header_size: u32,
}

/// The 104 bytes that store `h`.
#[verifier::opaque]
pub open spec fn header_bytes(h: QcowHeader) -> Seq<u8> {
    u32_be_bytes(h.magic) + u32_be_bytes(h.version) + u64_be_bytes(h.backing_file_offset)
        + u32_be_bytes(h.backing_file_size) + u32_be_bytes(h.cluster_bits) + u64_be_bytes(h.size)
        + u32_be_bytes(h.crypt_method) + u32_be_bytes(h.l1_size) + u64_be_bytes(h.l1_table_offset)
        + u64_be_bytes(h.refcount_table_offset) + u32_be_bytes(h.refcount_table_clusters)
        + u32_be_bytes(h.nb_snapshots) + u64_be_bytes(h.snapshots_offset) + u64_be_bytes(
        h.incompatible_features,
    ) + u64_be_bytes(h.compatible_features) + u64_be_bytes(h.autoclear_features) + u32_be_bytes(
        h.refcount_order,
    ) + u32_be_bytes(h.header_size)
}

/// The 32-bit field at offset `at` of `b`.
pub open spec fn field_u32(b: Seq<u8>, at: int) -> u32 {
    be_u32(b.subrange(at, at + 4))
}

/// The 64-bit field at offset `at` of `b`.
pub open spec fn field_u64(b: Seq<u8>, at: int) -> u64 {
    be_u64(b.subrange(at, at + 8))
}

/// The header that the first 104 bytes of `b` store.
#[verifier::opaque]
pub open spec fn header_from_bytes(b: Seq<u8>) -> QcowHeader
    recommends
        b.len() >= HEADER_LEN,
{
    QcowHeader {
        magic: field_u32(b, 0),
        version: field_u32(b, 4),
        backing_file_offset: field_u64(b, 8),
        backing_file_size: field_u32(b, 16),
        cluster_bits: field_u32(b, 20),
        size: field_u64(b, 24),
        crypt_method: field_u32(b, 32),
        l1_size: field_u32(b, 36),
        l1_table_offset: field_u64(b, 40),
        refcount_table_offset: field_u64(b, 48),
        refcount_table_clusters: field_u32(b, 56),
        nb_snapshots: field_u32(b, 60),
        snapshots_offset: field_u64(b, 64),
        incompatible_features: field_u64(b, 72),
        compatible_features: field_u64(b, 80),
        autoclear_features: field_u64(b, 88),
        refcount_order: field_u32(b, 96),
        header_size: field_u32(b, 100),
    }
}

/// Whether `offset` is a multiple of the size of a cluster of `2^bits` bytes.
pub open spec fn is_cluster_aligned(offset: u64, bits: u32) -> bool {
    offset as int % cluster_size_of(bits) == 0
}

/// The first reason, in the order in which they are checked, for which an
/// image with header `h` is not supported; `None` if there is none. The magic
/// number is checked before any of these.
pub open spec fn validation_error(h: QcowHeader) -> Option<Error> {
    if h.version != 3 {
        Some(Error::UnsupportedVersion(h.version))
    } else if h.cluster_bits > MAX_CLUSTER_BITS || h.cluster_bits < MIN_CLUSTER_BITS {
        Some(Error::InvalidClusterSize)
    } else if h.backing_file_offset != 0 {
        Some(Error::BackingFilesNotSupported)
    } else if h.refcount_order != DEFAULT_REFCOUNT_ORDER {
        Some(Error::UnsupportedRefcountOrder)
    } else if h.refcount_table_clusters == 0 {
        Some(Error::NoRefcountClusters)
    } else if !is_cluster_aligned(h.l1_table_offset, h.cluster_bits) {
        Some(Error::InvalidOffset(h.l1_table_offset))
    } else if !is_cluster_aligned(h.refcount_table_offset, h.cluster_bits) {
        Some(Error::InvalidOffset(h.refcount_table_offset))
    } else if !is_cluster_aligned(h.snapshots_offset, h.cluster_bits) {
        Some(Error::InvalidOffset(h.snapshots_offset))
    } else {
        None
    }
}

/// Whether `h` is the header of a supported image.
pub open spec fn is_valid_header(h: QcowHeader) -> bool {
    h.magic == QCOW_MAGIC && validation_error(h) is None
}

/// What parsing a file that starts with the bytes `b` gives: the header, or
/// the error that rejects it.
#[verifier::opaque]
pub open spec fn parse_bytes(b: Seq<u8>) -> Result<QcowHeader> {
    if b.len() < 4 {
        Err(Error::ReadingHeader(IoError::UnexpectedEof))
    } else if field_u32(b, 0) != QCOW_MAGIC {
        Err(Error::BadMagic)
    } else if b.len() < HEADER_LEN {
        Err(Error::ReadingHeader(IoError::UnexpectedEof))
    } else {
        match validation_error(header_from_bytes(b)) {
            Some(e) => Err(e),
            None => Ok(header_from_bytes(b)),
        }
    }
}

/// The header of a new image of `size` bytes: clusters of 64 KiB, the L1
/// table in the cluster after the header, the reference-count table after
/// the L1 table, sized for the reference counts of every cluster of the image
/// and of the reference-count clusters themselves.
#[verifier::opaque]
pub open spec fn header_for_size(size: u64) -> QcowHeader {
    let cluster_size = cluster_size_of(DEFAULT_CLUSTER_BITS);
    let num_clusters = div_ceil(size as int, cluster_size);
    let num_l2_clusters = div_ceil(num_clusters, cluster_size / 8);
    let l1_clusters = div_ceil(num_l2_clusters, cluster_size);
    let max_refcount_clusters = max_refcount_clusters_of(
        DEFAULT_REFCOUNT_ORDER,
        cluster_size,
        num_clusters,
    );
    QcowHeader {
        magic: QCOW_MAGIC,
        version: 3,
        backing_file_offset: 0,
        backing_file_size: 0,
        cluster_bits: DEFAULT_CLUSTER_BITS,
        size,
        crypt_method: 0,
        l1_size: num_l2_clusters as u32,
        l1_table_offset: cluster_size as u64,
        refcount_table_offset: (cluster_size * (l1_clusters + 1)) as u64,
        refcount_table_clusters: div_ceil(max_refcount_clusters * 8, cluster_size) as u32,
        nb_snapshots: 0,
        snapshots_offset: 0,
        incompatible_features: 0,
        compatible_features: 0,
        autoclear_features: 0,
        refcount_order: DEFAULT_REFCOUNT_ORDER,
        header_size: V3_BARE_HEADER_SIZE,
    }
}

/// The offset just past the reference-count table of an image with header
/// `h`, which is the length that writing the header gives a new file.
pub open spec fn metadata_end(h: QcowHeader) -> int {
    h.refcount_table_offset + h.refcount_table_clusters * cluster_size_of(h.cluster_bits)
}

/// Whether the header `h` can be written: its cluster size can be computed,
/// and the end of its reference-count table is an offset in a file.
pub open spec fn is_writable_header(h: QcowHeader) -> bool {
    h.cluster_bits < 64 && 0 < metadata_end(h) <= u64::MAX
}

/// The contents of a file of contents `b` after the header `h` is written
/// to it: the header's bytes at the start, and a zero byte as the last byte
/// of the reference-count table, which makes the file that long if it was
/// shorter.
pub open spec fn header_image(b: Seq<u8>, h: QcowHeader) -> Seq<u8> {
    written(written(b, 0, header_bytes(h)), (metadata_end(h) - 1) as nat, seq![0u8])
}

/// The 32-bit field at offset `at` of `bytes`.
fn get_u32(bytes: &[u8], at: usize) -> (r: u32)
    requires
        at + 4 <= bytes@.len(),
    ensures
        r == field_u32(bytes@, at as int),
{
    let len: usize = bytes.len();
    read_be_u32(slice_subrange(bytes, at, at + 4))
}

/// The 64-bit field at offset `at` of `bytes`.
fn get_u64(bytes: &[u8], at: usize) -> (r: u64)
    requires
        at + 8 <= bytes@.len(),
    ensures
        r == field_u64(bytes@, at as int),
{
    let len: usize = bytes.len();
    read_be_u64(slice_subrange(bytes, at, at + 8))
}

impl QcowHeader {
    /// Reads the header at the start of `f` and checks that the image is one
    /// this engine supports.
    pub fn new<F: DiskFile>(f: &F) -> (r: Result<QcowHeader>)
        ensures
            file_inv(f),
            f.reliable() ==> r == parse_bytes(f.bytes()),
            r is Ok ==> r == parse_bytes(f.bytes()),
            r matches Ok(h) ==> is_valid_header(h),
            r matches Err(e) ==> parse_bytes(f.bytes()) == Err::<QcowHeader, Error>(e) || (
            e matches Error::ReadingHeader(_)),
    {
        reveal(parse_bytes);
        let magic_bytes: Vec<u8> = match f.read_exact_at(0, 4) {
            Ok(b) => b,
            Err(e) => {
                return Err(Error::ReadingHeader(e));
            },
        };
        assert(magic_bytes@ == f.bytes().subrange(0, 4));
        if read_be_u32(magic_bytes.as_slice()) != QCOW_MAGIC {
            return Err(Error::BadMagic);
        }
        let bytes: Vec<u8> = match f.read_exact_at(0, HEADER_LEN) {
            Ok(b) => b,
            Err(e) => {
                return Err(Error::ReadingHeader(e));
            },
        };
        proof {
            lemma_parse_bytes_prefix(f.bytes());
        }
        QcowHeader::from_bytes(bytes.as_slice())
    }

    /// Parses the header that `bytes` starts with and checks that the image
    /// is one this engine supports.
    pub fn from_bytes(bytes: &[u8]) -> (r: Result<QcowHeader>)
        ensures
            r == parse_bytes(bytes@),
            r matches Ok(h) ==> is_valid_header(h),
    {
        reveal(parse_bytes);
        reveal(header_from_bytes);
        if bytes.len() < 4 {
            return Err(Error::ReadingHeader(IoError::UnexpectedEof));
        }
        if get_u32(bytes, 0) != QCOW_MAGIC {
            return Err(Error::BadMagic);
        }
        if bytes.len() < HEADER_LEN {
            return Err(Error::ReadingHeader(IoError::UnexpectedEof));
        }
        let header = QcowHeader::decode(bytes);
        match header.validate() {
            Ok(()) => Ok(header),
            Err(e) => Err(e),
        }
    }

    /// The header stored in the first 104 bytes of `bytes`, unchecked.
    pub fn decode(bytes: &[u8]) -> (h: QcowHeader)
        requires
            bytes@.len() >= HEADER_LEN,
        ensures
            h == header_from_bytes(bytes@),
    {
        reveal(header_from_bytes);
        QcowHeader {
            magic: get_u32(bytes, 0),
            version: get_u32(bytes, 4),
            backing_file_offset: get_u64(bytes, 8),
            backing_file_size: get_u32(bytes, 16),
            cluster_bits: get_u32(bytes, 20),
            size: get_u64(bytes, 24),
            crypt_method: get_u32(bytes, 32),
            l1_size: get_u32(bytes, 36),
            l1_table_offset: get_u64(bytes, 40),
            refcount_table_offset: get_u64(bytes, 48),
            refcount_table_clusters: get_u32(bytes, 56),
            nb_snapshots: get_u32(bytes, 60),
            snapshots_offset: get_u64(bytes, 64),
            incompatible_features: get_u64(bytes, 72),
            compatible_features: get_u64(bytes, 80),
            autoclear_features: get_u64(bytes, 88),
            refcount_order: get_u32(bytes, 96),
            header_size: get_u32(bytes, 100),
        }
    }

    /// Checks that the image is one this engine supports: version 3, a
    /// cluster size in range, no backing file, 16-bit reference counts, a
    /// reference-count table, and table offsets on cluster boundaries.
    pub fn validate(&self) -> (r: Result<()>)
        ensures
            r == match validation_error(*self) {
                Some(e) => Err::<(), Error>(e),
                None => Ok::<(), Error>(()),
            },
    {
        // Only v3 files are supported.
        if self.version != 3 {
            return Err(Error::UnsupportedVersion(self.version));
        }
        if self.cluster_bits > MAX_CLUSTER_BITS || self.cluster_bits < MIN_CLUSTER_BITS {
            return Err(Error::InvalidClusterSize);
        }
        // No current support for backing files.
        if self.backing_file_offset != 0 {
            return Err(Error::BackingFilesNotSupported);
        }
        // Only support two byte refcounts.
        if self.refcount_order != DEFAULT_REFCOUNT_ORDER {
            return Err(Error::UnsupportedRefcountOrder);
        }
        // Need at least one refcount cluster
        if self.refcount_table_clusters == 0 {
            return Err(Error::NoRefcountClusters);
        }
        match offset_is_cluster_boundary(self.l1_table_offset, self.cluster_bits) {
            Ok(()) => {},
            Err(e) => {
                return Err(e);
            },
        }
        match offset_is_cluster_boundary(self.refcount_table_offset, self.cluster_bits) {
            Ok(()) => {},
            Err(e) => {
                return Err(e);
            },
        }
        offset_is_cluster_boundary(self.snapshots_offset, self.cluster_bits)
    }

    /// Create a header for the given `size`.
    pub fn create_for_size(size: u64) -> (h: QcowHeader)
        requires
            size <= MAX_NEW_IMAGE_SIZE,
        ensures
            h == header_for_size(size),
            size > 0 ==> is_valid_header(h),
            size == 0 ==> validation_error(h) == Some(Error::NoRefcountClusters),
            is_writable_header(h),
            h.magic == QCOW_MAGIC,
            h.size == size,
            h.cluster_bits == DEFAULT_CLUSTER_BITS,
            h.l1_table_offset == 0x1_0000,
            h.l1_size == div_ceil(div_ceil(size as int, 0x1_0000), 0x2000),
            h.refcount_table_offset == 0x1_0000 * (div_ceil(h.l1_size as int, 0x1_0000) + 1),
            0x1_0000 <= h.refcount_table_offset <= 0x1_0001_0000,
            size > 0 ==> 0x2_0000 <= h.refcount_table_offset,
            metadata_end(h) == h.refcount_table_offset + h.refcount_table_clusters * 0x1_0000,
            h.refcount_table_clusters <= 0x2_0005,
    {
        reveal(header_for_size);
        let cluster_bits: u32 = DEFAULT_CLUSTER_BITS;
        let cluster_size: u64 = cluster_size(cluster_bits);
        proof {
            vstd::arithmetic::power2::lemma2_to64();
            assert(cluster_size == 0x1_0000);
        }
        // L2 blocks are always one cluster long. They contain cluster_size/sizeof(u64) addresses.
        let l2_size: u64 = cluster_size / 8;
        let num_clusters: u64 = div_round_up_u64(size, cluster_size);
        let num_l2_clusters: u64 = div_round_up_u64(num_clusters, l2_size);
        let l1_clusters: u64 = div_round_up_u64(num_l2_clusters, cluster_size);
        proof {
            lemma_div_ceil(size as int, cluster_size as int);
            lemma_div_ceil(num_clusters as int, l2_size as int);
            lemma_div_ceil(num_l2_clusters as int, cluster_size as int);
            assert(num_clusters <= 0x1fff_ffff_e000);
            assert(num_l2_clusters <= 0xffff_ffff);
            assert(l1_clusters <= 0x1_0000);
        }
        // Pre-allocate enough clusters for the entire refcount table as it must be
        // continuous in the file. Allocate enough space to refcount all clusters, including
        // the refcount clusters.
        let max_refcount_clusters: u64 = max_refcount_clusters(
            DEFAULT_REFCOUNT_ORDER,
            cluster_size,
            num_clusters,
        );
        // The refcount table needs to store the offset of each refcount cluster.
        let refcount_table_clusters: u64 = div_round_up_u64(
            max_refcount_clusters * 8,
            cluster_size,
        );
        proof {
            lemma_div_ceil((max_refcount_clusters * 8) as int, cluster_size as int);
            assert(refcount_table_clusters <= max_refcount_clusters * 8);
            lemma_default_refcount_clusters(num_clusters as int);
            if size > 0 {
                assert(num_clusters >= 1);
            }
            assert(max_refcount_clusters * 8 <= 0x2_0004_0008);
            assert(refcount_table_clusters <= 0x2_0005);
        }
        let h = QcowHeader {
            magic: QCOW_MAGIC,
            version: 3,
            backing_file_offset: 0,
            backing_file_size: 0,
            cluster_bits: DEFAULT_CLUSTER_BITS,
            size,
            crypt_method: 0,
            l1_size: num_l2_clusters as u32,
            l1_table_offset: cluster_size,
            // The refcount table is after l1 + header.
            refcount_table_offset: cluster_size * (l1_clusters + 1),
            refcount_table_clusters: refcount_table_clusters as u32,
            nb_snapshots: 0,
            snapshots_offset: 0,
            incompatible_features: 0,
            compatible_features: 0,
            autoclear_features: 0,
            refcount_order: DEFAULT_REFCOUNT_ORDER,
            header_size: V3_BARE_HEADER_SIZE,
        };
        proof {
            assert((cluster_size * (l1_clusters + 1)) as int % 0x1_0000 == 0) by (nonlinear_arith)
                requires
                    cluster_size == 0x1_0000,
            ;
        }
        h
    }

    /// Write the header to `file`, and make the file long enough to hold the
    /// L1 and reference-count tables, which read as zeros where the file had
    /// to grow.
    pub fn write_to<F: DiskFile>(&self, file: &mut F) -> (r: Result<()>)
        ensures
            r is Ok ==> file_inv(final(file)),
            final(file).reliable() == old(file).reliable(),
            final(file).max_len() == old(file).max_len(),
            !is_writable_header(*self) ==> r == Err::<(), Error>(
                Error::WritingHeader(IoError::InvalidInput),
            ) && final(file).bytes() == old(file).bytes(),
            r is Ok ==> is_writable_header(*self) && final(file).bytes() == header_image(
                old(file).bytes(),
                *self,
            ),
            r matches Err(e) ==> e matches Error::WritingHeader(_),
            old(file).reliable() && is_writable_header(*self) ==> (r is Ok <==> HEADER_LEN <= old(
                file,
            ).max_len() && metadata_end(*self) <= old(file).max_len()),
    {
        if self.cluster_bits >= 64 {
            return Err(Error::WritingHeader(IoError::InvalidInput));
        }
        let cluster_size: u64 = cluster_size(self.cluster_bits);
        let refcount_blocks_size: u64 = match (self.refcount_table_clusters as u64).checked_mul(
            cluster_size,
        ) {
            Some(n) => n,
            None => {
                return Err(Error::WritingHeader(IoError::InvalidInput));
            },
        };
        let end: u64 = match self.refcount_table_offset.checked_add(refcount_blocks_size) {
            Some(n) => n,
            None => {
                return Err(Error::WritingHeader(IoError::InvalidInput));
            },
        };
        if end == 0 {
            return Err(Error::WritingHeader(IoError::InvalidInput));
        }
        let bytes: Vec<u8> = self.to_bytes();
        match write_all_at(file, 0, bytes.as_slice()) {
            Ok(()) => {},
            Err(e) => {
                return Err(Error::WritingHeader(e));
            },
        }
        // Set the file length by writing a zero to the last byte of the refcount table.
        // Zeros out the l1 and refcount table clusters.
        let zero: [u8; 1] = [0u8];
        assert(zero@ =~= seq![0u8]);
        match write_all_at(file, end - 1, array_as_slice(&zero)) {
            Ok(()) => {},
            Err(e) => {
                return Err(Error::WritingHeader(e));
            },
        }
        Ok(())
    }

    /// The 104 bytes that store the header.
    pub fn to_bytes(&self) -> (out: Vec<u8>)
        ensures
            out@ == header_bytes(*self),
            out@.len() == HEADER_LEN,
    {
        reveal(header_bytes);
        let mut out: Vec<u8> = Vec::with_capacity(HEADER_LEN);
        put_u32(&mut out, self.magic);
        assert(out@ =~= u32_be_bytes(self.magic));
        put_u32(&mut out, self.version);
        put_u64(&mut out, self.backing_file_offset);
        put_u32(&mut out, self.backing_file_size);
        put_u32(&mut out, self.cluster_bits);
        put_u64(&mut out, self.size);
        put_u32(&mut out, self.crypt_method);
        put_u32(&mut out, self.l1_size);
        put_u64(&mut out, self.l1_table_offset);
        put_u64(&mut out, self.refcount_table_offset);
        put_u32(&mut out, self.refcount_table_clusters);
        put_u32(&mut out, self.nb_snapshots);
        put_u64(&mut out, self.snapshots_offset);
        put_u64(&mut out, self.incompatible_features);
        put_u64(&mut out, self.compatible_features);
        put_u64(&mut out, self.autoclear_features);
        put_u32(&mut out, self.refcount_order);
        put_u32(&mut out, self.header_size);
        proof {
            lemma_header_from_bytes_of_header_bytes(*self);
        }
        out
    }
}

/// An image of at most `2^45` clusters of 64 KiB needs fewer than `2^31`
/// reference-count clusters, and at least one if it has a cluster.
proof fn lemma_default_refcount_clusters(num_clusters: int)
    requires
        0 <= num_clusters <= 0x1fff_ffff_e000,
    ensures
        0 <= max_refcount_clusters_of(DEFAULT_REFCOUNT_ORDER, 0x1_0000, num_clusters)
            <= 0x4000_8001,
        num_clusters >= 1 ==> max_refcount_clusters_of(
            DEFAULT_REFCOUNT_ORDER,
            0x1_0000,
            num_clusters,
        ) >= 1,
{
    vstd::arithmetic::power2::lemma2_to64();
    assert(crate::geometry::refcount_bytes_of(DEFAULT_REFCOUNT_ORDER) == 2);
    let for_data = (num_clusters * 2 + 0xffff) / 0x1_0000;
    assert(for_data == div_ceil(num_clusters * 2, 0x1_0000));
    assert(0 <= for_data <= 0x4000_0000);
    let for_refcounts = (for_data * 2 + 0xffff) / 0x1_0000;
    assert(for_refcounts == div_ceil(for_data * 2, 0x1_0000));
    assert(0 <= for_refcounts <= 0x8000);
}

/// The header of a new image of `size` bytes, for a size for which it
/// exists: it is valid if the image is not empty, has clusters of 64 KiB, and
/// puts the L1 table in the second cluster and the reference-count table
/// behind it.
pub proof fn lemma_header_for_size(size: u64)
    requires
        size <= MAX_NEW_IMAGE_SIZE,
    ensures
        ({
            let h = header_for_size(size);
            &&& size > 0 ==> is_valid_header(h)
            &&& is_writable_header(h)
            &&& h.magic == QCOW_MAGIC
            &&& h.size == size
            &&& h.cluster_bits == DEFAULT_CLUSTER_BITS
            &&& h.refcount_order == DEFAULT_REFCOUNT_ORDER
            &&& cluster_size_of(h.cluster_bits) == 0x1_0000
            &&& h.l1_table_offset == 0x1_0000
            &&& h.l1_size == div_ceil(div_ceil(size as int, 0x1_0000), 0x2000)
            &&& h.refcount_table_offset == 0x1_0000 * (div_ceil(h.l1_size as int, 0x1_0000) + 1)
            &&& metadata_end(h) == h.refcount_table_offset + h.refcount_table_clusters * 0x1_0000
            &&& h.refcount_table_clusters == div_ceil(
                max_refcount_clusters_of(
                    DEFAULT_REFCOUNT_ORDER,
                    0x1_0000,
                    div_ceil(size as int, 0x1_0000),
                ) * 8,
                0x1_0000,
            )
            &&& 0 <= max_refcount_clusters_of(
                DEFAULT_REFCOUNT_ORDER,
                0x1_0000,
                div_ceil(size as int, 0x1_0000),
            ) <= 0x4000_8001
        }),
{
    reveal(header_for_size);
    vstd::arithmetic::power2::lemma2_to64();
    let cs = 0x1_0000int;
    assert(cluster_size_of(DEFAULT_CLUSTER_BITS) == cs);
    let num_clusters = div_ceil(size as int, cs);
    lemma_div_ceil(size as int, cs);
    let num_l2 = div_ceil(num_clusters, 0x2000);
    lemma_div_ceil(num_clusters, 0x2000);
    let l1_clusters = div_ceil(num_l2, cs);
    lemma_div_ceil(num_l2, cs);
    assert(num_clusters <= 0x1fff_ffff_e000);
    assert(num_l2 <= 0xffff_ffff);
    assert(l1_clusters <= 0x1_0000);
    lemma_default_refcount_clusters(num_clusters);
    let max = max_refcount_clusters_of(DEFAULT_REFCOUNT_ORDER, cs, num_clusters);
    lemma_div_ceil(max * 8, cs);
    let h = header_for_size(size);
    assert(h.refcount_table_clusters == div_ceil(max * 8, cs));
    assert(h.refcount_table_offset == cs * (l1_clusters + 1));
    assert((cs * (l1_clusters + 1)) % cs == 0) by (nonlinear_arith)
        requires
            cs == 0x1_0000,
    ;
    if size > 0 {
        assert(num_clusters >= 1);
    }
}

/// What is parsed is a valid header, and it is what the first 104 bytes
/// store.
pub proof fn lemma_parsed_is_valid(b: Seq<u8>)
    ensures
        parse_bytes(b) matches Ok(h) ==> is_valid_header(h) && b.len() >= HEADER_LEN && h
            == header_from_bytes(b),
{
    reveal(parse_bytes);
    reveal(header_from_bytes);
}

/// Parsing looks at the first 104 bytes only.
pub proof fn lemma_parse_bytes_prefix(b: Seq<u8>)
    requires
        b.len() >= HEADER_LEN,
    ensures
        parse_bytes(b.subrange(0, HEADER_LEN as int)) == parse_bytes(b),
{
    reveal(parse_bytes);
    reveal(header_from_bytes);
    let p = b.subrange(0, HEADER_LEN as int);
    assert forall|at: int, n: int| 0 <= at
        && 0 <= n
        && at + n <= HEADER_LEN implies #[trigger] p.subrange(
        at,
        at + n,
    ) == b.subrange(at, at + n) by {
        assert(p.subrange(at, at + n) =~= b.subrange(at, at + n));
    }
    assert(header_from_bytes(p) == header_from_bytes(b));
}

/// The header that is read back from the bytes that store `h` is `h`.
pub proof fn lemma_header_from_bytes_of_header_bytes(h: QcowHeader)
    ensures
        header_bytes(h).len() == HEADER_LEN,
        header_from_bytes(header_bytes(h)) == h,
{
    reveal(header_bytes);
    reveal(header_from_bytes);
    let b = header_bytes(h);
    lemma_be_u32_of_bytes(h.magic);
    lemma_be_u32_of_bytes(h.version);
    lemma_be_u64_of_bytes(h.backing_file_offset);
    lemma_be_u32_of_bytes(h.backing_file_size);
    lemma_be_u32_of_bytes(h.cluster_bits);
    lemma_be_u64_of_bytes(h.size);
    lemma_be_u32_of_bytes(h.crypt_method);
    lemma_be_u32_of_bytes(h.l1_size);
    lemma_be_u64_of_bytes(h.l1_table_offset);
    lemma_be_u64_of_bytes(h.refcount_table_offset);
    lemma_be_u32_of_bytes(h.refcount_table_clusters);
    lemma_be_u32_of_bytes(h.nb_snapshots);
    lemma_be_u64_of_bytes(h.snapshots_offset);
    lemma_be_u64_of_bytes(h.incompatible_features);
    lemma_be_u64_of_bytes(h.compatible_features);
    lemma_be_u64_of_bytes(h.autoclear_features);
    lemma_be_u32_of_bytes(h.refcount_order);
    lemma_be_u32_of_bytes(h.header_size);
    assert(b.len() == HEADER_LEN);
    assert(b.subrange(0, 4) =~= u32_be_bytes(h.magic));
    assert(b.subrange(4, 8) =~= u32_be_bytes(h.version));
    assert(b.subrange(8, 16) =~= u64_be_bytes(h.backing_file_offset));
    assert(b.subrange(16, 20) =~= u32_be_bytes(h.backing_file_size));
    assert(b.subrange(20, 24) =~= u32_be_bytes(h.cluster_bits));
    assert(b.subrange(24, 32) =~= u64_be_bytes(h.size));
    assert(b.subrange(32, 36) =~= u32_be_bytes(h.crypt_method));
    assert(b.subrange(36, 40) =~= u32_be_bytes(h.l1_size));
    assert(b.subrange(40, 48) =~= u64_be_bytes(h.l1_table_offset));
    assert(b.subrange(48, 56) =~= u64_be_bytes(h.refcount_table_offset));
    assert(b.subrange(56, 60) =~= u32_be_bytes(h.refcount_table_clusters));
    assert(b.subrange(60, 64) =~= u32_be_bytes(h.nb_snapshots));
    assert(b.subrange(64, 72) =~= u64_be_bytes(h.snapshots_offset));
    assert(b.subrange(72, 80) =~= u64_be_bytes(h.incompatible_features));
    assert(b.subrange(80, 88) =~= u64_be_bytes(h.compatible_features));
    assert(b.subrange(88, 96) =~= u64_be_bytes(h.autoclear_features));
    assert(b.subrange(96, 100) =~= u32_be_bytes(h.refcount_order));
    assert(b.subrange(100, 104) =~= u32_be_bytes(h.header_size));
}

/// What is parsed from a file to which a header with the right magic number
/// was written is that header if it is valid, and else the error that
/// rejects it, provided the tables that the header describes end behind the
/// header itself.
pub proof fn lemma_parse_header_image(before: Seq<u8>, h: QcowHeader)
    requires
        h.magic == QCOW_MAGIC,
        is_writable_header(h),
        metadata_end(h) > HEADER_LEN,
    ensures
        header_image(before, h).len() >= metadata_end(h),
        header_image(before, h).len() >= before.len(),
        header_image(before, h).subrange(0, HEADER_LEN as int) == header_bytes(h),
        parse_bytes(header_image(before, h)) == match validation_error(h) {
            Some(e) => Err::<QcowHeader, Error>(e),
            None => Ok::<QcowHeader, Error>(h),
        },
{
    reveal(parse_bytes);
    lemma_header_from_bytes_of_header_bytes(h);
    let image = header_image(before, h);
    assert(image.subrange(0, HEADER_LEN as int) =~= header_bytes(h));
    lemma_parse_bytes_prefix(image);
    let p = image.subrange(0, HEADER_LEN as int);
    assert(field_u32(p, 0) == h.magic) by {
        reveal(header_from_bytes);
    }
}

/// Header round trip: parsing the bytes that store a valid header gives that
/// header back.
pub proof fn lemma_parse_header_bytes(h: QcowHeader)
    requires
        is_valid_header(h),
    ensures
        parse_bytes(header_bytes(h)) == Ok::<QcowHeader, Error>(h),
{
    reveal(parse_bytes);
    lemma_header_from_bytes_of_header_bytes(h);
    assert(field_u32(header_bytes(h), 0) == h.magic) by {
        reveal(header_from_bytes);
    }
}

} // verus!
