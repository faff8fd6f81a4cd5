use qcow::disk::{DiskFile, MemFile};
use qcow::error::{Error, IoError};
use qcow::geometry::{div_round_up_u32, div_round_up_u64, max_refcount_clusters, offset_is_cluster_boundary};
use qcow::header::QcowHeader;
use qcow::qcow::QcowFile;

fn sample_header_bytes() -> Vec<u8> {
    vec![
        0x51u8, 0x46, 0x49, 0xfb, // magic
        0x00, 0x00, 0x00, 0x03, // version
        0x00, 0x00, 0x00, 0x00, 0x00, 0x00, 0x00, 0x00, // backing file offset
        0x00, 0x00, 0x00, 0x00, // backing file size
        0x00, 0x00, 0x00, 0x10, // cluster_bits
        0x00, 0x00, 0x00, 0x20, 0x00, 0x00, 0x00, 0x00, // size
        0x00, 0x00, 0x00, 0x00, // crypt method
        0x00, 0x00, 0x01, 0x00, // L1 size
        0x00, 0x00, 0x00, 0x00, 0x00, 0x04, 0x00, 0x00, // L1 table offset
        0x00, 0x00, 0x00, 0x00, 0x00, 0x01, 0x00, 0x00, // refcount table offset
        0x00, 0x00, 0x00, 0x03, // refcount table clusters
        0x00, 0x00, 0x00, 0x00, // nb snapshots
        0x00, 0x00, 0x00, 0x00, 0x00, 0x04, 0x00, 0x00, // snapshots offset
        0x00, 0x00, 0x00, 0x00, 0x00, 0x00, 0x00, 0x00, // incompatible_features
        0x00, 0x00, 0x00, 0x00, 0x00, 0x00, 0x00, 0x00, // compatible_features
        0x00, 0x00, 0x00, 0x00, 0x00, 0x00, 0x00, 0x00, // autoclear_features
        0x00, 0x00, 0x00, 0x04, // refcount_order
        0x00, 0x00, 0x00, 0x68, // header_length
    ]
}

fn sample_header() -> QcowHeader {
    QcowHeader {
        magic: 0x5146_49fb,
        version: 3,
        backing_file_offset: 0,
        backing_file_size: 0,
        cluster_bits: 16,
        size: 0x20_0000_0000,
        crypt_method: 0,
        l1_size: 0x100,
        l1_table_offset: 0x4_0000,
        refcount_table_offset: 0x1_0000,
        refcount_table_clusters: 3,
        nb_snapshots: 0,
        snapshots_offset: 0x4_0000,
        incompatible_features: 0,
        compatible_features: 0,
        autoclear_features: 0,
        refcount_order: 4,
        header_size: 104,
    }
}

fn file_with(header: &[u8], len: u64) -> MemFile {
    let mut f = MemFile::new();
    f.write_at(0, header).unwrap();
    f.set_len(len).unwrap();
    f
}

fn open_error(header: &[u8]) -> Error {
    match QcowFile::from(file_with(header, 0x5_0000)) {
        Ok(_) => panic!("the image was opened"),
        Err(e) => e,
    }
}

#[test]
fn header_fields_are_decoded_big_endian() {
    let h = QcowHeader::from_bytes(&sample_header_bytes()).unwrap();
    assert_eq!(h, sample_header());
    assert_eq!(h.magic, 0x5146_49fb);
    assert_eq!(h.size, 0x20_0000_0000);
    assert_eq!(h.l1_table_offset, 0x4_0000);
    assert_eq!(h.header_size, 104);
}

#[test]
fn header_fields_are_encoded_big_endian() {
    assert_eq!(sample_header().to_bytes(), sample_header_bytes());
}

#[test]
fn header_encoding_distinguishes_byte_order() {
    let mut h = sample_header();
    h.size = 0x0102_0304_0506_0708;
    h.l1_size = 0x0a0b_0c0d;
    let bytes = h.to_bytes();
    assert_eq!(&bytes[24..32], &[1u8, 2, 3, 4, 5, 6, 7, 8]);
    assert_eq!(&bytes[36..40], &[0x0au8, 0x0b, 0x0c, 0x0d]);
    assert_eq!(QcowHeader::decode(&bytes), h);
}

#[test]
fn header_round_trip() {
    let headers = [
        sample_header(),
        QcowHeader::create_for_size(0x10_0000),
        QcowHeader::create_for_size(1),
        QcowHeader::create_for_size(1024 * 1024 * 1024 * 256),
    ];
    for h in headers.iter() {
        assert_eq!(QcowHeader::from_bytes(&h.to_bytes()), Ok(*h));
    }
}

#[test]
fn header_round_trip_through_file() {
    let h = QcowHeader::create_for_size(0x10_0000);
    let mut f = MemFile::new();
    h.write_to(&mut f).unwrap();
    assert_eq!(QcowHeader::new(&f), Ok(h));
    assert_eq!(f.len().unwrap(), 0x3_0000);
    assert!(f.contents()[104..].iter().all(|b| *b == 0));
}

#[test]
fn default_header_for_one_mebibyte() {
    let h = QcowHeader::create_for_size(0x10_0000);
    assert_eq!(
        h,
        QcowHeader {
            magic: 0x5146_49fb,
            version: 3,
            backing_file_offset: 0,
            backing_file_size: 0,
            cluster_bits: 16,
            size: 0x10_0000,
            crypt_method: 0,
            l1_size: 1,
            l1_table_offset: 0x1_0000,
            refcount_table_offset: 0x2_0000,
            refcount_table_clusters: 1,
            nb_snapshots: 0,
            snapshots_offset: 0,
            incompatible_features: 0,
            compatible_features: 0,
            autoclear_features: 0,
            refcount_order: 4,
            header_size: 104,
        }
    );
}

#[test]
fn default_header_for_256_gibibytes() {
    let h = QcowHeader::create_for_size(1024 * 1024 * 1024 * 256);
    assert_eq!(h.l1_size, 512);
    assert_eq!(h.l1_table_offset, 0x1_0000);
    assert_eq!(h.refcount_table_offset, 0x2_0000);
    assert_eq!(h.refcount_table_clusters, 1);
}

#[test]
fn default_header_for_large_image_has_more_l1_clusters() {
    // 2^17 L2 tables need two clusters worth of L1 entries by the header's count.
    let h = QcowHeader::create_for_size(0x1_0000 * 0x2000 * 0x2_0000);
    assert_eq!(h.l1_size, 0x2_0000);
    assert_eq!(h.refcount_table_offset, 0x1_0000 * 3);
}

#[test]
fn default_header_for_empty_image_has_no_refcount_clusters() {
    let h = QcowHeader::create_for_size(0);
    assert_eq!(h.refcount_table_clusters, 0);
    assert_eq!(h.validate(), Err(Error::NoRefcountClusters));
    assert!(matches!(
        QcowFile::new(MemFile::new(), 0),
        Err(Error::NoRefcountClusters)
    ));
}

#[test]
fn bad_magic_is_rejected() {
    let mut bytes = sample_header_bytes();
    bytes[2] = 0x4a;
    assert_eq!(QcowHeader::from_bytes(&bytes), Err(Error::BadMagic));
    assert_eq!(open_error(&bytes), Error::BadMagic);
    assert_eq!(open_error(&[0x51u8, 0x46, 0x4a, 0xfb]), Error::BadMagic);
}

#[test]
fn short_header_is_rejected() {
    assert_eq!(
        QcowHeader::from_bytes(&[0x51u8, 0x46]),
        Err(Error::ReadingHeader(IoError::UnexpectedEof))
    );
    assert_eq!(
        QcowHeader::from_bytes(&sample_header_bytes()[..103]),
        Err(Error::ReadingHeader(IoError::UnexpectedEof))
    );
    let f = file_with(&sample_header_bytes()[..50], 50);
    assert_eq!(QcowHeader::new(&f), Err(Error::ReadingHeader(IoError::UnexpectedEof)));
    assert_eq!(QcowHeader::new(&MemFile::new()), Err(Error::ReadingHeader(IoError::UnexpectedEof)));
}

#[test]
fn unsupported_version_is_rejected() {
    let mut bytes = sample_header_bytes();
    bytes[7] = 2;
    assert_eq!(open_error(&bytes), Error::UnsupportedVersion(2));
}

#[test]
fn cluster_size_out_of_range_is_rejected() {
    let mut bytes = sample_header_bytes();
    bytes[23] = 31;
    assert_eq!(open_error(&bytes), Error::InvalidClusterSize);
    bytes[23] = 3;
    assert_eq!(open_error(&bytes), Error::InvalidClusterSize);
    bytes[23] = 64;
    assert_eq!(open_error(&bytes), Error::InvalidClusterSize);
}

#[test]
fn backing_file_is_rejected() {
    let mut bytes = sample_header_bytes();
    bytes[13] = 1;
    assert_eq!(open_error(&bytes), Error::BackingFilesNotSupported);
}

#[test]
fn refcount_order_other_than_four_is_rejected() {
    let mut bytes = sample_header_bytes();
    bytes[99] = 2;
    assert_eq!(open_error(&bytes), Error::UnsupportedRefcountOrder);
    bytes[99] = 64;
    assert_eq!(open_error(&bytes), Error::UnsupportedRefcountOrder);
}

#[test]
fn missing_refcount_clusters_are_rejected() {
    let mut bytes = sample_header_bytes();
    bytes[59] = 0;
    assert_eq!(open_error(&bytes), Error::NoRefcountClusters);
}

#[test]
fn misaligned_offsets_are_rejected() {
    let mut bytes = sample_header_bytes();
    bytes[47] = 1;
    assert_eq!(open_error(&bytes), Error::InvalidOffset(0x4_0001));
    let mut bytes = sample_header_bytes();
    bytes[54] = 2;
    assert_eq!(open_error(&bytes), Error::InvalidOffset(0x1_0200));
    let mut bytes = sample_header_bytes();
    bytes[70] = 0x80;
    assert_eq!(open_error(&bytes), Error::InvalidOffset(0x4_8000));
}

#[test]
fn checks_come_in_order() {
    // A wrong version is reported before a wrong cluster size, and so on.
    let mut bytes = sample_header_bytes();
    bytes[7] = 2;
    bytes[23] = 31;
    assert_eq!(open_error(&bytes), Error::UnsupportedVersion(2));
    let mut bytes = sample_header_bytes();
    bytes[23] = 31;
    bytes[13] = 1;
    assert_eq!(open_error(&bytes), Error::InvalidClusterSize);
    let mut bytes = sample_header_bytes();
    bytes[13] = 1;
    bytes[99] = 2;
    assert_eq!(open_error(&bytes), Error::BackingFilesNotSupported);
    let mut bytes = sample_header_bytes();
    bytes[99] = 2;
    bytes[59] = 0;
    assert_eq!(open_error(&bytes), Error::UnsupportedRefcountOrder);
    let mut bytes = sample_header_bytes();
    bytes[59] = 0;
    bytes[47] = 1;
    assert_eq!(open_error(&bytes), Error::NoRefcountClusters);
}

#[test]
fn tables_outside_the_file_are_rejected() {
    // The L1 table would end behind the end of the file.
    let f = file_with(&sample_header_bytes(), 0x4_0000 + 0x7ff);
    assert_eq!(
        QcowFile::from(f).err(),
        Some(Error::ReadingHeader(IoError::UnexpectedEof))
    );
    // The L1 table is there, the reference-count table is not.
    let mut h = sample_header();
    h.refcount_table_offset = 0x10_0000;
    let f = file_with(&h.to_bytes(), 0x5_0000);
    assert_eq!(
        QcowFile::from(f).err(),
        Some(Error::ReadingHeader(IoError::UnexpectedEof))
    );
}

#[test]
fn compressed_l1_entries_are_rejected() {
    let mut f = file_with(&sample_header_bytes(), 0x5_0000);
    // Entry 3 of the L1 table: an offset with the flag of a compressed cluster.
    f.write_at(0x4_0000 + 3 * 8, &[0x40u8, 0, 0, 0, 0, 0x05, 0, 0]).unwrap();
    assert_eq!(QcowFile::from(f).err(), Some(Error::CompressedBlocksNotSupported));
}

#[test]
fn used_flag_in_l1_entries_is_accepted() {
    let mut f = file_with(&sample_header_bytes(), 0x5_0000);
    f.write_at(0x4_0000, &[0x80u8, 0, 0, 0, 0, 0, 0, 0]).unwrap();
    assert!(QcowFile::from(f).is_ok());
}

/// A file of the greatest length there is, which holds zeros behind its
/// first bytes and cannot be written.
struct HugeFile {
    head: Vec<u8>,
}

impl DiskFile for HugeFile {
    fn len(&self) -> Result<u64, IoError> {
        Ok(u64::MAX)
    }

    fn set_len(&mut self, _size: u64) -> Result<(), IoError> {
        Err(IoError::Other)
    }

    fn read_exact_at(&self, offset: u64, count: usize) -> Result<Vec<u8>, IoError> {
        if offset.checked_add(count as u64).is_none() {
            return Err(IoError::UnexpectedEof);
        }
        let mut out = vec![0u8; count];
        for (i, b) in out.iter_mut().enumerate() {
            let at = offset + i as u64;
            if at < self.head.len() as u64 {
                *b = self.head[at as usize];
            }
        }
        Ok(out)
    }

    fn write_at(&mut self, _offset: u64, _data: &[u8]) -> Result<usize, IoError> {
        Err(IoError::Other)
    }

    fn sync_all(&mut self) -> Result<(), IoError> {
        Ok(())
    }

    fn sync_data(&mut self) -> Result<(), IoError> {
        Ok(())
    }
}

#[test]
fn tables_beyond_the_address_space_are_rejected() {
    // Clusters of 16 bytes; the L1 entry for the end of the image would lie behind the last
    // offset that there is.
    let mut h = sample_header();
    h.cluster_bits = 4;
    h.size = 64;
    h.l1_size = 1;
    h.l1_table_offset = 0xffff_ffff_ffff_fff0;
    h.refcount_table_offset = 112;
    h.refcount_table_clusters = 1;
    h.snapshots_offset = 0;
    let f = HugeFile { head: h.to_bytes() };
    assert_eq!(QcowFile::from(f).err(), Some(Error::InvalidL1TableOffset));
    // The reference-count table would end behind the last offset that there is.
    let mut h = sample_header();
    h.cluster_bits = 4;
    h.size = 0;
    h.l1_size = 0;
    h.l1_table_offset = 112;
    h.refcount_table_offset = 0xffff_ffff_ffff_fff0;
    h.refcount_table_clusters = 2;
    h.snapshots_offset = 0;
    let f = HugeFile { head: h.to_bytes() };
    assert_eq!(QcowFile::from(f).err(), Some(Error::InvalidRefcountTableOffset));
}

#[test]
fn header_that_cannot_be_written_is_refused() {
    let mut h = sample_header();
    h.cluster_bits = 64;
    let mut f = MemFile::new();
    assert_eq!(h.write_to(&mut f), Err(Error::WritingHeader(IoError::InvalidInput)));
    assert_eq!(f.len().unwrap(), 0);
    let mut h = sample_header();
    h.refcount_table_offset = 0xffff_ffff_ffff_0000;
    assert_eq!(h.write_to(&mut f), Err(Error::WritingHeader(IoError::InvalidInput)));
    let mut h = sample_header();
    h.refcount_table_offset = 0;
    h.refcount_table_clusters = 0;
    assert_eq!(h.write_to(&mut f), Err(Error::WritingHeader(IoError::InvalidInput)));
    assert_eq!(f.len().unwrap(), 0);
}

#[test]
fn writing_a_header_extends_the_file_to_the_last_table_byte() {
    let h = sample_header();
    let mut f = MemFile::new();
    h.write_to(&mut f).unwrap();
    // The reference-count table ends at 0x1_0000 + 3 clusters.
    assert_eq!(f.len().unwrap(), 0x4_0000);
    assert_eq!(&f.contents()[..104], &sample_header_bytes()[..]);
}

#[test]
fn ceiling_division() {
    assert_eq!(div_round_up_u64(0, 7), 0);
    assert_eq!(div_round_up_u64(1, 7), 1);
    assert_eq!(div_round_up_u64(7, 7), 1);
    assert_eq!(div_round_up_u64(8, 7), 2);
    assert_eq!(div_round_up_u64(u64::MAX, 1), u64::MAX);
    assert_eq!(div_round_up_u64(u64::MAX, 2), 0x8000_0000_0000_0000);
    assert_eq!(div_round_up_u32(0x10_0000, 0x1_0000), 16);
    assert_eq!(div_round_up_u32(0x10_0001, 0x1_0000), 17);
    assert_eq!(div_round_up_u32(u32::MAX, u32::MAX), 1);
}

#[test]
fn cluster_boundaries() {
    assert_eq!(offset_is_cluster_boundary(0, 16), Ok(()));
    assert_eq!(offset_is_cluster_boundary(0x3_0000, 16), Ok(()));
    assert_eq!(offset_is_cluster_boundary(0x3_0200, 9), Ok(()));
    assert_eq!(offset_is_cluster_boundary(0x3_0200, 16), Err(Error::InvalidOffset(0x3_0200)));
    assert_eq!(offset_is_cluster_boundary(1, 0), Ok(()));
    assert_eq!(offset_is_cluster_boundary(1, 1), Err(Error::InvalidOffset(1)));
    assert_eq!(
        offset_is_cluster_boundary(0x8000_0000_0000_0000, 63),
        Ok(())
    );
}

#[test]
fn refcount_cluster_counts() {
    // 16 clusters of 64 KiB: one cluster of counts, and one to count it.
    assert_eq!(max_refcount_clusters(4, 0x1_0000, 16), 2);
    // 2^22 clusters: 128 clusters of counts, and one for those.
    assert_eq!(max_refcount_clusters(4, 0x1_0000, 0x40_0000), 129);
    assert_eq!(max_refcount_clusters(4, 0x1_0000, 0), 0);
    // 0x8001 clusters of counts need two clusters to be counted.
    assert_eq!(max_refcount_clusters(4, 0x1_0000, 0x8001 * 0x8000), 0x8001 + 2);
    // Counts of one byte in clusters of 512 bytes.
    assert_eq!(max_refcount_clusters(3, 512, 1024), 3);
    // Counts of eight bytes.
    assert_eq!(max_refcount_clusters(6, 512, 64), 2);
}
