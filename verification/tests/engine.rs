use qcow::disk::{DiskFile, MemFile};
use qcow::error::{Error, IoError};
use qcow::header::QcowHeader;
use qcow::qcow::{QcowFile, SeekFrom};

const CLUSTER: u64 = 0x1_0000;

fn new_image(size: u64) -> QcowFile<MemFile> {
    QcowFile::new(MemFile::new(), size).unwrap()
}

fn reopen(q: QcowFile<MemFile>) -> QcowFile<MemFile> {
    QcowFile::from(q.into_file()).unwrap()
}

fn write_at(q: &mut QcowFile<MemFile>, at: u64, data: &[u8]) -> usize {
    assert_eq!(q.seek(SeekFrom::Start(at)), Ok(at));
    q.write(data).unwrap()
}

fn read_at(q: &mut QcowFile<MemFile>, at: u64, len: usize) -> Vec<u8> {
    assert_eq!(q.seek(SeekFrom::Start(at)), Ok(at));
    let mut buf = vec![0xeeu8; len];
    let n = q.read(&mut buf).unwrap();
    buf.truncate(n);
    buf
}

/// An image with clusters of 512 bytes, so that caches fill up with little data: 8 MiB, an L1
/// table of 256 entries in clusters 1 to 4, a reference-count table of 65 entries in clusters
/// 5 and 6.
fn small_cluster_image() -> QcowFile<MemFile> {
    let h = QcowHeader {
        magic: 0x5146_49fb,
        version: 3,
        backing_file_offset: 0,
        backing_file_size: 0,
        cluster_bits: 9,
        size: 8 * 1024 * 1024,
        crypt_method: 0,
        l1_size: 256,
        l1_table_offset: 512,
        refcount_table_offset: 5 * 512,
        refcount_table_clusters: 2,
        nb_snapshots: 0,
        snapshots_offset: 0,
        incompatible_features: 0,
        compatible_features: 0,
        autoclear_features: 0,
        refcount_order: 4,
        header_size: 104,
    };
    let mut f = MemFile::new();
    h.write_to(&mut f).unwrap();
    assert_eq!(f.len().unwrap(), 7 * 512);
    QcowFile::from(f).unwrap()
}

#[test]
fn new_image_reads_as_zeros() {
    let q = new_image(0x10_0000);
    let mut q = reopen(q);
    assert_eq!(q.virtual_size(), 0x10_0000);
    assert_eq!(read_at(&mut q, 0, 16), vec![0u8; 16]);
    assert_eq!(read_at(&mut q, 0x10_0000 - 16, 16), vec![0u8; 16]);
}

#[test]
fn first_bytes_round_trip() {
    let mut q = new_image(0x10_0000);
    assert_eq!(q.write(b"test first bytes"), Ok(16));
    assert_eq!(read_at(&mut q, 0, 4), b"test".to_vec());
    assert_eq!(read_at(&mut q, 5, 11), b"first bytes".to_vec());
    assert_eq!(read_at(&mut q, 16, 4), vec![0u8; 4]);
}

#[test]
fn offset_write_reads_back_and_start_stays_zero() {
    let mut q = new_image(0x1000_0000);
    assert_eq!(write_at(&mut q, 0x0fff_2000, &[0x55u8; 4096]), 4096);
    assert_eq!(read_at(&mut q, 0x0fff_2000, 4), vec![0x55u8; 4]);
    assert_eq!(read_at(&mut q, 0, 4), vec![0u8; 4]);
}

#[test]
fn write_flush_read() {
    let mut q = new_image(0x100_0000);
    let data: Vec<u8> = (0..200_000u32).map(|i| (i * 7 + 3) as u8).collect();
    assert_eq!(write_at(&mut q, 0x1_2345, &data), data.len());
    assert_eq!(q.flush(), Ok(()));
    assert_eq!(read_at(&mut q, 0x1_2345, data.len()), data);
    assert_eq!(read_at(&mut q, 0x1_2345 - 3, 3), vec![0u8; 3]);
    assert_eq!(read_at(&mut q, 0x1_2345 + data.len() as u64, 3), vec![0u8; 3]);
}

#[test]
fn read_spans_allocated_and_unallocated_cluster() {
    let mut q = new_image(0x10_0000);
    assert_eq!(write_at(&mut q, CLUSTER - 4, b"abcd"), 4);
    let got = read_at(&mut q, CLUSTER - 4, 8);
    assert_eq!(got, b"abcd\0\0\0\0".to_vec());
    // And the other way round.
    assert_eq!(write_at(&mut q, 3 * CLUSTER, b"wxyz"), 4);
    assert_eq!(read_at(&mut q, 3 * CLUSTER - 4, 8), b"\0\0\0\0wxyz".to_vec());
}

#[test]
fn write_at_the_end_of_the_image() {
    let size = 0x10_0000;
    let mut q = new_image(size);
    // One byte fits at the last address.
    assert_eq!(write_at(&mut q, size - 1, b"Z"), 1);
    assert_eq!(read_at(&mut q, size - 1, 1), b"Z".to_vec());
    // A longer write there is cut off.
    assert_eq!(write_at(&mut q, size - 1, b"YX"), 1);
    assert_eq!(read_at(&mut q, size - 1, 4), b"Y".to_vec());
    // Nothing fits at the end: a write there fails and changes nothing.
    let len = q.file().len().unwrap();
    assert_eq!(q.seek(SeekFrom::Start(size)), Ok(size));
    assert_eq!(q.write(b"Z"), Err(IoError::InvalidInput));
    assert_eq!(q.seek(SeekFrom::Current(0)), Ok(size));
    assert_eq!(q.file().len().unwrap(), len);
    assert_eq!(q.write(b""), Ok(0));
    let mut buf = [7u8; 4];
    assert_eq!(q.read(&mut buf), Ok(0));
    assert_eq!(buf, [7u8; 4]);
    // And no position lies behind the end.
    assert_eq!(q.seek(SeekFrom::Start(size + 1)), Err(IoError::InvalidInput));
}

#[test]
fn straddling_write_allocates_two_clusters() {
    let mut q = new_image(0x10_0000);
    let before = q.file().len().unwrap();
    assert_eq!(write_at(&mut q, 2 * CLUSTER - 1, b"ab"), 2);
    assert_eq!(read_at(&mut q, 2 * CLUSTER - 1, 2), b"ab".to_vec());
    // An L2 table and two clusters of data.
    assert_eq!(q.file().len().unwrap(), before + 3 * CLUSTER);
    // A second write to the same clusters allocates nothing.
    assert_eq!(write_at(&mut q, 2 * CLUSTER - 2, b"cdef"), 4);
    assert_eq!(q.file().len().unwrap(), before + 3 * CLUSTER);
    assert_eq!(read_at(&mut q, 2 * CLUSTER - 2, 4), b"cdef".to_vec());
}

#[test]
fn seek_from_start_end_and_current() {
    let size = 0x10_0000;
    let mut q = new_image(size);
    assert_eq!(q.seek(SeekFrom::Start(10)), Ok(10));
    assert_eq!(q.seek(SeekFrom::Current(5)), Ok(15));
    assert_eq!(q.seek(SeekFrom::Current(-15)), Ok(0));
    assert_eq!(q.seek(SeekFrom::Current(-1)), Err(IoError::InvalidInput));
    assert_eq!(q.seek(SeekFrom::Current(0)), Ok(0));
    assert_eq!(q.seek(SeekFrom::End(0)), Ok(size));
    assert_eq!(q.seek(SeekFrom::End(-1)), Ok(size - 1));
    assert_eq!(q.seek(SeekFrom::End(1)), Err(IoError::InvalidInput));
    // A failed seek leaves the position where it was.
    assert_eq!(q.seek(SeekFrom::Current(0)), Ok(size - 1));
    assert_eq!(q.seek(SeekFrom::End(-(size as i64))), Ok(0));
    assert_eq!(q.seek(SeekFrom::End(-(size as i64) - 1)), Err(IoError::InvalidInput));
    assert_eq!(q.seek(SeekFrom::End(i64::MIN)), Err(IoError::InvalidInput));
    assert_eq!(q.seek(SeekFrom::Current(i64::MAX)), Err(IoError::InvalidInput));
    assert_eq!(q.seek(SeekFrom::Current(i64::MIN)), Err(IoError::InvalidInput));
    assert_eq!(q.seek(SeekFrom::Start(u64::MAX)), Err(IoError::InvalidInput));
}

#[test]
fn read_and_write_move_the_position() {
    let mut q = new_image(0x10_0000);
    assert_eq!(q.write(b"0123456789"), Ok(10));
    assert_eq!(q.seek(SeekFrom::Current(0)), Ok(10));
    assert_eq!(q.seek(SeekFrom::Start(2)), Ok(2));
    let mut buf = [0u8; 3];
    assert_eq!(q.read(&mut buf), Ok(3));
    assert_eq!(&buf, b"234");
    assert_eq!(q.read(&mut buf), Ok(3));
    assert_eq!(&buf, b"567");
    assert_eq!(q.seek(SeekFrom::Current(0)), Ok(8));
}

#[test]
fn created_image_has_a_count_for_every_cluster() {
    let mut q = new_image(0x10_0000);
    // Header, L1 table, reference-count table, and the block of counts itself.
    assert_eq!(q.file().len().unwrap(), 4 * CLUSTER);
    assert_eq!(q.first_zero_refcount(), Ok(None));
    assert_eq!(q.flush(), Ok(()));
    let mut q = reopen(q);
    assert_eq!(q.virtual_size(), 0x10_0000);
    assert_eq!(q.first_zero_refcount(), Ok(None));
}

#[test]
fn stored_counts_are_big_endian() {
    let mut q = new_image(0x10_0000);
    q.flush().unwrap();
    let f = q.into_file();
    let bytes = f.contents();
    // The reference-count table points at the fourth cluster.
    assert_eq!(&bytes[0x2_0000..0x2_0008], &[0u8, 0, 0, 0, 0, 3, 0, 0]);
    // Which counts one reference for each of the four clusters, and none behind.
    assert_eq!(&bytes[0x3_0000..0x3_000a], &[0u8, 1, 0, 1, 0, 1, 0, 1, 0, 0]);
}

#[test]
fn stored_tables_carry_the_used_flag() {
    let mut q = new_image(0x10_0000);
    write_at(&mut q, 0, b"x");
    q.flush().unwrap();
    let f = q.into_file();
    let bytes = f.contents();
    // The L1 entry is the plain offset of the L2 table, the fifth cluster.
    assert_eq!(&bytes[0x1_0000..0x1_0008], &[0u8, 0, 0, 0, 0, 4, 0, 0]);
    // The L2 entry is the offset of the data, the sixth cluster, with the flag.
    assert_eq!(&bytes[0x4_0000..0x4_0008], &[0x80u8, 0, 0, 0, 0, 5, 0, 0]);
    assert_eq!(bytes[0x5_0000], b'x');
}

#[test]
fn contents_survive_reopening() {
    let mut q = new_image(0x4000_0000);
    let data: Vec<u8> = (0..70_000u32).map(|i| (i % 251) as u8).collect();
    write_at(&mut q, 0x2000_0100, &data);
    write_at(&mut q, 0x10, b"start");
    q.flush().unwrap();
    let mut q = reopen(q);
    assert_eq!(q.virtual_size(), 0x4000_0000);
    assert_eq!(read_at(&mut q, 0x2000_0100, data.len()), data);
    assert_eq!(read_at(&mut q, 0x10, 5), b"start".to_vec());
    assert_eq!(read_at(&mut q, 0, 0x10), vec![0u8; 0x10]);
    // And the image can be written on.
    write_at(&mut q, 0x2000_0100, b"again");
    assert_eq!(read_at(&mut q, 0x2000_0100, 6), [b"again".to_vec(), vec![data[5]]].concat());
    q.flush().unwrap();
    let mut q = reopen(q);
    assert_eq!(read_at(&mut q, 0x2000_0100, 5), b"again".to_vec());
}

#[test]
fn unflushed_tables_are_not_in_the_file() {
    let mut q = new_image(0x10_0000);
    q.flush().unwrap();
    write_at(&mut q, 0, b"lost");
    // Without a flush the L1 table in the file still has no entry.
    let mut q = reopen(q);
    assert_eq!(read_at(&mut q, 0, 4), vec![0u8; 4]);
}

#[test]
fn a_further_data_cluster_is_the_next_cluster_of_the_file() {
    let mut q = new_image(0x10_0000);
    write_at(&mut q, 0, b"one");
    let end = q.file().len().unwrap();
    assert_eq!(end, 6 * CLUSTER);
    // The L2 table and the block of counts have changed already: neither moves, and the
    // data takes the first cluster behind the end of the file.
    write_at(&mut q, 5 * CLUSTER + 7, b"two");
    assert_eq!(q.file().len().unwrap(), end + CLUSTER);
    let at = (end + 7) as usize;
    assert_eq!(q.file().contents()[at..at + 3].to_vec(), b"two".to_vec());
    assert_eq!(q.first_zero_refcount(), Ok(None));
    q.flush().unwrap();
    assert_eq!(q.file().len().unwrap(), end + CLUSTER);
    let f = q.into_file();
    let bytes = f.contents();
    // The block of counts is in the fourth cluster: seven clusters count one reference.
    for c in 0..7usize {
        let i = 3 * CLUSTER as usize + 2 * c;
        assert_eq!(bytes[i..i + 2].to_vec(), vec![0u8, 1]);
    }
    assert_eq!(bytes[3 * CLUSTER as usize + 14..3 * CLUSTER as usize + 16].to_vec(), vec![0u8, 0]);
    // Entry five of the L2 table in the fifth cluster names the new cluster of data.
    let e = 4 * CLUSTER as usize + 5 * 8;
    assert_eq!(
        bytes[e..e + 8].to_vec(),
        vec![0x80u8, 0, 0, 0, 0, 6, 0, 0]
    );
}

#[test]
fn a_write_maps_the_clusters_of_its_range_only() {
    let mut q = new_image(0x10_0000);
    let len = q.file().len().unwrap();
    assert_eq!(write_at(&mut q, 0xffff, &[0xaa, 0xbb]), 2);
    // An L2 table and a cluster of data for each of the two clusters of the image.
    assert_eq!(q.file().len().unwrap(), len + 3 * CLUSTER);
    assert_eq!(read_at(&mut q, 0xffff, 2), vec![0xaa, 0xbb]);
    assert_eq!(q.first_zero_refcount(), Ok(None));
    q.flush().unwrap();
    let f = q.into_file();
    let bytes = f.contents();
    // The first block of counts, in the fourth cluster, counts one reference for each of the
    // seven clusters of the file.
    for c in 0..7usize {
        let i = 3 * CLUSTER as usize + 2 * c;
        assert_eq!(bytes[i..i + 2].to_vec(), vec![0u8, 1]);
    }
    // The L2 table, in the fifth cluster, names the two clusters of data and no third.
    let t = 4 * CLUSTER as usize;
    assert_eq!(bytes[t..t + 8].to_vec(), vec![0x80u8, 0, 0, 0, 0, 5, 0, 0]);
    assert_eq!(bytes[t + 8..t + 16].to_vec(), vec![0x80u8, 0, 0, 0, 0, 6, 0, 0]);
    assert_eq!(bytes[t + 16..t + 24].to_vec(), vec![0u8; 8]);
}

#[test]
fn changed_blocks_move_and_their_clusters_are_reused() {
    let mut q = new_image(0x4000_0000);
    write_at(&mut q, 0, b"one");
    assert_eq!(q.first_zero_refcount(), Ok(None));
    q.flush().unwrap();
    assert_eq!(q.first_zero_refcount(), Ok(None));
    let flushed_len = q.file().len().unwrap();
    assert_eq!(flushed_len, 6 * CLUSTER);
    // A new cluster of data in the same L2 table: the table and the block of counts are clean
    // and move, which takes a cluster for the data and one for each.
    write_at(&mut q, CLUSTER, b"two");
    assert_eq!(q.file().len().unwrap(), flushed_len + 3 * CLUSTER);
    // The clusters that they left count no reference.
    let freed = q.first_zero_refcount().unwrap();
    assert!(freed == Some(3 * CLUSTER) || freed == Some(4 * CLUSTER));
    assert_eq!(read_at(&mut q, 0, 3), b"one".to_vec());
    assert_eq!(read_at(&mut q, CLUSTER, 3), b"two".to_vec());
    // Before a flush they are not handed out.
    write_at(&mut q, 2 * CLUSTER, b"three");
    assert_eq!(q.file().len().unwrap(), flushed_len + 4 * CLUSTER);
    // After a flush they are: two more clusters of data take the two of them, and the blocks
    // that move again take new ones.
    q.flush().unwrap();
    write_at(&mut q, 3 * CLUSTER, b"four");
    write_at(&mut q, 4 * CLUSTER, b"five");
    assert_eq!(q.file().len().unwrap(), flushed_len + 6 * CLUSTER);
    assert_eq!(read_at(&mut q, 0, 3), b"one".to_vec());
    assert_eq!(read_at(&mut q, CLUSTER, 3), b"two".to_vec());
    assert_eq!(read_at(&mut q, 2 * CLUSTER, 5), b"three".to_vec());
    assert_eq!(read_at(&mut q, 3 * CLUSTER, 4), b"four".to_vec());
    assert_eq!(read_at(&mut q, 4 * CLUSTER, 4), b"five".to_vec());
    q.flush().unwrap();
    let mut q = reopen(q);
    assert_eq!(read_at(&mut q, 0, 3), b"one".to_vec());
    assert_eq!(read_at(&mut q, 3 * CLUSTER, 4), b"four".to_vec());
    assert_eq!(read_at(&mut q, 4 * CLUSTER, 4), b"five".to_vec());
}

#[test]
fn a_reused_cluster_reads_as_zeros() {
    // A cluster of the file that a block has left is handed out again after a flush. What was
    // not written of the cluster of the image that takes it reads as zeros.
    let mut q = new_image(0x4000_0000);
    write_at(&mut q, 0, b"one");
    q.flush().unwrap();
    write_at(&mut q, CLUSTER, b"two");
    q.flush().unwrap();
    let len = q.file().len().unwrap();
    write_at(&mut q, 2 * CLUSTER, b"3");
    // The data and one of the two blocks that move took clusters that were left: the file
    // grew by one cluster only.
    assert_eq!(q.file().len().unwrap(), len + CLUSTER);
    assert_eq!(read_at(&mut q, 2 * CLUSTER, 8), b"3\0\0\0\0\0\0\0".to_vec());
    assert_eq!(
        read_at(&mut q, 2 * CLUSTER + 1, CLUSTER as usize - 1),
        vec![0u8; CLUSTER as usize - 1]
    );
    assert_eq!(read_at(&mut q, 0, 3), b"one".to_vec());
    assert_eq!(read_at(&mut q, CLUSTER, 3), b"two".to_vec());
}

#[test]
fn more_l2_tables_than_the_cache_holds() {
    // Each L2 table maps 512 MiB; 120 tables do not fit in the cache of 100.
    let tables = 120u64;
    let step = 0x2000_0000u64;
    let mut q = new_image(tables * step);
    for i in 0..tables {
        let data = [i as u8 + 1; 8];
        assert_eq!(write_at(&mut q, i * step + 8 * i, &data), 8);
    }
    for i in 0..tables {
        assert_eq!(read_at(&mut q, i * step + 8 * i, 8), vec![i as u8 + 1; 8]);
    }
    // Once more, now that every table was written out and read back.
    for i in (0..tables).rev() {
        let data = [i as u8 + 101; 8];
        assert_eq!(write_at(&mut q, i * step + CLUSTER, &data), 8);
    }
    for i in 0..tables {
        assert_eq!(read_at(&mut q, i * step + 8 * i, 8), vec![i as u8 + 1; 8]);
        assert_eq!(read_at(&mut q, i * step + CLUSTER, 8), vec![i as u8 + 101; 8]);
    }
    q.flush().unwrap();
    let mut q = reopen(q);
    for i in 0..tables {
        assert_eq!(read_at(&mut q, i * step + 8 * i, 8), vec![i as u8 + 1; 8]);
        assert_eq!(read_at(&mut q, i * step + CLUSTER, 8), vec![i as u8 + 101; 8]);
    }
}

#[test]
fn small_clusters_fill_both_caches() {
    let mut q = small_cluster_image();
    assert_eq!(q.virtual_size(), 8 * 1024 * 1024);
    // A block of counts counts 256 clusters of 512 bytes; 7000 clusters of data and their
    // tables take more than the 25 blocks that the cache holds, and 220 L2 tables.
    let clusters = 7000u64;
    for i in 0..clusters {
        let data = [(i % 250) as u8 + 1; 512];
        assert_eq!(write_at(&mut q, i * 1024, &data), 512);
    }
    for i in 0..clusters {
        assert_eq!(read_at(&mut q, i * 1024, 512), vec![(i % 250) as u8 + 1; 512]);
        assert_eq!(read_at(&mut q, i * 1024 + 512, 2), vec![0u8; 2]);
    }
    q.flush().unwrap();
    // Every cluster after the tables counts a reference or was left by a block that moved.
    let mut q = reopen(q);
    for i in 0..clusters {
        assert_eq!(read_at(&mut q, i * 1024, 512), vec![(i % 250) as u8 + 1; 512]);
    }
}

#[test]
fn counts_beyond_the_table_are_an_error() {
    // The file is longer than the reference-count table of the header counts for.
    let h = QcowHeader {
        magic: 0x5146_49fb,
        version: 3,
        backing_file_offset: 0,
        backing_file_size: 0,
        cluster_bits: 9,
        size: 512,
        crypt_method: 0,
        l1_size: 1,
        l1_table_offset: 512,
        refcount_table_offset: 1024,
        refcount_table_clusters: 1,
        nb_snapshots: 0,
        snapshots_offset: 0,
        incompatible_features: 0,
        compatible_features: 0,
        autoclear_features: 0,
        refcount_order: 4,
        header_size: 104,
    };
    let mut f = MemFile::new();
    h.write_to(&mut f).unwrap();
    // Two blocks of counts cover 512 clusters.
    f.set_len(513 * 512).unwrap();
    let mut q = QcowFile::from(f).unwrap();
    assert_eq!(q.first_zero_refcount(), Ok(Some(0)));
    // Count a reference for every cluster that the table has a place for.
    let mut f = q.into_file();
    let mut block = vec![0u8; 512];
    for i in 0..256 {
        block[2 * i + 1] = 1;
    }
    f.write_at(3 * 512, &block).unwrap();
    f.write_at(4 * 512, &block).unwrap();
    f.write_at(1024, &[0u8, 0, 0, 0, 0, 0, 6, 0, 0, 0, 0, 0, 0, 0, 8, 0]).unwrap();
    let mut q = QcowFile::from(f).unwrap();
    assert_eq!(q.first_zero_refcount(), Err(Error::GettingRefcount(IoError::InvalidInput)));
}

#[test]
fn write_outside_the_l1_table_is_an_error() {
    // An image whose L1 table is too short for its size.
    let mut h = QcowHeader::create_for_size(0x4000_0000);
    h.l1_size = 1;
    let mut f = MemFile::new();
    h.write_to(&mut f).unwrap();
    let mut q = QcowFile::from(f).unwrap();
    assert_eq!(write_at(&mut q, 0, b"in"), 2);
    assert_eq!(q.seek(SeekFrom::Start(0x2000_0000)), Ok(0x2000_0000));
    assert_eq!(q.write(b"out"), Err(IoError::InvalidInput));
    let mut buf = [0u8; 3];
    assert_eq!(q.read(&mut buf), Err(IoError::InvalidInput));
    // The position stays where it was.
    assert_eq!(q.seek(SeekFrom::Current(0)), Ok(0x2000_0000));
}

#[test]
fn table_that_points_outside_the_file_is_an_error() {
    let mut f = MemFile::new();
    QcowHeader::create_for_size(0x10_0000).write_to(&mut f).unwrap();
    // An L1 entry that points behind the end of the file.
    f.write_at(0x1_0000, &[0u8, 0, 0, 0, 0x10, 0, 0, 0]).unwrap();
    let mut q = QcowFile::from(f).unwrap();
    let mut buf = [0u8; 3];
    assert_eq!(q.read(&mut buf), Err(IoError::UnexpectedEof));
}
