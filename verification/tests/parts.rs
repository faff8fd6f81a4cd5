use qcow::acpi::generate_checksum;
use qcow::aio_abi::{io_event, iocb, IOCB_CMD_PWRITE};
use qcow::cache::{CacheMap, VecCache};
use qcow::disk::{write_all_at, DiskFile, MemFile};
use qcow::error::IoError;
use qcow::header::QcowHeader;
use qcow::qcow::{QcowFile, SeekFrom};
use qcow::raw_file::{
    decode_pointer_table, decode_refcount_block, encode_pointer_table, encode_refcount_block,
    QcowRawFile,
};
use qcow::uring_mem::{BackingMemory, MemError, MemVec, VecIoWrapper};

#[test]
fn memory_file_reads_what_was_written() {
    let mut f = MemFile::new();
    assert_eq!(f.len(), Ok(0));
    assert_eq!(f.write_at(3, b"abc"), Ok(3));
    assert_eq!(f.len(), Ok(6));
    // The gap before what was written holds zeros.
    assert_eq!(f.read_exact_at(0, 6), Ok(b"\0\0\0abc".to_vec()));
    assert_eq!(f.read_exact_at(4, 2), Ok(b"bc".to_vec()));
    assert_eq!(f.read_exact_at(4, 3), Err(IoError::UnexpectedEof));
    assert_eq!(f.read_exact_at(7, 0), Err(IoError::UnexpectedEof));
    assert_eq!(f.read_exact_at(6, 0), Ok(vec![]));
    // Writing nothing does not lengthen the file.
    assert_eq!(f.write_at(100, b""), Ok(0));
    assert_eq!(f.len(), Ok(6));
    assert_eq!(f.write_at(1, b"xy"), Ok(2));
    assert_eq!(f.contents(), &b"\0xyabc".to_vec());
}

#[test]
fn memory_file_length_can_be_set() {
    let mut f = MemFile::from_vec(b"abcdef".to_vec());
    assert_eq!(f.set_len(3), Ok(()));
    assert_eq!(f.contents(), &b"abc".to_vec());
    assert_eq!(f.set_len(5), Ok(()));
    assert_eq!(f.contents(), &b"abc\0\0".to_vec());
    assert_eq!(f.sync_all(), Ok(()));
    assert_eq!(f.sync_data(), Ok(()));
    assert_eq!(f.into_vec(), b"abc\0\0".to_vec());
}

/// A file that takes three bytes at a time, and nothing at all behind its limit.
struct Trickle {
    inner: MemFile,
    limit: u64,
}

impl DiskFile for Trickle {
    fn len(&self) -> Result<u64, IoError> {
        self.inner.len()
    }

    fn set_len(&mut self, size: u64) -> Result<(), IoError> {
        self.inner.set_len(size)
    }

    fn read_exact_at(&self, offset: u64, count: usize) -> Result<Vec<u8>, IoError> {
        self.inner.read_exact_at(offset, count)
    }

    fn write_at(&mut self, offset: u64, data: &[u8]) -> Result<usize, IoError> {
        if offset >= self.limit {
            return Ok(0);
        }
        let n = data.len().min(3).min((self.limit - offset) as usize);
        self.inner.write_at(offset, &data[..n])
    }

    fn sync_all(&mut self) -> Result<(), IoError> {
        Err(IoError::Os(5))
    }

    fn sync_data(&mut self) -> Result<(), IoError> {
        Ok(())
    }
}

#[test]
fn write_all_writes_in_as_many_parts_as_it_takes() {
    let mut f = Trickle { inner: MemFile::new(), limit: 100 };
    assert_eq!(write_all_at(&mut f, 2, b"0123456789"), Ok(()));
    assert_eq!(f.inner.contents(), &b"\0\x000123456789".to_vec());
    // A file that takes no more is an error, after a part was written.
    let mut f = Trickle { inner: MemFile::new(), limit: 4 };
    assert_eq!(write_all_at(&mut f, 0, b"0123456789"), Err(IoError::Other));
    assert_eq!(f.inner.contents(), &b"0123".to_vec());
}

#[test]
fn short_writes_and_failed_syncs_reach_the_caller() {
    let mut f = Trickle { inner: MemFile::new(), limit: u64::MAX };
    QcowHeader::create_for_size(0x10_0000).write_to(&mut f).unwrap();
    let mut q = QcowFile::from(f).unwrap();
    // The file takes three bytes of the ten.
    assert_eq!(q.write(b"0123456789"), Ok(3));
    assert_eq!(q.seek(SeekFrom::Current(0)), Ok(3));
    let mut buf = [0u8; 4];
    q.seek(SeekFrom::Start(0)).unwrap();
    assert_eq!(q.read(&mut buf), Ok(4));
    assert_eq!(&buf, b"012\0");
    // The flush fails where the file cannot be made durable.
    assert_eq!(q.flush(), Err(IoError::Os(5)));
}

#[test]
fn pointer_tables_are_big_endian_words() {
    let table = vec![0u64, 0x0001_0203_0405_0600, 0x00ff_ffff_ffff_fe00];
    let bytes = encode_pointer_table(&table, 0);
    assert_eq!(
        bytes,
        vec![
            0u8, 0, 0, 0, 0, 0, 0, 0, //
            0, 1, 2, 3, 4, 5, 6, 0, //
            0, 0xff, 0xff, 0xff, 0xff, 0xff, 0xfe, 0,
        ]
    );
    assert_eq!(decode_pointer_table(&bytes, u64::MAX), table);
    // Flags are set in the words that are not zero, and the mask takes them off again.
    let flagged = encode_pointer_table(&table, 1 << 63);
    assert_eq!(flagged[0], 0);
    assert_eq!(flagged[8], 0x80);
    assert_eq!(flagged[16], 0x80);
    assert_eq!(decode_pointer_table(&flagged, 0x00ff_ffff_ffff_fe00), table);
    assert_eq!(
        decode_pointer_table(&flagged, u64::MAX),
        vec![0u64, 0x8001_0203_0405_0600, 0x80ff_ffff_ffff_fe00]
    );
    // The mask takes off the low bits too.
    assert_eq!(
        decode_pointer_table(&[0u8, 0, 0, 0, 0, 0, 1, 0xff], 0x00ff_ffff_ffff_fe00),
        vec![0u64]
    );
    assert_eq!(decode_pointer_table(&[], 0), Vec::<u64>::new());
}

#[test]
fn refcount_blocks_are_big_endian_words() {
    let counts = vec![0u16, 1, 0x1234, 0xffff];
    let bytes = encode_refcount_block(&counts);
    assert_eq!(bytes, vec![0u8, 0, 0, 1, 0x12, 0x34, 0xff, 0xff]);
    assert_eq!(decode_refcount_block(&bytes), counts);
}

#[test]
fn raw_file_reads_and_writes_tables() {
    let mut raw = QcowRawFile::from(MemFile::new(), 512, 511);
    assert_eq!(raw.cluster_size(), 512);
    assert_eq!(raw.cluster_offset(0x1234), 0x34);
    assert_eq!(raw.cluster_offset(512), 0);
    // The first cluster of an empty file is at its start.
    assert_eq!(raw.add_cluster_end(), Ok(0));
    assert_eq!(raw.file().len(), Ok(512));
    assert_eq!(raw.write_pointer_table(16, &vec![0x200, 0, 0x400], 1 << 63), Ok(()));
    assert_eq!(raw.read_pointer_table(16, 3, None), Ok(vec![(1 << 63) | 0x200, 0, (1 << 63) | 0x400]));
    assert_eq!(
        raw.read_pointer_table(16, 3, Some(0x00ff_ffff_ffff_fe00)),
        Ok(vec![0x200, 0, 0x400])
    );
    assert_eq!(raw.read_pointer_table(16, 0, None), Ok(vec![]));
    assert_eq!(raw.read_pointer_table(512 - 16, 3, None), Err(IoError::UnexpectedEof));
    let cluster = raw.read_pointer_cluster(0, None).unwrap();
    assert_eq!(cluster.len(), 64);
    assert_eq!(cluster[2], (1 << 63) | 0x200);
    assert_eq!(raw.read_pointer_cluster(1, None), Err(IoError::UnexpectedEof));
    let counts: Vec<u16> = (0..256).collect();
    assert_eq!(raw.write_refcount_block(512, &counts), Ok(()));
    assert_eq!(raw.file().len(), Ok(1024));
    assert_eq!(raw.read_refcount_block(512), Ok(counts));
    assert_eq!(raw.read_refcount_block(513), Err(IoError::UnexpectedEof));
}

#[test]
fn new_clusters_start_on_a_cluster_boundary() {
    let mut f = MemFile::new();
    f.set_len(0x2_ffff).unwrap();
    let mut raw = QcowRawFile::from(f, 0x1_0000, 0xffff);
    assert_eq!(raw.add_cluster_end(), Ok(0x3_0000));
    assert_eq!(raw.file().len(), Ok(0x4_0000));
    assert_eq!(raw.add_cluster_end(), Ok(0x4_0000));
    assert_eq!(raw.file().len(), Ok(0x5_0000));
    raw.file_mut().set_len(0x5_0001).unwrap();
    assert_eq!(raw.add_cluster_end(), Ok(0x6_0000));
    let f = raw.into_file();
    assert_eq!(f.len(), Ok(0x7_0000));
    assert!(f.contents().iter().all(|b| *b == 0));
}

#[test]
fn block_tracks_changes() {
    let mut b = VecCache::from_vec(vec![1u64, 2, 3]);
    assert!(!b.dirty());
    assert_eq!(b.len(), 3);
    assert_eq!(b.get(1), 2);
    b.set(1, 20);
    assert!(b.dirty());
    assert_eq!(b.get_values(), &vec![1u64, 20, 3]);
    b.mark_clean();
    assert!(!b.dirty());
    assert_eq!(b.get(1), 20);
    // A block that was made, not read, is not in the file: it is dirty.
    let z = VecCache::<u64>::new(4);
    assert!(z.dirty());
    assert_eq!(z.get_values(), &vec![0u64; 4]);
    let z = VecCache::<u16>::new(2);
    assert!(z.dirty());
    assert_eq!(z.get_values(), &vec![0u16; 2]);
}

#[test]
fn cache_evicts_its_oldest_block() {
    let mut c: CacheMap<u16> = CacheMap::new(3);
    assert_eq!(c.len(), 0);
    assert!(c.insert(7, VecCache::from_vec(vec![70])).is_none());
    assert!(c.insert(5, VecCache::from_vec(vec![50])).is_none());
    assert!(c.insert(9, VecCache::from_vec(vec![90])).is_none());
    assert_eq!(c.len(), 3);
    assert!(c.contains(5) && c.contains(7) && c.contains(9));
    assert!(!c.contains(6));
    assert!(c.get(6).is_none());
    assert_eq!(c.get(5).unwrap().get(0), 50);
    // Putting a block in the place of one that is there evicts nothing.
    assert!(c.insert(5, VecCache::from_vec(vec![51])).is_none());
    assert_eq!(c.len(), 3);
    assert_eq!(c.get(5).unwrap().get(0), 51);
    // A new index evicts the block that came first.
    let (index, block) = c.insert(1, VecCache::from_vec(vec![10])).unwrap();
    assert_eq!(index, 7);
    assert_eq!(block.get(0), 70);
    assert_eq!(c.len(), 3);
    assert!(!c.contains(7) && c.contains(1));
    let (index, block) = c.insert(2, VecCache::from_vec(vec![20])).unwrap();
    assert_eq!(index, 5);
    assert_eq!(block.get(0), 51);
}

#[test]
fn cache_makes_room() {
    let mut c: CacheMap<u64> = CacheMap::new(2);
    assert!(c.evict_if_full().is_none());
    c.insert(3, VecCache::from_vec(vec![30]));
    assert!(c.evict_if_full().is_none());
    c.insert(4, VecCache::from_vec(vec![40]));
    let (index, block) = c.evict_if_full().unwrap();
    assert_eq!((index, block.get(0)), (3, 30));
    assert_eq!(c.len(), 1);
    assert!(c.evict_if_full().is_none());
    assert!(c.insert(5, VecCache::from_vec(vec![50])).is_none());
    assert_eq!(c.len(), 2);
    // A cache for no block holds one.
    let mut c: CacheMap<u64> = CacheMap::new(0);
    assert!(c.insert(1, VecCache::from_vec(vec![])).is_none());
    assert_eq!(c.insert(2, VecCache::from_vec(vec![])).unwrap().0, 1);
    assert_eq!(c.len(), 1);
}

#[test]
fn cache_knows_its_dirty_blocks() {
    let mut c: CacheMap<u64> = CacheMap::new(4);
    c.insert(3, VecCache::from_vec(vec![30, 31]));
    c.insert(4, VecCache::<u64>::new(2));
    c.insert(5, VecCache::from_vec(vec![50, 51]));
    assert_eq!(c.dirty_keys(), vec![4]);
    c.set(5, 1, 55);
    assert_eq!(c.get(5).unwrap().get_values(), &vec![50u64, 55]);
    assert!(c.get(5).unwrap().dirty());
    let mut keys = c.dirty_keys();
    keys.sort();
    assert_eq!(keys, vec![4, 5]);
    c.mark_clean(4);
    c.mark_clean(17);
    assert_eq!(c.dirty_keys(), vec![5]);
    assert_eq!(c.len(), 3);
}

#[test]
fn vector_memory_checks_ranges() {
    let w = VecIoWrapper::from(vec![1u8, 2, 3, 4, 5]);
    assert_eq!(w.len(), 5);
    assert_eq!(w.check_addrs(&MemVec { offset: 0, len: 5 }), Ok(()));
    assert_eq!(w.check_addrs(&MemVec { offset: 5, len: 0 }), Ok(()));
    assert_eq!(w.check_addrs(&MemVec { offset: 2, len: 4 }), Err(MemError::InvalidOffset));
    assert_eq!(w.check_addrs(&MemVec { offset: 6, len: 0 }), Err(MemError::InvalidOffset));
    assert_eq!(
        w.check_addrs(&MemVec { offset: u64::MAX, len: 2 }),
        Err(MemError::InvalidOffset)
    );
    assert_eq!(w.io_slice(&MemVec { offset: 1, len: 3 }), Ok(&[2u8, 3, 4][..]));
    assert_eq!(w.io_slice(&MemVec { offset: 1, len: 5 }), Err(MemError::InvalidOffset));
    assert_eq!(w.into(), vec![1u8, 2, 3, 4, 5]);
}

#[test]
fn checksum_makes_the_sum_zero() {
    assert_eq!(generate_checksum(&[]), 0);
    assert_eq!(generate_checksum(&[1]), 255);
    assert_eq!(generate_checksum(&[0x10, 0x20, 0x30]), 0xa0);
    assert_eq!(generate_checksum(&[255, 255, 2]), 0);
    let data = [200u8, 100, 50, 25, 12];
    let sum = data.iter().fold(generate_checksum(&data), |acc, x| acc.wrapping_add(*x));
    assert_eq!(sum, 0);
}

#[test]
fn records_start_as_zeros() {
    let e = io_event::default();
    assert_eq!((e.data, e.obj, e.res, e.res2), (0, 0, 0, 0));
    let mut cb = iocb::default();
    cb.aio_lio_opcode = IOCB_CMD_PWRITE as u16;
    let copy = cb;
    assert_eq!(copy.aio_lio_opcode, 1);
    assert_eq!(copy.aio_offset, 0);
}
