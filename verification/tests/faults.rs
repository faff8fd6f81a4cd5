use qcow::disk::{DiskFile, MemFile};
use qcow::error::{Error, IoError};
use qcow::header::QcowHeader;
use qcow::qcow::{QcowFile, SeekFrom};

/// A file in memory that fails where it is told to.
struct Faulty {
    inner: MemFile,
    fail_len: bool,
    fail_set_len: bool,
    fail_reads_from: u64,
    fail_writes_from: u64,
    fail_sync_data: bool,
}

impl Faulty {
    fn new() -> Faulty {
        Faulty {
            inner: MemFile::new(),
            fail_len: false,
            fail_set_len: false,
            fail_reads_from: u64::MAX,
            fail_writes_from: u64::MAX,
            fail_sync_data: false,
        }
    }
}

impl DiskFile for Faulty {
    fn len(&self) -> Result<u64, IoError> {
        if self.fail_len {
            return Err(IoError::Os(9));
        }
        self.inner.len()
    }

    fn set_len(&mut self, size: u64) -> Result<(), IoError> {
        if self.fail_set_len {
            return Err(IoError::Os(28));
        }
        self.inner.set_len(size)
    }

    fn read_exact_at(&self, offset: u64, count: usize) -> Result<Vec<u8>, IoError> {
        if offset >= self.fail_reads_from {
            return Err(IoError::Os(5));
        }
        self.inner.read_exact_at(offset, count)
    }

    fn write_at(&mut self, offset: u64, data: &[u8]) -> Result<usize, IoError> {
        if offset >= self.fail_writes_from {
            return Err(IoError::Os(30));
        }
        self.inner.write_at(offset, data)
    }

    fn sync_all(&mut self) -> Result<(), IoError> {
        Ok(())
    }

    fn sync_data(&mut self) -> Result<(), IoError> {
        if self.fail_sync_data {
            return Err(IoError::Os(5));
        }
        Ok(())
    }
}

#[test]
fn failing_header_write_is_reported() {
    let mut f = Faulty::new();
    f.fail_writes_from = 0;
    assert_eq!(
        QcowHeader::create_for_size(0x10_0000).write_to(&mut f),
        Err(Error::WritingHeader(IoError::Os(30)))
    );
    assert_eq!(QcowFile::new(f, 0x10_0000).err(), Some(Error::WritingHeader(IoError::Os(30))));
    // The header is written, the byte that makes the file long enough is not.
    let mut f = Faulty::new();
    f.fail_writes_from = 104;
    assert_eq!(
        QcowHeader::create_for_size(0x10_0000).write_to(&mut f),
        Err(Error::WritingHeader(IoError::Os(30)))
    );
    assert_eq!(f.inner.len(), Ok(104));
}

#[test]
fn failing_header_read_is_reported() {
    let mut f = Faulty::new();
    QcowHeader::create_for_size(0x10_0000).write_to(&mut f).unwrap();
    f.fail_reads_from = 0;
    assert_eq!(QcowHeader::new(&f), Err(Error::ReadingHeader(IoError::Os(5))));
    assert_eq!(QcowFile::from(f).err(), Some(Error::ReadingHeader(IoError::Os(5))));
    // The header is read, the L1 table is not.
    let mut f = Faulty::new();
    QcowHeader::create_for_size(0x10_0000).write_to(&mut f).unwrap();
    f.fail_reads_from = 0x1_0000;
    assert!(QcowHeader::new(&f).is_ok());
    assert_eq!(QcowFile::from(f).err(), Some(Error::ReadingHeader(IoError::Os(5))));
}

#[test]
fn failing_first_count_is_reported() {
    // The file cannot grow by the cluster that the first block of counts needs.
    let mut f = Faulty::new();
    f.fail_set_len = true;
    assert_eq!(
        QcowFile::new(f, 0x10_0000).err(),
        Some(Error::SettingRefcountRefcount(IoError::Os(28)))
    );
    // Nor can it where its length is not to be had.
    let mut f = Faulty::new();
    f.fail_len = true;
    assert_eq!(
        QcowFile::new(f, 0x10_0000).err(),
        Some(Error::SettingRefcountRefcount(IoError::Os(9)))
    );
}

#[test]
fn failing_file_size_is_reported() {
    let mut q = QcowFile::new(Faulty::new(), 0x10_0000).unwrap();
    assert_eq!(q.first_zero_refcount(), Ok(None));
    // The counts are in the file only after a flush; without one, the table that is read has
    // no block, and the first cluster counts no reference.
    let f = q.into_file();
    let mut q = QcowFile::from(f).unwrap();
    assert_eq!(q.first_zero_refcount(), Ok(Some(0)));
    let mut f = q.into_file();
    f.fail_len = true;
    let mut q = QcowFile::from(f).unwrap();
    assert_eq!(q.first_zero_refcount(), Err(Error::GettingFileSize(IoError::Os(9))));
}

#[test]
fn failing_count_read_is_reported() {
    let mut q = QcowFile::new(Faulty::new(), 0x10_0000).unwrap();
    q.flush().unwrap();
    let mut f = q.into_file();
    // The block of counts is in the fourth cluster.
    f.fail_reads_from = 0x3_0000;
    let mut q = QcowFile::from(f).unwrap();
    assert_eq!(q.first_zero_refcount(), Err(Error::GettingRefcount(IoError::Os(5))));
}

#[test]
fn failing_data_transfer_is_reported_and_leaves_the_position() {
    let mut q = QcowFile::new(Faulty::new(), 0x10_0000).unwrap();
    assert_eq!(q.write(b"data"), Ok(4));
    q.flush().unwrap();
    let mut f = q.into_file();
    // The cluster of data is the sixth.
    f.fail_reads_from = 0x5_0000;
    f.fail_writes_from = 0x5_0000;
    let mut q = QcowFile::from(f).unwrap();
    assert_eq!(q.seek(SeekFrom::Start(2)), Ok(2));
    let mut buf = [0u8; 2];
    assert_eq!(q.read(&mut buf), Err(IoError::Os(5)));
    assert_eq!(q.seek(SeekFrom::Current(0)), Ok(2));
    assert_eq!(q.write(b"xy"), Err(IoError::Os(30)));
    assert_eq!(q.seek(SeekFrom::Current(0)), Ok(2));
    // A cluster without one in the file is read without a read of the file.
    assert_eq!(q.seek(SeekFrom::Start(0x8_0000)), Ok(0x8_0000));
    assert_eq!(q.read(&mut buf), Ok(2));
    assert_eq!(buf, [0u8; 2]);
}

#[test]
fn failing_flush_keeps_the_clusters_that_blocks_left() {
    let mut q = QcowFile::new(Faulty::new(), 0x10_0000).unwrap();
    q.write(b"one").unwrap();
    q.flush().unwrap();
    q.seek(SeekFrom::Start(0x1_0000)).unwrap();
    q.write(b"two").unwrap();
    let len = q.file().inner.len().unwrap();
    let mut f = q.into_file();
    f.fail_sync_data = true;
    // The tables in memory are lost with the image; what the file holds is the flushed state.
    let mut q = QcowFile::from(f).unwrap();
    q.seek(SeekFrom::Start(0x1_0000)).unwrap();
    q.write(b"two").unwrap();
    assert_eq!(q.flush(), Err(IoError::Os(5)));
    // The clusters that the blocks left were not made available: the next write takes new
    // clusters for its data and for the two blocks, which were written and move again.
    let before = q.file().inner.len().unwrap();
    assert_eq!(before, len + 3 * 0x1_0000);
    q.seek(SeekFrom::Start(0x2_0000)).unwrap();
    q.write(b"three").unwrap();
    assert_eq!(q.file().inner.len().unwrap(), before + 3 * 0x1_0000);
}
