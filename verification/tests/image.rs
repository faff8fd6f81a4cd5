use qcow::disk::{DiskFile, MemFile};
use qcow::header::QcowHeader;
use qcow::qcow::{QcowFile, SeekFrom};

fn valid_header() -> Vec<u8> {
    vec![
        0x51u8, 0x46, 0x49, 0xfb, // magic
        0x00, 0x00, 0x00, 0x03, // version
        0x00, 0x00, 0x00, 0x00, 0x00, 0x00, 0x00, 0x00, // backing file offset
        0x00, 0x00, 0x00, 0x00, // backing file size
        0x00, 0x00, 0x00, 0x10, // cluster_bits
        0x00, 0x00, 0x00, 0x20, 0x00, 0x00, 0x00, 0x00, // size
        0x00, 0x00, 0x00, 0x00, // crypt method
        0x00, 0x00, 0x01, 0x00, // L1 size
        0x00, 0x00, 0x00, 0x00, 0x00, 0x04, 0x00, 0x00, // L1 table offset
        0x00, 0x00, 0x00, 0x00, 0x00, 0x01, 0x00, 0x00, // refcount table offset
        0x00, 0x00, 0x00, 0x03, // refcount table clusters
        0x00, 0x00, 0x00, 0x00, // nb snapshots
        0x00, 0x00, 0x00, 0x00, 0x00, 0x04, 0x00, 0x00, // snapshots offset
        0x00, 0x00, 0x00, 0x00, 0x00, 0x00, 0x00, 0x00, // incompatible_features
        0x00, 0x00, 0x00, 0x00, 0x00, 0x00, 0x00, 0x00, // compatible_features
        0x00, 0x00, 0x00, 0x00, 0x00, 0x00, 0x00, 0x00, // autoclear_features
        0x00, 0x00, 0x00, 0x04, // refcount_order
        0x00, 0x00, 0x00, 0x68, // header_length
    ]
}

fn basic_file(header: &[u8]) -> MemFile {
    let mut disk_file = MemFile::new();
    assert_eq!(disk_file.write_at(0, header).unwrap(), header.len());
    disk_file.set_len(0x5_0000).unwrap();
    disk_file
}

fn default_file(file_size: u64) -> QcowFile<MemFile> {
    QcowFile::new(MemFile::new(), file_size).unwrap()
}

#[test]
fn default_header() {
    let header = QcowHeader::create_for_size(0x10_0000);
    let mut disk_file = MemFile::new();
    header.write_to(&mut disk_file).expect("Failed to write header to shm.");
    assert!(QcowFile::from(disk_file).is_ok(), "Failed to create Qcow from default Header");
}

#[test]
fn header_read() {
    let disk_file = basic_file(&valid_header());
    QcowHeader::new(&disk_file).expect("Failed to create Header.");
}

#[test]
fn invalid_magic() {
    let invalid_header = vec![0x51u8, 0x46, 0x4a, 0xfb];
    let disk_file = basic_file(&invalid_header);
    QcowHeader::new(&disk_file).expect_err("Invalid header worked.");
}

#[test]
fn invalid_refcount_order() {
    let mut header = valid_header();
    header[99] = 2;
    let disk_file = basic_file(&header);
    assert!(QcowFile::from(disk_file).is_err(), "Invalid refcount order worked.");
}

#[test]
fn write_read_start() {
    let disk_file = basic_file(&valid_header());
    let mut q = QcowFile::from(disk_file).unwrap();
    q.write(b"test first bytes").expect("Failed to write test string.");
    let mut buf = [0u8; 4];
    q.seek(SeekFrom::Start(0)).expect("Failed to seek.");
    q.read(&mut buf).expect("Failed to read.");
    assert_eq!(&buf, b"test");
}

#[test]
fn offset_write_read() {
    let disk_file = basic_file(&valid_header());
    let mut q = QcowFile::from(disk_file).unwrap();
    let b = [0x55u8; 0x1000];
    q.seek(SeekFrom::Start(0xfff2000)).expect("Failed to seek.");
    q.write(&b).expect("Failed to write test string.");
    let mut buf = [0u8; 4];
    q.seek(SeekFrom::Start(0xfff2000)).expect("Failed to seek.");
    q.read(&mut buf).expect("Failed to read.");
    assert_eq!(buf[0], 0x55);
}

#[test]
fn test_header() {
    let disk_file = basic_file(&valid_header());
    let q = QcowFile::from(disk_file).unwrap();
    assert_eq!(q.virtual_size(), 0x20_0000_0000);
}

#[test]
fn read_small_buffer() {
    let disk_file = basic_file(&valid_header());
    let mut q = QcowFile::from(disk_file).unwrap();
    let mut b = [5u8; 16];
    q.seek(SeekFrom::Start(1000)).expect("Failed to seek.");
    q.read(&mut b).expect("Failed to read.");
    assert_eq!(0, b[0]);
    assert_eq!(0, b[15]);
}

struct Transfer {
    pub write: bool,
    pub addr: u64,
}

#[test]
fn replay_ext4() {
    let disk_file = basic_file(&valid_header());
    let mut q = QcowFile::from(disk_file).unwrap();
    const BUF_SIZE: usize = 0x1000;
    let mut b = [0u8; BUF_SIZE];

    // Write transactions from mkfs.ext4.
    let xfers: Vec<Transfer> = vec![
        Transfer { write: false, addr: 0xfff0000 },
        Transfer { write: false, addr: 0xfffe000 },
        Transfer { write: false, addr: 0x0 },
        Transfer { write: false, addr: 0x1000 },
        Transfer { write: false, addr: 0xffff000 },
        Transfer { write: false, addr: 0xffdf000 },
        Transfer { write: false, addr: 0xfff8000 },
        Transfer { write: false, addr: 0xffe0000 },
        Transfer { write: false, addr: 0xffce000 },
        Transfer { write: false, addr: 0xffb6000 },
        Transfer { write: false, addr: 0xffab000 },
        Transfer { write: false, addr: 0xffa4000 },
        Transfer { write: false, addr: 0xff8e000 },
        Transfer { write: false, addr: 0xff86000 },
        Transfer { write: false, addr: 0xff84000 },
        Transfer { write: false, addr: 0xff89000 },
        Transfer { write: false, addr: 0xfe7e000 },
        Transfer { write: false, addr: 0x100000 },
        Transfer { write: false, addr: 0x3000 },
        Transfer { write: false, addr: 0x7000 },
        Transfer { write: false, addr: 0xf000 },
        Transfer { write: false, addr: 0x2000 },
        Transfer { write: false, addr: 0x4000 },
        Transfer { write: false, addr: 0x5000 },
        Transfer { write: false, addr: 0x6000 },
        Transfer { write: false, addr: 0x8000 },
        Transfer { write: false, addr: 0x9000 },
        Transfer { write: false, addr: 0xa000 },
        Transfer { write: false, addr: 0xb000 },
        Transfer { write: false, addr: 0xc000 },
        Transfer { write: false, addr: 0xd000 },
        Transfer { write: false, addr: 0xe000 },
        Transfer { write: false, addr: 0x10000 },
        Transfer { write: false, addr: 0x11000 },
        Transfer { write: false, addr: 0x12000 },
        Transfer { write: false, addr: 0x13000 },
        Transfer { write: false, addr: 0x14000 },
        Transfer { write: false, addr: 0x15000 },
        Transfer { write: false, addr: 0x16000 },
        Transfer { write: false, addr: 0x17000 },
        Transfer { write: false, addr: 0x18000 },
        Transfer { write: false, addr: 0x19000 },
        Transfer { write: false, addr: 0x1a000 },
        Transfer { write: false, addr: 0x1b000 },
        Transfer { write: false, addr: 0x1c000 },
        Transfer { write: false, addr: 0x1d000 },
        Transfer { write: false, addr: 0x1e000 },
        Transfer { write: false, addr: 0x1f000 },
        Transfer { write: false, addr: 0x21000 },
        Transfer { write: false, addr: 0x22000 },
        Transfer { write: false, addr: 0x24000 },
        Transfer { write: false, addr: 0x40000 },
        Transfer { write: false, addr: 0x0 },
        Transfer { write: false, addr: 0x3000 },
        Transfer { write: false, addr: 0x7000 },
        Transfer { write: false, addr: 0x0 },
        Transfer { write: false, addr: 0x1000 },
        Transfer { write: false, addr: 0x2000 },
        Transfer { write: false, addr: 0x3000 },
        Transfer { write: false, addr: 0x0 },
        Transfer { write: false, addr: 0x449000 },
        Transfer { write: false, addr: 0x48000 },
        Transfer { write: false, addr: 0x48000 },
        Transfer { write: false, addr: 0x448000 },
        Transfer { write: false, addr: 0x44a000 },
        Transfer { write: false, addr: 0x48000 },
        Transfer { write: false, addr: 0x48000 },
        Transfer { write: true, addr: 0x0 },
        Transfer { write: true, addr: 0x448000 },
        Transfer { write: true, addr: 0x449000 },
        Transfer { write: true, addr: 0x44a000 },
        Transfer { write: true, addr: 0xfff0000 },
        Transfer { write: true, addr: 0xfff1000 },
        Transfer { write: true, addr: 0xfff2000 },
        Transfer { write: true, addr: 0xfff3000 },
        Transfer { write: true, addr: 0xfff4000 },
        Transfer { write: true, addr: 0xfff5000 },
        Transfer { write: true, addr: 0xfff6000 },
        Transfer { write: true, addr: 0xfff7000 },
        Transfer { write: true, addr: 0xfff8000 },
        Transfer { write: true, addr: 0xfff9000 },
        Transfer { write: true, addr: 0xfffa000 },
        Transfer { write: true, addr: 0xfffb000 },
        Transfer { write: true, addr: 0xfffc000 },
        Transfer { write: true, addr: 0xfffd000 },
        Transfer { write: true, addr: 0xfffe000 },
        Transfer { write: true, addr: 0xffff000 },
    ];

    for xfer in xfers.iter() {
        q.seek(SeekFrom::Start(xfer.addr)).expect("Failed to seek.");
        if xfer.write {
            q.write(&b).expect("Failed to write.");
        } else {
            let read_count: usize = q.read(&mut b).expect("Failed to read.");
            assert_eq!(read_count, BUF_SIZE);
        }
    }
}

#[test]
fn combo_write_read() {
    let mut qcow_file = default_file(1024 * 1024 * 1024 * 256);
    const NUM_BLOCKS: usize = 555;
    const BLOCK_SIZE: usize = 0x1_0000;
    const OFFSET: usize = 0x1_0000_0020;
    let data = [0x55u8; BLOCK_SIZE];
    let mut readback = [0u8; BLOCK_SIZE];
    for i in 0..NUM_BLOCKS {
        let seek_offset = OFFSET + i * BLOCK_SIZE;
        qcow_file.seek(SeekFrom::Start(seek_offset as u64)).expect("Failed to seek.");
        let nwritten = qcow_file.write(&data).expect("Failed to write test data.");
        assert_eq!(nwritten, BLOCK_SIZE);
        // Read back the data to check it was written correctly.
        qcow_file.seek(SeekFrom::Start(seek_offset as u64)).expect("Failed to seek.");
        let nread = qcow_file.read(&mut readback).expect("Failed to read.");
        assert_eq!(nread, BLOCK_SIZE);
        for (orig, read) in data.iter().zip(readback.iter()) {
            assert_eq!(orig, read);
        }
    }
    // Check that address 0 is still zeros.
    qcow_file.seek(SeekFrom::Start(0)).expect("Failed to seek.");
    let nread = qcow_file.read(&mut readback).expect("Failed to read.");
    assert_eq!(nread, BLOCK_SIZE);
    for read in readback.iter() {
        assert_eq!(*read, 0);
    }
    // Check the data again after the writes have happened.
    for i in 0..NUM_BLOCKS {
        let seek_offset = OFFSET + i * BLOCK_SIZE;
        qcow_file.seek(SeekFrom::Start(seek_offset as u64)).expect("Failed to seek.");
        let nread = qcow_file.read(&mut readback).expect("Failed to read.");
        assert_eq!(nread, BLOCK_SIZE);
        for (orig, read) in data.iter().zip(readback.iter()) {
            assert_eq!(orig, read);
        }
    }

    assert_eq!(qcow_file.first_zero_refcount().unwrap(), None);
}
