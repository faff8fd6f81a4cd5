//! A QCOW2 (version 3) disk image engine with machine-checked contracts.
//!
//! The engine presents a sparse, cluster-allocated image file as a seekable
//! byte stream. Every executable function is verified against the contract
//! written in its header.
//!
//! - [`qcow`]: the engine, [`qcow::QcowFile`]: open, create, seek, read,
//!   write, flush.
//! - [`header`]: the header of an image, its layout and its validation.
//! - [`raw_file`]: tables and blocks of counts as the file stores them.
//! - [`cache`]: cached blocks and the bounded map that holds them.
//! - [`disk`]: the backing file, and a file in memory.
//! - [`model`]: the state of an open image as a mathematical value: how
//!   addresses are translated, what the image contains, what is counted.
//! - [`steps`]: what each step of the engine does to that state.
//! - [`laws`]: what holds of every image.
//! - [`geometry`], [`endian`], [`error`]: constants and arithmetic of
//!   clusters, big-endian integers, errors.
//! - [`uring_mem`], [`acpi`], [`aio_abi`]: ranges of memory for
//!   asynchronous transfers, the checksum of firmware tables, and records of
//!   the kernel's asynchronous I/O interface.

pub mod error;
pub mod endian;
pub mod disk;
pub mod geometry;
pub mod header;
pub mod cache;
pub mod raw_file;
pub mod model;
pub mod steps;
pub mod laws;
pub mod qcow;
pub mod uring_mem;
pub mod acpi;
pub mod aio_abi;
