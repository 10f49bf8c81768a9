//! Named, optionally compressed payloads appended to the tail of a host
//! file.
//!
//! A container is any file. Behind its own bytes it may hold entries, each
//! laid out as a start sentinel of sixteen bytes, a header, the stored
//! payload and an end sentinel of five bytes. There is no index: entries
//! are found by searching for the start sentinel and decoding what follows
//! it. The library appends entries, lists them, takes a payload out and
//! cuts an entry out, on containers held in memory, and offers the pieces
//! from which a reader of files does the same within bounded memory.

pub mod container;
pub mod decimal;
pub mod entry;
pub mod error;
pub mod gzip;
pub mod header;
pub mod laws;
pub mod scan;
pub mod search;
pub mod text;
pub mod version;

pub use container::{add_resource, export_resource, remove_resource};
pub use entry::{MAGIC_LEN, RESOURCE_MAGIC};
pub use error::Error;
pub use gzip::{compression_file, decompress_file};
pub use header::{CompressMode, ResourceHead};
pub use scan::find_resources_config;
pub use version::compare_version;
