//! Reading and writing Compound File Binary (structured storage) files.
//!
//! A compound file is a small filesystem inside one byte container: nested
//! storages and streams laid out in fixed-size sectors that allocation tables
//! link into chains.  The engine here works on an in-memory [`Store`] and
//! keeps the tables and the directory in memory; every change of them is
//! written through to the image.
//!
//! The modules, from the bottom up:
//!
//! - `consts`, `version`, `error`, `time`: numbers, versions, errors and
//!   timestamps of the format;
//! - `endian`, `store`: little-endian integers and the backing store;
//! - `names`, `dir_entry`, `tables`, `tree`: names and paths, directory
//!   entries and their records, allocation tables and chains, the
//!   directory as a tree;
//! - `image`, `empty`, `round_trip`: what the bytes of an image mean, the
//!   image of an empty compound file, and the proof that the one reads back
//!   as the other;
//! - `compound`, `lookup`, `seeking`, `sectors`, `mini`: the compound file,
//!   finding entries, positions in the image, and the allocators of sectors
//!   and mini sectors;
//! - `storage`, `stream`: metadata and listings, and the stream cursor;
//! - `frame`, `intact`, `laws`: what allocation leaves alone, streams whose
//!   bytes stay where they are, and what holds of the library as a whole.

pub mod compound;
pub mod consts;
pub mod dir_entry;
pub mod empty;
pub mod endian;
pub mod error;
pub mod frame;
pub mod image;
pub mod intact;
pub mod laws;
pub mod lookup;
pub mod mini;
pub mod names;
pub mod round_trip;
pub mod sectors;
pub mod seeking;
pub mod storage;
pub mod store;
pub mod stream;
pub mod tables;
pub mod time;
pub mod tree;
pub mod version;

pub use crate::compound::CompoundFile;
pub use crate::error::{Error, ErrorKind};
pub use crate::storage::{ReadStorage, StorageEntry};
pub use crate::store::Store;
pub use crate::stream::{SeekFrom, Stream};
pub use crate::version::Version;
