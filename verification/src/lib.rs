//! A document store in three layers, each verified.
//!
//! The storage engine is a log-structured merge store: immutable sorted
//! segments (`segment`), the catalog of committed segments and the write lock
//! that alone extends it (`store`), and cursors over a snapshot of the
//! catalog: over one segment (`cursor`), over the merged content of all
//! (`multicursor`), and over the keys that are alive (`living`). What the
//! cursors promise is stated over the mathematical model in `model`, and what
//! follows for the store as a whole is proved in `laws`.
//!
//! Documents (`bson`) are written as bytes (`bson_write`) and read from bytes
//! (`bson_read`); that reading undoes writing is proved in `bson_laws`.
//!
//! The wire protocol has its messages in `wire` and the answers of the server
//! in `server`.
pub mod key;
pub mod model;
pub mod blob;
pub mod segment;
pub mod cursor;
pub mod multicursor;
pub mod living;
pub mod store;
pub mod laws;
pub mod endian;
pub mod double;
pub mod bson;
pub mod bson_write;
pub mod bson_read;
pub mod bson_laws;
pub mod wire;
pub mod server;

pub use crate::blob::{Blob, ByteStream};
pub use crate::cursor::{SeekOp, SegmentCursor};
pub use crate::living::LivingCursor;
pub use crate::multicursor::MultiCursor;
pub use crate::segment::{LsmError, Segment};
pub use crate::store::{db, DbSettings, SegmentHandle};
