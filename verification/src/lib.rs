//! Constant Quark Database (CQDB): a write-once, read-many association between
//! byte strings and small non-negative integer identifiers, kept in a single
//! self-contained binary chunk.

pub mod backward;
pub mod error;
pub mod format;
pub mod hash;
pub mod laws;
pub mod layout;
pub mod placement;
pub mod reader;
pub mod sections;
pub mod stream;
pub mod tables;
pub mod writer;

pub use error::{Error, Flag};
pub use hash::jhash;
pub use reader::{Iter, CQDB};
pub use stream::Stream;
pub use writer::CQDBWriter;
