pub mod bytes;
pub mod db;
pub mod error;
pub mod index;
pub mod laws;
pub mod lookup;
pub mod memtable;
pub mod order;
pub mod paths;
pub mod reader;
pub mod record;
pub mod run;
pub mod sstable;
pub mod text;
pub mod wal;

pub use db::Db;
pub use error::{Error, Result};
