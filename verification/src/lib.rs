//! Architecture-first storage engine: pages, write-ahead log, recovery,
//! catalog, transactions, a B+Tree index and a small SQL front end.
#![allow(unused_imports)]

pub mod types;
pub mod bytes;
pub mod codec;
pub mod listcodec;
pub mod page;
pub mod vfs;
pub mod wal;
pub mod recovery;
pub mod catalog;
pub mod index;
pub mod tx;
pub mod durability;
pub mod sql;
pub mod sqlparse;
pub mod binary64;
pub mod ext_abi;
pub mod extension;
pub mod android;
pub mod legacy;
