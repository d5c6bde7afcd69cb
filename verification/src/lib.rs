//! Structure-aware chunking and retrieval plumbing for the ccTalk protocol
//! specification.

pub mod chars;
pub mod text;
pub mod page;
pub mod heading;
pub mod number;
pub mod outline;
pub mod paths;
pub mod chunk;
pub mod meta;
pub mod tokenize;
pub mod chunker;
pub mod storage;
pub mod identity;
pub mod api;
