//! Storage core of a log-structured merge tree: sorted key-value blocks,
//! block-structured tables on an encoded file, iterators that read many
//! tables as one sorted stream, and the compaction strategy that decides
//! which tables to merge.

pub mod block;
pub mod block_builder;
pub mod block_iterator;
pub mod compaction;
pub mod concat_iterator;
pub mod keys;
pub mod table;
pub mod table_builder;
pub mod table_iterator;
pub mod wire;
