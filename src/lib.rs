//! Read-path core of a log-structured merge storage engine: the block codec,
//! the cursor over one block, and the k-way merge of sorted key streams.

pub mod key;
pub mod block;
pub mod block_iterator;
pub mod storage_iterator;
pub mod merge_iterator;
