pub mod bloom;
pub mod builder;
pub mod memtable;
pub mod sstable;

pub use bloom::BloomFilter;
pub use builder::SSTableBuilder;
pub use memtable::MemTable;
pub use sstable::{SSTable, SSTableReader};
