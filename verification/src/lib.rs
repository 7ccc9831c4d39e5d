pub mod cache;
pub mod prefetch;
pub mod storage;

pub use cache::HybridCache;
pub use prefetch::Prefetcher;
pub use storage::{Column, ColumnBuilder, StoreError};
