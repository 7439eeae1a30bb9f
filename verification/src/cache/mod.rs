pub mod arc;
pub mod lfu;
pub mod lru;
pub mod slab;
pub mod lruk;
