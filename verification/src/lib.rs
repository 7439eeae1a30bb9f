use vstd::prelude::*;

pub mod buf;
pub mod cache;
pub mod circular_buffer;
pub mod fix_vec;
pub mod map;
pub mod quadsort;
pub mod skip_list;
pub mod timer;

pub use buf::binary::Binary;
pub use buf::binary_mut::BinaryMut;
pub use buf::binary_ref::BinaryRef;
pub use buf::bt::Bt;
pub use cache::arc::ArcCache;
pub use cache::lfu::LfuCache;
pub use cache::lru::LruCache;
pub use cache::lruk::LruKCache;
pub use cache::slab::{Reinit, Slab};
pub use circular_buffer::CircularBuffer;
pub use fix_vec::FixedVec;
pub use map::bitmap::BitMap;
pub use map::roaring_bitmap::RoaringBitMap;
pub use map::zset::ZSet;
pub use quadsort::{quad_sort, quad_sort_order_by, quicksort, quicksort_order_by};
pub use skip_list::{LevelType, SkipList, SkipNode, SkipOrd};
pub use timer::stamp_timer::{Span, StampTimer};
pub use timer::step_timer::StepTimer;
pub use timer::timer_rbtree::TimerRBTree;
pub use timer::timer_wheel::{OneTimerWheel, TimerWheel};
pub use timer::Timer;

verus! {
} // verus!
