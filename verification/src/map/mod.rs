pub mod bitmap;
pub mod roaring_bitmap;
pub mod text;
pub mod zset;
