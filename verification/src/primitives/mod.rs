pub mod buffer;
pub mod elem;
pub mod select;
pub mod tile;
