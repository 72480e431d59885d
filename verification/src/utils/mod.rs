pub mod calculation;
pub mod cast;
pub mod events;
pub mod select_npy;
