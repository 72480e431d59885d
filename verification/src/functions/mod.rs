pub mod accum_fn;
pub mod map_accum_fn;
pub mod map_fn;
