use std::collections::HashMap;
use vstd::prelude::*;

pub mod configs;

verus! {

/// The depth of the channels that operator `id` sends on: the depth given
/// for this operator if there is one, else the depth given for all.
pub fn get_chan_depth(custom_depth_chan: &HashMap<u32, usize>, id: u32, base_depth: Option<usize>) -> (depth:
    Option<usize>)
    ensures
        depth == if custom_depth_chan@.contains_key(id) {
            Some(custom_depth_chan@[id])
        } else {
            base_depth
        },
{
    broadcast use vstd::std_specs::hash::group_hash_axioms;

    match custom_depth_chan.get(&id) {
        Some(d) => Some(*d),
        None => base_depth,
    }
}

} // verus!
