use std::collections::HashMap;
use vstd::prelude::*;

use super::get_chan_depth;

verus! {

/// The parameters of a simulation run.
#[derive(Debug, Clone)]
pub struct SimConfig {
    /// The depth of every channel that has no depth of its own; without it
    /// the binder's own default holds.
    pub channel_depth: Option<usize>,
    /// Whether values are computed and not only cycles counted.
    pub functional_sim: bool,
    /// Whether entries of four bytes are accounted as two.
    pub mock_bf16: bool,
    /// The depth of the channels of single operators, by operator id.
    pub config_dict: HashMap<u32, usize>,
}

impl SimConfig {
    /// The bytes that one entry of four bytes is accounted as.
    pub fn f32_bytes(&self) -> (n: usize)
        ensures
            n == if self.mock_bf16 {
                2usize
            } else {
                4usize
            },
    {
        if self.mock_bf16 {
            2
        } else {
            4
        }
    }

    /// The depth of the channels that operator `id` sends on.
    pub fn depth_of(&self, id: u32) -> (depth: Option<usize>)
        ensures
            depth == if self.config_dict@.contains_key(id) {
                Some(self.config_dict@[id])
            } else {
                self.channel_depth
            },
    {
        get_chan_depth(&self.config_dict, id, self.channel_depth)
    }
}

} // verus!
