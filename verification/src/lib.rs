use vstd::prelude::*;

pub mod bits;
pub mod writer;
pub mod reader;
pub mod laws;
pub mod error;
pub mod msg;
pub mod png;
pub mod text;
pub mod cli;

verus! {

/// Halfway point of a channel's value range.
pub const HALF: u8 = 128;

/// The most bits that the delta method hides in one channel.
pub const MAX_BIT_PER_CHAN: u8 = 4;

/// The biggest chunk of channels that the average-sum method works on.
pub const MAX_WIN_SZ: u8 = 64;

/// A fixed scramble of `0..=255`: the `i`-th of a sequence of indexes that looks random.
pub open spec fn spec_pseudo_rand_index(i: u8) -> usize {
    (((i as int) * 167 + 73) % 256) as usize
}

/// The `i`-th of a fixed sequence of indexes that looks random.
pub fn pseudo_rand_index(i: u8) -> (r: usize)
    ensures
        r == spec_pseudo_rand_index(i),
        r < 256,
{
    ((i as usize) * 167 + 73) % 256
}

} // verus!
