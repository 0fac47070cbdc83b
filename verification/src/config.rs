//! Settings that come with a model: how its input is prepared and how its
//! output grid is decoded.

use vstd::prelude::*;

verus! {

/// How the peak decoder reads a score grid. A count of zero or less switches
/// the cap or the fallback it names off.
#[derive(Clone, Copy, Debug)]
pub struct DecodeConfig {
    /// Score cutoff, as the bit pattern of a binary32 value.
    pub thresh: u32,
    /// Side of the square window in which a peak must not be exceeded.
    pub window: i64,
    /// Most peaks kept of one channel.
    pub per_channel_topk: i64,
    /// Most peaks kept in all.
    pub max_peaks: i64,
    /// Most peaks returned when no cell reaches the cutoff.
    pub fallback_topk: i64,
    /// Whether, for a model without a root class, the leftmost node becomes
    /// the root.
    pub assign_root_leftmost_when_two_classes: bool,
}

/// What a model expects of its input and says of its channels.
#[derive(Clone, Debug)]
pub struct ModelConfig {
    /// Name of the network; no rule reads it.
    pub backbone: String,
    /// Number of input planes; at least one.
    pub in_channels: i64,
    /// Every output channel stands for internal nodes.
    pub internal_only: bool,
    /// The model has no channel for the root.
    pub no_root_pred: bool,
    /// Whether intensities are brought to the unit interval.
    pub normalize_input: bool,
    /// Longest side the input may have; zero for no limit.
    pub max_side: i64,
    /// The input's sides are padded to multiples of this; zero for none.
    pub pad_multiple: i64,
    /// How the output is decoded.
    pub decode: DecodeConfig,
}

} // verus!
