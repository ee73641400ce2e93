//! Tolerances and plotting defaults, as the bit patterns of the numbers named beside them.

use vstd::prelude::*;

verus! {

/// `1e-12`: the tolerance within which two complex values count as the same everywhere in
/// this crate, so that interning, constant folding and the other numeric comparisons agree.
pub const MACHINE_TOLERANCE: u64 = 0x3d71_9799_812d_ea11;

/// `-1e12`: the left end of the default x-range of a plot.
pub const PLOT_XMIN: u64 = 0xc26d_1a94_a200_0000;

/// `1e12`: the right end of the default x-range of a plot.
pub const PLOT_XMAX: u64 = 0x426d_1a94_a200_0000;

/// `0.01`: the base window of the rolling-average smoothing curve.
pub const PLOT_SMOOTHING_WINDOW: u64 = 0x3f84_7ae1_47ae_147b;

/// `1`: how strongly the smoothing window grows with the distance from zero.
pub const PLOT_SMOOTHING_SCALE: u64 = 0x3ff0_0000_0000_0000;

} // verus!
