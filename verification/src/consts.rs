use vstd::prelude::*;

verus! {

/// Number of past ticks a neuron remembers; also its cooldown time.
pub const MEMORY_SIZE: usize = 5;

/// Spread of firing intervals treated as one standard deviation.
pub const ONE_STANDARD_DEV_THRESHOLD: i32 = 30;

/// Unhappiness at which a neuron without inputs dies.
pub const MAX_HAPPY_VALUE: u32 = 500;

/// Ticks without firing after which a neuron without inputs dies of boredom.
pub const INACTIVITY_DEATH_TIME: u32 = 1000000000;

/// Highest value the base threshold of a neuron can reach.
pub const MAX_THRESHOLD: i32 = 70;

/// Lowest value the base threshold of a neuron can reach.
pub const MIN_THRESHOLD: i32 = 30;

/// Potential an output must reach before it fires.
pub const OUTPUT_THRESHOLD: i32 = 70;

/// Ticks a brain runs for each point of reward or pain intensity.
pub const ITERATION_MULTIPLIER: u32 = 5;

/// Longest span of ticks the threshold arithmetic of a neuron can take:
/// three times it still fits in an `i32`.
pub const TIME_SPAN_LIMIT: u32 = 715827882;

/// Most a single update can add to the unhappiness of a neuron whose spans stay
/// within `TIME_SPAN_LIMIT`: three times a span divided by one standard deviation.
pub const HAPPY_STEP: u32 = 71582787;

/// Largest base threshold the threshold arithmetic of a neuron is proved for.
pub const BASE_LIMIT: i32 = 0x4000_0000;

/// Largest magnitude of pending inputs and of remembered totals the tick arithmetic is
/// proved for: a fifth of `i32::MAX`, so a memory of five such totals still sums in an
/// `i32`.
pub const INPUT_CAP: i32 = 429496729;

} // verus!
