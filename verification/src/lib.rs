//! A small simulated brain: neurons joined by axons, driven by sensory
//! inputs, ticking over a shared clock and reporting the output neurons that fire.
pub mod consts;
mod chance;
pub mod memory;
pub mod neuron;
pub mod axion;
pub mod input;
pub mod output;
pub mod brain;
pub mod grid;

pub use brain::Spirion;
pub use brain::Spirion as Brain;
pub use consts::{
    INACTIVITY_DEATH_TIME, MAX_HAPPY_VALUE, MAX_THRESHOLD, MEMORY_SIZE, MIN_THRESHOLD,
    ONE_STANDARD_DEV_THRESHOLD, OUTPUT_THRESHOLD,
};
