use vstd::prelude::*;

use crate::consts::{MEMORY_SIZE, OUTPUT_THRESHOLD};
use crate::input::PortStyle;
use crate::memory::{forget_into, replaced_memory, shifted_memory, sum_of, sums_fit, total};
use crate::neuron::abs_int;

verus! {

/// An output that neurons plug into.
///
/// Its position on the screen lives with whoever draws it.
pub struct Output {
    /// How long since firing, at most 5.
    pub tick: u32,
    last_tick: u128,
    base_threshold: i32,
    /// The axons that connect to it.
    pub input_axions: Vec<u128>,
    /// Total inputs for this tick, post weight.
    pub inputs: Vec<i32>,
    input_memory: Vec<i32>,
}

/// What an output is, as values.
pub struct OutputModel {
    pub tick: int,
    pub last_tick: int,
    pub base_threshold: int,
    pub input_axions: Seq<u128>,
    pub inputs: Seq<i32>,
    pub memory: Seq<i32>,
}

impl View for Output {
    type V = OutputModel;

    closed spec fn view(&self) -> OutputModel {
        OutputModel {
            tick: self.tick as int,
            last_tick: self.last_tick as int,
            base_threshold: self.base_threshold as int,
            input_axions: self.input_axions@,
            inputs: self.inputs@,
            memory: self.input_memory@,
        }
    }
}

impl Output {
    /// A new output with an empty memory and the threshold `OUTPUT_THRESHOLD`.
    pub fn new(id: u32) -> (o: Self)
        ensures
            o@ == (OutputModel {
                tick: 0,
                last_tick: 0,
                base_threshold: OUTPUT_THRESHOLD as int,
                input_axions: Seq::empty(),
                inputs: Seq::empty(),
                memory: Seq::empty(),
            }),
    {
        Self {
            tick: 0,
            last_tick: 0,
            input_axions: Vec::new(),
            base_threshold: OUTPUT_THRESHOLD,
            inputs: Vec::new(),
            input_memory: Vec::new(),
        }
    }

    /// Brings the memory up to date at clock `time`: if 5 or more ticks passed since
    /// the last update the memory is replaced by the total of the pending inputs
    /// followed by zeros and the pending inputs are dropped, otherwise the memory shifts by
    /// the ticks that passed with the total of the pending inputs in front. Then the
    /// clock is recorded.
    pub fn update(&mut self, time: u128)
        requires
            old(self)@.last_tick + 5 <= u128::MAX,
            old(self)@.last_tick <= time,
            sums_fit(old(self)@.inputs),
        ensures
            final(self)@ == (if old(self)@.last_tick + 5 <= time {
                OutputModel {
                    inputs: Seq::empty(),
                    memory: replaced_memory(sum_of(old(self)@.inputs) as i32),
                    last_tick: time as int,
                    ..old(self)@
                }
            } else if time == old(self)@.last_tick {
                OutputModel { last_tick: time as int, ..old(self)@ }
            } else {
                OutputModel {
                    memory: shifted_memory(
                        old(self)@.memory,
                        sum_of(old(self)@.inputs) as i32,
                        time - old(self)@.last_tick,
                    ),
                    last_tick: time as int,
                    ..old(self)@
                }
            }),
    {
        if self.last_tick + 5 <= time {
            self.forget(None);
        } else {
            self.forget(Some((time - self.last_tick) as usize));
        }
        self.last_tick = time;
    }

    /// The remembered totals, newest first.
    pub fn memory(&self) -> (m: Vec<i32>)
        ensures
            m@ == self@.memory,
    {
        self.input_memory.clone()
    }

    /// The clock of the last update.
    pub fn last_tick(&self) -> (t: u128)
        ensures
            t == self@.last_tick,
    {
        self.last_tick
    }

    /// The output fired: the time since firing goes back to 0, and its memory is
    /// replaced by the total of its pending inputs followed by zeros, the pending
    /// inputs being dropped.
    pub fn fired(&mut self)
        requires
            sums_fit(old(self)@.inputs),
        ensures
            final(self)@ == (OutputModel {
                tick: 0,
                inputs: Seq::empty(),
                memory: replaced_memory(sum_of(old(self)@.inputs) as i32),
                ..old(self)@
            }),
    {
        self.tick = 0;
        self.forget(None);
    }

    /// How the output is drawn: fired until `MEMORY_SIZE` ticks have passed.
    pub fn style(&self) -> (s: PortStyle)
        ensures
            s == (if self@.tick < MEMORY_SIZE { PortStyle::Fired } else { PortStyle::Waiting }),
    {
        if self.tick < MEMORY_SIZE as u32 {
            PortStyle::Fired
        } else {
            PortStyle::Waiting
        }
    }

    /// Checks if the output should fire: once `MEMORY_SIZE` ticks have passed, when the
    /// magnitude of its remembered potential reaches its threshold.
    pub fn ready_to_fire(&self) -> (b: bool)
        requires
            self@.tick >= MEMORY_SIZE ==> sums_fit(self@.memory) && sum_of(self@.memory)
                != i32::MIN,
        ensures
            b == (self@.tick >= MEMORY_SIZE && abs_int(sum_of(self@.memory))
                >= self@.base_threshold),
    {
        if self.tick < MEMORY_SIZE as u32 {
            return false;
        }
        let potential: i32 = total(&self.input_memory);
        let magnitude = if potential < 0 {
            -potential
        } else {
            potential
        };
        magnitude >= self.base_threshold
    }

    /// Brings the memory up to date after `ticks` ticks (see `forget_into`).
    fn forget(&mut self, ticks: Option<usize>)
        requires
            sums_fit(old(self)@.inputs),
        ensures
            match ticks {
                None => final(self)@ == (OutputModel {
                    inputs: Seq::empty(),
                    memory: replaced_memory(sum_of(old(self)@.inputs) as i32),
                    ..old(self)@
                }),
                Some(u) => if u == 0 {
                    final(self)@ == old(self)@
                } else {
                    final(self)@ == (OutputModel {
                        memory: shifted_memory(
                            old(self)@.memory,
                            sum_of(old(self)@.inputs) as i32,
                            if u < MEMORY_SIZE { u as int } else { MEMORY_SIZE as int },
                        ),
                        ..old(self)@
                    })
                },
            },
    {
        forget_into(&mut self.inputs, &mut self.input_memory, ticks);
    }
}

} // verus!
