use std::collections::HashSet;
use vstd::prelude::*;

use crate::chance::{random_i32, random_u32};
use crate::consts::{BASE_LIMIT, HAPPY_STEP, MAX_THRESHOLD, MIN_THRESHOLD, ONE_STANDARD_DEV_THRESHOLD, TIME_SPAN_LIMIT, MAX_HAPPY_VALUE, INACTIVITY_DEATH_TIME, MEMORY_SIZE, INPUT_CAP};
use crate::memory::{
    abs_total, calm_total, forget_into, is_calm, lemma_abs_total_bounds_sum, lemma_calm_memory_fits,
    lemma_replaced_calm, lemma_shifted_calm, lemma_small_total_fits, memory_calm, replaced_memory, shifted_memory, sum_of, sums_fit, total,
};

verus! {

broadcast use vstd::std_specs::hash::group_hash_axioms;

/// Single neuron.
///
/// Its position on the screen lives with whoever draws it; the neuron holds what
/// its firing rules read.
#[derive(Clone, Debug, PartialEq)]
pub struct Neuron {
    base_threshold: i32,
    threshold: i32,
    /// How unhappy it is with its firing frequency; 0 is happiest.
    pub happyness: u32,
    pub is_output: bool,
    /// Total inputs for this tick, post weight.
    pub inputs: Vec<i32>,
    input_memory: Vec<i32>,
    pub output_axons: Vec<u128>,
    pub input_axons: Vec<u128>,
    tick_last_fired: u128,
    /// How long since it last fired.
    pub delta_t: u32,
    avg_t: u32,
}

/// How a neuron is drawn.
#[derive(Clone, Copy, Debug, PartialEq, Eq)]
pub enum NeuronStyle {
    /// An output neuron.
    Output,
    /// A neuron that fired within the last ten ticks.
    Active,
    /// Any other neuron.
    Idle,
}

/// Absolute value of an integer.
pub open spec fn abs_int(a: int) -> int {
    if a < 0 {
        -a
    } else {
        a
    }
}

/// Integer division rounding toward zero, as `/` on Rust integers does.
pub open spec fn div_toward_zero(a: int, d: int) -> int {
    if a >= 0 {
        a / d
    } else {
        -((-a) / d)
    }
}

/// `a - b`, floored at zero (saturating subtraction on an unsigned value).
pub open spec fn sub_floor(a: int, b: int) -> int {
    if a >= b {
        a - b
    } else {
        0
    }
}

/// What a neuron is, as values.
pub struct NeuronModel {
    pub base_threshold: int,
    pub threshold: int,
    pub happyness: int,
    pub is_output: bool,
    pub inputs: Seq<i32>,
    pub memory: Seq<i32>,
    pub output_axons: Seq<u128>,
    pub input_axons: Seq<u128>,
    pub last_fired: int,
    pub delta_t: int,
    pub avg_t: int,
}

impl NeuronModel {
    /// Deviation of the current interval from the average one, in standard deviations
    /// rounded toward zero.
    pub open spec fn deviation(self) -> int {
        div_toward_zero(self.delta_t - self.avg_t, ONE_STANDARD_DEV_THRESHOLD as int)
    }

    /// The potential the neuron remembers: the sum of its memory.
    pub open spec fn potential(self) -> int {
        sum_of(self.memory)
    }

    /// The neuron wants to fire: it has cooled down for more than 5 ticks and the
    /// magnitude of its remembered potential reaches its threshold.
    pub open spec fn wants_to_fire(self) -> bool {
        self.delta_t > 5 && abs_int(self.potential()) >= self.threshold
    }

    /// The threshold set from how long ago the neuron fired: before 5 ticks the base
    /// threshold plus a recovery of 30; from 5 ticks on the current threshold (from 15
    /// ticks on the base threshold) lowered by `3 * delta_t - 15`, but not below 0.
    pub open spec fn post_fire_level(self) -> int {
        if self.delta_t < 5 {
            self.base_threshold + 30
        } else {
            let from = if self.delta_t >= 15 {
                self.base_threshold
            } else {
                self.threshold
            };
            if from - (3 * self.delta_t - 15) > 0 {
                from - (3 * self.delta_t - 15)
            } else {
                0
            }
        }
    }

    pub open spec fn after_post_fire(self) -> NeuronModel {
        NeuronModel { threshold: self.post_fire_level(), ..self }
    }

    /// The base threshold raised by the deviation, capped at `MAX_THRESHOLD`, then the
    /// post-fire threshold.
    pub open spec fn after_raise(self) -> NeuronModel {
        let b = self.base_threshold + abs_int(self.deviation());
        NeuronModel {
            base_threshold: if b > MAX_THRESHOLD {
                MAX_THRESHOLD as int
            } else {
                b
            },
            ..self
        }.after_post_fire()
    }

    /// The base threshold lowered by the deviation, floored at `MIN_THRESHOLD`, then the
    /// post-fire threshold.
    pub open spec fn after_drop(self) -> NeuronModel {
        let b = self.base_threshold - abs_int(self.deviation());
        NeuronModel {
            base_threshold: if b < MIN_THRESHOLD {
                MIN_THRESHOLD as int
            } else {
                b
            },
            ..self
        }.after_post_fire()
    }

    pub open spec fn unhappier_by(self, d: int) -> NeuronModel {
        NeuronModel { happyness: self.happyness + d, ..self }
    }

    /// The threshold rules. A neuron that wants to fire judges its interval: within one
    /// standard deviation of its average it grows happier by 4; beyond four, a short
    /// interval raises its base threshold and a long one lowers it, except that a base
    /// already at its limit, or (for a short interval) an extreme potential above 100,
    /// makes the neuron unhappier by the deviation instead. A neuron that does not want
    /// to fire gets its post-fire threshold.
    pub open spec fn after_threshold_rules(self) -> NeuronModel {
        if self.wants_to_fire() {
            let w = self.deviation();
            let extreme = abs_int(self.potential()) > 100;
            if abs_int(w) <= 1 {
                NeuronModel { happyness: sub_floor(self.happyness, 4), ..self }
            } else if abs_int(w) > 4 {
                let first = if (w < 0 && self.base_threshold >= 70) || extreme {
                    self.unhappier_by(abs_int(w))
                } else if w < 0 {
                    self.after_raise()
                } else {
                    self
                };
                if w > 0 && first.base_threshold <= 30 {
                    first.unhappier_by(abs_int(w))
                } else if w > 0 {
                    first.after_drop()
                } else {
                    first
                }
            } else {
                self
            }
        } else {
            self.after_post_fire()
        }
    }

    /// The distance of the current interval from the average one, in whole standard
    /// deviations.
    pub open spec fn interval_weight(self) -> int {
        abs_int(self.avg_t - self.delta_t) / ONE_STANDARD_DEV_THRESHOLD as int
    }

    /// The interval rules: unhappier by the interval weight, then happier by 5 when the
    /// weight is 0 and by another 2 when it is at most 2 (never below 0); the average
    /// interval moves a third of the way toward the current one.
    pub open spec fn after_interval_rules(self) -> NeuronModel {
        let weight = self.interval_weight();
        let h1 = self.happyness + weight;
        let h2 = if weight == 0 {
            sub_floor(h1, 5)
        } else {
            h1
        };
        let h3 = if weight <= 2 {
            sub_floor(h2, 2)
        } else {
            h2
        };
        NeuronModel { happyness: h3, avg_t: (2 * self.avg_t + self.delta_t) / 3, ..self }
    }

    /// The memory rules after the clock moved from an interval of `old_dt` ticks to the
    /// current one: a jump of 5 or more replaces the memory by the total of the pending
    /// inputs followed by zeros and drops the pending inputs; a smaller one shifts the
    /// memory by that many ticks with the total of the pending inputs in front.
    pub open spec fn after_memory_rules(self, old_dt: int) -> NeuronModel {
        let u = self.delta_t - old_dt;
        if u >= 5 {
            NeuronModel {
                inputs: Seq::empty(),
                memory: replaced_memory(sum_of(self.inputs) as i32),
                ..self
            }
        } else if u == 0 {
            self
        } else {
            NeuronModel {
                memory: shifted_memory(self.memory, sum_of(self.inputs) as i32, u),
                ..self
            }
        }
    }

    /// A whole update at clock `time`: the interval since the last firing is taken
    /// from the clock, then the threshold, interval and memory rules apply in turn.
    pub open spec fn updated(self, time: int) -> NeuronModel {
        NeuronModel { delta_t: time - self.last_fired, ..self }.after_threshold_rules()
            .after_interval_rules().after_memory_rules(self.delta_t)
    }
}

/// A neuron as `Neuron::new` makes it.
pub open spec fn fresh_neuron(is_output: bool) -> NeuronModel {
    NeuronModel {
        base_threshold: 50,
        threshold: 50,
        happyness: 25,
        is_output,
        inputs: Seq::empty(),
        memory: seq![0i32, 0i32, 0i32, 0i32, 0i32],
        output_axons: Seq::empty(),
        input_axons: Seq::empty(),
        last_fired: 0,
        delta_t: 0,
        avg_t: 0,
    }
}

impl View for Neuron {
    type V = NeuronModel;

    closed spec fn view(&self) -> NeuronModel {
        NeuronModel {
            base_threshold: self.base_threshold as int,
            threshold: self.threshold as int,
            happyness: self.happyness as int,
            is_output: self.is_output,
            inputs: self.inputs@,
            memory: self.input_memory@,
            output_axons: self.output_axons@,
            input_axons: self.input_axons@,
            last_fired: self.tick_last_fired as int,
            delta_t: self.delta_t as int,
            avg_t: self.avg_t as int,
        }
    }
}

impl NeuronModel {
    /// The ranges in which the threshold and interval rules run without overflow:
    /// the current and average intervals within `TIME_SPAN_LIMIT`, room for
    /// `HAPPY_STEP` more unhappiness, thresholds between 0 and `BASE_LIMIT` (plus the
    /// recovery of 30), and a memory that can be summed in `i32`.
    pub open spec fn rules_in_range(self) -> bool {
        &&& self.thresholds_in_range()
        &&& 0 <= self.happyness
        &&& self.happyness + HAPPY_STEP <= u32::MAX
    }

    /// The ranges of `rules_in_range` without the room for unhappiness.
    pub open spec fn thresholds_in_range(self) -> bool {
        &&& 0 <= self.delta_t <= TIME_SPAN_LIMIT
        &&& 0 <= self.avg_t <= TIME_SPAN_LIMIT
        &&& self.base_threshold <= BASE_LIMIT
        &&& self.threshold <= BASE_LIMIT + 30
        &&& self.base_threshold - (3 * self.delta_t - 15) >= i32::MIN
        &&& self.threshold - (3 * self.delta_t - 15) >= i32::MIN
        &&& sums_fit(self.memory)
        &&& sum_of(self.memory) != i32::MIN
    }

    /// The post-fire threshold stays in range.
    pub proof fn lemma_post_fire_in_range(self)
        requires
            self.thresholds_in_range(),
        ensures
            self.after_post_fire().thresholds_in_range(),
            self.after_post_fire().happyness == self.happyness,
    {
    }

    /// The threshold rules keep the thresholds in range and add at most two thirds of
    /// `HAPPY_STEP` to the unhappiness.
    pub proof fn lemma_threshold_rules_in_range(self)
        requires
            self.thresholds_in_range(),
            0 <= self.happyness,
        ensures
            self.after_threshold_rules().thresholds_in_range(),
            0 <= self.after_threshold_rules().happyness <= self.happyness + 2 * (HAPPY_STEP / 3),
            self.after_threshold_rules().happyness <= self.happyness + 2 * abs_int(self.deviation()),
            self.after_threshold_rules().delta_t == self.delta_t,
            self.after_threshold_rules().avg_t == self.avg_t,
            self.after_threshold_rules().inputs == self.inputs,
            self.after_threshold_rules().memory == self.memory,
    {
        let w = self.deviation();
        assert(abs_int(w) <= HAPPY_STEP / 3);
        self.lemma_post_fire_in_range();
        let r = NeuronModel {
            base_threshold: if self.base_threshold + abs_int(w) > MAX_THRESHOLD {
                MAX_THRESHOLD as int
            } else {
                self.base_threshold + abs_int(w)
            },
            ..self
        };
        r.lemma_post_fire_in_range();
        let d = NeuronModel {
            base_threshold: if self.base_threshold - abs_int(w) < MIN_THRESHOLD {
                MIN_THRESHOLD as int
            } else {
                self.base_threshold - abs_int(w)
            },
            ..self
        };
        d.lemma_post_fire_in_range();
        let first = if (w < 0 && self.base_threshold >= 70) || abs_int(self.potential()) > 100 {
            self.unhappier_by(abs_int(w))
        } else if w < 0 {
            self.after_raise()
        } else {
            self
        };
        assert(first.deviation() == w);
        let d2 = NeuronModel {
            base_threshold: if first.base_threshold - abs_int(w) < MIN_THRESHOLD {
                MIN_THRESHOLD as int
            } else {
                first.base_threshold - abs_int(w)
            },
            ..first
        };
        d2.lemma_post_fire_in_range();
    }

    /// The ranges in which an update at clock `time` runs without overflow: the clock
    /// not behind the last firing nor behind the current interval, by at most
    /// `TIME_SPAN_LIMIT`; the rules in range on the new interval; pending inputs that
    /// can be summed in `i32`.
    pub open spec fn can_update(self, time: int) -> bool {
        &&& self.last_fired <= time
        &&& time - self.last_fired <= TIME_SPAN_LIMIT
        &&& 0 <= self.delta_t <= time - self.last_fired
        &&& NeuronModel { delta_t: time - self.last_fired, ..self }.rules_in_range()
        &&& sums_fit(self.inputs)
    }
}

impl NeuronModel {
    /// The ranges a neuron stays in while the brain ticks, at clock `time`: fired no
    /// later than `time`, its interval not beyond the clock, its average interval within
    /// `TIME_SPAN_LIMIT`, thresholds between 0 and `BASE_LIMIT` (plus the recovery of
    /// 30), a calm memory, and pending inputs at most `INPUT_CAP` in total magnitude.
    pub open spec fn steady(self, time: int) -> bool {
        &&& 0 <= self.last_fired <= time
        &&& 0 <= self.delta_t <= time - self.last_fired
        &&& 0 <= self.avg_t <= TIME_SPAN_LIMIT
        &&& 0 <= self.base_threshold <= BASE_LIMIT
        &&& 0 <= self.threshold <= BASE_LIMIT + 30
        &&& 0 <= self.happyness
        &&& memory_calm(self.memory)
        &&& abs_total(self.inputs) <= INPUT_CAP
    }

    /// Room for `k` more ticks of a brain at clock `clock` with signals at most `cap` in
    /// magnitude: steady at the clock, the clock `k` ticks on still within
    /// `TIME_SPAN_LIMIT` of the last firing, the unhappiness able to grow by the most an
    /// update until then can add (see `growth_until`) each tick within an `i32`, and the
    /// pending inputs able to take one signal of each incoming axon a tick.
    pub open spec fn has_room(self, clock: int, k: int, cap: int) -> bool {
        &&& self.steady(clock)
        &&& clock + k - self.last_fired <= TIME_SPAN_LIMIT
        &&& self.happyness + k * self.growth_until(clock + k) <= i32::MAX
        &&& abs_total(self.inputs) + k * self.input_axons.len() * cap <= INPUT_CAP
    }

    /// The longest interval the neuron can meet in updates up to clock `end`: its
    /// average interval or the time from its last firing to `end`, whichever is longer.
    pub open spec fn span_until(self, end: int) -> int {
        if self.avg_t > end - self.last_fired {
            self.avg_t
        } else {
            end - self.last_fired
        }
    }

    /// Most an update up to clock `end` can add to the unhappiness: three times the
    /// longest interval it can meet, in whole standard deviations.
    pub open spec fn growth_until(self, end: int) -> int {
        3 * (self.span_until(end) / ONE_STANDARD_DEV_THRESHOLD as int)
    }

    /// Room with larger signals leaves room with smaller ones.
    pub proof fn lemma_room_smaller_cap(self, clock: int, k: int, cap: int, big: int)
        requires
            self.has_room(clock, k, big),
            0 <= k,
            0 <= cap <= big,
        ensures
            self.has_room(clock, k, cap),
    {
        let len = self.input_axons.len() as int;
        assert(k * len * cap <= k * len * big) by (nonlinear_arith)
            requires
                0 <= k,
                0 <= len,
                0 <= cap <= big,
        ;
    }

    /// A steady neuron can be updated at clock `time` when that is within
    /// `TIME_SPAN_LIMIT` of its last firing and its unhappiness has room for one more
    /// `HAPPY_STEP`; it comes out steady, no more than `HAPPY_STEP` (nor than
    /// `growth_until(end)`, for any later clock `end`) unhappier, with no more pending
    /// input, no longer spans until `end`, and its connections and kind unchanged.
    pub proof fn lemma_update_steady(self, time: int, end: int)
        requires
            self.steady(time),
            time <= end,
            time - self.last_fired <= TIME_SPAN_LIMIT,
            self.happyness + HAPPY_STEP <= u32::MAX,
        ensures
            self.can_update(time),
            self.updated(time).steady(time),
            self.updated(time).delta_t == time - self.last_fired,
            self.updated(time).last_fired == self.last_fired,
            self.updated(time).happyness <= self.happyness + HAPPY_STEP,
            self.updated(time).happyness <= self.happyness + self.growth_until(end),
            0 <= self.updated(time).growth_until(end) <= self.growth_until(end),
            abs_total(self.updated(time).inputs) <= abs_total(self.inputs),
            self.updated(time).is_output == self.is_output,
            self.updated(time).output_axons == self.output_axons,
            self.updated(time).input_axons == self.input_axons,
    {
        let s1 = NeuronModel { delta_t: time - self.last_fired, ..self };
        lemma_calm_memory_fits(self.memory);
        lemma_abs_total_bounds_sum(self.inputs);
        lemma_small_total_fits(self.inputs);
        s1.lemma_threshold_rules_in_range();
        let s2 = s1.after_threshold_rules();
        assert(s2.interval_weight() <= HAPPY_STEP / 3);
        let b = self.span_until(end);
        assert(abs_int(s1.delta_t - s1.avg_t) <= b);
        assert(abs_int(s1.deviation()) <= b / 30);
        assert(s2.interval_weight() <= b / 30);
        let s3 = s2.after_interval_rules();
        assert(s3.memory == self.memory);
        assert(s3.inputs == self.inputs);
        let u = s1.delta_t - self.delta_t;
        if 1 <= u < 5 {
            lemma_shifted_calm(s3.memory, sum_of(self.inputs) as i32, u);
        }
        let s4 = s3.after_memory_rules(self.delta_t);
        assert(s4 == self.updated(time));
        if u >= 5 {
            assert(abs_total(s4.inputs) == 0);
            lemma_replaced_calm(sum_of(self.inputs) as i32);
        }
    }
}

/// A neuron that wants to fire (more than 5 ticks since it fired, a remembered
/// potential reaching its threshold) after an interval at least five standard
/// deviations shorter than its average never comes out of an update with a lower base
/// threshold. Below `MAX_THRESHOLD` and with a potential of at most 100 in magnitude,
/// its base goes up by the whole standard deviations the interval fell short, up to
/// `MAX_THRESHOLD`; otherwise it stays.
pub proof fn lemma_short_interval_raises_base(m: NeuronModel, time: int)
    requires
        time - m.last_fired > 5,
        m.avg_t - (time - m.last_fired) >= 5 * ONE_STANDARD_DEV_THRESHOLD,
        abs_int(sum_of(m.memory)) >= m.threshold,
    ensures
        m.base_threshold <= m.updated(time).base_threshold,
        m.updated(time).base_threshold <= if m.base_threshold > MAX_THRESHOLD {
            m.base_threshold
        } else {
            MAX_THRESHOLD as int
        },
        m.base_threshold < MAX_THRESHOLD && abs_int(sum_of(m.memory)) <= 100 ==> m.updated(time).base_threshold
            == if m.base_threshold + (m.avg_t - (time - m.last_fired)) / ONE_STANDARD_DEV_THRESHOLD as int
            > MAX_THRESHOLD {
            MAX_THRESHOLD as int
        } else {
            m.base_threshold + (m.avg_t - (time - m.last_fired)) / ONE_STANDARD_DEV_THRESHOLD as int
        },
{
    let s = NeuronModel { delta_t: time - m.last_fired, ..m };
    assert(s.wants_to_fire());
    assert(s.deviation() == -((m.avg_t - (time - m.last_fired)) / ONE_STANDARD_DEV_THRESHOLD as int));
    assert(s.deviation() < -4);
}

/// An update keeps a base threshold that lies between `MIN_THRESHOLD` and
/// `MAX_THRESHOLD` between them: raising it stops at the top, lowering it at the bottom.
pub proof fn lemma_base_threshold_band(m: NeuronModel, time: int)
    requires
        MIN_THRESHOLD <= m.base_threshold <= MAX_THRESHOLD,
    ensures
        MIN_THRESHOLD <= m.updated(time).base_threshold <= MAX_THRESHOLD,
{
}

/// An update at a clock no earlier than the current interval allows keeps a memory of
/// `MEMORY_SIZE` ticks that long.
pub proof fn lemma_memory_length_kept(m: NeuronModel, time: int)
    requires
        m.memory.len() == MEMORY_SIZE,
        0 <= m.delta_t <= time - m.last_fired,
    ensures
        m.updated(time).memory.len() == MEMORY_SIZE,
{
    let s3 = NeuronModel { delta_t: time - m.last_fired, ..m }.after_threshold_rules().after_interval_rules();
    assert(s3.memory == m.memory);
    let u = time - m.last_fired - m.delta_t;
    if 1 <= u < 5 {
        let r = shifted_memory(m.memory, sum_of(m.inputs) as i32, u);
        assert(r.len() == 1 + (u - 1) + (MEMORY_SIZE - u));
    }
    if u >= 5 {
        assert(replaced_memory(sum_of(m.inputs) as i32).len() == MEMORY_SIZE);
    }
}

impl Neuron {
    /// Makes a new neuron: happiness 25, thresholds 50, an empty memory of five ticks.
    pub fn new(is_output: bool) -> (n: Self)
        ensures
            n@ == fresh_neuron(is_output),
    {
        let n = Neuron {
            happyness: 25,
            base_threshold: 50,
            threshold: 50,
            is_output,
            input_memory: vec![0, 0, 0, 0, 0],
            inputs: Vec::new(),
            output_axons: Vec::new(),
            input_axons: Vec::new(),
            tick_last_fired: 0,
            delta_t: 0,
            avg_t: 0,
        };
        assert(n.input_memory@ =~= seq![0i32, 0i32, 0i32, 0i32, 0i32]);
        n
    }

    /// Makes a neuron from the given values, with the defaults of `new` (and zero
    /// times) for those not given.
    pub fn new_with_data(
        happyness: Option<u32>,
        base_threshold: Option<i32>,
        threshold: Option<i32>,
        is_output: Option<bool>,
        input_memory: Option<Vec<i32>>,
        inputs: Option<Vec<i32>>,
        input_axons: Option<Vec<u128>>,
        output_axons: Option<Vec<u128>>,
        tick_last_fired: Option<u128>,
        delta_t: Option<u32>,
        avg_t: Option<u32>,
    ) -> (n: Self)
        ensures
            n@.happyness == (match happyness { Some(h) => h, None => 25 }),
            n@.base_threshold == (match base_threshold { Some(b) => b, None => 50 }),
            n@.threshold == (match threshold { Some(t) => t, None => 50 }),
            n@.is_output == (match is_output { Some(o) => o, None => false }),
            n@.memory == (match input_memory {
                Some(m) => m@,
                None => seq![0i32, 0i32, 0i32, 0i32, 0i32],
            }),
            n@.inputs == (match inputs { Some(v) => v@, None => Seq::empty() }),
            n@.input_axons == (match input_axons { Some(v) => v@, None => Seq::empty() }),
            n@.output_axons == (match output_axons { Some(v) => v@, None => Seq::empty() }),
            n@.last_fired == (match tick_last_fired { Some(t) => t, None => 0 }),
            n@.delta_t == (match delta_t { Some(t) => t, None => 0 }),
            n@.avg_t == (match avg_t { Some(t) => t, None => 0 }),
    {
        let input_memory = match input_memory {
            Some(m) => m,
            None => vec![0, 0, 0, 0, 0],
        };
        let n = Neuron {
            happyness: match happyness {
                Some(h) => h,
                None => 25,
            },
            base_threshold: match base_threshold {
                Some(b) => b,
                None => 50,
            },
            threshold: match threshold {
                Some(t) => t,
                None => 50,
            },
            is_output: match is_output {
                Some(o) => o,
                None => false,
            },
            input_memory,
            inputs: match inputs {
                Some(v) => v,
                None => Vec::new(),
            },
            input_axons: match input_axons {
                Some(v) => v,
                None => Vec::new(),
            },
            output_axons: match output_axons {
                Some(v) => v,
                None => Vec::new(),
            },
            tick_last_fired: match tick_last_fired {
                Some(t) => t,
                None => 0,
            },
            delta_t: match delta_t {
                Some(t) => t,
                None => 0,
            },
            avg_t: match avg_t {
                Some(t) => t,
                None => 0,
            },
        };
        assert(n.input_memory@ =~= n@.memory);
        n
    }

    /// Whether a neuron with no outputs left survives a save roll of `roll`
    /// (drawn below `MAX_HAPPY_VALUE / 2`): the roll plus its unhappiness must stay
    /// below `MAX_HAPPY_VALUE / 5`.
    pub fn survives_roll(&self, roll: u32) -> (b: bool)
        requires
            roll + self@.happyness <= u32::MAX,
        ensures
            b == (roll + self@.happyness < MAX_HAPPY_VALUE / 5),
    {
        roll + self.happyness < MAX_HAPPY_VALUE / 5
    }

    /// The save check with its draws given: the roll `roll` and the count `count` of new
    /// connections. An output always survives; any other neuron survives exactly when
    /// the roll plus its unhappiness stays below `MAX_HAPPY_VALUE / 5` (see
    /// `survives_roll`). A survivor gets `count`.
    pub fn save_check_with(&self, output: bool, roll: u32, count: i32) -> (r: Option<i32>)
        requires
            roll + self@.happyness <= u32::MAX,
        ensures
            r == (if output || roll + self@.happyness < MAX_HAPPY_VALUE / 5 {
                Some(count)
            } else {
                None
            }),
    {
        if output || self.survives_roll(roll) {
            Some(count)
        } else {
            None
        }
    }

    /// Rolls a save check to see if it should die or gets another chance at life, and
    /// if so with how many new connections (10 to 19). An output always survives; any
    /// other neuron survives only on a lucky roll (see `survives_roll`), which an
    /// unhappiness of `MAX_HAPPY_VALUE / 5` or more rules out.
    pub fn roll_save_check(&self, output: bool) -> (r: Option<i32>)
        requires
            self@.happyness + MAX_HAPPY_VALUE / 2 <= u32::MAX + 1,
        ensures
            match r {
                Some(c) => 10 <= c < 20 && (output || self@.happyness < MAX_HAPPY_VALUE / 5),
                None => !output,
            },
            !output ==> exists|roll: int|
                0 <= roll < MAX_HAPPY_VALUE / 2 && (r is Some <==> #[trigger] (roll + self@.happyness)
                    < MAX_HAPPY_VALUE / 5),
    {
        if output {
            return Some(random_i32(10, 20));
        }
        let roll = random_u32(0, MAX_HAPPY_VALUE / 2);
        let count = if self.survives_roll(roll) {
            random_i32(10, 20)
        } else {
            0
        };
        let r = self.save_check_with(false, roll, count);
        proof {
            assert(0 <= roll < MAX_HAPPY_VALUE / 2);
            assert(r is Some <==> (roll + self@.happyness) < MAX_HAPPY_VALUE / 5);
        }
        r
    }
}

// Update
impl Neuron {
    /// Marks the neuron as having just fired and returns the time since it last fired.
    pub fn fired(&mut self) -> (r: u32)
        ensures
            r == old(self)@.delta_t,
            final(self)@ == (NeuronModel { delta_t: 0, ..old(self)@ }),
    {
        let delta_t = self.delta_t;
        self.delta_t = 0;
        delta_t
    }

    /// Housekeeping whenever the neuron becomes active at clock `time`: the interval
    /// since its last firing is taken from the clock, then its threshold, happiness and
    /// memory are brought up to date (see `NeuronModel::updated`). No rule yet asks for
    /// connections to be added, so it reports `(0, 0)` inputs and outputs to add.
    pub fn update(&mut self, time: u128) -> (r: (i16, i16))
        requires
            old(self)@.can_update(time as int),
        ensures
            final(self)@ == old(self)@.updated(time as int),
            r == (0i16, 0i16),
    {
        let old_time = self.delta_t;
        self.tick(time);
        self.update_threshold();
        self.math();
        if old_time + 5 <= self.delta_t {
            self.forget(None);
        } else {
            self.forget(Some((self.delta_t - old_time) as usize));
        }
        (0, 0)
    }

    /// A happy enough neuron (unhappiness below `MAX_HAPPY_VALUE / 4`) wants to reproduce.
    pub fn want_to_reproduce(&self) -> (b: bool)
        ensures
            b == (self@.happyness < MAX_HAPPY_VALUE / 4),
    {
        self.happyness < (MAX_HAPPY_VALUE / 4)
    }

    /// Takes the interval since the last firing from the clock.
    fn tick(&mut self, time: u128)
        requires
            old(self)@.last_fired <= time,
            time - old(self)@.last_fired <= TIME_SPAN_LIMIT,
        ensures
            final(self)@ == (NeuronModel { delta_t: time - old(self)@.last_fired, ..old(self)@ }),
    {
        self.delta_t = (time - self.tick_last_fired) as u32;
    }

    /// The interval rules (see `NeuronModel::after_interval_rules`).
    fn math(&mut self)
        requires
            old(self)@.thresholds_in_range(),
            0 <= old(self)@.happyness,
            old(self)@.happyness + HAPPY_STEP / 3 <= u32::MAX,
        ensures
            final(self)@ == old(self)@.after_interval_rules(),
    {
        let t = self.delta_t as i32;
        let w = self.avg_t as i32;
        let delta = abs_i32(w - t);
        let weight = abs_i32(delta / ONE_STANDARD_DEV_THRESHOLD) as u32;
        self.happyness += weight;
        if weight == 0 {
            self.happyness = self.happyness.saturating_sub(5);
        }
        if weight <= 2 {
            self.happyness = self.happyness.saturating_sub(2)
        }
        self.avg_t = (self.avg_t + self.avg_t + self.delta_t) / 3;
    }

    /// Brings the memory up to date after `ticks` ticks (see `forget_into`).
    fn forget(&mut self, ticks: Option<usize>)
        requires
            sums_fit(old(self)@.inputs),
        ensures
            match ticks {
                None => final(self)@ == (NeuronModel {
                    inputs: Seq::empty(),
                    memory: replaced_memory(sum_of(old(self)@.inputs) as i32),
                    ..old(self)@
                }),
                Some(u) => if u == 0 {
                    final(self)@ == old(self)@
                } else {
                    final(self)@ == (NeuronModel {
                        memory: shifted_memory(
                            old(self)@.memory,
                            sum_of(old(self)@.inputs) as i32,
                            if u < MEMORY_SIZE { u as int } else { MEMORY_SIZE as int },
                        ),
                        ..old(self)@
                    })
                },
            },
    {
        forget_into(&mut self.inputs, &mut self.input_memory, ticks);
    }
}

/// `x.abs()` on an `i32` other than `i32::MIN`.
pub(crate) fn abs_i32(x: i32) -> (r: i32)
    requires
        x != i32::MIN,
    ensures
        r == abs_int(x as int),
{
    if x < 0 {
        -x
    } else {
        x
    }
}

/// `a.saturating_sub(b)` on `i32`.
fn saturating_sub_i32(a: i32, b: i32) -> (r: i32)
    ensures
        r == (if a - b < i32::MIN {
            i32::MIN as int
        } else if a - b > i32::MAX {
            i32::MAX as int
        } else {
            a - b
        }),
{
    if b >= 0 {
        if a < i32::MIN + b {
            i32::MIN
        } else {
            a - b
        }
    } else {
        if a > i32::MAX + b {
            i32::MAX
        } else {
            a - b
        }
    }
}

// Output stuff
impl Neuron {
    /// Checks if the neuron wants to fire (see `NeuronModel::wants_to_fire`).
    pub fn ready_to_fire(&self) -> (b: bool)
        requires
            self@.delta_t > 5 ==> sums_fit(self@.memory) && sum_of(self@.memory) != i32::MIN,
        ensures
            b == self@.wants_to_fire(),
    {
        if self.delta_t <= 5 {
            return false;
        }
        let potential: i32 = total(&self.input_memory);
        abs_i32(potential) >= self.threshold
    }

    /// Checks if the neuron should be killed: never while it has an input or is an
    /// output; otherwise once its unhappiness reaches `MAX_HAPPY_VALUE` or it has not
    /// fired for `INACTIVITY_DEATH_TIME` ticks.
    pub fn check_to_kill(&self, has_input: bool) -> (b: bool)
        ensures
            b == (!has_input && !self@.is_output && (self@.happyness >= MAX_HAPPY_VALUE
                || self@.delta_t >= INACTIVITY_DEATH_TIME)),
    {
        if has_input {
            return false;
        }
        if self.is_output {
            return false;
        }
        if self.happyness >= MAX_HAPPY_VALUE {
            return true;
        }
        if self.delta_t >= INACTIVITY_DEATH_TIME {
            return true;
        }
        false
    }

    /// Whether one of the axons feeding the neuron is among `input_ids`.
    pub fn has_input(&self, input_ids: &HashSet<u128>) -> (b: bool)
        ensures
            b == (exists|k: int|
                0 <= k < self@.input_axons.len() && input_ids@.contains(
                    #[trigger] self@.input_axons[k],
                )),
    {
        let mut k: usize = 0;
        while k < self.input_axons.len()
            invariant
                k <= self.input_axons@.len(),
                forall|j: int| 0 <= j < k ==> !input_ids@.contains(#[trigger] self@.input_axons[j]),
            decreases self.input_axons.len() - k,
        {
            if input_ids.contains(&self.input_axons[k]) {
                assert(input_ids@.contains(self@.input_axons[k as int]));
                return true;
            }
            k = k + 1;
        }
        false
    }

    /// How the neuron is drawn: outputs as outputs, a neuron that fired within the
    /// last ten ticks as active, the rest as idle.
    pub fn style(&self) -> (s: NeuronStyle)
        ensures
            s == (if self@.is_output {
                NeuronStyle::Output
            } else if self@.delta_t <= 10 {
                NeuronStyle::Active
            } else {
                NeuronStyle::Idle
            }),
    {
        if self.is_output {
            return NeuronStyle::Output;
        }
        if self.delta_t <= 10 {
            NeuronStyle::Active
        } else {
            NeuronStyle::Idle
        }
    }
}

// Connections and signals
impl Neuron {
    /// How unhappy the neuron is.
    pub fn get_happyness(&self) -> (h: u32)
        ensures
            h == self@.happyness,
    {
        self.happyness
    }

    /// How long since the neuron last fired.
    pub fn get_delta_t(&self) -> (t: u32)
        ensures
            t == self@.delta_t,
    {
        self.delta_t
    }

    /// The threshold the neuron returns to at rest.
    pub fn base_threshold(&self) -> (t: i32)
        ensures
            t == self@.base_threshold,
    {
        self.base_threshold
    }

    /// The potential the neuron needs to fire.
    pub fn threshold(&self) -> (t: i32)
        ensures
            t == self@.threshold,
    {
        self.threshold
    }

    /// The remembered totals, newest first.
    pub fn memory(&self) -> (m: Vec<i32>)
        ensures
            m@ == self@.memory,
    {
        self.input_memory.clone()
    }

    /// The clock at which the neuron last fired.
    pub fn last_fired(&self) -> (t: u128)
        ensures
            t == self@.last_fired,
    {
        self.tick_last_fired
    }

    /// The average interval between its firings.
    pub fn avg_t(&self) -> (t: u32)
        ensures
            t == self@.avg_t,
    {
        self.avg_t
    }

    /// Whether the neuron has room for `k` more ticks of a brain at clock `clock` with
    /// signals at most `cap` in magnitude (see `NeuronModel::has_room`).
    pub fn has_room(&self, clock: u128, k: u32, cap: u32) -> (b: bool)
        requires
            cap <= INPUT_CAP,
        ensures
            b == self@.has_room(clock as int, k as int, cap as int),
    {
        if self.tick_last_fired > clock {
            return false;
        }
        let span = clock - self.tick_last_fired;
        if self.delta_t as u128 > span {
            return false;
        }
        if self.avg_t > TIME_SPAN_LIMIT {
            return false;
        }
        if self.base_threshold < 0 || self.base_threshold > BASE_LIMIT {
            return false;
        }
        if self.threshold < 0 || self.threshold > BASE_LIMIT + 30 {
            return false;
        }
        if !is_calm(&self.input_memory) {
            return false;
        }
        let total = match calm_total(&self.inputs) {
            Some(t) => t,
            None => {
                return false;
            },
        };
        if span > TIME_SPAN_LIMIT as u128 || span + k as u128 > TIME_SPAN_LIMIT as u128 {
            return false;
        }
        let end_span: u128 = span + k as u128;
        let longest: u128 = if self.avg_t as u128 > end_span {
            self.avg_t as u128
        } else {
            end_span
        };
        let growth: u128 = 3 * (longest / ONE_STANDARD_DEV_THRESHOLD as u128);
        proof {
            assert(growth == self@.growth_until(clock + k));
            assert(0 <= k * growth <= 0x1_0000_0000 * 0x1000_0000) by (nonlinear_arith)
                requires
                    0 <= k <= 0x1_0000_0000,
                    0 <= growth <= 0x1000_0000,
            ;
        }
        if self.happyness as u128 + k as u128 * growth > i32::MAX as u128 {
            return false;
        }
        let len = self.input_axons.len();
        proof {
            let kk = k as int;
            let ll = len as int;
            let cc = cap as int;
            assert(kk * ll * cc <= 0x1_0000_0000 * 0x1_0000_0000_0000_0000 * 0x2000_0000) by (nonlinear_arith)
                requires
                    0 <= kk <= 0x1_0000_0000,
                    0 <= ll <= 0x1_0000_0000_0000_0000,
                    0 <= cc <= 0x2000_0000,
            ;
            assert(0 <= kk * ll <= 0x1_0000_0000 * 0x1_0000_0000_0000_0000) by (nonlinear_arith)
                requires
                    0 <= kk <= 0x1_0000_0000,
                    0 <= ll <= 0x1_0000_0000_0000_0000,
            ;
            assert(0 <= kk * ll * cc) by (nonlinear_arith)
                requires
                    0 <= kk * ll,
                    0 <= cc,
            ;
        }
        let spread = k as u128 * len as u128 * cap as u128;
        total as u128 + spread <= INPUT_CAP as u128
    }

    /// Whether the neuron is an output of the brain.
    pub fn is_output_neuron(&self) -> (b: bool)
        ensures
            b == self@.is_output,
    {
        self.is_output
    }

    /// Whether any axon leaves the neuron.
    pub fn has_output_axons(&self) -> (b: bool)
        ensures
            b == (self@.output_axons.len() > 0),
    {
        self.output_axons.len() > 0
    }

    /// The ids of the axons leaving the neuron.
    pub fn output_axon_ids(&self) -> (ids: Vec<u128>)
        ensures
            ids@ == self@.output_axons,
    {
        self.output_axons.clone()
    }

    /// The ids of the axons reaching the neuron.
    pub fn input_axon_ids(&self) -> (ids: Vec<u128>)
        ensures
            ids@ == self@.input_axons,
    {
        self.input_axons.clone()
    }

    /// Receives a signal for this tick.
    pub fn push_input(&mut self, strength: i32)
        ensures
            final(self)@ == (NeuronModel { inputs: old(self)@.inputs.push(strength), ..old(self)@ }),
    {
        self.inputs.push(strength);
    }

    /// Records a new axon leaving the neuron.
    pub fn link_output_axon(&mut self, id: u128)
        ensures
            final(self)@ == (NeuronModel {
                output_axons: old(self)@.output_axons.push(id),
                ..old(self)@
            }),
    {
        self.output_axons.push(id);
    }

    /// Records a new axon reaching the neuron.
    pub fn link_input_axon(&mut self, id: u128)
        ensures
            final(self)@ == (NeuronModel {
                input_axons: old(self)@.input_axons.push(id),
                ..old(self)@
            }),
    {
        self.input_axons.push(id);
    }

    /// Forgets the axon `id` among those leaving the neuron.
    pub fn unlink_output_axon(&mut self, id: u128)
        ensures
            final(self)@ == (NeuronModel {
                output_axons: drop_id(old(self)@.output_axons, id),
                ..old(self)@
            }),
    {
        self.output_axons = without(&self.output_axons, id);
    }

    /// Forgets the axon `id` among those reaching the neuron.
    pub fn unlink_input_axon(&mut self, id: u128)
        ensures
            final(self)@ == (NeuronModel {
                input_axons: drop_id(old(self)@.input_axons, id),
                ..old(self)@
            }),
    {
        self.input_axons = without(&self.input_axons, id);
    }
}

/// The ids of `s` other than `id`, in order.
pub open spec fn drop_id(s: Seq<u128>, id: u128) -> Seq<u128>
    decreases s.len(),
{
    if s.len() == 0 {
        s
    } else {
        let rest = drop_id(s.drop_last(), id);
        if s.last() != id {
            rest.push(s.last())
        } else {
            rest
        }
    }
}

/// An id is kept exactly when it was there and is not `id`.
pub proof fn lemma_drop_id_contains(s: Seq<u128>, id: u128, a: u128)
    ensures
        drop_id(s, id).contains(a) <==> (s.contains(a) && a != id),
    decreases s.len(),
{
    if s.len() > 0 {
        let t = s.drop_last();
        lemma_drop_id_contains(t, id, a);
        let r = drop_id(t, id);
        if s.contains(a) && a != id {
            if a == s.last() {
                assert(r.push(s.last())[r.len() as int] == a);
            } else {
                let i = choose|i: int| 0 <= i < s.len() && s[i] == a;
                assert(t[i] == a);
                assert(t.contains(a));
                let j = choose|j: int| 0 <= j < r.len() && r[j] == a;
                if s.last() != id {
                    assert(r.push(s.last())[j] == a);
                }
            }
        }
        if drop_id(s, id).contains(a) {
            let d = drop_id(s, id);
            let j = choose|j: int| 0 <= j < d.len() && d[j] == a;
            if s.last() != id && j == r.len() {
                assert(s[s.len() - 1] == a);
            } else {
                assert(r[j] == a);
                assert(r.contains(a));
                let i = choose|i: int| 0 <= i < t.len() && t[i] == a;
                assert(s[i] == a);
            }
        }
    }
}

/// Dropping an id from a list without repeats leaves a list without repeats.
pub proof fn lemma_drop_id_distinct(s: Seq<u128>, id: u128)
    requires
        s.no_duplicates(),
    ensures
        drop_id(s, id).no_duplicates(),
    decreases s.len(),
{
    if s.len() > 0 {
        let t = s.drop_last();
        assert(t.no_duplicates());
        lemma_drop_id_distinct(t, id);
        let r = drop_id(t, id);
        if s.last() != id {
            assert(!t.contains(s.last())) by {
                if t.contains(s.last()) {
                    let i = choose|i: int| 0 <= i < t.len() && t[i] == s.last();
                    assert(s[i] == s[s.len() - 1]);
                }
            }
            lemma_drop_id_contains(t, id, s.last());
            let fs = r.push(s.last());
            assert forall|i: int, j: int| 0 <= i < fs.len() && 0 <= j < fs.len() && i != j implies fs[i]
                != fs[j] by {
                if i < r.len() && j < r.len() {
                } else if i < r.len() {
                    assert(r.contains(fs[i]));
                } else {
                    assert(r.contains(fs[j]));
                }
            }
        }
    }
}

/// The ids other than `id`, in order (`retain(|&x| x != id)`).
fn without(ids: &Vec<u128>, id: u128) -> (r: Vec<u128>)
    ensures
        r@ == drop_id(ids@, id),
{
    let mut r: Vec<u128> = Vec::new();
    let mut i: usize = 0;
    while i < ids.len()
        invariant
            i <= ids@.len(),
            r@ == drop_id(ids@.take(i as int), id),
        decreases ids.len() - i,
    {
        proof {
            assert(ids@.take(i + 1).drop_last() =~= ids@.take(i as int));
        }
        if ids[i] != id {
            r.push(ids[i]);
        }
        i = i + 1;
    }
    assert(ids@.take(ids@.len() as int) =~= ids@);
    r
}

// Mutate thresholds
impl Neuron {
    /// Updates the threshold based on frequency and happiness, along with factoring in
    /// a cooldown period (see `NeuronModel::after_threshold_rules`).
    pub fn update_threshold(&mut self)
        requires
            old(self)@.rules_in_range(),
        ensures
            final(self)@ == old(self)@.after_threshold_rules(),
    {
        proof {
            old(self)@.lemma_threshold_rules_in_range();
        }
        if self.ready_to_fire() {
            let potential: i32 = total(&self.input_memory);
            let extreme_fire: bool = abs_i32(potential) > 100;
            let u = (self.delta_t as i32) - (self.avg_t as i32);
            let w = u / ONE_STANDARD_DEV_THRESHOLD;
            proof {
                assert(w == self@.deviation());
            }
            if abs_i32(w) <= 1 {
                self.happyness = self.happyness.saturating_sub(4);
            } else if abs_i32(w) > 4 {
                if (w < 0 && self.base_threshold >= 70) || extreme_fire {
                    self.happyness += abs_i32(w) as u32;
                } else if w < 0 || extreme_fire {
                    self.raise_base_threshold();
                }
                if w > 0 && self.base_threshold <= 30 {
                    self.happyness += abs_i32(w) as u32;
                } else if w > 0 {
                    self.drop_base_threshold();
                }
            }
        } else {
            self.post_fire_threshold();
        }
    }

    /// Sets the threshold from how long ago the neuron fired (see
    /// `NeuronModel::post_fire_level`).
    fn post_fire_threshold(&mut self)
        requires
            old(self)@.thresholds_in_range(),
        ensures
            final(self)@ == old(self)@.after_post_fire(),
    {
        if self.delta_t >= 15 {
            self.set_threshold_to_normal();
        }
        if self.delta_t >= 5 {
            self.set_threshold_to_increment();
        }
        if self.delta_t < 5 {
            self.set_threshold_to_recovery();
        }
    }

    /// Back to the base threshold.
    fn set_threshold_to_normal(&mut self)
        ensures
            final(self)@ == (NeuronModel { threshold: old(self)@.base_threshold, ..old(self)@ }),
    {
        self.threshold = self.base_threshold;
    }

    /// Lowers the threshold by `3 * delta_t - 15`, not below 0.
    fn set_threshold_to_increment(&mut self)
        requires
            old(self)@.threshold - (3 * old(self)@.delta_t - 15) >= i32::MIN,
            5 <= old(self)@.delta_t <= TIME_SPAN_LIMIT,
        ensures
            final(self)@ == (NeuronModel {
                threshold: if old(self)@.threshold - (3 * old(self)@.delta_t - 15) > 0 {
                    old(self)@.threshold - (3 * old(self)@.delta_t - 15)
                } else {
                    0
                },
                ..old(self)@
            }),
    {
        let lowered = self.threshold - (3 * self.delta_t as i32 - 15);
        self.threshold = if lowered > 0 {
            lowered
        } else {
            0
        };
    }

    /// The base threshold plus a recovery of 30.
    fn set_threshold_to_recovery(&mut self)
        requires
            old(self)@.base_threshold + 30 <= i32::MAX,
        ensures
            final(self)@ == (NeuronModel { threshold: old(self)@.base_threshold + 30, ..old(self)@ }),
    {
        self.threshold = self.base_threshold + 30;
    }

    /// Lowers the base threshold by the deviation (see `NeuronModel::after_drop`).
    fn drop_base_threshold(&mut self)
        requires
            old(self)@.thresholds_in_range(),
        ensures
            final(self)@ == old(self)@.after_drop(),
    {
        let u = (self.delta_t as i32) - (self.avg_t as i32);
        let w = u / ONE_STANDARD_DEV_THRESHOLD;
        let w = abs_i32(w);
        self.base_threshold = saturating_sub_i32(self.base_threshold, w);
        if self.base_threshold < MIN_THRESHOLD {
            self.base_threshold = MIN_THRESHOLD;
        }
        self.post_fire_threshold();
    }

    /// Raises the base threshold by the deviation (see `NeuronModel::after_raise`).
    fn raise_base_threshold(&mut self)
        requires
            old(self)@.thresholds_in_range(),
        ensures
            final(self)@ == old(self)@.after_raise(),
    {
        let u = (self.delta_t as i32) - (self.avg_t as i32);
        let w = u / ONE_STANDARD_DEV_THRESHOLD;
        let w = abs_i32(w);
        self.base_threshold += w;
        if self.base_threshold > MAX_THRESHOLD {
            self.base_threshold = MAX_THRESHOLD;
        }
        self.post_fire_threshold();
    }
}

} // verus!
