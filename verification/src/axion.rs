use vstd::prelude::*;

use crate::chance::{random_i32, random_u32};
use crate::consts::{INPUT_CAP, TIME_SPAN_LIMIT};
use crate::neuron::{abs_int, sub_floor};

verus! {

/// A connection carrying signals from a source neuron to a sink neuron, or from the
/// outside world (an input) to a sink neuron.
#[derive(Clone, Debug, PartialEq)]
pub struct Axion {
    /// Personal id.
    pub id: u128,
    /// Id of the signal activator.
    pub id_source: u32,
    /// Id of the signal recipient.
    pub id_sink: u32,
    is_input: bool,
    /// How strong the fire is.
    pub strength: i32,
    reliable: u32,
    happyness: u32,
    pub delta_t: u32,
    avg_t: u32,
}

/// How an axon is drawn.
#[derive(Clone, Copy, Debug, PartialEq, Eq)]
pub enum AxonStyle {
    /// An input from the outside world.
    Input,
    /// Positive strength.
    Excitatory,
    /// Negative strength.
    Inhibitory,
    /// Zero strength, about to be removed.
    Neutral,
}

/// What an axon is, as values.
pub struct AxionModel {
    pub id: int,
    pub id_source: int,
    pub id_sink: int,
    pub is_input: bool,
    pub strength: int,
    pub reliable: int,
    pub happyness: int,
    pub delta_t: int,
    pub avg_t: int,
}

/// `x` negated when the draw `d` is negative, `x` itself otherwise.
pub open spec fn turned(x: int, d: int) -> int {
    if d < 0 {
        -x
    } else {
        x
    }
}

/// A strength kept within -100 to 100.
pub open spec fn clamped(strength: int) -> int {
    if strength < -100 {
        -100
    } else if strength > 100 {
        100
    } else {
        strength
    }
}

/// A strength moved by `step`, then negated or not, and kept within -100 to 100.
pub open spec fn mutated(strength: int, step: int, negate: bool) -> int {
    clamped(
        if negate {
            -(strength + step)
        } else {
            strength + step
        },
    )
}

impl AxionModel {
    /// The reliability rules after a firing `dt` ticks after the previous one: an
    /// interval within 25 ticks of the average makes the axon more reliable by 5 (up
    /// to 100), one off by `k` blocks of 25 ticks less reliable by `k - 1` (never below
    /// 0); the average interval moves a third of the way toward this one.
    pub open spec fn after_interval(self, dt: int) -> AxionModel {
        let weight = abs_int(self.avg_t - dt) / 25;
        AxionModel {
            delta_t: dt,
            reliable: if weight == 0 {
                if self.reliable + 5 > 100 {
                    100
                } else {
                    self.reliable + 5
                }
            } else {
                sub_floor(self.reliable, weight - 1)
            },
            avg_t: (2 * self.avg_t + dt) / 3,
            ..self
        }
    }

    /// The strength after draws `sign_draw` (in `[-happyness, 150)`), `direction_draw`
    /// (in `[-25, reliable]`) and `step_draw` (in `[0, 20)`): the step, turned by the
    /// sign of the direction draw, is added, and the result turned by the sign of the
    /// sign draw, then kept within -100 to 100.
    pub open spec fn strength_after(self, sign_draw: int, direction_draw: int, step_draw: int) -> int {
        clamped(turned(self.strength + turned(step_draw, direction_draw), sign_draw))
    }

    /// Draws a mutation can make on this axon: a sign draw in `[-happyness, 150)`, a
    /// direction draw from -25 up to its reliability (below it when that is positive),
    /// and a step in `[0, 20)`.
    pub open spec fn draws_in_range(self, sign_draw: int, direction_draw: int, step_draw: int) -> bool {
        &&& -self.happyness <= sign_draw < 150
        &&& -25 <= direction_draw <= self.reliable
        &&& self.reliable > 0 ==> direction_draw < self.reliable
        &&& 0 <= step_draw < 20
    }

    /// The strength may change to `s` when the axon fires: by a step below 20 in
    /// either direction, then possibly negated, which needs some unhappiness, then
    /// kept within -100 to 100.
    pub open spec fn may_mutate_to(self, s: int) -> bool {
        exists|step: int, negate: bool|
            -20 < step < 20 && (negate ==> self.happyness > 0) && s == #[trigger] mutated(
                self.strength,
                step,
                negate,
            )
    }

    /// The axon can fire `k` more times without overflow, whatever its strength: an
    /// input always can; any other axon needs a happiness that fits an `i32`, an average
    /// interval within `TIME_SPAN_LIMIT`, and room for its reliability to grow by 5 a
    /// firing.
    pub open spec fn fires_within(self, k: int) -> bool {
        self.is_input || {
            &&& 0 <= self.happyness <= i32::MAX
            &&& 0 <= self.avg_t <= TIME_SPAN_LIMIT
            &&& 0 <= self.reliable
            &&& self.reliable + 5 * k <= i32::MAX - 5
        }
    }

    /// The bound on signals that `k` more firings need: the magnitude of its strength
    /// plus 20 a firing (0 for an input, which does not fire in a tick).
    pub open spec fn room_needed(self, k: int) -> int {
        if self.is_input {
            0
        } else {
            abs_int(self.strength) + 20 * k
        }
    }

    /// The ranges in which firing with an interval of `dt` runs without overflow.
    pub open spec fn can_fire(self, dt: int) -> bool {
        self.is_input || {
            &&& 0 <= self.happyness <= i32::MAX
            &&& 0 <= self.reliable <= i32::MAX - 5
            &&& i32::MIN + 20 < self.strength < i32::MAX - 20
            &&& 0 <= dt <= TIME_SPAN_LIMIT
            &&& 0 <= self.avg_t <= TIME_SPAN_LIMIT
        }
    }
}

/// Firing keeps an axon within its ranges: a mutated strength lies within -100 to 100,
/// and a reliability of at most 100 stays at most 100.
pub proof fn lemma_fire_keeps_ranges(x: AxionModel, s: int, dt: int)
    requires
        x.reliable <= 100,
        x.may_mutate_to(s),
    ensures
        -100 <= s <= 100,
        (AxionModel { strength: s, ..x }).after_interval(dt).reliable <= 100,
{
}

/// A mutation negates the strength only on a negative sign draw: with a sign draw of
/// 0 or more the strength moves by less than 20 and keeps within -100 to 100; with a
/// negative one it comes out as the moved strength negated (kept within -100 to 100).
pub proof fn lemma_sign_flips_only_on_negative_draw(x: AxionModel, m: int, p: int, st: int)
    requires
        -100 <= x.strength <= 100,
        0 <= st < 20,
    ensures
        m >= 0 ==> -20 < x.strength_after(m, p, st) - x.strength < 20,
        m >= 0 ==> (x.strength_after(m, p, st) > 0 ==> x.strength > -20) && (x.strength_after(m, p, st) < 0
            ==> x.strength < 20),
        m < 0 ==> x.strength_after(m, p, st) == clamped(-(x.strength + if p < 0 { -st } else { st })),
{
}

/// A perfectly happy axon (happiness 0) never has its strength negated: every sign
/// draw open to it is 0 or more, so the strength only moves by less than 20.
pub proof fn lemma_happy_axon_keeps_its_sign(x: AxionModel, m: int, p: int, st: int)
    requires
        x.happyness == 0,
        -100 <= x.strength <= 100,
        x.draws_in_range(m, p, st),
    ensures
        -20 < x.strength_after(m, p, st) - x.strength < 20,
{
}

impl View for Axion {
    type V = AxionModel;

    closed spec fn view(&self) -> AxionModel {
        AxionModel {
            id: self.id as int,
            id_source: self.id_source as int,
            id_sink: self.id_sink as int,
            is_input: self.is_input,
            strength: self.strength as int,
            reliable: self.reliable as int,
            happyness: self.happyness as int,
            delta_t: self.delta_t as int,
            avg_t: self.avg_t as int,
        }
    }
}

impl Axion {
    /// The ends of an axon are neuron ids, within `u32`.
    pub proof fn lemma_ends_in_range(self)
        ensures
            0 <= self@.id_source <= u32::MAX,
            0 <= self@.id_sink <= u32::MAX,
    {
    }
}

// General
impl Axion {
    /// A new axon from `id_source` to `id_sink` with a random strength in `[-100, 100)`,
    /// reliability in `[0, 50)` and happiness in `[0, 75)`; an average interval of 1.
    pub fn new(id_source: u32, id_sink: u32, id: u128, is_input: bool) -> (a: Self)
        ensures
            a@.id == id,
            a@.id_source == id_source,
            a@.id_sink == id_sink,
            a@.is_input == is_input,
            -100 <= a@.strength < 100,
            0 <= a@.reliable < 50,
            0 <= a@.happyness < 75,
            a@.delta_t == 0,
            a@.avg_t == 1,
    {
        Axion {
            id,
            id_source,
            id_sink,
            is_input,
            strength: random_i32(-100, 100),
            reliable: random_u32(0, 50),
            happyness: random_u32(0, 75),
            delta_t: 0,
            avg_t: 1,
        }
    }

    /// Takes on the happiness of its sink neuron.
    pub fn update_happyness(&mut self, happyness: u32)
        ensures
            final(self)@ == (AxionModel { happyness: happyness as int, ..old(self)@ }),
    {
        self.happyness = happyness;
    }

    /// Fires the axon, `delta_t` ticks after its source last fired, and returns where
    /// the signal goes and how strong it is. An input passes its strength on unchanged;
    /// any other axon first mutates its strength (see `AxionModel::may_mutate_to`),
    /// then updates its reliability (see `AxionModel::after_interval`). Strength stays
    /// within -100 to 100, and reliability grows no further than 100.
    pub fn fire(&mut self, delta_t: u32) -> (r: (u32, i32))
        requires
            old(self)@.can_fire(delta_t as int),
        ensures
            r.0 == old(self)@.id_sink,
            r.1 == final(self)@.strength,
            old(self)@.is_input ==> *final(self) == *old(self),
            !old(self)@.is_input ==> old(self)@.may_mutate_to(final(self)@.strength)
                && final(self)@ == (AxionModel { strength: final(self)@.strength, ..old(self)@ }).after_interval(delta_t as int),
            !old(self)@.is_input ==> -100 <= final(self)@.strength <= 100,
            !old(self)@.is_input ==> exists|m: int, p: int, st: int|
                old(self)@.draws_in_range(m, p, st) && final(self)@.strength == #[trigger] old(self)@.strength_after(
                    m,
                    p,
                    st,
                ),
            old(self)@.reliable <= 100 ==> final(self)@.reliable <= 100,
    {
        if self.is_input {
            return (self.id_sink, self.strength);
        }
        self.mutate_strength();
        self.math(delta_t);
        (self.id_sink, self.strength)
    }

    /// Whether the axon carries an input from the outside world.
    pub fn is_input(&self) -> (b: bool)
        ensures
            b == self@.is_input,
    {
        self.is_input
    }

    /// The neuron the axon leaves.
    pub fn get_source(&self) -> (id: u32)
        ensures
            id == self@.id_source,
    {
        self.id_source
    }

    /// The neuron the axon reaches.
    pub fn get_sink(&self) -> (id: u32)
        ensures
            id == self@.id_sink,
    {
        self.id_sink
    }

    /// The bound on signals that `k` more firings need (see `AxionModel::room_needed`),
    /// when the axon can fire that often and the bound is within `INPUT_CAP`.
    pub fn room_needed(&self, k: u32) -> (r: Option<u32>)
        ensures
            match r {
                Some(c) => c == self@.room_needed(k as int) && self@.fires_within(k as int)
                    && c <= INPUT_CAP,
                None => !(self@.fires_within(k as int) && self@.room_needed(k as int)
                    <= INPUT_CAP),
            },
    {
        if self.is_input {
            return Some(0);
        }
        if self.happyness > i32::MAX as u32 || self.avg_t > TIME_SPAN_LIMIT {
            return None;
        }
        if self.reliable as u64 + 5 * k as u64 > (i32::MAX - 5) as u64 {
            return None;
        }
        let size: u64 = if self.strength < 0 {
            (-(self.strength as i64)) as u64
        } else {
            self.strength as u64
        };
        let need: u64 = size + 20 * k as u64;
        if need > INPUT_CAP as u64 {
            return None;
        }
        Some(need as u32)
    }

    /// How predictable its firing is; bigger is better.
    pub fn reliability(&self) -> (r: u32)
        ensures
            r == self@.reliable,
    {
        self.reliable
    }

    /// How happy the neuron it reaches is; 0 is happiest.
    pub fn happyness(&self) -> (h: u32)
        ensures
            h == self@.happyness,
    {
        self.happyness
    }

    /// The average interval between its firings.
    pub fn avg_t(&self) -> (t: u32)
        ensures
            t == self@.avg_t,
    {
        self.avg_t
    }

    /// The reliability rules after a firing `delta_t` ticks after the previous one
    /// (see `AxionModel::after_interval`).
    fn math(&mut self, delta_t: u32)
        requires
            0 <= old(self)@.reliable <= i32::MAX - 5,
            0 <= delta_t <= TIME_SPAN_LIMIT,
            0 <= old(self)@.avg_t <= TIME_SPAN_LIMIT,
        ensures
            final(self)@ == old(self)@.after_interval(delta_t as int),
    {
        self.delta_t = delta_t;
        let t = self.delta_t as i32;
        let w = self.avg_t as i32;
        let delta = if w - t < 0 {
            t - w
        } else {
            w - t
        };
        let weight = (delta / 25) as u32;
        if weight == 0 {
            self.reliable = if self.reliable + 5 > 100 {
                100
            } else {
                self.reliable + 5
            };
        } else {
            let weight = weight - 1;
            self.reliable = self.reliable.saturating_sub(weight);
        }
        self.avg_t = (self.avg_t + self.avg_t + self.delta_t) / 3;
    }

    /// What is drawn for the axon: its ends (0 for the source of an input) and style.
    pub fn get_to_draw(&self) -> (r: (u32, u32, AxonStyle))
        ensures
            r.1 == self@.id_sink,
            self@.is_input ==> r.0 == 0 && r.2 == AxonStyle::Input,
            !self@.is_input ==> r.0 == self@.id_source && r.2 == (if self@.strength > 0 {
                AxonStyle::Excitatory
            } else if self@.strength < 0 {
                AxonStyle::Inhibitory
            } else {
                AxonStyle::Neutral
            }),
    {
        if self.is_input {
            return (0, self.id_sink, AxonStyle::Input);
        }
        let style = if self.strength > 0 {
            AxonStyle::Excitatory
        } else if self.strength < 0 {
            AxonStyle::Inhibitory
        } else {
            AxonStyle::Neutral
        };
        (self.id_source, self.id_sink, style)
    }
}

// Mutate
impl Axion {
    /// The strength after the three draws of a mutation (see
    /// `AxionModel::strength_after`).
    pub fn strength_after_draws(&self, sign_draw: i32, direction_draw: i32, step_draw: i32) -> (s: i32)
        requires
            0 <= step_draw < 20,
            i32::MIN + 20 < self@.strength < i32::MAX - 20,
        ensures
            s == self@.strength_after(sign_draw as int, direction_draw as int, step_draw as int),
    {
        let sign = if sign_draw == 0 {
            1
        } else if sign_draw < 0 {
            -1
        } else {
            1
        };
        let direction = if direction_draw == 0 {
            1
        } else if direction_draw < 0 {
            -1
        } else {
            1
        };
        let moved = if direction < 0 {
            self.strength - step_draw
        } else {
            self.strength + step_draw
        };
        let turned_strength = if sign < 0 {
            -moved
        } else {
            moved
        };
        if turned_strength < -100 {
            -100
        } else if turned_strength > 100 {
            100
        } else {
            turned_strength
        }
    }

    /// Changes the strength based on how happy and reliable the axon is: the lower the
    /// happiness, the less likely it changes sign; the higher the reliability, the
    /// more likely the strength grows.
    fn mutate_strength(&mut self)
        requires
            old(self)@.can_fire(0),
            !old(self)@.is_input,
        ensures
            old(self)@.may_mutate_to(final(self)@.strength),
            final(self)@ == (AxionModel { strength: final(self)@.strength, ..old(self)@ }),
            exists|m: int, p: int, st: int|
                old(self)@.draws_in_range(m, p, st) && final(self)@.strength == #[trigger] old(self)@.strength_after(
                    m,
                    p,
                    st,
                ),
    {
        let happyness = self.happyness as i32;
        let reliability = self.reliable as i32;
        let m = random_i32(-happyness, 150);
        let p = random_i32(-25, reliability);
        let step = random_i32(0, 20);
        let s = self.strength_after_draws(m, p, step);
        proof {
            let st = if p < 0 {
                -step
            } else {
                step as int
            };
            assert(st == turned(step as int, p as int));
            assert(self@.may_mutate_to(s as int)) by {
                assert(-20 < st < 20);
                assert(s == mutated(self@.strength, st, m < 0));
            }
        }
        self.strength = s;
        proof {
            assert(old(self)@.draws_in_range(m as int, p as int, step as int));
            assert(self@.strength == old(self)@.strength_after(m as int, p as int, step as int));
        }
    }
}

} // verus!
