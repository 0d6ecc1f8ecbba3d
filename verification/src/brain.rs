use std::collections::{HashMap, HashSet};
use vstd::prelude::*;

use crate::axion::{mutated, Axion, AxionModel};
use crate::chance::{random_i32, random_u32, random_usize};
use crate::consts::{
    HAPPY_STEP, INPUT_CAP, ITERATION_MULTIPLIER, MAX_HAPPY_VALUE, MAX_THRESHOLD,
    ONE_STANDARD_DEV_THRESHOLD, TIME_SPAN_LIMIT,
};
use crate::memory::{abs_total, lemma_abs_total_push, lemma_calm_memory_fits, memory_calm};
use crate::neuron::{
    abs_i32, abs_int, drop_id, fresh_neuron, lemma_drop_id_contains, lemma_drop_id_distinct,
    Neuron, NeuronModel,
};
use vstd::std_specs::iter::IteratorSpec;

verus! {

broadcast use vstd::std_specs::hash::group_hash_axioms;

/// The brain: neurons joined by axons, inputs from the outside world feeding some
/// neurons, and output neurons reporting back.
#[derive(Debug, PartialEq)]
pub struct Spirion {
    pub clock: u128,
    neurons: HashMap<u32, Neuron>,
    axons: HashMap<u128, Axion>,
    output_ids: HashSet<u32>,
    input_ids: HashSet<u128>,
    num_of_neurons: u32,
    num_of_axons: u128,
    active_neurons: HashSet<u32>,
    limiter: bool,
    displayed: bool,
}

/// What a brain is, as values.
pub struct SpirionModel {
    pub clock: int,
    pub neurons: Map<u32, Neuron>,
    pub axons: Map<u128, Axion>,
    pub output_ids: Set<u32>,
    pub input_ids: Set<u128>,
    pub num_of_neurons: int,
    pub num_of_axons: int,
    pub active: Set<u32>,
    pub limiter: bool,
    pub displayed: bool,
}

impl View for Spirion {
    type V = SpirionModel;

    closed spec fn view(&self) -> SpirionModel {
        SpirionModel {
            clock: self.clock as int,
            neurons: self.neurons@,
            axons: self.axons@,
            output_ids: self.output_ids@,
            input_ids: self.input_ids@,
            num_of_neurons: self.num_of_neurons as int,
            num_of_axons: self.num_of_axons as int,
            active: self.active_neurons@,
            limiter: self.limiter,
            displayed: self.displayed,
        }
    }
}

impl SpirionModel {
    /// The axons leaving neuron `id`.
    pub open spec fn out_of(self, id: u32) -> Seq<u128> {
        self.neurons[id]@.output_axons
    }

    /// The axons reaching neuron `id`.
    pub open spec fn in_of(self, id: u32) -> Seq<u128> {
        self.neurons[id]@.input_axons
    }

    /// The connection graph is consistent: every axon a neuron lists exists and has
    /// that neuron at the right end; every axon is listed by the neuron it reaches and
    /// (unless it is an input) by the neuron it leaves, each list without repeats;
    /// inputs have no source neuron (neuron ids start at 1).
    pub open spec fn graph_consistent(self) -> bool {
        &&& forall|n: u32| #[trigger] self.neurons.contains_key(n) ==> n > 0
        &&& forall|a: u128| #[trigger] self.axons.contains_key(a) ==> self.axons[a]@.id == a
        &&& forall|n: u32, a: u128|
            self.neurons.contains_key(n) && #[trigger] self.out_of(n).contains(a) ==> {
                &&& self.axons.contains_key(a)
                &&& self.axons[a]@.id_source == n
                &&& !self.axons[a]@.is_input
            }
        &&& forall|n: u32, a: u128|
            self.neurons.contains_key(n) && #[trigger] self.in_of(n).contains(a) ==> {
                &&& self.axons.contains_key(a)
                &&& self.axons[a]@.id_sink == n
            }
        &&& forall|n: u32|
            #[trigger] self.neurons.contains_key(n) ==> self.out_of(n).no_duplicates()
                && self.in_of(n).no_duplicates()
        &&& forall|a: u128|
            #[trigger] self.axons.contains_key(a) ==> {
                let x = self.axons[a]@;
                &&& self.neurons.contains_key(x.id_sink as u32)
                &&& self.in_of(x.id_sink as u32).contains(a)
                &&& !x.is_input ==> self.neurons.contains_key(x.id_source as u32) && self.out_of(
                    x.id_source as u32,
                ).contains(a)
            }
    }

    /// The brain is well formed: a consistent graph; input axons keep an average
    /// interval of at least 1; a neuron is an output exactly when it is registered as
    /// one, and every registered output is a neuron; the registered inputs are exactly
    /// the input axons; the neuron count is right.
    pub open spec fn wf(self) -> bool {
        &&& self.graph_consistent()
        &&& forall|a: u128|
            #[trigger] self.axons.contains_key(a) && self.axons[a]@.is_input
                ==> self.axons[a]@.avg_t >= 1
        &&& forall|n: u32|
            #[trigger] self.neurons.contains_key(n) ==> (self.neurons[n]@.is_output
                <==> self.output_ids.contains(n))
        &&& forall|n: u32| #[trigger] self.output_ids.contains(n) ==> self.neurons.contains_key(n)
        &&& forall|a: u128| #[trigger]
            self.input_ids.contains(a) ==> self.axons.contains_key(a) && self.axons[a]@.is_input
        &&& forall|a: u128| #[trigger]
            self.axons.contains_key(a) && self.axons[a]@.is_input ==> self.input_ids.contains(a)
        &&& self.num_of_neurons == self.neurons.dom().len()
        &&& self.neurons.dom().finite()
        &&& self.axons.dom().finite()
    }
}

/// Mechanics
impl Spirion {
    /// An empty brain at clock 0, with the speed limiter on and nothing to display.
    fn new() -> (b: Self)
        ensures
            b@.wf(),
            b@.clock == 0,
            b@.neurons == Map::<u32, Neuron>::empty(),
            b@.axons == Map::<u128, Axion>::empty(),
            b@.output_ids == Set::<u32>::empty(),
            b@.input_ids == Set::<u128>::empty(),
            b@.active == Set::<u32>::empty(),
            b@.num_of_neurons == 0,
            b@.num_of_axons == 0,
            b@.limiter,
            !b@.displayed,
    {
        Spirion {
            clock: 0,
            neurons: HashMap::new(),
            axons: HashMap::new(),
            output_ids: HashSet::new(),
            input_ids: HashSet::new(),
            num_of_neurons: 0,
            num_of_axons: 0,
            active_neurons: HashSet::new(),
            limiter: true,
            displayed: false,
        }
    }

    /// A fresh id for a neuron: one more than the largest in use.
    fn next_neuron_id(&self) -> (id: u32)
        requires
            forall|n: u32| #[trigger] self@.neurons.contains_key(n) ==> n < u32::MAX,
        ensures
            forall|n: u32| #[trigger] self@.neurons.contains_key(n) ==> n < id,
            id == 1 || self@.neurons.contains_key((id - 1) as u32),
    {
        let ids = neuron_ids_of(&self.neurons);
        proof {
            assert forall|i: int| 0 <= i < ids@.len() implies ids@[i] < u32::MAX by {
                assert(ids@.to_set().contains(ids@[i]));
                assert(self@.neurons.contains_key(ids@[i]));
            }
        }
        let id = next_u32_id(&ids);
        proof {
            assert forall|n: u32| #[trigger] self@.neurons.contains_key(n) implies n < id by {
                assert(ids@.to_set().contains(n));
                let i = choose|i: int| 0 <= i < ids@.len() && ids@[i] == n;
            }
            if id != 1 {
                assert(ids@.to_set().contains((id - 1) as u32));
            }
        }
        id
    }

    /// A fresh id for an axon: one more than the largest in use.
    fn next_axon_id(&self) -> (id: u128)
        requires
            forall|a: u128| #[trigger] self@.axons.contains_key(a) ==> a < u128::MAX,
        ensures
            forall|a: u128| #[trigger] self@.axons.contains_key(a) ==> a < id,
            id == 1 || self@.axons.contains_key((id - 1) as u128),
    {
        let ids = axon_ids_of(&self.axons);
        proof {
            assert forall|i: int| 0 <= i < ids@.len() implies ids@[i] < u128::MAX by {
                assert(ids@.to_set().contains(ids@[i]));
                assert(self@.axons.contains_key(ids@[i]));
            }
        }
        let id = next_u128_id(&ids);
        proof {
            assert forall|a: u128| #[trigger] self@.axons.contains_key(a) implies a < id by {
                assert(ids@.to_set().contains(a));
                let i = choose|i: int| 0 <= i < ids@.len() && ids@[i] == a;
            }
            if id != 1 {
                assert(ids@.to_set().contains((id - 1) as u128));
            }
        }
        id
    }

    /// Adds a new neuron (an output when `is_output`) under a fresh id.
    fn insert_neuron(&mut self, is_output: bool) -> (id: u32)
        requires
            old(self)@.wf(),
            old(self)@.num_of_neurons < u32::MAX,
            forall|n: u32| #[trigger] old(self)@.neurons.contains_key(n) ==> n < u32::MAX,
        ensures
            final(self)@.wf(),
            id > 0,
            !old(self)@.neurons.contains_key(id),
            forall|n: u32| #[trigger] old(self)@.neurons.contains_key(n) ==> n < id,
            id == 1 || old(self)@.neurons.contains_key((id - 1) as u32),
            final(self)@.neurons[id]@ == fresh_neuron(is_output),
            final(self)@ == (SpirionModel {
                neurons: old(self)@.neurons.insert(id, final(self)@.neurons[id]),
                num_of_neurons: old(self)@.num_of_neurons + 1,
                output_ids: if is_output {
                    old(self)@.output_ids.insert(id)
                } else {
                    old(self)@.output_ids
                },
                ..old(self)@
            }),
    {
        let id = self.next_neuron_id();
        self.num_of_neurons += 1;
        let n = Neuron::new(is_output);
        self.neurons.insert(id, n);
        if is_output {
            self.output_ids.insert(id);
        }
        proof {
            let o = old(self)@;
            let f = self@;
            assert(!o.neurons.contains_key(id));
            assert(!o.output_ids.contains(id));
            assert(f.neurons.dom() =~= o.neurons.dom().insert(id));
            assert forall|m: u32, a: u128|
                f.neurons.contains_key(m) && #[trigger] f.out_of(m).contains(a) implies {
                &&& f.axons.contains_key(a)
                &&& f.axons[a]@.id_source == m
                &&& !f.axons[a]@.is_input
            } by {
                if m == id {
                    assert(f.out_of(m) =~= Seq::<u128>::empty());
                } else {
                    assert(o.out_of(m).contains(a));
                }
            }
            assert forall|m: u32, a: u128|
                f.neurons.contains_key(m) && #[trigger] f.in_of(m).contains(a) implies {
                &&& f.axons.contains_key(a)
                &&& f.axons[a]@.id_sink == m
            } by {
                if m == id {
                    assert(f.in_of(m) =~= Seq::<u128>::empty());
                } else {
                    assert(o.in_of(m).contains(a));
                }
            }
            assert forall|a: u128| #[trigger] f.axons.contains_key(a) implies {
                let x = f.axons[a]@;
                &&& f.neurons.contains_key(x.id_sink as u32)
                &&& f.in_of(x.id_sink as u32).contains(a)
                &&& !x.is_input ==> f.neurons.contains_key(x.id_source as u32) && f.out_of(
                    x.id_source as u32,
                ).contains(a)
            } by {
                assert(o.axons.contains_key(a));
                let x = o.axons[a]@;
                assert(o.neurons.contains_key(x.id_sink as u32));
                assert(f.neurons[x.id_sink as u32] == o.neurons[x.id_sink as u32]);
                if !x.is_input {
                    assert(o.neurons.contains_key(x.id_source as u32));
                    assert(f.neurons[x.id_source as u32] == o.neurons[x.id_source as u32]);
                }
            }
        }
        id
    }

    /// Adds a new neuron under a fresh id.
    fn add_neuron(&mut self) -> (id: u32)
        requires
            old(self)@.wf(),
            old(self)@.num_of_neurons < u32::MAX,
            forall|n: u32| #[trigger] old(self)@.neurons.contains_key(n) ==> n < u32::MAX,
        ensures
            final(self)@.wf(),
            !old(self)@.neurons.contains_key(id),
            forall|n: u32| #[trigger] old(self)@.neurons.contains_key(n) ==> n < id,
            id == 1 || old(self)@.neurons.contains_key((id - 1) as u32),
            final(self)@.neurons[id]@ == fresh_neuron(false),
            final(self)@ == (SpirionModel {
                neurons: old(self)@.neurons.insert(id, final(self)@.neurons[id]),
                num_of_neurons: old(self)@.num_of_neurons + 1,
                ..old(self)@
            }),
    {
        self.insert_neuron(false)
    }

    /// Adds a new output neuron under a fresh id.
    fn add_output(&mut self) -> (id: u32)
        requires
            old(self)@.wf(),
            old(self)@.num_of_neurons < u32::MAX,
            forall|n: u32| #[trigger] old(self)@.neurons.contains_key(n) ==> n < u32::MAX,
        ensures
            final(self)@.wf(),
            !old(self)@.neurons.contains_key(id),
            forall|n: u32| #[trigger] old(self)@.neurons.contains_key(n) ==> n < id,
            id == 1 || old(self)@.neurons.contains_key((id - 1) as u32),
            final(self)@.neurons[id]@ == fresh_neuron(true),
            final(self)@ == (SpirionModel {
                neurons: old(self)@.neurons.insert(id, final(self)@.neurons[id]),
                num_of_neurons: old(self)@.num_of_neurons + 1,
                output_ids: old(self)@.output_ids.insert(id),
                ..old(self)@
            }),
    {
        self.insert_neuron(true)
    }
}

/// The neuron model with `id` appended to its outgoing axons when it is `source`, and
/// to its incoming axons when it is `sink`.
pub open spec fn with_link(m: NeuronModel, n: u32, source: int, sink: int, id: u128) -> NeuronModel {
    NeuronModel {
        output_axons: if n == source {
            m.output_axons.push(id)
        } else {
            m.output_axons
        },
        input_axons: if n == sink {
            m.input_axons.push(id)
        } else {
            m.input_axons
        },
        ..m
    }
}

/// The neuron model with `id` taken out of its outgoing axons when it is `source`, and
/// out of its incoming axons when it is `sink`.
pub open spec fn without_link(m: NeuronModel, n: u32, source: int, sink: int, id: u128) -> NeuronModel {
    NeuronModel {
        output_axons: if n == source {
            drop_id(m.output_axons, id)
        } else {
            m.output_axons
        },
        input_axons: if n == sink {
            drop_id(m.input_axons, id)
        } else {
            m.input_axons
        },
        ..m
    }
}

/// Wiring
impl Spirion {
    /// Creates an axon under a fresh id (an input with no source neuron when
    /// `is_input`) and records it with its end neurons.
    fn connect(&mut self, source_id: u32, sink_id: u32, is_input: bool) -> (id: u128)
        requires
            old(self)@.wf(),
            old(self)@.num_of_axons < u128::MAX,
            forall|a: u128| #[trigger] old(self)@.axons.contains_key(a) ==> a < u128::MAX,
            old(self)@.neurons.contains_key(sink_id),
            is_input ==> source_id == 0,
            !is_input ==> old(self)@.neurons.contains_key(source_id),
        ensures
            final(self)@.wf(),
            !old(self)@.axons.contains_key(id),
            forall|a: u128| #[trigger] old(self)@.axons.contains_key(a) ==> a < id,
            id == 1 || old(self)@.axons.contains_key((id - 1) as u128),
            final(self)@.axons == old(self)@.axons.insert(id, final(self)@.axons[id]),
            final(self)@.axons[id]@.id == id,
            final(self)@.axons[id]@.id_source == source_id,
            final(self)@.axons[id]@.id_sink == sink_id,
            final(self)@.axons[id]@.is_input == is_input,
            -100 <= final(self)@.axons[id]@.strength < 100,
            0 <= final(self)@.axons[id]@.reliable < 50,
            0 <= final(self)@.axons[id]@.happyness < 75,
            final(self)@.axons[id]@.delta_t == 0,
            final(self)@.axons[id]@.avg_t == 1,
            final(self)@.neurons.dom() == old(self)@.neurons.dom(),
            forall|n: u32| #[trigger]
                old(self)@.neurons.contains_key(n) ==> final(self)@.neurons[n]@ == with_link(
                    old(self)@.neurons[n]@,
                    n,
                    if is_input { -1 } else { source_id as int },
                    sink_id as int,
                    id,
                ),
            final(self)@ == (SpirionModel {
                neurons: final(self)@.neurons,
                axons: final(self)@.axons,
                num_of_axons: old(self)@.num_of_axons + 1,
                input_ids: if is_input {
                    old(self)@.input_ids.insert(id)
                } else {
                    old(self)@.input_ids
                },
                ..old(self)@
            }),
    {
        let id = self.next_axon_id();
        self.num_of_axons += 1;
        let axon = Axion::new(source_id, sink_id, id, is_input);
        self.axons.insert(id, axon);
        let ghost mid = self@;
        if !is_input {
            if let Some(mut source) = self.neurons.remove(&source_id) {
                source.link_output_axon(id);
                self.neurons.insert(source_id, source);
            }
        }
        let ghost mid2 = self@;
        if let Some(mut sink) = self.neurons.remove(&sink_id) {
            sink.link_input_axon(id);
            self.neurons.insert(sink_id, sink);
        }
        if is_input {
            self.input_ids.insert(id);
        }
        proof {
            let o = old(self)@;
            let f = self@;
            let src: int = if is_input { -1 } else { source_id as int };
            assert(!o.axons.contains_key(id));
            assert(f.neurons.dom() =~= o.neurons.dom());
            assert forall|n: u32| #[trigger] o.neurons.contains_key(n) implies f.neurons[n]@ == with_link(
                o.neurons[n]@,
                n,
                src,
                sink_id as int,
                id,
            ) by {
                assert(mid.neurons == o.neurons);
            }
            assert forall|m: u32, a: u128|
                f.neurons.contains_key(m) && #[trigger] f.out_of(m).contains(a) implies {
                &&& f.axons.contains_key(a)
                &&& f.axons[a]@.id_source == m
                &&& !f.axons[a]@.is_input
            } by {
                if !(m == src && a == id) {
                    assert(o.out_of(m).contains(a));
                }
            }
            assert forall|m: u32, a: u128|
                f.neurons.contains_key(m) && #[trigger] f.in_of(m).contains(a) implies {
                &&& f.axons.contains_key(a)
                &&& f.axons[a]@.id_sink == m
            } by {
                if !(m == sink_id && a == id) {
                    assert(o.in_of(m).contains(a));
                }
            }
            assert forall|m: u32| #[trigger] f.neurons.contains_key(m) implies f.out_of(m).no_duplicates()
                && f.in_of(m).no_duplicates() by {
                if o.out_of(m).contains(id) {
                    assert(o.axons.contains_key(id));
                }
                if o.in_of(m).contains(id) {
                    assert(o.axons.contains_key(id));
                }
            }
            assert forall|a: u128| #[trigger] f.axons.contains_key(a) implies {
                let x = f.axons[a]@;
                &&& f.neurons.contains_key(x.id_sink as u32)
                &&& f.in_of(x.id_sink as u32).contains(a)
                &&& !x.is_input ==> f.neurons.contains_key(x.id_source as u32) && f.out_of(
                    x.id_source as u32,
                ).contains(a)
            } by {
                if a == id {
                    assert(f.in_of(sink_id).last() == id);
                    if !is_input {
                        assert(f.out_of(source_id).last() == id);
                    }
                } else {
                    assert(o.axons.contains_key(a));
                    let x = o.axons[a]@;
                    let t = x.id_sink as u32;
                    assert(o.in_of(t).contains(a));
                    assert(o.neurons.contains_key(t));
                    let i = choose|i: int| 0 <= i < o.in_of(t).len() && o.in_of(t)[i] == a;
                    assert(f.in_of(t)[i] == a);
                    if !x.is_input {
                        let u = x.id_source as u32;
                        assert(o.out_of(u).contains(a));
                        assert(o.neurons.contains_key(u));
                        let j = choose|j: int| 0 <= j < o.out_of(u).len() && o.out_of(u)[j] == a;
                        assert(f.out_of(u)[j] == a);
                    }
                }
            }
            assert(f.graph_consistent());
            assert(forall|a: u128|
                #[trigger] f.axons.contains_key(a) && f.axons[a]@.is_input
                    ==> f.axons[a]@.avg_t >= 1);
            assert(forall|n: u32|
                #[trigger] f.neurons.contains_key(n) ==> (f.neurons[n]@.is_output
                    <==> f.output_ids.contains(n)));
            assert(forall|n: u32| #[trigger] f.output_ids.contains(n) ==> f.neurons.contains_key(n));
            assert(f.num_of_neurons == f.neurons.dom().len());
        }
        id
    }

    /// Adds an axon from neuron `source_id` to neuron `sink_id` under a fresh id.
    fn add_axon(&mut self, source_id: u32, sink_id: u32) -> (id: u128)
        requires
            old(self)@.wf(),
            old(self)@.num_of_axons < u128::MAX,
            forall|a: u128| #[trigger] old(self)@.axons.contains_key(a) ==> a < u128::MAX,
            old(self)@.neurons.contains_key(sink_id),
            old(self)@.neurons.contains_key(source_id),
        ensures
            final(self)@.wf(),
            !old(self)@.axons.contains_key(id),
            forall|a: u128| #[trigger] old(self)@.axons.contains_key(a) ==> a < id,
            id == 1 || old(self)@.axons.contains_key((id - 1) as u128),
            final(self)@.axons == old(self)@.axons.insert(id, final(self)@.axons[id]),
            final(self)@.axons[id]@.id == id,
            final(self)@.axons[id]@.id_source == source_id,
            final(self)@.axons[id]@.id_sink == sink_id,
            !final(self)@.axons[id]@.is_input,
            -100 <= final(self)@.axons[id]@.strength < 100,
            0 <= final(self)@.axons[id]@.reliable < 50,
            0 <= final(self)@.axons[id]@.happyness < 75,
            final(self)@.axons[id]@.delta_t == 0,
            final(self)@.axons[id]@.avg_t == 1,
            final(self)@.neurons.dom() == old(self)@.neurons.dom(),
            forall|n: u32| #[trigger]
                old(self)@.neurons.contains_key(n) ==> final(self)@.neurons[n]@ == with_link(
                    old(self)@.neurons[n]@,
                    n,
                    source_id as int,
                    sink_id as int,
                    id,
                ),
            final(self)@ == (SpirionModel {
                neurons: final(self)@.neurons,
                axons: final(self)@.axons,
                num_of_axons: old(self)@.num_of_axons + 1,
                ..old(self)@
            }),
    {
        self.connect(source_id, sink_id, false)
    }

    /// Adds an input reaching neuron `sink_id` under a fresh id, and registers it.
    fn add_input(&mut self, sink_id: u32) -> (id: u128)
        requires
            old(self)@.wf(),
            old(self)@.num_of_axons < u128::MAX,
            forall|a: u128| #[trigger] old(self)@.axons.contains_key(a) ==> a < u128::MAX,
            old(self)@.neurons.contains_key(sink_id),
        ensures
            final(self)@.wf(),
            !old(self)@.axons.contains_key(id),
            forall|a: u128| #[trigger] old(self)@.axons.contains_key(a) ==> a < id,
            id == 1 || old(self)@.axons.contains_key((id - 1) as u128),
            final(self)@.axons == old(self)@.axons.insert(id, final(self)@.axons[id]),
            final(self)@.axons[id]@.id == id,
            final(self)@.axons[id]@.id_source == 0,
            final(self)@.axons[id]@.id_sink == sink_id,
            final(self)@.axons[id]@.is_input,
            -100 <= final(self)@.axons[id]@.strength < 100,
            0 <= final(self)@.axons[id]@.reliable < 50,
            0 <= final(self)@.axons[id]@.happyness < 75,
            final(self)@.axons[id]@.delta_t == 0,
            final(self)@.axons[id]@.avg_t == 1,
            final(self)@.neurons.dom() == old(self)@.neurons.dom(),
            forall|n: u32| #[trigger]
                old(self)@.neurons.contains_key(n) ==> final(self)@.neurons[n]@ == with_link(
                    old(self)@.neurons[n]@,
                    n,
                    -1,
                    sink_id as int,
                    id,
                ),
            final(self)@ == (SpirionModel {
                neurons: final(self)@.neurons,
                axons: final(self)@.axons,
                num_of_axons: old(self)@.num_of_axons + 1,
                input_ids: old(self)@.input_ids.insert(id),
                ..old(self)@
            }),
    {
        self.connect(0, sink_id, true)
    }
}

/// Pruning
impl Spirion {
    /// Removes axon `axon_id`, if present, and forgets it at both its ends.
    fn remove_axon(&mut self, axon_id: u128)
        requires
            old(self)@.wf(),
            !old(self)@.input_ids.contains(axon_id),
        ensures
            final(self)@.wf(),
            pruned_from(final(self)@, old(self)@),
            final(self)@.axons == old(self)@.axons.remove(axon_id),
            final(self)@.neurons.dom() == old(self)@.neurons.dom(),
            !old(self)@.axons.contains_key(axon_id) ==> final(self)@ == old(self)@,
            old(self)@.axons.contains_key(axon_id) ==> {
                let x = old(self)@.axons[axon_id]@;
                &&& forall|n: u32| #[trigger]
                    old(self)@.neurons.contains_key(n) ==> final(self)@.neurons[n]@
                        == without_link(
                        old(self)@.neurons[n]@,
                        n,
                        if x.is_input { -1 } else { x.id_source },
                        x.id_sink,
                        axon_id,
                    )
                &&& final(self)@ == (SpirionModel {
                    neurons: final(self)@.neurons,
                    axons: final(self)@.axons,
                    num_of_axons: if old(self)@.num_of_axons > 0 {
                        old(self)@.num_of_axons - 1
                    } else {
                        0
                    },
                    ..old(self)@
                })
            },
    {
        if let Some(axon) = self.axons.remove(&axon_id) {
            self.num_of_axons = self.num_of_axons.saturating_sub(1);
            let is_input = axon.is_input();
            let source_id = axon.get_source();
            let sink_id = axon.get_sink();
            let ghost mid = self@;
            if !is_input {
                if let Some(mut source) = self.neurons.remove(&source_id) {
                    source.unlink_output_axon(axon_id);
                    self.neurons.insert(source_id, source);
                }
            }
            let ghost mid2 = self@;
            if let Some(mut sink) = self.neurons.remove(&sink_id) {
                sink.unlink_input_axon(axon_id);
                self.neurons.insert(sink_id, sink);
            }
            proof {
                let o = old(self)@;
                let f = self@;
                let x = o.axons[axon_id]@;
                let src: int = if x.is_input { -1 } else { x.id_source };
                assert(mid.neurons == o.neurons);
                assert(f.neurons.dom() =~= o.neurons.dom());
                assert forall|n: u32| #[trigger] o.neurons.contains_key(n) implies f.neurons[n]@
                    == without_link(o.neurons[n]@, n, src, x.id_sink, axon_id) by {
                    assert(mid2.neurons.contains_key(n));
                    if n == src {
                        assert(mid2.neurons[n]@ == NeuronModel {
                            output_axons: drop_id(o.neurons[n]@.output_axons, axon_id),
                            ..o.neurons[n]@
                        });
                    } else {
                        assert(mid2.neurons[n] == o.neurons[n]);
                    }
                    if n == x.id_sink {
                        assert(o.neurons.contains_key(sink_id));
                        assert(f.neurons[n]@ == NeuronModel {
                            input_axons: drop_id(mid2.neurons[n]@.input_axons, axon_id),
                            ..mid2.neurons[n]@
                        });
                    } else {
                        assert(f.neurons[n] == mid2.neurons[n]);
                    }
                }
                assert forall|m: u32, a: u128|
                    f.neurons.contains_key(m) && #[trigger] f.out_of(m).contains(a) implies {
                    &&& f.axons.contains_key(a)
                    &&& f.axons[a]@.id_source == m
                    &&& !f.axons[a]@.is_input
                } by {
                    lemma_drop_id_contains(o.out_of(m), axon_id, a);
                    assert(o.out_of(m).contains(a));
                    if m == src {
                        assert(a != axon_id);
                    } else if a == axon_id {
                        assert(o.axons[axon_id]@.id_source == m);
                    }
                }
                assert forall|m: u32, a: u128|
                    f.neurons.contains_key(m) && #[trigger] f.in_of(m).contains(a) implies {
                    &&& f.axons.contains_key(a)
                    &&& f.axons[a]@.id_sink == m
                } by {
                    lemma_drop_id_contains(o.in_of(m), axon_id, a);
                    assert(o.in_of(m).contains(a));
                }
                assert forall|a: u128| #[trigger] f.axons.contains_key(a) implies {
                    let y = f.axons[a]@;
                    &&& f.neurons.contains_key(y.id_sink as u32)
                    &&& f.in_of(y.id_sink as u32).contains(a)
                    &&& !y.is_input ==> f.neurons.contains_key(y.id_source as u32) && f.out_of(
                        y.id_source as u32,
                    ).contains(a)
                } by {
                    let y = o.axons[a]@;
                    let t = y.id_sink as u32;
                    assert(o.axons.contains_key(a));
                    assert(o.in_of(t).contains(a));
                    assert(o.neurons.contains_key(t));
                    lemma_drop_id_contains(o.in_of(t), axon_id, a);
                    if !y.is_input {
                        let u = y.id_source as u32;
                        assert(o.out_of(u).contains(a));
                        assert(o.neurons.contains_key(u));
                        lemma_drop_id_contains(o.out_of(u), axon_id, a);
                    }
                }
                assert forall|m: u32| #[trigger] f.neurons.contains_key(m) implies f.out_of(m).no_duplicates()
                    && f.in_of(m).no_duplicates() by {
                    lemma_drop_id_distinct(o.out_of(m), axon_id);
                    lemma_drop_id_distinct(o.in_of(m), axon_id);
                }
            }
        } else {
            proof {
                assert(self@.axons =~= old(self)@.axons.remove(axon_id));
                assert(self@.axons =~= old(self)@.axons);
            }
        }
    }
}

/// The axon `x` leaves or reaches neuron `n`.
pub open spec fn touches(x: AxionModel, n: u32) -> bool {
    x.id_sink == n || (!x.is_input && x.id_source == n)
}

/// `after` is `before` with some axons removed, every neuron keeping all but its lists
/// of axons.
pub open spec fn pruned_from(after: SpirionModel, before: SpirionModel) -> bool {
    &&& forall|a: u128| #[trigger]
        after.axons.contains_key(a) ==> before.axons.contains_key(a) && after.axons[a]
            == before.axons[a]
    &&& forall|n: u32| #[trigger]
        after.neurons.contains_key(n) ==> before.neurons.contains_key(n) && after.neurons[n]@
            == (NeuronModel {
            output_axons: after.out_of(n),
            input_axons: after.in_of(n),
            ..before.neurons[n]@
        })
    &&& after.clock == before.clock
    &&& after.output_ids == before.output_ids
    &&& after.input_ids == before.input_ids
    &&& after.active == before.active
    &&& after.limiter == before.limiter
    &&& after.displayed == before.displayed
    &&& after.num_of_axons <= before.num_of_axons
}

impl Spirion {
    /// Removes neuron `neuron_id`, if present, with every axon leaving or reaching it.
    fn remove_neuron(&mut self, neuron_id: u32)
        requires
            old(self)@.wf(),
            old(self)@.neurons.contains_key(neuron_id) ==> !old(self)@.neurons[neuron_id]@.is_output
                && !has_registered_input(old(self)@, neuron_id),
        ensures
            final(self)@.wf(),
            pruned_from(final(self)@, old(self)@),
            final(self)@.neurons.dom() == old(self)@.neurons.dom().remove(neuron_id),
            forall|a: u128| #[trigger]
                final(self)@.axons.contains_key(a) <==> (old(self)@.axons.contains_key(a)
                    && !touches(old(self)@.axons[a]@, neuron_id)),
            final(self)@.num_of_neurons == old(self)@.neurons.dom().remove(neuron_id).len(),
            !old(self)@.neurons.contains_key(neuron_id) ==> final(self)@ == old(self)@,
            old(self)@.neurons.contains_key(neuron_id) ==> forall|n: u32| #[trigger]
                final(self)@.neurons.contains_key(n) ==> {
                    let gone = (old(self)@.in_of(neuron_id) + old(self)@.out_of(neuron_id)).to_set();
                    &&& final(self)@.out_of(n) == drop_ids(old(self)@.out_of(n), gone)
                    &&& final(self)@.in_of(n) == drop_ids(old(self)@.in_of(n), gone)
                },
    {
        let ghost o = self@;
        if let Some(neuron) = self.neurons.get(&neuron_id) {
            let ins = neuron.input_axon_ids();
            let outs = neuron.output_axon_ids();
            let ghost all = ins@ + outs@;
            proof {
                assert(all.take(0).to_set() =~= Set::<u128>::empty());
                assert forall|n: u32| #[trigger] self@.neurons.contains_key(n) implies self@.out_of(n) == drop_ids(
                    o.out_of(n),
                    all.take(0).to_set(),
                ) && self@.in_of(n) == drop_ids(o.in_of(n), all.take(0).to_set()) by {
                    lemma_drop_ids_none(o.out_of(n));
                    lemma_drop_ids_none(o.in_of(n));
                }
            }
            let mut i: usize = 0;
            while i < ins.len()
                invariant
                    i <= ins@.len(),
                    self@.wf(),
                    o.wf(),
                    o.neurons.contains_key(neuron_id),
                    !o.neurons[neuron_id]@.is_output,
                    !has_registered_input(o, neuron_id),
                    ins@ == o.in_of(neuron_id),
                    outs@ == o.out_of(neuron_id),
                    all == ins@ + outs@,
                    pruned_from(self@, o),
                    self@.neurons.dom() == o.neurons.dom(),
                    forall|a: u128| #[trigger]
                        self@.axons.contains_key(a) <==> (o.axons.contains_key(a)
                            && !all.take(i as int).contains(a)),
                    forall|n: u32| #[trigger]
                        self@.neurons.contains_key(n) ==> self@.out_of(n) == drop_ids(
                            o.out_of(n),
                            all.take(i as int).to_set(),
                        ) && self@.in_of(n) == drop_ids(o.in_of(n), all.take(i as int).to_set()),
                decreases ins.len() - i,
            {
                let ghost before = self@;
                proof {
                    if self@.input_ids.contains(ins@[i as int]) {
                        assert(o.input_ids.contains(o.in_of(neuron_id)[i as int]));
                    }
                }
                self.remove_axon(ins[i]);
                proof {
                    lemma_prune_step(self@, before, o, all, i as int);
                    lemma_drop_round(self@, before, o, all, i as int);
                }
                i = i + 1;
            }
            let mut j: usize = 0;
            while j < outs.len()
                invariant
                    j <= outs@.len(),
                    self@.wf(),
                    o.wf(),
                    o.neurons.contains_key(neuron_id),
                    !o.neurons[neuron_id]@.is_output,
                    !has_registered_input(o, neuron_id),
                    ins@ == o.in_of(neuron_id),
                    outs@ == o.out_of(neuron_id),
                    all == ins@ + outs@,
                    pruned_from(self@, o),
                    self@.neurons.dom() == o.neurons.dom(),
                    forall|a: u128| #[trigger]
                        self@.axons.contains_key(a) <==> (o.axons.contains_key(a)
                            && !all.take(ins@.len() + j).contains(a)),
                    forall|n: u32| #[trigger]
                        self@.neurons.contains_key(n) ==> self@.out_of(n) == drop_ids(
                            o.out_of(n),
                            all.take(ins@.len() + j).to_set(),
                        ) && self@.in_of(n) == drop_ids(o.in_of(n), all.take(ins@.len() + j).to_set()),
                decreases outs.len() - j,
            {
                let ghost before = self@;
                proof {
                    let a = outs@[j as int];
                    if self@.input_ids.contains(a) {
                        assert(o.out_of(neuron_id).contains(a));
                        assert(o.input_ids.contains(a));
                    }
                }
                self.remove_axon(outs[j]);
                proof {
                    assert(all[ins@.len() + j] == outs@[j as int]);
                    lemma_prune_step(self@, before, o, all, ins@.len() + j);
                    lemma_drop_round(self@, before, o, all, ins@.len() + j);
                }
                j = j + 1;
            }
            let ghost before = self@;
            proof {
                assert(all.take(all.len() as int) =~= all);
                lemma_prune_finish(before, o, neuron_id, ins@, outs@);
            }
            self.neurons.remove(&neuron_id);
            self.num_of_neurons = self.num_of_neurons.saturating_sub(1);
            proof {
                lemma_prune_drop_neuron(self@, before, o, neuron_id);
            }
        } else {
            proof {
                assert(self@ == o);
                assert(o.neurons.dom().remove(neuron_id) =~= o.neurons.dom());
            }
        }
    }
}

/// The list `s` without the ids in `gone`, the others kept in order.
pub open spec fn drop_ids(s: Seq<u128>, gone: Set<u128>) -> Seq<u128>
    decreases s.len(),
{
    if s.len() == 0 {
        s
    } else {
        let rest = drop_ids(s.drop_last(), gone);
        if !gone.contains(s.last()) {
            rest.push(s.last())
        } else {
            rest
        }
    }
}

/// Dropping an id a list does not hold leaves it as it is.
proof fn lemma_drop_absent(s: Seq<u128>, x: u128)
    requires
        !s.contains(x),
    ensures
        drop_id(s, x) == s,
    decreases s.len(),
{
    if s.len() > 0 {
        let t = s.drop_last();
        assert(!t.contains(x)) by {
            if t.contains(x) {
                let i = choose|i: int| 0 <= i < t.len() && t[i] == x;
                assert(s[i] == x);
            }
        }
        lemma_drop_absent(t, x);
        assert(s.last() != x);
        assert(t.push(s.last()) =~= s);
    }
}

/// Dropping no ids leaves a list as it is.
proof fn lemma_drop_ids_none(s: Seq<u128>)
    ensures
        drop_ids(s, Set::empty()) == s,
    decreases s.len(),
{
    if s.len() > 0 {
        lemma_drop_ids_none(s.drop_last());
        assert(s.drop_last().push(s.last()) =~= s);
    }
}

/// Dropping one more id, after some, drops them all at once.
proof fn lemma_drop_ids_insert(s: Seq<u128>, g: Set<u128>, x: u128)
    ensures
        drop_ids(s, g.insert(x)) == drop_id(drop_ids(s, g), x),
    decreases s.len(),
{
    if s.len() > 0 {
        let t = s.drop_last();
        let l = s.last();
        lemma_drop_ids_insert(t, g, x);
        let d = drop_ids(t, g);
        assert(d.push(l).drop_last() =~= d);
        assert(d.push(l).last() == l);
    }
}

/// An axon removed the way `remove_axon` removes it drops out of every list of a
/// well-formed brain, which keeps every other id in order.
proof fn lemma_removal_drops(after: SpirionModel, before: SpirionModel, x: u128)
    requires
        before.wf(),
        after.neurons.dom() == before.neurons.dom(),
        !before.axons.contains_key(x) ==> after == before,
        before.axons.contains_key(x) ==> forall|n: u32| #[trigger]
            before.neurons.contains_key(n) ==> after.neurons[n]@ == without_link(
                before.neurons[n]@,
                n,
                if before.axons[x]@.is_input { -1 } else { before.axons[x]@.id_source },
                before.axons[x]@.id_sink,
                x,
            ),
    ensures
        forall|n: u32| #[trigger]
            after.neurons.contains_key(n) ==> after.out_of(n) == drop_id(before.out_of(n), x)
                && after.in_of(n) == drop_id(before.in_of(n), x),
{
    assert forall|n: u32| #[trigger] after.neurons.contains_key(n) implies after.out_of(n) == drop_id(
        before.out_of(n),
        x,
    ) && after.in_of(n) == drop_id(before.in_of(n), x) by {
        assert(before.neurons.contains_key(n));
        if before.axons.contains_key(x) {
            let v = before.axons[x]@;
            if !(!v.is_input && v.id_source == n) {
                assert(!before.out_of(n).contains(x));
                lemma_drop_absent(before.out_of(n), x);
            }
            if v.id_sink != n {
                assert(!before.in_of(n).contains(x));
                lemma_drop_absent(before.in_of(n), x);
            }
        } else {
            assert(!before.out_of(n).contains(x));
            assert(!before.in_of(n).contains(x));
            lemma_drop_absent(before.out_of(n), x);
            lemma_drop_absent(before.in_of(n), x);
        }
    }
}

/// Removing the next axon of the list `all`, the way `remove_axon` does, keeps every
/// list of every neuron the list of `o` without the axons removed so far.
proof fn lemma_drop_round(after: SpirionModel, before: SpirionModel, o: SpirionModel, all: Seq<u128>, i: int)
    requires
        0 <= i < all.len(),
        before.wf(),
        after.neurons.dom() == before.neurons.dom(),
        !before.axons.contains_key(all[i]) ==> after == before,
        before.axons.contains_key(all[i]) ==> forall|n: u32| #[trigger]
            before.neurons.contains_key(n) ==> after.neurons[n]@ == without_link(
                before.neurons[n]@,
                n,
                if before.axons[all[i]]@.is_input { -1 } else { before.axons[all[i]]@.id_source },
                before.axons[all[i]]@.id_sink,
                all[i],
            ),
        forall|n: u32| #[trigger]
            before.neurons.contains_key(n) ==> before.out_of(n) == drop_ids(o.out_of(n), all.take(i).to_set())
                && before.in_of(n) == drop_ids(o.in_of(n), all.take(i).to_set()),
    ensures
        forall|n: u32| #[trigger]
            after.neurons.contains_key(n) ==> after.out_of(n) == drop_ids(o.out_of(n), all.take(i + 1).to_set())
                && after.in_of(n) == drop_ids(o.in_of(n), all.take(i + 1).to_set()),
{
    lemma_removal_drops(after, before, all[i]);
    assert(all.take(i + 1).to_set() =~= all.take(i).to_set().insert(all[i])) by {
        assert forall|a: u128| all.take(i + 1).to_set().contains(a) implies all.take(i).to_set().insert(all[i]).contains(a) by {
            let k = choose|k: int| 0 <= k < i + 1 && #[trigger] all.take(i + 1)[k] == a;
            if k < i {
                assert(all.take(i)[k] == a);
            }
        }
        assert forall|a: u128| all.take(i).to_set().insert(all[i]).contains(a) implies all.take(i + 1).to_set().contains(a) by {
            if a == all[i] {
                assert(all.take(i + 1)[i] == a);
            } else {
                let k = choose|k: int| 0 <= k < i && #[trigger] all.take(i)[k] == a;
                assert(all.take(i + 1)[k] == a);
            }
        }
    }
    assert forall|n: u32| #[trigger] after.neurons.contains_key(n) implies after.out_of(n) == drop_ids(o.out_of(n), all.take(i + 1).to_set())
        && after.in_of(n) == drop_ids(o.in_of(n), all.take(i + 1).to_set()) by {
        assert(before.neurons.contains_key(n));
        lemma_drop_ids_insert(o.out_of(n), all.take(i).to_set(), all[i]);
        lemma_drop_ids_insert(o.in_of(n), all.take(i).to_set(), all[i]);
    }
}

/// Removing the next axon of the list `all` keeps the brain pruned from `o`, with the
/// axons removed being the first `i + 1` of the list.
proof fn lemma_prune_step(after: SpirionModel, before: SpirionModel, o: SpirionModel, all: Seq<u128>, i: int)
    requires
        0 <= i < all.len(),
        0 <= before.num_of_axons,
        pruned_from(before, o),
        forall|a: u128| #[trigger]
            before.axons.contains_key(a) <==> (o.axons.contains_key(a) && !all.take(i).contains(a)),
        after.axons == before.axons.remove(all[i]),
        after.neurons.dom() == before.neurons.dom(),
        !before.axons.contains_key(all[i]) ==> after == before,
        before.axons.contains_key(all[i]) ==> {
            let x = before.axons[all[i]]@;
            &&& forall|n: u32| #[trigger]
                before.neurons.contains_key(n) ==> after.neurons[n]@ == without_link(
                    before.neurons[n]@,
                    n,
                    if x.is_input { -1 } else { x.id_source },
                    x.id_sink,
                    all[i],
                )
            &&& after == (SpirionModel {
                neurons: after.neurons,
                axons: after.axons,
                num_of_axons: if before.num_of_axons > 0 {
                    before.num_of_axons - 1
                } else {
                    0
                },
                ..before
            })
        },
    ensures
        pruned_from(after, o),
        forall|a: u128| #[trigger]
            after.axons.contains_key(a) <==> (o.axons.contains_key(a) && !all.take(i + 1).contains(a)),
{
    let next = all.take(i + 1);
    let prev = all.take(i);
    assert forall|a: u128| next.contains(a) <==> (prev.contains(a) || a == all[i]) by {
        if next.contains(a) {
            let k = choose|k: int| 0 <= k < next.len() && next[k] == a;
            if k < i {
                assert(prev[k] == a);
            }
        }
        if prev.contains(a) {
            let k = choose|k: int| 0 <= k < prev.len() && prev[k] == a;
            assert(next[k] == a);
        }
        if a == all[i] {
            assert(next[i] == a);
        }
    }
    assert forall|a: u128| #[trigger] after.axons.contains_key(a) implies o.axons.contains_key(a)
        && after.axons[a] == o.axons[a] by {
        assert(before.axons.contains_key(a));
    }
    if before.axons.contains_key(all[i]) {
        let x = before.axons[all[i]]@;
        assert forall|n: u32| #[trigger] after.neurons.contains_key(n) implies o.neurons.contains_key(n)
            && after.neurons[n]@ == (NeuronModel {
            output_axons: after.out_of(n),
            input_axons: after.in_of(n),
            ..o.neurons[n]@
        }) by {
            assert(before.neurons.contains_key(n));
            assert(before.neurons[n]@ == (NeuronModel {
                output_axons: before.out_of(n),
                input_axons: before.in_of(n),
                ..o.neurons[n]@
            }));
        }
    }
    assert(after.clock == o.clock);
    assert(after.output_ids == o.output_ids);
    assert(after.input_ids == o.input_ids);
    assert(after.active == o.active);
    assert(after.num_of_axons <= o.num_of_axons);
    assert(forall|n: u32| #[trigger]
        after.neurons.contains_key(n) ==> o.neurons.contains_key(n) && after.neurons[n]@
            == (NeuronModel {
            output_axons: after.out_of(n),
            input_axons: after.in_of(n),
            ..o.neurons[n]@
        }));
}
/// Once every axon listed by neuron `id` is gone, no axon leaves or reaches it and its
/// lists are empty.
proof fn lemma_prune_finish(s: SpirionModel, o: SpirionModel, id: u32, ins: Seq<u128>, outs: Seq<u128>)
    requires
        s.wf(),
        o.wf(),
        o.neurons.contains_key(id),
        s.neurons.dom() == o.neurons.dom(),
        ins == o.in_of(id),
        outs == o.out_of(id),
        pruned_from(s, o),
        forall|a: u128| #[trigger]
            s.axons.contains_key(a) <==> (o.axons.contains_key(a) && !(ins + outs).contains(a)),
    ensures
        forall|a: u128| #[trigger] s.axons.contains_key(a) ==> !touches(s.axons[a]@, id),
        forall|a: u128| #[trigger]
            s.axons.contains_key(a) <==> (o.axons.contains_key(a) && !touches(o.axons[a]@, id)),
        s.out_of(id).len() == 0,
        s.in_of(id).len() == 0,
{
    assert forall|a: u128| o.axons.contains_key(a) implies (#[trigger] (ins + outs).contains(a)
        <==> touches(o.axons[a]@, id)) by {
        let x = o.axons[a]@;
        if (ins + outs).contains(a) {
            let k = choose|k: int| 0 <= k < (ins + outs).len() && (ins + outs)[k] == a;
            if k < ins.len() {
                assert(ins[k] == a);
                assert(o.in_of(id).contains(a));
            } else {
                assert(outs[k - ins.len()] == a);
                assert(o.out_of(id).contains(a));
            }
        }
        if x.id_sink == id {
            assert(o.in_of(id).contains(a));
            let k = choose|k: int| 0 <= k < ins.len() && ins[k] == a;
            assert((ins + outs)[k] == a);
        } else if !x.is_input && x.id_source == id {
            assert(o.out_of(id).contains(a));
            let k = choose|k: int| 0 <= k < outs.len() && outs[k] == a;
            assert((ins + outs)[ins.len() + k] == a);
        }
    }
    assert forall|a: u128| #[trigger] s.axons.contains_key(a) implies !touches(s.axons[a]@, id) by {
        assert(o.axons.contains_key(a));
        assert(!(ins + outs).contains(a));
    }
    if s.out_of(id).len() > 0 {
        assert(s.out_of(id).contains(s.out_of(id)[0]));
    }
    if s.in_of(id).len() > 0 {
        assert(s.in_of(id).contains(s.in_of(id)[0]));
    }
}

/// Dropping a neuron that no axon touches keeps the brain well formed.
proof fn lemma_prune_drop_neuron(s: SpirionModel, before: SpirionModel, o: SpirionModel, id: u32)
    requires
        before.wf(),
        o.wf(),
        o.neurons.contains_key(id),
        !o.neurons[id]@.is_output,
        before.neurons.dom() == o.neurons.dom(),
        pruned_from(before, o),
        forall|a: u128| #[trigger] before.axons.contains_key(a) ==> !touches(before.axons[a]@, id),
        before.out_of(id).len() == 0,
        before.in_of(id).len() == 0,
        s == (SpirionModel {
            neurons: before.neurons.remove(id),
            num_of_neurons: if before.num_of_neurons > 0 {
                before.num_of_neurons - 1
            } else {
                0
            },
            ..before
        }),
    ensures
        s.wf(),
        pruned_from(s, o),
        s.neurons.dom() == o.neurons.dom().remove(id),
        s.num_of_neurons == o.neurons.dom().remove(id).len(),
{
    assert(s.neurons.dom() =~= o.neurons.dom().remove(id));
    assert(before.neurons.contains_key(id));
    assert forall|m: u32, a: u128|
        s.neurons.contains_key(m) && #[trigger] s.out_of(m).contains(a) implies {
        &&& s.axons.contains_key(a)
        &&& s.axons[a]@.id_source == m
        &&& !s.axons[a]@.is_input
    } by {
        assert(before.out_of(m).contains(a));
    }
    assert forall|m: u32, a: u128|
        s.neurons.contains_key(m) && #[trigger] s.in_of(m).contains(a) implies {
        &&& s.axons.contains_key(a)
        &&& s.axons[a]@.id_sink == m
    } by {
        assert(before.in_of(m).contains(a));
    }
    assert forall|a: u128| #[trigger] s.axons.contains_key(a) implies {
        let x = s.axons[a]@;
        &&& s.neurons.contains_key(x.id_sink as u32)
        &&& s.in_of(x.id_sink as u32).contains(a)
        &&& !x.is_input ==> s.neurons.contains_key(x.id_source as u32) && s.out_of(
            x.id_source as u32,
        ).contains(a)
    } by {
        assert(before.axons.contains_key(a));
        assert(!touches(before.axons[a]@, id));
    }
    assert(!before.output_ids.contains(id));
}

/// `after` is `before` with axons added from neuron `id` to other neurons, every
/// neuron keeping all but its lists of axons.
pub open spec fn grown_from(after: SpirionModel, before: SpirionModel, id: u32) -> bool {
    &&& after.neurons.dom() == before.neurons.dom()
    &&& forall|a: u128| #[trigger]
        before.axons.contains_key(a) ==> after.axons.contains_key(a) && after.axons[a]
            == before.axons[a]
    &&& forall|a: u128| #[trigger]
        after.axons.contains_key(a) && !before.axons.contains_key(a) ==> {
            let x = after.axons[a]@;
            &&& x.id_source == id
            &&& x.id_sink != id
            &&& !x.is_input
            &&& -100 <= x.strength < 100
            &&& 0 <= x.reliable < 50
            &&& 0 <= x.happyness < 75
            &&& x.delta_t == 0
            &&& x.avg_t == 1
        }
    &&& forall|n: u32| #[trigger]
        after.neurons.contains_key(n) ==> after.neurons[n]@ == (NeuronModel {
            output_axons: after.out_of(n),
            input_axons: after.in_of(n),
            ..before.neurons[n]@
        })
    &&& after.clock == before.clock
    &&& after.output_ids == before.output_ids
    &&& after.input_ids == before.input_ids
    &&& after.active == before.active
    &&& after.limiter == before.limiter
    &&& after.displayed == before.displayed
    &&& after.num_of_neurons == before.num_of_neurons
    &&& before.num_of_axons <= after.num_of_axons
}

impl Spirion {
    /// The save check of a neuron left without outputs, given the roll `roll` and the
    /// neurons `sinks` picked for its new axons (see `save_step`): if the roll saves it
    /// (see `Neuron::survives_roll`) it grows an axon to each of `sinks` in turn (a pick
    /// of itself is skipped); otherwise it dies with its axons. Outputs, and ids of no
    /// neuron, are left alone.
    pub fn save_check_step(&mut self, neuron_id: u32, roll: u32, sinks: &Vec<u32>, Ghost(key_bound): Ghost<int>)
        requires
            old(self)@.wf(),
            roll < MAX_HAPPY_VALUE / 2,
            sinks@.len() < 20,
            forall|k: int| 0 <= k < sinks@.len() ==> old(self)@.neurons.contains_key(#[trigger] sinks@[k]),
            old(self)@.neurons.contains_key(neuron_id) ==> old(self)@.neurons[neuron_id]@.happyness
                + 250 <= u32::MAX && !has_registered_input(old(self)@, neuron_id),
            old(self)@.neurons.contains_key(neuron_id) && old(self)@.neurons[neuron_id]@.happyness
                < MAX_HAPPY_VALUE / 5 ==> {
                &&& old(self)@.num_of_axons + 20 <= u128::MAX
                &&& 0 <= key_bound
                &&& key_bound + 20 <= u128::MAX
                &&& forall|a: u128| #[trigger] old(self)@.axons.contains_key(a) ==> a <= key_bound
            },
        ensures
            final(self)@.wf(),
            save_step(final(self)@, old(self)@, neuron_id, roll as int, sinks@),
            final(self)@.num_of_axons <= old(self)@.num_of_axons + 20,
            (forall|a: u128| #[trigger] old(self)@.axons.contains_key(a) ==> a <= key_bound) ==> (
            forall|a: u128| #[trigger] final(self)@.axons.contains_key(a) ==> a <= key_bound + 20),
            !old(self)@.neurons.contains_key(neuron_id) || old(self)@.neurons[neuron_id]@.is_output
                ==> final(self)@ == old(self)@,
            old(self)@.neurons.contains_key(neuron_id) && !old(self)@.neurons[neuron_id]@.is_output
                ==> {
                ||| grown_from(final(self)@, old(self)@, neuron_id)
                    && old(self)@.neurons[neuron_id]@.happyness < MAX_HAPPY_VALUE / 5
                    && final(self)@.num_of_axons <= old(self)@.num_of_axons + 20
                    && final(self)@.axons.dom().len() < old(self)@.axons.dom().len() + 20
                    && forall|n: u32| #[trigger]
                    final(self)@.neurons.contains_key(n) ==> old(self)@.out_of(n).is_prefix_of(
                        final(self)@.out_of(n),
                    ) && old(self)@.in_of(n).is_prefix_of(final(self)@.in_of(n))
                ||| pruned_from(final(self)@, old(self)@)
                    && final(self)@.neurons.dom() == old(self)@.neurons.dom().remove(neuron_id)
                    && (forall|a: u128| #[trigger]
                    final(self)@.axons.contains_key(a) <==> (old(self)@.axons.contains_key(a)
                        && !touches(old(self)@.axons[a]@, neuron_id)))
                    && forall|n: u32| #[trigger]
                    final(self)@.neurons.contains_key(n) ==> {
                        let gone = (old(self)@.in_of(neuron_id) + old(self)@.out_of(neuron_id)).to_set();
                        &&& final(self)@.out_of(n) == drop_ids(old(self)@.out_of(n), gone)
                        &&& final(self)@.in_of(n) == drop_ids(old(self)@.in_of(n), gone)
                    }
            },
    {
        let ghost o = self@;
        let neuron = match self.neurons.get(&neuron_id) {
            Some(n) => n,
            None => {
                return ;
            },
        };
        if neuron.is_output_neuron() {
            return ;
        }
        if neuron.survives_roll(roll) {
            {
                let count = sinks.len();
                let mut made: usize = 0;
                let ghost mut states: Seq<SpirionModel> = seq![o];
                while made < count
                    invariant
                        0 <= made <= count < 20,
                        count == sinks@.len(),
                        forall|k: int| 0 <= k < sinks@.len() ==> o.neurons.contains_key(#[trigger] sinks@[k]),
                        grow_chain(states, neuron_id, sinks@.take(made as int)),
                        states[0] == o,
                        states.last() == self@,
                        o.wf(),
                        self@.wf(),
                        o.neurons.contains_key(neuron_id),
                        grown_from(self@, o, neuron_id),
                        o.num_of_axons + 20 <= u128::MAX,
                        0 <= key_bound,
                        key_bound + 20 <= u128::MAX,
                        self@.num_of_axons <= o.num_of_axons + made,
                        forall|a: u128| #[trigger] self@.axons.contains_key(a) ==> a <= key_bound + made,
                        self@.axons.dom().len() <= o.axons.dom().len() + made,
                        forall|n: u32| #[trigger]
                            self@.neurons.contains_key(n) ==> o.out_of(n).is_prefix_of(self@.out_of(n))
                                && o.in_of(n).is_prefix_of(self@.in_of(n)),
                    decreases count - made,
                {
                    let sink_id = sinks[made];
                    let ghost before = self@;
                    if sink_id != neuron_id {
                        let new_id = self.add_axon(neuron_id, sink_id);
                        proof {
                            lemma_grow_step(self@, before, o, neuron_id, sink_id);
                            if new_id != 1 {
                                assert(before.axons.contains_key((new_id - 1) as u128));
                            }
                            assert(self@.axons.dom() =~= before.axons.dom().insert(new_id));
                            assert forall|n: u32| #[trigger] self@.neurons.contains_key(n) implies o.out_of(n).is_prefix_of(self@.out_of(n))
                                && o.in_of(n).is_prefix_of(self@.in_of(n)) by {
                                assert(before.neurons.contains_key(n));
                                assert(before.out_of(n).is_prefix_of(self@.out_of(n)));
                                assert(before.in_of(n).is_prefix_of(self@.in_of(n)));
                            }
                            assert(axon_added(self@, before, neuron_id, sink_id, new_id, 1));
                        }
                    }
                    proof {
                        lemma_grow_chain_step(states, self@, neuron_id, sinks@, made as int);
                        states = states.push(self@);
                    }
                    made = made + 1;
                }
                proof {
                    assert(sinks@.take(count as int) =~= sinks@);
                    assert(grow_chain(states, neuron_id, sinks@));
                }
            }
        } else {
            self.remove_neuron(neuron_id);
        }
    }

    /// A neuron left without outputs rolls a save check: a roll below
    /// `MAX_HAPPY_VALUE / 2`, and when the roll saves it (see `Neuron::survives_roll`)
    /// a count from 10 to 19 and that many neurons picked at random; then
    /// `save_check_step` grows its new axons or lets it die. Returns the roll and the
    /// picks. Outputs, and ids of no neuron, are left alone.
    fn no_more_outputs(&mut self, neuron_id: u32, Ghost(key_bound): Ghost<int>) -> (drawn: Ghost<(int, Seq<u32>)>)
        requires
            old(self)@.wf(),
            old(self)@.neurons.contains_key(neuron_id) ==> old(self)@.neurons[neuron_id]@.happyness
                + 250 <= u32::MAX && !has_registered_input(old(self)@, neuron_id),
            old(self)@.neurons.contains_key(neuron_id) && old(self)@.neurons[neuron_id]@.happyness
                < MAX_HAPPY_VALUE / 5 ==> {
                &&& old(self)@.num_of_axons + 20 <= u128::MAX
                &&& 0 <= key_bound
                &&& key_bound + 20 <= u128::MAX
                &&& forall|a: u128| #[trigger] old(self)@.axons.contains_key(a) ==> a <= key_bound
            },
        ensures
            final(self)@.wf(),
            0 <= drawn@.0 < MAX_HAPPY_VALUE / 2,
            drawn@.1.len() < 20,
            old(self)@.neurons.contains_key(neuron_id) && !old(self)@.neurons[neuron_id]@.is_output
                && drawn@.0 + old(self)@.neurons[neuron_id]@.happyness < MAX_HAPPY_VALUE / 5 ==> 10
                <= drawn@.1.len(),
            forall|k: int| 0 <= k < drawn@.1.len() ==> old(self)@.neurons.contains_key(#[trigger] drawn@.1[k]),
            save_step(final(self)@, old(self)@, neuron_id, drawn@.0, drawn@.1),
            final(self)@.num_of_axons <= old(self)@.num_of_axons + 20,
            (forall|a: u128| #[trigger] old(self)@.axons.contains_key(a) ==> a <= key_bound) ==> (
            forall|a: u128| #[trigger] final(self)@.axons.contains_key(a) ==> a <= key_bound + 20),
            !old(self)@.neurons.contains_key(neuron_id) || old(self)@.neurons[neuron_id]@.is_output
                ==> final(self)@ == old(self)@,
            old(self)@.neurons.contains_key(neuron_id) && !old(self)@.neurons[neuron_id]@.is_output
                ==> {
                ||| grown_from(final(self)@, old(self)@, neuron_id)
                    && old(self)@.neurons[neuron_id]@.happyness < MAX_HAPPY_VALUE / 5
                    && final(self)@.num_of_axons <= old(self)@.num_of_axons + 20
                    && final(self)@.axons.dom().len() < old(self)@.axons.dom().len() + 20
                    && forall|n: u32| #[trigger]
                    final(self)@.neurons.contains_key(n) ==> old(self)@.out_of(n).is_prefix_of(
                        final(self)@.out_of(n),
                    ) && old(self)@.in_of(n).is_prefix_of(final(self)@.in_of(n))
                ||| pruned_from(final(self)@, old(self)@)
                    && final(self)@.neurons.dom() == old(self)@.neurons.dom().remove(neuron_id)
                    && (forall|a: u128| #[trigger]
                    final(self)@.axons.contains_key(a) <==> (old(self)@.axons.contains_key(a)
                        && !touches(old(self)@.axons[a]@, neuron_id)))
                    && forall|n: u32| #[trigger]
                    final(self)@.neurons.contains_key(n) ==> {
                        let gone = (old(self)@.in_of(neuron_id) + old(self)@.out_of(neuron_id)).to_set();
                        &&& final(self)@.out_of(n) == drop_ids(old(self)@.out_of(n), gone)
                        &&& final(self)@.in_of(n) == drop_ids(old(self)@.in_of(n), gone)
                    }
            },
    {
        let neuron = match self.neurons.get(&neuron_id) {
            Some(n) => n,
            None => {
                return Ghost((0, Seq::empty()));
            },
        };
        if neuron.is_output_neuron() {
            return Ghost((0, Seq::empty()));
        }
        let roll = random_u32(0, MAX_HAPPY_VALUE / 2);
        let mut sinks: Vec<u32> = Vec::new();
        if neuron.survives_roll(roll) {
            let count = random_i32(10, 20);
            let ids = neuron_ids_of(&self.neurons);
            proof {
                assert(self@.neurons.dom().finite());
                assert(ids@.to_set().contains(neuron_id));
                assert(ids@.len() == self@.num_of_neurons);
            }
            let mut k: i32 = 0;
            while k < count
                invariant
                    0 <= k <= count < 20,
                    sinks@.len() == k,
                    0 < ids@.len() <= u32::MAX,
                    ids@.to_set() == self@.neurons.dom(),
                    forall|j: int| 0 <= j < sinks@.len() ==> self@.neurons.contains_key(#[trigger] sinks@[j]),
                decreases count - k,
            {
                let pick = random_usize(0, ids.len());
                proof {
                    assert(ids@.to_set().contains(ids@[pick as int]));
                }
                sinks.push(ids[pick]);
                k = k + 1;
            }
        }
        self.save_check_step(neuron_id, roll, &sinks, Ghost(key_bound));
        Ghost((roll as int, sinks@))
    }
}

/// One pick of a surviving neuron's growth: a new axon from `id` to `sink`, or nothing
/// when `sink` is `id` itself.
pub open spec fn grow_link(after: SpirionModel, before: SpirionModel, id: u32, sink: u32) -> bool {
    if sink == id {
        after == before
    } else {
        exists|new: u128| #[trigger] axon_added(after, before, id, sink, new, 1)
    }
}

/// `states` are the brain before each pick of `sinks` and after the last, each pick a
/// `grow_link` from `id`.
pub open spec fn grow_chain(states: Seq<SpirionModel>, id: u32, sinks: Seq<u32>) -> bool {
    &&& states.len() == sinks.len() + 1
    &&& forall|j: int| 0 <= j < sinks.len() ==> #[trigger] grow_link(states[j + 1], states[j], id, sinks[j])
}

/// The growth of neuron `id` toward `sinks`, pick by pick, took `before` to `after`.
pub open spec fn grown_by(after: SpirionModel, before: SpirionModel, id: u32, sinks: Seq<u32>) -> bool {
    exists|states: Seq<SpirionModel>|
        #[trigger] grow_chain(states, id, sinks) && states[0] == before && states.last() == after
}

/// `after` is `before` without neuron `id` and every axon touching it: the other
/// neurons keep all but those axons, in order, and nothing else changes.
pub open spec fn removed_neuron(after: SpirionModel, before: SpirionModel, id: u32) -> bool {
    &&& pruned_from(after, before)
    &&& after.neurons.dom() == before.neurons.dom().remove(id)
    &&& forall|a: u128| #[trigger]
        after.axons.contains_key(a) <==> (before.axons.contains_key(a) && !touches(before.axons[a]@, id))
    &&& forall|n: u32| #[trigger]
        after.neurons.contains_key(n) ==> {
            let gone = (before.in_of(id) + before.out_of(id)).to_set();
            &&& after.out_of(n) == drop_ids(before.out_of(n), gone)
            &&& after.in_of(n) == drop_ids(before.in_of(n), gone)
        }
}

/// The save check of neuron `id` with the roll `roll` and the picks `sinks`: nothing
/// for an output or an id of no neuron; growth toward `sinks` (see `grown_by`) when
/// the roll plus its unhappiness stays below `MAX_HAPPY_VALUE / 5`; death otherwise.
pub open spec fn save_step(after: SpirionModel, before: SpirionModel, id: u32, roll: int, sinks: Seq<u32>) -> bool {
    if !before.neurons.contains_key(id) || before.neurons[id]@.is_output {
        after == before
    } else if roll + before.neurons[id]@.happyness < MAX_HAPPY_VALUE / 5 {
        grown_by(after, before, id, sinks)
    } else {
        removed_neuron(after, before, id)
    }
}

/// How many of `sinks` are neurons other than `id`.
pub open spec fn picks_other(sinks: Seq<u32>, id: u32) -> nat
    decreases sinks.len(),
{
    if sinks.len() == 0 {
        0
    } else {
        picks_other(sinks.drop_last(), id) + if sinks.last() != id {
            1nat
        } else {
            0nat
        }
    }
}

/// The first `k` picks of a growth chain from `before` leave neuron `id` there with its
/// old outgoing axons followed by one new one for each of those picks other than itself.
proof fn lemma_growth_prefix(states: Seq<SpirionModel>, id: u32, sinks: Seq<u32>, k: int)
    requires
        grow_chain(states, id, sinks),
        states[0].neurons.contains_key(id),
        0 <= k <= sinks.len(),
    ensures
        states[k].neurons.contains_key(id),
        states[0].out_of(id).is_prefix_of(states[k].out_of(id)),
        states[k].out_of(id).len() == states[0].out_of(id).len() + picks_other(sinks.take(k), id),
    decreases k,
{
    if k == 0 {
        assert(sinks.take(0).len() == 0);
    } else {
        lemma_growth_prefix(states, id, sinks, k - 1);
        let j = k - 1;
        assert(grow_link(states[j + 1], states[j], id, sinks[j]));
        assert(sinks.take(k).drop_last() =~= sinks.take(j));
        assert(sinks.take(k).last() == sinks[j]);
        if sinks[j] != id {
            let new = choose|new: u128| #[trigger] axon_added(states[j + 1], states[j], id, sinks[j], new, 1);
            assert(states[j + 1].neurons[id]@ == with_link(states[j].neurons[id]@, id, id as int, sinks[j] as int, new));
            assert(states[j + 1].out_of(id) == states[j].out_of(id).push(new));
        }
    }
}

/// A neuron that survives its save check keeps every axon that left it and gains one
/// new outgoing axon for each of its picks other than itself.
pub proof fn lemma_growth_adds_out_axons(after: SpirionModel, before: SpirionModel, id: u32, sinks: Seq<u32>)
    requires
        grown_by(after, before, id, sinks),
        before.neurons.contains_key(id),
    ensures
        after.neurons.contains_key(id),
        before.out_of(id).is_prefix_of(after.out_of(id)),
        after.out_of(id).len() == before.out_of(id).len() + picks_other(sinks, id),
{
    let states = choose|states: Seq<SpirionModel>|
        #[trigger] grow_chain(states, id, sinks) && states[0] == before && states.last() == after;
    lemma_growth_prefix(states, id, sinks, sinks.len() as int);
    assert(sinks.take(sinks.len() as int) =~= sinks);
}

/// One more pick extends a chain of growth.
proof fn lemma_grow_chain_step(states: Seq<SpirionModel>, next: SpirionModel, id: u32, sinks: Seq<u32>, j: int)
    requires
        0 <= j < sinks.len(),
        grow_chain(states, id, sinks.take(j)),
        grow_link(next, states.last(), id, sinks[j]),
    ensures
        grow_chain(states.push(next), id, sinks.take(j + 1)),
{
    let s2 = states.push(next);
    let t = sinks.take(j + 1);
    assert forall|k: int| 0 <= k < t.len() implies #[trigger] grow_link(s2[k + 1], s2[k], id, t[k]) by {
        if k < j {
            assert(s2[k] == states[k] && s2[k + 1] == states[k + 1] && t[k] == sinks.take(j)[k]);
            assert(grow_link(states[k + 1], states[k], id, sinks.take(j)[k]));
        } else {
            assert(s2[k] == states.last() && s2[k + 1] == next && t[k] == sinks[j]);
        }
    }
}

/// Adding one more axon from `id` keeps the brain grown from `o`.
proof fn lemma_grow_step(after: SpirionModel, before: SpirionModel, o: SpirionModel, id: u32, sink: u32)
    requires
        grown_from(before, o, id),
        sink != id,
        exists|new: u128| #![trigger after.axons[new]] {
            &&& !before.axons.contains_key(new)
            &&& after.axons == before.axons.insert(new, after.axons[new])
            &&& after.axons[new]@.id_source == id
            &&& after.axons[new]@.id_sink == sink
            &&& !after.axons[new]@.is_input
            &&& -100 <= after.axons[new]@.strength < 100
            &&& 0 <= after.axons[new]@.reliable < 50
            &&& 0 <= after.axons[new]@.happyness < 75
            &&& after.axons[new]@.delta_t == 0
            &&& after.axons[new]@.avg_t == 1
            &&& forall|n: u32| #[trigger]
                before.neurons.contains_key(n) ==> after.neurons[n]@ == with_link(
                    before.neurons[n]@,
                    n,
                    id as int,
                    sink as int,
                    new,
                )
        },
        after.neurons.dom() == before.neurons.dom(),
        after == (SpirionModel {
            neurons: after.neurons,
            axons: after.axons,
            num_of_axons: before.num_of_axons + 1,
            ..before
        }),
    ensures
        grown_from(after, o, id),
{
    let new = choose|new: u128| #![trigger after.axons[new]] {
        &&& !before.axons.contains_key(new)
        &&& after.axons == before.axons.insert(new, after.axons[new])
        &&& after.axons[new]@.id_source == id
        &&& after.axons[new]@.id_sink == sink
        &&& !after.axons[new]@.is_input
        &&& -100 <= after.axons[new]@.strength < 100
        &&& 0 <= after.axons[new]@.reliable < 50
        &&& 0 <= after.axons[new]@.happyness < 75
        &&& after.axons[new]@.delta_t == 0
        &&& after.axons[new]@.avg_t == 1
        &&& forall|n: u32| #[trigger]
            before.neurons.contains_key(n) ==> after.neurons[n]@ == with_link(
                before.neurons[n]@,
                n,
                id as int,
                sink as int,
                new,
            )
    };
    assert forall|a: u128| #[trigger] o.axons.contains_key(a) implies after.axons.contains_key(a)
        && after.axons[a] == o.axons[a] by {
        assert(before.axons.contains_key(a));
    }
    assert forall|a: u128| #[trigger] after.axons.contains_key(a) && !o.axons.contains_key(a) implies {
        let x = after.axons[a]@;
        &&& x.id_source == id
        &&& x.id_sink != id
        &&& !x.is_input
        &&& -100 <= x.strength < 100
        &&& 0 <= x.reliable < 50
        &&& 0 <= x.happyness < 75
        &&& x.delta_t == 0
        &&& x.avg_t == 1
    } by {
        if a != new {
            assert(before.axons.contains_key(a));
        }
    }
    assert forall|n: u32| #[trigger] after.neurons.contains_key(n) implies after.neurons[n]@ == (
    NeuronModel {
        output_axons: after.out_of(n),
        input_axons: after.in_of(n),
        ..o.neurons[n]@
    }) by {
        assert(before.neurons.contains_key(n));
    }
}

/// The strengths, in order, of the signals in `list` whose input axon reaches neuron `n`.
pub open spec fn signals_for(list: Seq<(u128, i32)>, axons: Map<u128, Axion>, n: u32) -> Seq<i32>
    decreases list.len(),
{
    if list.len() == 0 {
        Seq::empty()
    } else {
        let rest = signals_for(list.drop_last(), axons, n);
        if axons[list.last().0]@.id_sink == n {
            rest.push(list.last().1)
        } else {
            rest
        }
    }
}

/// The neurons reached by the input axons of the signals in `list`.
pub open spec fn sinks_of(list: Seq<(u128, i32)>, axons: Map<u128, Axion>) -> Set<u32> {
    Set::new(|n: u32| exists|k: int| 0 <= k < list.len() && axons[list[k].0]@.id_sink == n)
}

// Public
impl Spirion {
    /// Allows the addition of sensory input to the brain, takes a vec of (id, strength)
    /// pairs. Each signal goes, in order, to the inputs of the neuron its input axon
    /// reaches, and that neuron becomes active. Every id must be a registered input.
    pub fn brain_input(&mut self, inputs: Option<Vec<(u128, i32)>>)
        requires
            old(self)@.wf(),
            inputs matches Some(list) ==> forall|k: int|
                0 <= k < list@.len() ==> old(self)@.input_ids.contains(#[trigger] list@[k].0),
        ensures
            final(self)@.wf(),
            inputs is None ==> final(self)@ == old(self)@,
            inputs matches Some(list) ==> {
                &&& final(self)@.neurons.dom() == old(self)@.neurons.dom()
                &&& forall|n: u32| #[trigger]
                    old(self)@.neurons.contains_key(n) ==> final(self)@.neurons[n]@ == (NeuronModel {
                        inputs: old(self)@.neurons[n]@.inputs + signals_for(list@, old(self)@.axons, n),
                        ..old(self)@.neurons[n]@
                    })
                &&& final(self)@ == (SpirionModel {
                    neurons: final(self)@.neurons,
                    active: old(self)@.active + sinks_of(list@, old(self)@.axons),
                    ..old(self)@
                })
            },
    {
        let list = match inputs {
            Some(list) => list,
            None => {
                return ;
            },
        };
        let ghost o = self@;
        let mut k: usize = 0;
        proof {
            assert(sinks_of(list@.take(0), o.axons) =~= Set::empty());
            assert(o.active + Set::empty() =~= o.active);
            assert forall|n: u32| #[trigger] o.neurons.contains_key(n) implies self@.neurons[n]@ == (
            NeuronModel {
                inputs: o.neurons[n]@.inputs + signals_for(list@.take(0), o.axons, n),
                ..o.neurons[n]@
            }) by {
                assert(o.neurons[n]@.inputs + signals_for(list@.take(0), o.axons, n) =~= o.neurons[n]@.inputs);
            }
        }
        while k < list.len()
            invariant
                k <= list@.len(),
                o.wf(),
                self@.wf(),
                forall|j: int| 0 <= j < list@.len() ==> o.input_ids.contains(#[trigger] list@[j].0),
                self@.neurons.dom() == o.neurons.dom(),
                forall|n: u32| #[trigger]
                    o.neurons.contains_key(n) ==> self@.neurons[n]@ == (NeuronModel {
                        inputs: o.neurons[n]@.inputs + signals_for(list@.take(k as int), o.axons, n),
                        ..o.neurons[n]@
                    }),
                self@ == (SpirionModel {
                    neurons: self@.neurons,
                    active: o.active + sinks_of(list@.take(k as int), o.axons),
                    ..o
                }),
            decreases list.len() - k,
        {
            let (input_id, strength) = list[k];
            proof {
                assert(list@[k as int].0 == input_id);
            }
            let ghost before = self@;
            let mut input = match self.axons.remove(&input_id) {
                Some(a) => a,
                None => {
                    proof {
                        assert(false);
                    }
                    return ;
                },
            };
            let sink = input.get_sink();
            proof {
                assert(o.neurons.contains_key(sink));
            }
            let mut neuron = match self.neurons.remove(&sink) {
                Some(n) => n,
                None => {
                    proof {
                        assert(false);
                    }
                    return ;
                },
            };
            input.fire(neuron.get_delta_t());
            self.axons.insert(input_id, input);
            neuron.push_input(strength);
            self.neurons.insert(sink, neuron);
            if !self.active_neurons.contains(&sink) {
                self.active_neurons.insert(sink);
            }
            proof {
                let t = list@.take(k + 1);
                assert(t.drop_last() =~= list@.take(k as int));
                assert(self@.axons =~= o.axons);
                assert(self@.neurons.dom() =~= o.neurons.dom());
                assert forall|n: u32| #[trigger] o.neurons.contains_key(n) implies self@.neurons[n]@ == (
                NeuronModel {
                    inputs: o.neurons[n]@.inputs + signals_for(t, o.axons, n),
                    ..o.neurons[n]@
                }) by {
                    if n == sink {
                        assert(o.neurons[n]@.inputs + signals_for(t, o.axons, n) =~= (
                        o.neurons[n]@.inputs + signals_for(list@.take(k as int), o.axons, n)).push(
                            strength,
                        ));
                    }
                }
                assert(sinks_of(t, o.axons) =~= sinks_of(list@.take(k as int), o.axons).insert(sink))
                    by {
                    assert(o.axons[t[k as int].0]@.id_sink == sink);
                    assert forall|n: u32| sinks_of(t, o.axons).contains(n) implies sinks_of(
                        list@.take(k as int),
                        o.axons,
                    ).insert(sink).contains(n) by {
                        let j = choose|j: int| 0 <= j < t.len() && o.axons[t[j].0]@.id_sink == n;
                        if j < k {
                            assert(list@.take(k as int)[j] == t[j]);
                        }
                    }
                    assert forall|n: u32| sinks_of(list@.take(k as int), o.axons).contains(n) implies sinks_of(t, o.axons).contains(n) by {
                        let j = choose|j: int|
                            0 <= j < k && o.axons[list@.take(k as int)[j].0]@.id_sink == n;
                        assert(t[j] == list@.take(k as int)[j]);
                    }
                }
                assert(self@.active =~= o.active + sinks_of(t, o.axons));
                lemma_inputs_keep_wf(self@, o);
            }
            k = k + 1;
        }
        proof {
            assert(list@.take(list@.len() as int) =~= list@);
        }
    }
}

/// Changing only the pending inputs of neurons keeps a brain well formed.
proof fn lemma_inputs_keep_wf(s: SpirionModel, o: SpirionModel)
    requires
        o.wf(),
        s.neurons.dom() == o.neurons.dom(),
        s.axons == o.axons,
        s.output_ids == o.output_ids,
        s.input_ids == o.input_ids,
        s.num_of_neurons == o.num_of_neurons,
        forall|n: u32| #[trigger]
            o.neurons.contains_key(n) ==> s.neurons[n]@ == (NeuronModel {
                inputs: s.neurons[n]@.inputs,
                ..o.neurons[n]@
            }),
    ensures
        s.wf(),
{
    assert forall|m: u32, a: u128|
        s.neurons.contains_key(m) && #[trigger] s.out_of(m).contains(a) implies {
        &&& s.axons.contains_key(a)
        &&& s.axons[a]@.id_source == m
        &&& !s.axons[a]@.is_input
    } by {
        assert(o.out_of(m).contains(a));
    }
    assert forall|m: u32, a: u128|
        s.neurons.contains_key(m) && #[trigger] s.in_of(m).contains(a) implies {
        &&& s.axons.contains_key(a)
        &&& s.axons[a]@.id_sink == m
    } by {
        assert(o.in_of(m).contains(a));
    }
    assert forall|a: u128| #[trigger] s.axons.contains_key(a) implies {
        let x = s.axons[a]@;
        &&& s.neurons.contains_key(x.id_sink as u32)
        &&& s.in_of(x.id_sink as u32).contains(a)
        &&& !x.is_input ==> s.neurons.contains_key(x.id_source as u32) && s.out_of(
            x.id_source as u32,
        ).contains(a)
    } by {
        assert(o.axons.contains_key(a));
        let x = o.axons[a]@;
        assert(o.neurons.contains_key(x.id_sink as u32));
        if !x.is_input {
            assert(o.neurons.contains_key(x.id_source as u32));
        }
    }
    assert forall|n: u32| #[trigger] s.neurons.contains_key(n) implies (s.neurons[n]@.is_output
        <==> s.output_ids.contains(n)) by {
        assert(o.neurons.contains_key(n));
    }
}

/// An axon as `Axion::new` makes it.
pub open spec fn fresh_axon(x: AxionModel) -> bool {
    &&& -100 <= x.strength < 100
    &&& 0 <= x.reliable < 50
    &&& 0 <= x.happyness < 75
    &&& x.delta_t == 0
    &&& x.avg_t == 1
}

impl SpirionModel {
    /// Nothing has happened in the brain yet: clock 0, no active neuron, every neuron
    /// as `Neuron::new` makes it but for its connections, every axon as `Axion::new`
    /// makes it.
    pub open spec fn pristine(self) -> bool {
        &&& self.clock == 0
        &&& self.active == Set::<u32>::empty()
        &&& forall|n: u32| #[trigger]
            self.neurons.contains_key(n) ==> self.neurons[n]@ == (NeuronModel {
                output_axons: self.out_of(n),
                input_axons: self.in_of(n),
                ..fresh_neuron(self.neurons[n]@.is_output)
            })
        &&& forall|a: u128| #[trigger] self.axons.contains_key(a) ==> fresh_axon(self.axons[a]@)
    }
}

/// A brain changed only by connecting, adding fresh neurons and axons, or pruning stays
/// pristine.
proof fn lemma_pristine_kept(after: SpirionModel, before: SpirionModel)
    requires
        before.pristine(),
        after.clock == before.clock,
        after.active == before.active,
        forall|n: u32| #[trigger]
            after.neurons.contains_key(n) ==> (before.neurons.contains_key(n)
                && after.neurons[n]@ == (NeuronModel {
                output_axons: after.out_of(n),
                input_axons: after.in_of(n),
                ..before.neurons[n]@
            })) || after.neurons[n]@ == (NeuronModel {
                output_axons: after.out_of(n),
                input_axons: after.in_of(n),
                ..fresh_neuron(after.neurons[n]@.is_output)
            }),
        forall|a: u128| #[trigger]
            after.axons.contains_key(a) ==> (before.axons.contains_key(a) && after.axons[a]
                == before.axons[a]) || fresh_axon(after.axons[a]@),
    ensures
        after.pristine(),
{
    assert forall|n: u32| #[trigger] after.neurons.contains_key(n) implies after.neurons[n]@ == (
    NeuronModel {
        output_axons: after.out_of(n),
        input_axons: after.in_of(n),
        ..fresh_neuron(after.neurons[n]@.is_output)
    }) by {
        if before.neurons.contains_key(n) && after.neurons[n]@ == (NeuronModel {
            output_axons: after.out_of(n),
            input_axons: after.in_of(n),
            ..before.neurons[n]@
        }) {
            assert(before.neurons[n]@ == (NeuronModel {
                output_axons: before.out_of(n),
                input_axons: before.in_of(n),
                ..fresh_neuron(before.neurons[n]@.is_output)
            }));
        }
    }
    assert forall|a: u128| #[trigger] after.axons.contains_key(a) implies fresh_axon(after.axons[a]@) by {
        if before.axons.contains_key(a) && after.axons[a] == before.axons[a] {
            assert(fresh_axon(before.axons[a]@));
        }
    }
}

/// The ids in a set, in the order the set walks them.
fn u32_set_to_vec(s: &HashSet<u32>) -> (ids: Vec<u32>)
    ensures
        ids@.no_duplicates(),
        ids@.to_set() == s@,
        ids@.len() == s@.len(),
{
    let mut ids: Vec<u32> = Vec::new();
    for k in it: s.iter()
        invariant
            ids@ == it.seq().take(it.index() as int).map_values(|r: &u32| *r),
            it.seq() == vstd::std_specs::hash::spec_hash_keys_iter(s).remaining(),
    {
        ids.push(*k);
    }
    proof {
        let r = vstd::std_specs::hash::spec_hash_keys_iter(s).remaining();
        assert(ids@ =~= r.unref());
    }
    ids
}

/// The ids in a set, in the order the set walks them.
fn u128_set_to_vec(s: &HashSet<u128>) -> (ids: Vec<u128>)
    ensures
        ids@.no_duplicates(),
        ids@.to_set() == s@,
        ids@.len() == s@.len(),
{
    let mut ids: Vec<u128> = Vec::new();
    for k in it: s.iter()
        invariant
            ids@ == it.seq().take(it.index() as int).map_values(|r: &u128| *r),
            it.seq() == vstd::std_specs::hash::spec_hash_keys_iter(s).remaining(),
    {
        ids.push(*k);
    }
    proof {
        let r = vstd::std_specs::hash::spec_hash_keys_iter(s).remaining();
        assert(ids@ =~= r.unref());
    }
    ids
}

/// How many neurons `spin_up_new` is asked for: the number given, 500 when none is.
pub open spec fn neurons_asked(num_neurons: Option<u32>) -> int {
    match num_neurons {
        Some(n) => n as int,
        None => 500,
    }
}

/// A brain as `spin_up_new` first makes it, before any wiring: outputs with ids 1 to
/// `num_output` and `num_neurons` other neurons after them, all as `Neuron::new` makes
/// them, no axon, the clock at 0, nothing active, the speed limiter on.
pub open spec fn populated(s: SpirionModel, num_output: int, num_neurons: int, displayed: bool) -> bool {
    &&& s.wf()
    &&& s.clock == 0
    &&& s.axons == Map::<u128, Axion>::empty()
    &&& s.num_of_axons == 0
    &&& s.input_ids == Set::<u128>::empty()
    &&& s.active == Set::<u32>::empty()
    &&& s.limiter
    &&& s.displayed == displayed
    &&& forall|n: u32| #[trigger] s.neurons.contains_key(n) <==> 1 <= n <= num_output + num_neurons
    &&& forall|n: u32| #[trigger] s.output_ids.contains(n) <==> 1 <= n <= num_output
    &&& forall|n: u32| #[trigger] s.neurons.contains_key(n) ==> s.neurons[n]@ == fresh_neuron(n <= num_output)
}

/// `after` is `before` with input axons plugged in: every axon of `before` is kept as
/// it was, every new one is an input (from 0) into a neuron that is not an output, each
/// neuron gains only incoming axons, and only the axons, their counter and the
/// registered inputs change.
pub open spec fn plugged(after: SpirionModel, before: SpirionModel) -> bool {
    &&& after.neurons.dom() == before.neurons.dom()
    &&& forall|n: u32| #[trigger]
        after.neurons.contains_key(n) ==> after.neurons[n]@ == (NeuronModel {
            input_axons: after.in_of(n),
            ..before.neurons[n]@
        })
    &&& forall|a: u128| #[trigger]
        before.axons.contains_key(a) ==> after.axons.contains_key(a) && after.axons[a] == before.axons[a]
    &&& forall|a: u128| #[trigger]
        after.axons.contains_key(a) && !before.axons.contains_key(a) ==> {
            &&& after.axons[a]@.is_input
            &&& after.axons[a]@.id_source == 0
            &&& !after.neurons[after.axons[a]@.id_sink as u32]@.is_output
        }
    &&& after == (SpirionModel {
        neurons: after.neurons,
        axons: after.axons,
        num_of_axons: after.num_of_axons,
        input_ids: after.input_ids,
        ..before
    })
}

/// How `spin_up_new` made `b`: populated as `p` (see `populated`), with the neurons
/// listed in `ids`; wired into `w` by the picks `picks`, two per neuron asked and none
/// taking the first neuron listed (see `wired_by`); culled into `c` by the save checks
/// of the first neurons listed, as many as asked, with the draws `draws` (see
/// `culled_by`); then plugged with inputs (see `plugged`).
pub open spec fn spun_up(
    b: SpirionModel,
    p: SpirionModel,
    w: SpirionModel,
    c: SpirionModel,
    ids: Seq<u32>,
    picks: Seq<(u32, u32)>,
    draws: Seq<(int, Seq<u32>)>,
    num_output: int,
    num_neurons: int,
    displayed: bool,
) -> bool {
    &&& populated(p, num_output, num_neurons, displayed)
    &&& ids.no_duplicates()
    &&& ids.to_set() == p.neurons.dom()
    &&& picks.len() == 2 * num_neurons
    &&& forall|k: int|
        0 <= k < picks.len() ==> ids.skip(1).contains(#[trigger] picks[k].0) && ids.skip(1).contains(
            picks[k].1,
        )
    &&& wired_by(w, p, picks)
    &&& draws.len() == num_neurons
    &&& forall|j: int| 0 <= j < draws.len() ==> save_draw_ok(#[trigger] draws[j], w)
    &&& culled_by(c, w, ids.take(num_neurons), draws)
    &&& plugged(b, c)
}

/// Some populated brain, listing, picks and draws make `b` the way `spin_up_new` makes
/// a brain (see `spun_up`).
pub open spec fn made_by_spin_up(b: SpirionModel, num_output: int, num_neurons: int, displayed: bool) -> bool {
    exists|p: SpirionModel, w: SpirionModel, c: SpirionModel, ids: Seq<u32>, picks: Seq<(u32, u32)>, draws: Seq<(int, Seq<u32>)>|
        #[trigger] spun_up(b, p, w, c, ids, picks, draws, num_output, num_neurons, displayed)
}

proof fn lemma_made_by_spin_up(
    b: SpirionModel,
    p: SpirionModel,
    w: SpirionModel,
    c: SpirionModel,
    ids: Seq<u32>,
    picks: Seq<(u32, u32)>,
    draws: Seq<(int, Seq<u32>)>,
    num_output: int,
    num_neurons: int,
    displayed: bool,
)
    requires
        spun_up(b, p, w, c, ids, picks, draws, num_output, num_neurons, displayed),
    ensures
        made_by_spin_up(b, num_output, num_neurons, displayed),
{
}

/// Every input axon of `s` starts at 0; every other axon joins two different neurons,
/// and leaves an output only to reach another output.
pub open spec fn sanely_wired(s: SpirionModel) -> bool {
    forall|a: u128| #[trigger]
        s.axons.contains_key(a) ==> if s.axons[a]@.is_input {
            s.axons[a]@.id_source == 0
        } else {
            &&& s.axons[a]@.id_source != s.axons[a]@.id_sink
            &&& s.output_ids.contains(s.axons[a]@.id_source as u32) ==> s.output_ids.contains(
                s.axons[a]@.id_sink as u32,
            )
        }
}

/// Bringing up a brain
impl Spirion {
    /// Adds `num_output` outputs, then `num_neurons` neurons.
    fn populate(&mut self, num_output: u32, num_neurons: u32)
        requires
            old(self)@.wf(),
            old(self)@.pristine(),
            old(self)@.neurons == Map::<u32, Neuron>::empty(),
            old(self)@.output_ids == Set::<u32>::empty(),
            old(self)@.num_of_neurons == 0,
            num_output + num_neurons < u32::MAX,
        ensures
            final(self)@.wf(),
            final(self)@.pristine(),
            final(self)@.axons == old(self)@.axons,
            final(self)@.num_of_axons == old(self)@.num_of_axons,
            final(self)@.input_ids == old(self)@.input_ids,
            final(self)@.limiter == old(self)@.limiter,
            final(self)@.displayed == old(self)@.displayed,
            final(self)@.num_of_neurons == num_output + num_neurons,
            final(self)@.output_ids.len() == num_output,
            forall|n: u32| #[trigger] final(self)@.neurons.contains_key(n) ==> n <= num_output + num_neurons,
            forall|n: u32| #[trigger] final(self)@.output_ids.contains(n) <==> 1 <= n <= num_output,
            forall|n: u32| #[trigger] final(self)@.neurons.contains_key(n) <==> 1 <= n <= num_output + num_neurons,
            forall|n: u32| #[trigger]
                final(self)@.neurons.contains_key(n) ==> final(self)@.neurons[n]@ == fresh_neuron(n <= num_output),
    {
        let ghost o = self@;
        let mut i: u32 = 0;
        while i < num_output
            invariant
                i <= num_output,
                num_output + num_neurons < u32::MAX,
                self@.wf(),
                self@.pristine(),
                self@.axons == o.axons,
                self@.num_of_axons == o.num_of_axons,
                self@.input_ids == o.input_ids,
                self@.limiter == o.limiter,
                self@.displayed == o.displayed,
                self@.num_of_neurons == i,
                self@.output_ids.len() == i,
                self@.output_ids.finite(),
                forall|n: u32| #[trigger] self@.neurons.contains_key(n) <==> 1 <= n <= i,
                forall|n: u32| #[trigger] self@.output_ids.contains(n) <==> 1 <= n <= i,
                forall|n: u32| #[trigger]
                    self@.neurons.contains_key(n) ==> self@.neurons[n]@ == fresh_neuron(true),
            decreases num_output - i,
        {
            let ghost before = self@;
            let id = self.add_output();
            proof {
                lemma_pristine_kept(self@, before);
                if id != 1 {
                    assert(before.neurons.contains_key((id - 1) as u32));
                }
                assert(!before.output_ids.contains(id));
            }
            i = i + 1;
        }
        let mut j: u32 = 0;
        while j < num_neurons
            invariant
                j <= num_neurons,
                num_output + num_neurons < u32::MAX,
                self@.wf(),
                self@.pristine(),
                self@.axons == o.axons,
                self@.num_of_axons == o.num_of_axons,
                self@.input_ids == o.input_ids,
                self@.limiter == o.limiter,
                self@.displayed == o.displayed,
                self@.num_of_neurons == num_output + j,
                self@.output_ids.len() == num_output,
                forall|n: u32| #[trigger] self@.neurons.contains_key(n) ==> n <= num_output + j,
                forall|n: u32| #[trigger] self@.output_ids.contains(n) <==> 1 <= n <= num_output,
                forall|n: u32| #[trigger] self@.neurons.contains_key(n) <==> 1 <= n <= num_output + j,
                forall|n: u32| #[trigger]
                    self@.neurons.contains_key(n) ==> self@.neurons[n]@ == fresh_neuron(n <= num_output),
            decreases num_neurons - j,
        {
            let ghost before = self@;
            let id = self.add_neuron();
            proof {
                lemma_pristine_kept(self@, before);
                if id != 1 {
                    assert(before.neurons.contains_key((id - 1) as u32));
                }
            }
            j = j + 1;
        }
    }
}

/// `after` is `before` with axons added between neurons of `ids` other than the first:
/// every new axon joins two different such neurons and leaves an output only to reach
/// another output; every neuron keeps all but its lists of axons, every old axon is
/// kept as it was, and the axon counter counts each new axon twice.
pub open spec fn wired_from(after: SpirionModel, before: SpirionModel, ids: Seq<u32>) -> bool {
    &&& after.neurons.dom() == before.neurons.dom()
    &&& forall|n: u32| #[trigger]
        after.neurons.contains_key(n) ==> after.neurons[n]@ == (NeuronModel {
            output_axons: after.out_of(n),
            input_axons: after.in_of(n),
            ..before.neurons[n]@
        })
    &&& forall|a: u128| #[trigger]
        before.axons.contains_key(a) ==> after.axons.contains_key(a) && after.axons[a]
            == before.axons[a]
    &&& forall|a: u128| #[trigger]
        after.axons.contains_key(a) && !before.axons.contains_key(a) ==> {
            let x = after.axons[a]@;
            &&& ids.skip(1).contains(x.id_source as u32)
            &&& ids.skip(1).contains(x.id_sink as u32)
            &&& x.id_source != x.id_sink
            &&& !x.is_input
            &&& before.output_ids.contains(x.id_source as u32) ==> before.output_ids.contains(
                x.id_sink as u32,
            )
        }
    &&& after.num_of_axons == before.num_of_axons + 2 * (after.axons.dom().len()
        - before.axons.dom().len())
}

/// `after` is `before` with one more axon, from neuron `from` to neuron `to`, under the
/// id `new` that follows the largest id in use (1 when there is none), with a strength
/// in `[-100, 100)`, a reliability in `[0, 50)`, a happiness in `[0, 75)`, no interval
/// yet and an average interval of 1; `new` is appended to the outgoing list of `from`
/// and the incoming list of `to`, and the axon counter grows by `step`.
pub open spec fn axon_added(after: SpirionModel, before: SpirionModel, from: u32, to: u32, new: u128, step: int) -> bool {
    let x = after.axons[new]@;
    &&& !before.axons.contains_key(new)
    &&& forall|a: u128| #[trigger] before.axons.contains_key(a) ==> a < new
    &&& new == 1 || before.axons.contains_key((new - 1) as u128)
    &&& after.axons == before.axons.insert(new, after.axons[new])
    &&& x.id == new
    &&& x.id_source == from
    &&& x.id_sink == to
    &&& !x.is_input
    &&& -100 <= x.strength < 100
    &&& 0 <= x.reliable < 50
    &&& 0 <= x.happyness < 75
    &&& x.delta_t == 0
    &&& x.avg_t == 1
    &&& after.neurons.dom() == before.neurons.dom()
    &&& forall|n: u32| #[trigger]
        before.neurons.contains_key(n) ==> after.neurons[n]@ == with_link(
            before.neurons[n]@,
            n,
            from as int,
            to as int,
            new,
        )
    &&& after == (SpirionModel {
        neurons: after.neurons,
        axons: after.axons,
        num_of_axons: before.num_of_axons + step,
        ..before
    })
}

/// One pick of the random wiring, of neurons `source` and `sink`: when only `source` is
/// an output the axon runs from `sink` to `source`; otherwise from `source` to `sink`,
/// unless they are the same neuron, when nothing happens. An axon made counts twice in
/// the axon counter.
pub open spec fn wire_step(after: SpirionModel, before: SpirionModel, source: u32, sink: u32) -> bool {
    if before.output_ids.contains(source) && !before.output_ids.contains(sink) {
        exists|new: u128| #[trigger] axon_added(after, before, sink, source, new, 2)
    } else if source != sink {
        exists|new: u128| #[trigger] axon_added(after, before, source, sink, new, 2)
    } else {
        after == before
    }
}

/// `states` are the brain before each pick of `picks` and after the last, each pick a
/// `wire_step`.
pub open spec fn pick_chain(states: Seq<SpirionModel>, picks: Seq<(u32, u32)>) -> bool {
    &&& states.len() == picks.len() + 1
    &&& forall|j: int|
        0 <= j < picks.len() ==> #[trigger] wire_step(states[j + 1], states[j], picks[j].0, picks[j].1)
}

/// The picks `picks`, one after the other, took `before` to `after`.
pub open spec fn wired_by(after: SpirionModel, before: SpirionModel, picks: Seq<(u32, u32)>) -> bool {
    exists|states: Seq<SpirionModel>|
        #[trigger] pick_chain(states, picks) && states[0] == before && states.last() == after
}

/// One more pick extends a run of picks.
proof fn lemma_wired_by_step(a: SpirionModel, b: SpirionModel, c: SpirionModel, picks: Seq<(u32, u32)>, p: (u32, u32))
    requires
        wired_by(b, a, picks),
        wire_step(c, b, p.0, p.1),
    ensures
        wired_by(c, a, picks.push(p)),
{
    let states = choose|states: Seq<SpirionModel>|
        #[trigger] pick_chain(states, picks) && states[0] == a && states.last() == b;
    let s2 = states.push(c);
    let p2 = picks.push(p);
    assert forall|j: int| 0 <= j < p2.len() implies #[trigger] wire_step(s2[j + 1], s2[j], p2[j].0, p2[j].1) by {
        if j < picks.len() {
            assert(s2[j] == states[j] && s2[j + 1] == states[j + 1] && p2[j] == picks[j]);
            assert(wire_step(states[j + 1], states[j], picks[j].0, picks[j].1));
        } else {
            assert(s2[j] == b && s2[j + 1] == c && p2[j] == p);
        }
    }
    assert(pick_chain(s2, p2));
    assert(s2[0] == a);
}

/// Bringing up a brain: wiring
impl Spirion {
    /// One pick of the random wiring (see `wire_step`): joins `source_id` and
    /// `sink_id` with an axon, from `sink_id` to `source_id` when only `source_id` is an
    /// output, and counts it twice; does nothing when they are the same neuron. Returns
    /// the id of the axon made, if any.
    pub fn wire_pick(&mut self, source_id: u32, sink_id: u32) -> (r: Option<u128>)
        requires
            old(self)@.wf(),
            old(self)@.neurons.contains_key(source_id),
            old(self)@.neurons.contains_key(sink_id),
            old(self)@.num_of_axons + 2 <= u128::MAX,
            forall|a: u128| #[trigger] old(self)@.axons.contains_key(a) ==> a < u128::MAX,
        ensures
            final(self)@.wf(),
            wire_step(final(self)@, old(self)@, source_id, sink_id),
            old(self)@.pristine() ==> final(self)@.pristine(),
            match r {
                None => final(self)@ == old(self)@ && source_id == sink_id,
                Some(new) => if old(self)@.output_ids.contains(source_id) && !old(self)@.output_ids.contains(sink_id) {
                    axon_added(final(self)@, old(self)@, sink_id, source_id, new, 2)
                } else {
                    axon_added(final(self)@, old(self)@, source_id, sink_id, new, 2)
                },
            },
    {
        let ghost before = self@;
        if self.output_ids.contains(&source_id) && !self.output_ids.contains(&sink_id) {
            let id = self.add_axon(sink_id, source_id);
            self.num_of_axons += 1;
            proof {
                if before.pristine() {
                    lemma_pristine_kept(self@, before);
                }
                assert(axon_added(self@, before, sink_id, source_id, id, 2));
            }
            Some(id)
        } else if source_id != sink_id {
            let id = self.add_axon(source_id, sink_id);
            self.num_of_axons += 1;
            proof {
                if before.pristine() {
                    lemma_pristine_kept(self@, before);
                }
                assert(axon_added(self@, before, source_id, sink_id, id, 2));
            }
            Some(id)
        } else {
            None
        }
    }

    /// Draws `count` random pairs of neurons among `ids` (never the first one) and joins
    /// each pair with an axon: from the second to the first when only the first is an
    /// output, otherwise from the first to the second unless they are the same neuron.
    /// Every axon made also counts one extra in the axon counter.
    fn wire_randomly(&mut self, ids: &Vec<u32>, count: u32, Ghost(kb): Ghost<int>, Ghost(na): Ghost<int>)
        requires
            old(self)@.wf(),
            old(self)@.pristine(),
            ids@.to_set() == old(self)@.neurons.dom(),
            2 <= ids@.len() <= u32::MAX,
            0 <= kb,
            0 <= na,
            kb + count < u128::MAX,
            na + 2 * count < u128::MAX,
            forall|a: u128| #[trigger] old(self)@.axons.contains_key(a) ==> a <= kb,
            old(self)@.num_of_axons <= na,
        ensures
            final(self)@.wf(),
            final(self)@.pristine(),
            final(self)@.neurons.dom() == old(self)@.neurons.dom(),
            forall|a: u128| #[trigger] final(self)@.axons.contains_key(a) ==> a <= kb + count,
            final(self)@.num_of_axons <= na + 2 * count,
            final(self)@.output_ids == old(self)@.output_ids,
            final(self)@.input_ids == old(self)@.input_ids,
            final(self)@.limiter == old(self)@.limiter,
            final(self)@.displayed == old(self)@.displayed,
            final(self)@.num_of_neurons == old(self)@.num_of_neurons,
            wired_from(final(self)@, old(self)@, ids@),
            final(self)@.axons.dom().len() <= old(self)@.axons.dom().len() + count,
            exists|picks: Seq<(u32, u32)>|
                picks.len() == count && (forall|k: int|
                    0 <= k < picks.len() ==> ids@.skip(1).contains(#[trigger] picks[k].0)
                        && ids@.skip(1).contains(picks[k].1)) && #[trigger] wired_by(
                    final(self)@,
                    old(self)@,
                    picks,
                ),
    {
        let ghost o = self@;
        let ghost mut picks: Seq<(u32, u32)> = Seq::empty();
        proof {
            let states = seq![o];
            assert(pick_chain(states, picks));
        }
        let len = ids.len();
        let mut i: u32 = 0;
        while i < count
            invariant
                i <= count,
                len == ids@.len(),
                2 <= len <= u32::MAX,
                ids@.to_set() == o.neurons.dom(),
                self@.wf(),
                self@.pristine(),
                self@.neurons.dom() == o.neurons.dom(),
                0 <= kb,
                kb + count < u128::MAX,
                na + 2 * count < u128::MAX,
                forall|a: u128| #[trigger] self@.axons.contains_key(a) ==> a <= kb + i,
                self@.num_of_axons <= na + 2 * i,
                self@.output_ids == o.output_ids,
                self@.input_ids == o.input_ids,
                self@.limiter == o.limiter,
                self@.displayed == o.displayed,
                self@.num_of_neurons == o.num_of_neurons,
                wired_from(self@, o, ids@),
                self@.axons.dom().len() <= o.axons.dom().len() + i,
                picks.len() == i,
                forall|k: int|
                    0 <= k < picks.len() ==> ids@.skip(1).contains(#[trigger] picks[k].0)
                        && ids@.skip(1).contains(picks[k].1),
                wired_by(self@, o, picks),
            decreases count - i,
        {
            let source_pos = random_usize(1, len);
            let sink_pos = random_usize(1, len);
            let source_id = ids[source_pos];
            let sink_id = ids[sink_pos];
            proof {
                assert(ids@.to_set().contains(source_id));
                assert(ids@.to_set().contains(sink_id));
                assert(ids@.skip(1)[source_pos - 1] == source_id);
                assert(ids@.skip(1)[sink_pos - 1] == sink_id);
            }
            let ghost before = self@;
            let made = self.wire_pick(source_id, sink_id);
            proof {
                match made {
                    Some(id) => {
                        if id != 1 {
                            assert(before.axons.contains_key((id - 1) as u128));
                        }
                        lemma_wire_step(self@, before, o, ids@, id);
                    },
                    None => {},
                }
                lemma_wired_by_step(o, before, self@, picks, (source_id, sink_id));
                let p2 = picks.push((source_id, sink_id));
                assert forall|k: int| 0 <= k < p2.len() implies ids@.skip(1).contains(#[trigger] p2[k].0)
                    && ids@.skip(1).contains(p2[k].1) by {
                    if k < picks.len() {
                        assert(p2[k] == picks[k]);
                    }
                }
                picks = p2;
            }
            i = i + 1;
        }
    }

    /// Gives each of the first `count` neurons of `ids` that is still there, is not an
    /// output and has no axon leaving it its save check (see `no_more_outputs`).
    fn rescue_or_cull(&mut self, ids: &Vec<u32>, count: usize, Ghost(kb): Ghost<int>, Ghost(na): Ghost<int>)
        requires
            old(self)@.wf(),
            old(self)@.pristine(),
            count <= ids@.len(),
            ids@.no_duplicates(),
            0 <= kb,
            0 <= na,
            kb + 20 * count < u128::MAX,
            na + 20 * count < u128::MAX,
            forall|a: u128| #[trigger] old(self)@.axons.contains_key(a) ==> a <= kb,
            old(self)@.num_of_axons <= na,
            old(self)@.input_ids == Set::<u128>::empty(),
        ensures
            final(self)@.wf(),
            final(self)@.pristine(),
            final(self)@.neurons.dom().subset_of(old(self)@.neurons.dom()),
            forall|j: int|
                count <= j < ids@.len() && old(self)@.neurons.contains_key(#[trigger] ids@[j])
                    ==> final(self)@.neurons.contains_key(ids@[j]),
            forall|a: u128| #[trigger] final(self)@.axons.contains_key(a) ==> a <= kb + 20 * count,
            final(self)@.num_of_axons <= na + 20 * count,
            final(self)@.output_ids == old(self)@.output_ids,
            final(self)@.input_ids == old(self)@.input_ids,
            final(self)@.limiter == old(self)@.limiter,
            final(self)@.displayed == old(self)@.displayed,
            culled_from(final(self)@, old(self)@, ids@.take(count as int)),
            exists|draws: Seq<(int, Seq<u32>)>|
                draws.len() == count && (forall|j: int|
                    0 <= j < draws.len() ==> save_draw_ok(#[trigger] draws[j], old(self)@))
                    && #[trigger] culled_by(final(self)@, old(self)@, ids@.take(count as int), draws),
    {
        let ghost o = self@;
        let ghost mut draws: Seq<(int, Seq<u32>)> = Seq::empty();
        let ghost mut states: Seq<SpirionModel> = seq![o];
        let mut i: usize = 0;
        proof {
            assert forall|n: u32| #[trigger] self@.neurons.contains_key(n) implies self@.neurons[n]@ == (
            NeuronModel {
                output_axons: self@.out_of(n),
                input_axons: self@.in_of(n),
                ..o.neurons[n]@
            }) by {}
        }
        while i < count
            invariant
                i <= count <= ids@.len(),
                ids@.no_duplicates(),
                self@.wf(),
                self@.pristine(),
                self@.neurons.dom().subset_of(o.neurons.dom()),
                forall|j: int|
                    i <= j < ids@.len() && o.neurons.contains_key(#[trigger] ids@[j])
                        ==> self@.neurons.contains_key(ids@[j]),
                0 <= kb,
                kb + 20 * count < u128::MAX,
                na + 20 * count < u128::MAX,
                forall|a: u128| #[trigger] self@.axons.contains_key(a) ==> a <= kb + 20 * i,
                self@.num_of_axons <= na + 20 * i,
                self@.output_ids == o.output_ids,
                self@.input_ids == o.input_ids,
                o.input_ids == Set::<u128>::empty(),
                self@.limiter == o.limiter,
                self@.displayed == o.displayed,
                culled_from(self@, o, ids@.take(i as int)),
                draws.len() == i,
                forall|j: int| 0 <= j < draws.len() ==> save_draw_ok(#[trigger] draws[j], o),
                cull_chain(states, ids@.take(i as int), draws),
                states[0] == o,
                states.last() == self@,
            decreases count - i,
        {
            let id = ids[i];
            let ghost before = self@;
            proof {
                assert forall|x: u32| ids@.take(i as int).contains(x) implies ids@.take(i + 1).contains(x) by {
                    let w = choose|w: int| 0 <= w < i && ids@.take(i as int)[w] == x;
                    assert(ids@.take(i + 1)[w] == x);
                }
                assert(ids@.take(i + 1)[i as int] == id);
            }
            let lonely = match self.neurons.get(&id) {
                Some(neuron) => !neuron.has_output_axons() && !neuron.is_output_neuron(),
                None => false,
            };
            if lonely {
                proof {
                    assert(self@.neurons[id]@.happyness == 25);
                    assert(!has_registered_input(self@, id));
                }
                let drawn = self.no_more_outputs(id, Ghost(kb + 20 * i));
                proof {
                    assert forall|k: int| 0 <= k < drawn@.1.len() implies o.neurons.contains_key(#[trigger] drawn@.1[k]) by {
                        assert(before.neurons.contains_key(drawn@.1[k]));
                    }
                    assert(cull_link(self@, before, id, drawn@));
                    lemma_cull_chain_step(states, self@, ids@, draws, i as int, drawn@);
                    states = states.push(self@);
                    draws = draws.push(drawn@);
                    assert forall|j: int| 0 <= j < draws.len() implies save_draw_ok(#[trigger] draws[j], o) by {
                        if j < draws.len() - 1 {
                            assert(draws[j] == draws.drop_last()[j]);
                        }
                    }
                    lemma_cull_step(self@, before, o, id, ids@.take(i as int), ids@.take(i + 1));
                    lemma_pristine_after_rescue(self@, before, id);
                    assert(self@.neurons.dom().subset_of(before.neurons.dom()));
                    assert forall|j: int|
                        i + 1 <= j < ids@.len() && o.neurons.contains_key(#[trigger] ids@[j]) implies self@.neurons.contains_key(ids@[j]) by {
                        assert(ids@[j] != ids@[i as int]);
                        assert(before.neurons.contains_key(ids@[j]));
                    }
                }
            } else {
                proof {
                    lemma_cull_widen(self@, o, ids@.take(i as int), ids@.take(i + 1));
                    let d: (int, Seq<u32>) = (0, Seq::empty());
                    assert(cull_link(self@, before, id, d));
                    lemma_cull_chain_step(states, self@, ids@, draws, i as int, d);
                    states = states.push(self@);
                    draws = draws.push(d);
                    assert forall|j: int| 0 <= j < draws.len() implies save_draw_ok(#[trigger] draws[j], o) by {
                        if j < draws.len() - 1 {
                            assert(draws[j] == draws.drop_last()[j]);
                        }
                    }
                }
            }
            i = i + 1;
        }
        proof {
            assert(culled_by(self@, o, ids@.take(count as int), draws));
        }
    }
}

/// A roll and picks a save check can draw on `s`: a roll below `MAX_HAPPY_VALUE / 2`
/// and fewer than 20 picks, each a neuron of `s`.
pub open spec fn save_draw_ok(draw: (int, Seq<u32>), s: SpirionModel) -> bool {
    &&& 0 <= draw.0 < MAX_HAPPY_VALUE / 2
    &&& draw.1.len() < 20
    &&& forall|k: int| 0 <= k < draw.1.len() ==> s.neurons.contains_key(#[trigger] draw.1[k])
}

/// The turn of neuron `id` in the culling, with the draw `draw` of its save check: a
/// neuron still there, not an output and with no axon leaving it takes its save check
/// (see `save_step`), drawing at least 10 picks when it survives; any other is passed
/// over.
pub open spec fn cull_link(after: SpirionModel, before: SpirionModel, id: u32, draw: (int, Seq<u32>)) -> bool {
    if before.neurons.contains_key(id) && !before.neurons[id]@.is_output && before.out_of(id).len() == 0 {
        &&& save_step(after, before, id, draw.0, draw.1)
        &&& draw.0 + before.neurons[id]@.happyness < MAX_HAPPY_VALUE / 5 ==> 10 <= draw.1.len()
    } else {
        after == before
    }
}

/// `states` are the brain before each turn of `firsts` and after the last, each turn a
/// `cull_link` with its draw in `draws`.
pub open spec fn cull_chain(states: Seq<SpirionModel>, firsts: Seq<u32>, draws: Seq<(int, Seq<u32>)>) -> bool {
    &&& states.len() == firsts.len() + 1
    &&& draws.len() == firsts.len()
    &&& forall|j: int| 0 <= j < firsts.len() ==> #[trigger] cull_link(states[j + 1], states[j], firsts[j], draws[j])
}

/// The turns of `firsts`, with the draws `draws`, took `before` to `after`.
pub open spec fn culled_by(after: SpirionModel, before: SpirionModel, firsts: Seq<u32>, draws: Seq<(int, Seq<u32>)>) -> bool {
    exists|states: Seq<SpirionModel>|
        #[trigger] cull_chain(states, firsts, draws) && states[0] == before && states.last() == after
}

/// One more turn extends a chain of culling.
proof fn lemma_cull_chain_step(
    states: Seq<SpirionModel>,
    next: SpirionModel,
    ids: Seq<u32>,
    draws: Seq<(int, Seq<u32>)>,
    i: int,
    d: (int, Seq<u32>),
)
    requires
        0 <= i < ids.len(),
        cull_chain(states, ids.take(i), draws),
        cull_link(next, states.last(), ids[i], d),
    ensures
        cull_chain(states.push(next), ids.take(i + 1), draws.push(d)),
{
    let s2 = states.push(next);
    let f2 = ids.take(i + 1);
    let d2 = draws.push(d);
    assert forall|j: int| 0 <= j < f2.len() implies #[trigger] cull_link(s2[j + 1], s2[j], f2[j], d2[j]) by {
        if j < i {
            assert(s2[j] == states[j] && s2[j + 1] == states[j + 1] && f2[j] == ids.take(i)[j] && d2[j] == draws[j]);
            assert(cull_link(states[j + 1], states[j], ids.take(i)[j], draws[j]));
        } else {
            assert(s2[j] == states.last() && s2[j + 1] == next && f2[j] == ids[i] && d2[j] == d);
        }
    }
}

/// `after` is `before` with some of the neurons listed in `firsts` gone, none of them an
/// output, together with the axons touching them, and with new axons leaving listed
/// neurons that are not outputs; every neuron left keeps all but its lists of axons,
/// and every old axon left is kept as it was. (A new axon may take the id of an old one
/// that went.)
pub open spec fn culled_from(after: SpirionModel, before: SpirionModel, firsts: Seq<u32>) -> bool {
    &&& after.neurons.dom().subset_of(before.neurons.dom())
    &&& forall|n: u32| #[trigger]
        before.neurons.contains_key(n) && !after.neurons.contains_key(n) ==> firsts.contains(n)
            && !before.neurons[n]@.is_output
    &&& forall|n: u32| #[trigger]
        after.neurons.contains_key(n) ==> after.neurons[n]@ == (NeuronModel {
            output_axons: after.out_of(n),
            input_axons: after.in_of(n),
            ..before.neurons[n]@
        })
    &&& forall|a: u128| #[trigger]
        before.axons.contains_key(a) ==> (after.axons.contains_key(a) && after.axons[a]
            == before.axons[a]) || exists|n: u32|
            before.neurons.contains_key(n) && !after.neurons.contains_key(n) && #[trigger] touches(
                before.axons[a]@,
                n,
            )
    &&& forall|a: u128| #[trigger]
        after.axons.contains_key(a) ==> (before.axons.contains_key(a) && after.axons[a]
            == before.axons[a]) || new_culling_axon(after.axons[a]@, before, firsts)
}

/// `x` is an axon the save checks of `culled_from` may make: it leaves a listed neuron
/// of `before` that is not an output, for another neuron.
pub open spec fn new_culling_axon(x: AxionModel, before: SpirionModel, firsts: Seq<u32>) -> bool {
    &&& firsts.contains(x.id_source as u32)
    &&& before.neurons.contains_key(x.id_source as u32)
    &&& !before.neurons[x.id_source as u32]@.is_output
    &&& x.id_source != x.id_sink
    &&& !x.is_input
}

/// The save check of neuron `id`, a listed neuron that is not an output, keeps the
/// brain culled from `o`, with `id` listed.
proof fn lemma_cull_step(after: SpirionModel, mid: SpirionModel, o: SpirionModel, id: u32, f_old: Seq<u32>, f_new: Seq<u32>)
    requires
        culled_from(mid, o, f_old),
        forall|x: u32| f_old.contains(x) ==> f_new.contains(x),
        f_new.contains(id),
        mid.neurons.contains_key(id),
        !mid.neurons[id]@.is_output,
        grown_from(after, mid, id) || (pruned_from(after, mid) && after.neurons.dom()
            == mid.neurons.dom().remove(id) && forall|a: u128| #[trigger]
            after.axons.contains_key(a) <==> (mid.axons.contains_key(a) && !touches(
                mid.axons[a]@,
                id,
            ))),
    ensures
        culled_from(after, o, f_new),
{
    assert(o.neurons.contains_key(id));
    assert(!o.neurons[id]@.is_output);
    let grown = grown_from(after, mid, id);
    assert forall|n: u32| #[trigger] o.neurons.contains_key(n) && !after.neurons.contains_key(n)
        implies f_new.contains(n) && !o.neurons[n]@.is_output by {
        if n != id {
            assert(!mid.neurons.contains_key(n));
        }
    }
    assert forall|n: u32| #[trigger] after.neurons.contains_key(n) implies after.neurons[n]@ == (
    NeuronModel {
        output_axons: after.out_of(n),
        input_axons: after.in_of(n),
        ..o.neurons[n]@
    }) by {
        assert(mid.neurons.contains_key(n));
    }
    assert forall|a: u128| #[trigger] o.axons.contains_key(a) implies (after.axons.contains_key(a)
        && after.axons[a] == o.axons[a]) || exists|n: u32|
        o.neurons.contains_key(n) && !after.neurons.contains_key(n) && #[trigger] touches(
            o.axons[a]@,
            n,
        ) by {
        if mid.axons.contains_key(a) && mid.axons[a] == o.axons[a] {
            if !after.axons.contains_key(a) {
                assert(!grown);
                assert(touches(o.axons[a]@, id));
                assert(!after.neurons.contains_key(id));
            } else {
                assert(after.axons[a] == mid.axons[a]);
            }
        } else {
            let n = choose|n: u32|
                o.neurons.contains_key(n) && !mid.neurons.contains_key(n) && #[trigger] touches(
                    o.axons[a]@,
                    n,
                );
            assert(!after.neurons.contains_key(n));
        }
    }
    assert forall|a: u128| #[trigger] after.axons.contains_key(a) implies (o.axons.contains_key(a)
        && after.axons[a] == o.axons[a]) || new_culling_axon(after.axons[a]@, o, f_new) by {
        if mid.axons.contains_key(a) && after.axons[a] == mid.axons[a] {
            assert(mid.axons.contains_key(a));
        } else {
            assert(grown);
        }
    }
}

/// A brain culled from `o` with the neurons of `f_old` is culled from it with those of
/// any list `f_new` that holds them all.
proof fn lemma_cull_widen(after: SpirionModel, o: SpirionModel, f_old: Seq<u32>, f_new: Seq<u32>)
    requires
        culled_from(after, o, f_old),
        forall|x: u32| f_old.contains(x) ==> f_new.contains(x),
    ensures
        culled_from(after, o, f_new),
{
    assert forall|a: u128| #[trigger] after.axons.contains_key(a) implies (o.axons.contains_key(a)
        && after.axons[a] == o.axons[a]) || new_culling_axon(after.axons[a]@, o, f_new) by {
        if !(o.axons.contains_key(a) && after.axons[a] == o.axons[a]) {
            assert(new_culling_axon(after.axons[a]@, o, f_old));
        }
    }
}

/// One more axon `id`, made the way `wire_randomly` makes it, keeps the brain wired
/// from `o`, with one more axon than before.
proof fn lemma_wire_step(after: SpirionModel, before: SpirionModel, o: SpirionModel, ids: Seq<u32>, id: u128)
    requires
        before.wf(),
        wired_from(before, o, ids),
        before.output_ids == o.output_ids,
        !before.axons.contains_key(id),
        after.axons == before.axons.insert(id, after.axons[id]),
        ids.skip(1).contains(after.axons[id]@.id_source as u32),
        ids.skip(1).contains(after.axons[id]@.id_sink as u32),
        after.axons[id]@.id_source != after.axons[id]@.id_sink,
        !after.axons[id]@.is_input,
        o.output_ids.contains(after.axons[id]@.id_source as u32) ==> o.output_ids.contains(
            after.axons[id]@.id_sink as u32,
        ),
        after.neurons.dom() == before.neurons.dom(),
        forall|n: u32| #[trigger]
            before.neurons.contains_key(n) ==> after.neurons[n]@ == with_link(
                before.neurons[n]@,
                n,
                after.axons[id]@.id_source as int,
                after.axons[id]@.id_sink as int,
                id,
            ),
        after.num_of_axons == before.num_of_axons + 2,
    ensures
        wired_from(after, o, ids),
        after.axons.dom().len() == before.axons.dom().len() + 1,
{
    assert(after.axons.dom() =~= before.axons.dom().insert(id));
    assert forall|n: u32| #[trigger] after.neurons.contains_key(n) implies after.neurons[n]@ == (
    NeuronModel {
        output_axons: after.out_of(n),
        input_axons: after.in_of(n),
        ..o.neurons[n]@
    }) by {
        assert(before.neurons.contains_key(n));
    }
    assert forall|a: u128| #[trigger] o.axons.contains_key(a) implies after.axons.contains_key(a)
        && after.axons[a] == o.axons[a] by {
        assert(before.axons.contains_key(a));
    }
    assert forall|a: u128| #[trigger] after.axons.contains_key(a) && !o.axons.contains_key(a) implies {
        let x = after.axons[a]@;
        &&& ids.skip(1).contains(x.id_source as u32)
        &&& ids.skip(1).contains(x.id_sink as u32)
        &&& x.id_source != x.id_sink
        &&& !x.is_input
        &&& o.output_ids.contains(x.id_source as u32) ==> o.output_ids.contains(x.id_sink as u32)
    } by {
        if a != id {
            assert(before.axons.contains_key(a));
        }
    }
}

/// Bringing up a brain: inputs
impl Spirion {
    /// Plugs inputs into neurons picked at random, until `num_input` inputs are
    /// registered. A neuron can take an input when it is one of `ids` other than the
    /// first and not an output. (When no neuron can, no input is added: the pick would
    /// never succeed.) The pick is uniform among those neurons, as drawing positions of
    /// `ids` until one lands on such a neuron is.
    #[verifier::spinoff_prover]
    fn plug_inputs(&mut self, ids: &Vec<u32>, num_input: u128, Ghost(kb): Ghost<int>, Ghost(na): Ghost<int>) -> (inputs: Vec<u128>)
        requires
            old(self)@.wf(),
            old(self)@.pristine(),
            old(self)@.input_ids == Set::<u128>::empty(),
            ids@.len() <= u32::MAX,
            old(self)@.neurons.dom().subset_of(ids@.to_set()),
            0 <= kb,
            0 <= na,
            kb + (num_input as usize) < u128::MAX,
            na + (num_input as usize) < u128::MAX,
            forall|a: u128| #[trigger] old(self)@.axons.contains_key(a) ==> a <= kb,
            old(self)@.num_of_axons <= na,
        ensures
            final(self)@.wf(),
            final(self)@.pristine(),
            final(self)@.neurons.dom() == old(self)@.neurons.dom(),
            final(self)@.output_ids == old(self)@.output_ids,
            final(self)@.limiter == old(self)@.limiter,
            final(self)@.displayed == old(self)@.displayed,
            inputs@.no_duplicates(),
            inputs@.to_set() == final(self)@.input_ids,
            inputs@.len() <= num_input as usize,
            forall|k: int|
                0 <= k < inputs@.len() ==> {
                    let a = #[trigger] inputs@[k];
                    &&& final(self)@.axons.contains_key(a)
                    &&& final(self)@.axons[a]@.is_input
                    &&& !final(self)@.neurons[final(self)@.axons[a]@.id_sink as u32]@.is_output
                },
            inputs@.len() < num_input as usize ==> forall|n: u32| #[trigger]
                final(self)@.neurons.contains_key(n) ==> final(self)@.neurons[n]@.is_output || (
                ids@.len() > 0 && n == ids@[0]),
            forall|a: u128| #[trigger]
                final(self)@.axons.contains_key(a) ==> (old(self)@.axons.contains_key(a)
                    && final(self)@.axons[a] == old(self)@.axons[a]) || (final(self)@.axons[a]@.is_input
                    && final(self)@.axons[a]@.id_source == 0),
            forall|a: u128| #[trigger]
                old(self)@.axons.contains_key(a) ==> final(self)@.axons.contains_key(a)
                    && final(self)@.axons[a] == old(self)@.axons[a],
            forall|n: u32| #[trigger]
                final(self)@.neurons.contains_key(n) ==> final(self)@.neurons[n]@ == (NeuronModel {
                    input_axons: final(self)@.in_of(n),
                    ..old(self)@.neurons[n]@
                }),
            final(self)@ == (SpirionModel {
                neurons: final(self)@.neurons,
                axons: final(self)@.axons,
                num_of_axons: final(self)@.num_of_axons,
                input_ids: final(self)@.input_ids,
                ..old(self)@
            }),
    {
        let ghost o = self@;
        let mut eligible: Vec<u32> = Vec::new();
        let mut i: usize = 1;
        while i < ids.len()
            invariant
                1 <= i,
                i <= ids@.len() || i == 1,
                ids@.len() <= u32::MAX,
                o.wf(),
                self@ == o,
                forall|k: int| 0 <= k < eligible@.len() ==> #[trigger] o.neurons.contains_key(eligible@[k]) && !o.neurons[eligible@[k]]@.is_output,
                forall|k: int| 1 <= k < i && k < ids@.len() && #[trigger] o.neurons.contains_key(ids@[k]) && !o.neurons[ids@[k]]@.is_output ==> eligible@.contains(ids@[k]),
                eligible@.len() + 1 <= i,
            decreases ids.len() - i,
        {
            let id = ids[i];
            let ghost prev = eligible@;
            if !self.output_ids.contains(&id) && self.neurons.contains_key(&id) {
                proof {
                    assert(o.neurons.contains_key(id));
                }
                eligible.push(id);
                proof {
                    assert(eligible@.last() == id);
                }
            }
            proof {
                assert forall|k: int| 1 <= k < i + 1 && k < ids@.len() && #[trigger] o.neurons.contains_key(ids@[k]) && !o.neurons[ids@[k]]@.is_output implies eligible@.contains(ids@[k]) by {
                    if k == i {
                        assert(o.neurons.contains_key(id));
                        assert(eligible@.last() == id);
                    } else {
                        assert(prev.contains(ids@[k]));
                        let j = choose|j: int| 0 <= j < prev.len() && prev[j] == ids@[k];
                        assert(eligible@[j] == ids@[k]);
                    }
                }
            }
            i = i + 1;
        }
        let target = num_input as usize;
        let mut inputs: Vec<u128> = Vec::new();
        assert(eligible@.len() <= u32::MAX);
        while self.input_ids.len() < target
            invariant
                self@.wf(),
                self@.pristine(),
                self@.neurons.dom() == o.neurons.dom(),
                self@.output_ids == o.output_ids,
                self@.limiter == o.limiter,
                self@.displayed == o.displayed,
                forall|n: u32| #[trigger] self@.neurons.contains_key(n) ==> self@.neurons[n]@.is_output == o.neurons[n]@.is_output,
                forall|k: int| 0 <= k < eligible@.len() ==> #[trigger] o.neurons.contains_key(eligible@[k]) && !o.neurons[eligible@[k]]@.is_output,
                eligible@.len() <= u32::MAX,
                o.neurons.dom().subset_of(ids@.to_set()),
                forall|k: int| 1 <= k < ids@.len() && #[trigger] o.neurons.contains_key(ids@[k]) && !o.neurons[ids@[k]]@.is_output ==> eligible@.contains(ids@[k]),
                inputs@.no_duplicates(),
                inputs@.to_set() == self@.input_ids,
                self@.input_ids.finite(),
                self@.input_ids.len() == inputs@.len(),
                inputs@.len() <= target,
                target == num_input as usize,
                0 <= kb,
                kb + target < u128::MAX,
                na + target < u128::MAX,
                forall|a: u128| #[trigger] self@.axons.contains_key(a) ==> a <= kb + inputs@.len(),
                self@.num_of_axons <= na + inputs@.len(),
                forall|k: int|
                    0 <= k < inputs@.len() ==> {
                        let a = #[trigger] inputs@[k];
                        &&& self@.axons.contains_key(a)
                        &&& self@.axons[a]@.is_input
                        &&& !self@.neurons[self@.axons[a]@.id_sink as u32]@.is_output
                    },
                forall|a: u128| #[trigger]
                    self@.axons.contains_key(a) ==> (o.axons.contains_key(a) && self@.axons[a]
                        == o.axons[a]) || (self@.axons[a]@.is_input && self@.axons[a]@.id_source == 0),
                forall|a: u128| #[trigger]
                    o.axons.contains_key(a) ==> self@.axons.contains_key(a) && self@.axons[a] == o.axons[a],
                forall|n: u32| #[trigger]
                    self@.neurons.contains_key(n) ==> self@.neurons[n]@ == (NeuronModel {
                        input_axons: self@.in_of(n),
                        ..o.neurons[n]@
                    }),
                self@ == (SpirionModel {
                    neurons: self@.neurons,
                    axons: self@.axons,
                    num_of_axons: self@.num_of_axons,
                    input_ids: self@.input_ids,
                    ..o
                }),
            ensures
                inputs@.len() >= target || eligible@.len() == 0,
            decreases target - inputs@.len(),
        {
            if eligible.len() == 0 {
                break;
            }
            let sink_id = eligible[random_usize(0, eligible.len())];
            let ghost before = self@;
            let id = self.add_input(sink_id);
            proof {
                lemma_pristine_kept(self@, before);
                if id != 1 {
                    assert(before.axons.contains_key((id - 1) as u128));
                }
                assert forall|k: int| 0 <= k < inputs@.len() implies inputs@[k] != id by {
                    assert(before.axons.contains_key(inputs@[k]));
                }
                assert(!before.input_ids.contains(id)) by {
                    if before.input_ids.contains(id) {
                        assert(inputs@.to_set().contains(id));
                    }
                }
            }
            let ghost prev = inputs@;
            inputs.push(id);
            proof {
                assert forall|x: u128| inputs@.to_set().contains(x) <==> before.input_ids.insert(id).contains(x) by {
                    if inputs@.contains(x) && x != id {
                        let k = choose|k: int| 0 <= k < inputs@.len() && inputs@[k] == x;
                        assert(prev[k] == x);
                        assert(prev.to_set().contains(x));
                    }
                    if before.input_ids.contains(x) {
                        assert(prev.to_set().contains(x));
                        let k = choose|k: int| 0 <= k < prev.len() && prev[k] == x;
                        assert(inputs@[k] == x);
                    }
                    if x == id {
                        assert(inputs@[prev.len() as int] == id);
                    }
                }
                assert(inputs@.to_set() =~= before.input_ids.insert(id));
                assert forall|k: int| 0 <= k < inputs@.len() implies {
                    let a = #[trigger] inputs@[k];
                    &&& self@.axons.contains_key(a)
                    &&& self@.axons[a]@.is_input
                    &&& !self@.neurons[self@.axons[a]@.id_sink as u32]@.is_output
                } by {
                    let a = inputs@[k];
                    if k < prev.len() {
                        assert(prev[k] == a);
                        assert(before.axons.contains_key(a));
                        let t = before.axons[a]@.id_sink as u32;
                        assert(before.neurons.contains_key(t));
                    } else {
                        assert(a == id);
                        assert(o.neurons.contains_key(sink_id));
                        assert(before.neurons.contains_key(sink_id));
                    }
                }
            }
        }
        proof {
            if inputs@.len() < target {
                assert forall|n: u32| #[trigger] self@.neurons.contains_key(n) implies self@.neurons[n]@.is_output || (
                    ids@.len() > 0 && n == ids@[0]) by {
                    assert(o.neurons.contains_key(n));
                    assert(ids@.to_set().contains(n));
                    let k = choose|k: int| 0 <= k < ids@.len() && ids@[k] == n;
                    if k >= 1 && !self@.neurons[n]@.is_output {
                        assert(eligible@.contains(ids@[k]));
                    }
                }
            }
        }
        inputs
    }
}

// Public
impl Spirion {
    /// New brain with specified inputs and outputs, optional number of neurons
    /// (default 500): `num_output` outputs and that many other neurons are made (see
    /// `populated`), twice as many random picks of two neurons as neurons asked are
    /// wired (see `wire_pick`; a pick never takes the first neuron listed), the first
    /// neurons listed, as many as asked, that are left without outputs take a save
    /// check (see `save_check_step`), and `num_input` inputs are plugged into random
    /// neurons that are not outputs (none listed first). Returns the brain with the ids
    /// of its inputs and of its outputs. When no neuron can take an input, fewer inputs
    /// come back. Asking for neurons or inputs needs two neurons at least.
    pub fn spin_up_new(num_neurons: Option<u32>, num_input: u128, num_output: u32, displayed: bool) -> (r: (
        Self,
        Vec<u128>,
        Vec<u32>,
    ))
        requires
            num_output + (match num_neurons { Some(n) => n, None => 500 }) < u32::MAX,
            2 * (match num_neurons { Some(n) => n, None => 500u32 }) <= u32::MAX,
            (match num_neurons { Some(n) => n, None => 500u32 }) > 0 || num_input > 0 ==> num_output
                + (match num_neurons { Some(n) => n, None => 500u32 }) >= 2,
        ensures
            r.0@.wf(),
            r.0@.pristine(),
            r.0@.limiter,
            r.0@.displayed == displayed,
            num_output <= r.0@.num_of_neurons <= num_output + (match num_neurons {
                Some(n) => n,
                None => 500,
            }),
            forall|n: u32| #[trigger]
                r.0@.neurons.contains_key(n) ==> 1 <= n <= num_output + (match num_neurons {
                    Some(n) => n,
                    None => 500,
                }),
            r.2@.no_duplicates(),
            r.2@.to_set() == r.0@.output_ids,
            r.2@.len() == num_output,
            forall|n: u32| #[trigger] r.0@.output_ids.contains(n) <==> 1 <= n <= num_output,
            forall|k: int| 0 <= k < r.2@.len() ==> r.0@.neurons.contains_key(#[trigger] r.2@[k]) && r.0@.neurons[r.2@[k]]@.is_output,
            sanely_wired(r.0@),
            r.1@.no_duplicates(),
            r.1@.to_set() == r.0@.input_ids,
            r.1@.len() <= num_input as usize,
            r.1@.len() < num_input as usize ==> forall|n: u32, m: u32|
                #[trigger] r.0@.neurons.contains_key(n) && #[trigger] r.0@.neurons.contains_key(m)
                    && !r.0@.neurons[n]@.is_output && !r.0@.neurons[m]@.is_output ==> n == m,
            forall|k: int|
                0 <= k < r.1@.len() ==> {
                    let a = #[trigger] r.1@[k];
                    &&& r.0@.axons.contains_key(a)
                    &&& r.0@.axons[a]@.is_input
                    &&& !r.0@.neurons[r.0@.axons[a]@.id_sink as u32]@.is_output
                },
            made_by_spin_up(r.0@, num_output as int, neurons_asked(num_neurons), displayed),
    {
        let asked: u32 = match num_neurons {
            Some(n) => n,
            None => 500,
        };
        let mut brain = Self::new();
        brain.displayed = displayed;
        brain.populate(num_output, asked);
        let ghost p = brain@;
        let neuron_ids = neuron_ids_of(&brain.neurons);
        proof {
            assert(brain@.neurons.dom().finite());
            assert(neuron_ids@.len() == num_output + asked);
            assert(p.axons =~= Map::<u128, Axion>::empty());
        }
        let ghost mut picks: Seq<(u32, u32)> = Seq::empty();
        if asked > 0 {
            brain.wire_randomly(&neuron_ids, asked * 2, Ghost(0), Ghost(0));
            proof {
                picks = choose|picks: Seq<(u32, u32)>|
                    picks.len() == asked * 2 && (forall|k: int|
                        0 <= k < picks.len() ==> neuron_ids@.skip(1).contains(#[trigger] picks[k].0)
                            && neuron_ids@.skip(1).contains(picks[k].1)) && #[trigger] wired_by(brain@, p, picks);
            }
        } else {
            proof {
                assert(pick_chain(seq![p], picks));
                assert(wired_by(brain@, p, picks));
                assert forall|a: u128| brain@.axons.contains_key(a) implies false by {}
                assert(wired_from(brain@, p, neuron_ids@));
            }
        }
        let ghost w = brain@;
        brain.rescue_or_cull(
            &neuron_ids,
            asked as usize,
            Ghost(2 * asked as int),
            Ghost(4 * asked as int),
        );
        let ghost c = brain@;
        let ghost draws = choose|draws: Seq<(int, Seq<u32>)>|
            draws.len() == asked as usize && (forall|j: int|
                0 <= j < draws.len() ==> save_draw_ok(#[trigger] draws[j], w)) && #[trigger] culled_by(
                c,
                w,
                neuron_ids@.take(asked as int),
                draws,
            );
        proof {
            vstd::set_lib::lemma_len_subset(c.neurons.dom(), neuron_ids@.to_set());
        }
        let inputs = brain.plug_inputs(
            &neuron_ids,
            num_input,
            Ghost(22 * asked as int),
            Ghost(24 * asked as int),
        );
        let outputs = u32_set_to_vec(&brain.output_ids);
        proof {
            let f = brain@;
            assert forall|k: int| 0 <= k < outputs@.len() implies f.neurons.contains_key(#[trigger] outputs@[k])
                && f.neurons[outputs@[k]]@.is_output by {
                assert(outputs@.to_set().contains(outputs@[k]));
            }
            assert forall|a: u128| #[trigger] f.axons.contains_key(a) && !c.axons.contains_key(a) implies {
                &&& f.axons[a]@.is_input
                &&& f.axons[a]@.id_source == 0
                &&& !f.neurons[f.axons[a]@.id_sink as u32]@.is_output
            } by {
                assert(f.input_ids.contains(a));
                assert(inputs@.to_set().contains(a));
                let k = choose|k: int| 0 <= k < inputs@.len() && inputs@[k] == a;
                assert(f.axons.contains_key(inputs@[k]));
            }
            assert(plugged(f, c));
            assert(neurons_asked(num_neurons) == asked);
            assert(populated(p, num_output as int, asked as int, displayed));
            assert(picks.len() == 2 * asked);
            assert(wired_by(w, p, picks));
            assert(draws.len() == asked);
            assert(culled_by(c, w, neuron_ids@.take(asked as int), draws));
            assert(spun_up(f, p, w, c, neuron_ids@, picks, draws, num_output as int, neurons_asked(num_neurons), displayed));
            lemma_made_by_spin_up(f, p, w, c, neuron_ids@, picks, draws, num_output as int, neurons_asked(num_neurons), displayed);
            assert(f.output_ids.subset_of(f.neurons.dom()));
            vstd::set_lib::lemma_len_subset(f.output_ids, f.neurons.dom());
        }
        (brain, inputs, outputs)
    }
}

/// How many of the axons listed in `s` are not in `fired`.
pub open spec fn unfired(s: Seq<u128>, fired: Set<u128>) -> int
    decreases s.len(),
{
    if s.len() == 0 {
        0
    } else {
        unfired(s.drop_last(), fired) + if fired.contains(s.last()) {
            0int
        } else {
            1int
        }
    }
}

proof fn lemma_unfired_bounds(s: Seq<u128>, fired: Set<u128>)
    ensures
        0 <= unfired(s, fired) <= s.len(),
        fired == Set::<u128>::empty() ==> unfired(s, fired) == s.len(),
    decreases s.len(),
{
    if s.len() > 0 {
        lemma_unfired_bounds(s.drop_last(), fired);
    }
}

/// Firing an axon that is not listed leaves the count alone; firing one that is
/// listed (once) and had not fired lowers it by one.
proof fn lemma_unfired_fire(s: Seq<u128>, fired: Set<u128>, a: u128)
    requires
        s.no_duplicates(),
        !fired.contains(a),
    ensures
        !s.contains(a) ==> unfired(s, fired.insert(a)) == unfired(s, fired),
        s.contains(a) ==> unfired(s, fired.insert(a)) == unfired(s, fired) - 1,
    decreases s.len(),
{
    if s.len() > 0 {
        let t = s.drop_last();
        assert(t.no_duplicates());
        lemma_unfired_fire(t, fired, a);
        if s.last() == a {
            assert(!t.contains(a)) by {
                if t.contains(a) {
                    let i = choose|i: int| 0 <= i < t.len() && t[i] == a;
                    assert(s[i] == s[s.len() - 1]);
                }
            }
        } else {
            if s.contains(a) {
                let i = choose|i: int| 0 <= i < s.len() && s[i] == a;
                assert(t[i] == a);
            }
            if t.contains(a) {
                let i = choose|i: int| 0 <= i < t.len() && t[i] == a;
                assert(s[i] == a);
            }
        }
    }
}

/// Room for `k` more firings of a non-input axon, its strength growing by less than
/// 20 a firing and staying within `cap`: its happiness fits an `i32`, its average
/// interval is within `TIME_SPAN_LIMIT`, and its reliability can grow by 5 a firing.
pub open spec fn axon_can_tick(x: AxionModel, k: int, cap: int) -> bool {
    !x.is_input ==> {
        &&& 0 <= x.happyness <= i32::MAX
        &&& 0 <= x.avg_t <= TIME_SPAN_LIMIT
        &&& 0 <= x.reliable
        &&& x.reliable + 5 * k <= i32::MAX - 5
        &&& abs_int(x.strength) + 20 * k <= cap
    }
}

impl SpirionModel {
    /// Room for neuron `n` to go through `k` more ticks, with signals at most `cap` in
    /// magnitude (see `NeuronModel::has_room`).
    pub open spec fn neuron_can_tick(self, n: u32, k: int, cap: int) -> bool {
        self.neurons[n]@.has_room(self.clock, k, cap)
    }

    /// Room for `k` more ticks of the brain with signals at most `cap` in magnitude:
    /// every neuron and every axon has room for them (see `neuron_can_tick` and
    /// `axon_can_tick`), and the clock can count them.
    pub open spec fn can_tick(self, k: int, cap: int) -> bool {
        &&& 0 <= k
        &&& 0 <= cap <= INPUT_CAP
        &&& self.clock + k <= u128::MAX
        &&& forall|n: u32| #[trigger] self.neurons.contains_key(n) ==> self.neuron_can_tick(n, k, cap)
        &&& forall|a: u128| #[trigger] self.axons.contains_key(a) ==> axon_can_tick(self.axons[a]@, k, cap)
    }

    /// Neuron `n` partway through a tick that leaves `k - 1` more: those in `done` have
    /// been updated this tick, and those of its incoming axons in `fired` have fired.
    pub open spec fn neuron_mid_tick(self, n: u32, k: int, cap: int, done: Set<u32>, fired: Set<u128>) -> bool {
        let m = self.neurons[n]@;
        let left = if done.contains(n) {
            k - 1
        } else {
            k
        };
        &&& m.steady(self.clock)
        &&& self.clock + k - 1 - m.last_fired <= TIME_SPAN_LIMIT
        &&& m.happyness + left * m.growth_until(self.clock + k - 1) <= i32::MAX
        &&& abs_total(m.inputs) + unfired(m.input_axons, fired) * cap + (k - 1) * m.input_axons.len()
            * cap <= INPUT_CAP
    }

    /// The brain partway through a tick that leaves `k - 1` more, the neurons in `done`
    /// updated and the axons in `fired` fired (each leaving a neuron in `done`).
    pub open spec fn mid_tick(self, k: int, cap: int, done: Set<u32>, fired: Set<u128>) -> bool {
        &&& 1 <= k
        &&& 0 <= cap <= INPUT_CAP
        &&& self.clock + k - 1 <= u128::MAX
        &&& forall|n: u32| #[trigger]
            self.neurons.contains_key(n) ==> self.neuron_mid_tick(n, k, cap, done, fired)
        &&& forall|a: u128| #[trigger]
            self.axons.contains_key(a) ==> axon_can_tick(
                self.axons[a]@,
                if fired.contains(a) {
                    k - 1
                } else {
                    k
                },
                cap,
            )
        &&& forall|a: u128| #[trigger]
            fired.contains(a) ==> self.axons.contains_key(a) && !self.axons[a]@.is_input
                && done.contains(self.axons[a]@.id_source as u32)
    }
}

/// Changes that keep every neuron's kind and connections and every axon's ends, kind
/// and (for inputs) average interval keep a brain well formed.
proof fn lemma_same_shape_wf(s: SpirionModel, o: SpirionModel)
    requires
        o.wf(),
        s.neurons.dom() == o.neurons.dom(),
        s.axons.dom() == o.axons.dom(),
        s.output_ids == o.output_ids,
        s.input_ids == o.input_ids,
        s.num_of_neurons == o.num_of_neurons,
        forall|n: u32| #[trigger]
            o.neurons.contains_key(n) ==> s.neurons[n]@.is_output == o.neurons[n]@.is_output
                && s.out_of(n) == o.out_of(n) && s.in_of(n) == o.in_of(n),
        forall|a: u128| #[trigger]
            o.axons.contains_key(a) ==> {
                &&& s.axons[a]@.id == o.axons[a]@.id
                &&& s.axons[a]@.id_source == o.axons[a]@.id_source
                &&& s.axons[a]@.id_sink == o.axons[a]@.id_sink
                &&& s.axons[a]@.is_input == o.axons[a]@.is_input
                &&& o.axons[a]@.is_input ==> s.axons[a]@.avg_t == o.axons[a]@.avg_t
            },
    ensures
        s.wf(),
{
    assert forall|m: u32, a: u128|
        s.neurons.contains_key(m) && #[trigger] s.out_of(m).contains(a) implies {
        &&& s.axons.contains_key(a)
        &&& s.axons[a]@.id_source == m
        &&& !s.axons[a]@.is_input
    } by {
        assert(o.neurons.contains_key(m));
        assert(o.out_of(m).contains(a));
    }
    assert forall|m: u32, a: u128|
        s.neurons.contains_key(m) && #[trigger] s.in_of(m).contains(a) implies {
        &&& s.axons.contains_key(a)
        &&& s.axons[a]@.id_sink == m
    } by {
        assert(o.neurons.contains_key(m));
        assert(o.in_of(m).contains(a));
    }
    assert forall|m: u32| #[trigger] s.neurons.contains_key(m) implies s.out_of(m).no_duplicates()
        && s.in_of(m).no_duplicates() by {
        assert(o.neurons.contains_key(m));
    }
    assert forall|a: u128| #[trigger] s.axons.contains_key(a) implies {
        let x = s.axons[a]@;
        &&& s.neurons.contains_key(x.id_sink as u32)
        &&& s.in_of(x.id_sink as u32).contains(a)
        &&& !x.is_input ==> s.neurons.contains_key(x.id_source as u32) && s.out_of(
            x.id_source as u32,
        ).contains(a)
    } by {
        assert(o.axons.contains_key(a));
        let x = o.axons[a]@;
        assert(o.neurons.contains_key(x.id_sink as u32));
        if !x.is_input {
            assert(o.neurons.contains_key(x.id_source as u32));
        }
    }
    assert forall|a: u128| #[trigger] s.axons.contains_key(a) implies s.axons[a]@.id == a by {
        assert(o.axons.contains_key(a));
    }
    assert forall|n: u32| #[trigger] s.neurons.contains_key(n) implies (s.neurons[n]@.is_output
        <==> s.output_ids.contains(n)) by {
        assert(o.neurons.contains_key(n));
    }
    assert forall|a: u128|
        #[trigger] s.axons.contains_key(a) && s.axons[a]@.is_input implies s.axons[a]@.avg_t >= 1 by {
        assert(o.axons.contains_key(a));
    }
}

/// A tick starts from room for `k` ticks: the clock moves on, nothing is updated or
/// fired yet.
proof fn lemma_tick_start(s: SpirionModel, o: SpirionModel, k: int, cap: int)
    requires
        o.wf(),
        o.can_tick(k, cap),
        1 <= k,
        s == (SpirionModel { clock: o.clock + 1, active: s.active, ..o }),
    ensures
        s.wf(),
        s.mid_tick(k, cap, Set::empty(), Set::empty()),
{
    lemma_same_shape_wf(s, o);
    assert forall|n: u32| #[trigger] s.neurons.contains_key(n) implies s.neuron_mid_tick(
        n,
        k,
        cap,
        Set::empty(),
        Set::empty(),
    ) by {
        assert(o.neuron_can_tick(n, k, cap));
        let m = s.neurons[n]@;
        lemma_unfired_bounds(m.input_axons, Set::empty());
        let len = m.input_axons.len() as int;
        assert(len * cap + (k - 1) * len * cap == k * len * cap) by (nonlinear_arith);
    }
}

/// A tick that went through every active neuron leaves room for `k - 1` ticks.
proof fn lemma_tick_end(s: SpirionModel, k: int, cap: int, done: Set<u32>, fired: Set<u128>)
    requires
        s.mid_tick(k, cap, done, fired),
    ensures
        s.can_tick(k - 1, cap),
{
    assert forall|n: u32| #[trigger] s.neurons.contains_key(n) implies s.neuron_can_tick(n, k - 1, cap) by {
        assert(s.neuron_mid_tick(n, k, cap, done, fired));
        let m = s.neurons[n]@;
        let g = m.growth_until(s.clock + k - 1);
        assert((k - 1) * g <= k * g) by (nonlinear_arith)
            requires
                1 <= k,
                0 <= g,
        ;
        lemma_unfired_bounds(m.input_axons, fired);
        let u = unfired(m.input_axons, fired);
        assert(0 <= u * cap) by (nonlinear_arith)
            requires
                0 <= u,
                0 <= cap,
        ;
    }
    assert forall|a: u128| #[trigger] s.axons.contains_key(a) implies axon_can_tick(s.axons[a]@, k - 1, cap) by {
        assert(axon_can_tick(s.axons[a]@, if fired.contains(a) { k - 1 } else { k }, cap));
    }
}

/// The pending inputs of a neuron partway through a tick are within `INPUT_CAP`.
proof fn lemma_mid_tick_inputs(s: SpirionModel, n: u32, k: int, cap: int, done: Set<u32>, fired: Set<u128>)
    requires
        s.mid_tick(k, cap, done, fired),
        s.neurons.contains_key(n),
    ensures
        abs_total(s.neurons[n]@.inputs) + unfired(s.in_of(n), fired) * cap <= INPUT_CAP,
        0 <= unfired(s.in_of(n), fired) * cap,
{
    assert(s.neuron_mid_tick(n, k, cap, done, fired));
    let m = s.neurons[n]@;
    lemma_unfired_bounds(m.input_axons, fired);
    let u = unfired(m.input_axons, fired);
    let len = m.input_axons.len() as int;
    assert(0 <= u * cap && 0 <= (k - 1) * len * cap) by (nonlinear_arith)
        requires
            0 <= u,
            0 <= cap,
            1 <= k,
            0 <= len,
    ;
}

/// An incoming axon of a neuron not yet updated this tick takes on that neuron's
/// happiness: the tick goes on as before.
proof fn lemma_tick_share(
    s: SpirionModel,
    o: SpirionModel,
    id: u32,
    a: u128,
    k: int,
    cap: int,
    done: Set<u32>,
    fired: Set<u128>,
)
    requires
        o.wf(),
        o.mid_tick(k, cap, done, fired),
        o.neurons.contains_key(id),
        !done.contains(id),
        o.axons.contains_key(a),
        s == (SpirionModel { axons: o.axons.insert(a, s.axons[a]), ..o }),
        s.axons[a]@ == (AxionModel { happyness: o.neurons[id]@.happyness, ..o.axons[a]@ }),
    ensures
        s.wf(),
        s.mid_tick(k, cap, done, fired),
{
    assert(o.neuron_mid_tick(id, k, cap, done, fired));
    let g = o.neurons[id]@.growth_until(o.clock + k - 1);
    assert(0 <= k * g) by (nonlinear_arith)
        requires
            1 <= k,
            0 <= g,
    ;
    assert(s.axons.dom() =~= o.axons.dom());
    lemma_same_shape_wf(s, o);
    assert forall|n: u32| #[trigger] s.neurons.contains_key(n) implies s.neuron_mid_tick(n, k, cap, done, fired) by {
        assert(o.neuron_mid_tick(n, k, cap, done, fired));
    }
    assert forall|b: u128| #[trigger] s.axons.contains_key(b) implies axon_can_tick(
        s.axons[b]@,
        if fired.contains(b) {
            k - 1
        } else {
            k
        },
        cap,
    ) by {
        assert(o.axons.contains_key(b));
    }
    assert forall|b: u128| #[trigger] fired.contains(b) implies s.axons.contains_key(b)
        && !s.axons[b]@.is_input && done.contains(s.axons[b]@.id_source as u32) by {
        assert(o.axons.contains_key(b));
    }
}

/// A neuron not yet updated this tick is updated at the clock (and, if it then fires,
/// starts its interval over): it joins `done`, and the tick goes on.
proof fn lemma_tick_refresh(
    s: SpirionModel,
    o: SpirionModel,
    id: u32,
    k: int,
    cap: int,
    done: Set<u32>,
    fired: Set<u128>,
)
    requires
        o.wf(),
        o.mid_tick(k, cap, done, fired),
        o.neurons.contains_key(id),
        !done.contains(id),
        s == (SpirionModel { neurons: o.neurons.insert(id, s.neurons[id]), ..o }),
        s.neurons[id]@ == o.neurons[id]@.updated(o.clock) || s.neurons[id]@ == (NeuronModel {
            delta_t: 0,
            ..o.neurons[id]@.updated(o.clock)
        }),
    ensures
        s.wf(),
        s.mid_tick(k, cap, done.insert(id), fired),
{
    let m = o.neurons[id]@;
    assert(o.neuron_mid_tick(id, k, cap, done, fired));
    let end = o.clock + k - 1;
    let g = m.growth_until(end);
    assert(0 <= k * g && (k - 1) * g + g == k * g) by (nonlinear_arith)
        requires
            1 <= k,
            0 <= g,
    ;
    m.lemma_update_steady(o.clock, end);
    let m2 = s.neurons[id]@;
    let g2 = m2.growth_until(end);
    assert(m2.growth_until(end) == m.updated(o.clock).growth_until(end));
    assert((k - 1) * g2 <= (k - 1) * g) by (nonlinear_arith)
        requires
            1 <= k,
            0 <= g2 <= g,
    ;
    assert(s.neurons.dom() =~= o.neurons.dom());
    lemma_same_shape_wf(s, o);
    let d2 = done.insert(id);
    assert forall|n: u32| #[trigger] s.neurons.contains_key(n) implies s.neuron_mid_tick(n, k, cap, d2, fired) by {
        assert(o.neuron_mid_tick(n, k, cap, done, fired));
    }
    assert forall|b: u128| #[trigger] fired.contains(b) implies s.axons.contains_key(b)
        && !s.axons[b]@.is_input && d2.contains(s.axons[b]@.id_source as u32) by {}
}

/// An axon leaving an updated neuron, not yet fired this tick, fires with the
/// neuron's interval `dt`; a nonzero signal is added to the pending inputs of the
/// neuron it reaches. It joins `fired`, and the tick goes on.
proof fn lemma_tick_fire(
    s: SpirionModel,
    mid: SpirionModel,
    o: SpirionModel,
    a: u128,
    st: i32,
    dt: int,
    k: int,
    cap: int,
    done: Set<u32>,
    fired: Set<u128>,
)
    requires
        o.wf(),
        o.mid_tick(k, cap, done, fired),
        o.axons.contains_key(a),
        !o.axons[a]@.is_input,
        done.contains(o.axons[a]@.id_source as u32),
        !fired.contains(a),
        0 <= dt <= TIME_SPAN_LIMIT,
        o.axons[a]@.may_mutate_to(st as int),
        mid == (SpirionModel { axons: o.axons.insert(a, mid.axons[a]), ..o }),
        mid.axons[a]@ == (AxionModel { strength: st as int, ..o.axons[a]@ }).after_interval(dt),
        st == 0 ==> s == (SpirionModel { active: s.active, ..mid }),
        st != 0 ==> {
            let t = o.axons[a]@.id_sink as u32;
            &&& s == (SpirionModel {
                neurons: mid.neurons.insert(t, s.neurons[t]),
                active: s.active,
                ..mid
            })
            &&& s.neurons[t]@ == (NeuronModel {
                inputs: mid.neurons[t]@.inputs.push(st),
                ..mid.neurons[t]@
            })
        },
    ensures
        s.wf(),
        s.mid_tick(k, cap, done, fired.insert(a)),
        s.neurons.dom() == o.neurons.dom(),
        forall|n: u32| #[trigger]
            o.neurons.contains_key(n) ==> s.neurons[n]@ == (NeuronModel {
                inputs: s.neurons[n]@.inputs,
                ..o.neurons[n]@
            }),
        forall|n: u32| #[trigger]
            o.neurons.contains_key(n) ==> o.neurons[n]@.inputs.is_prefix_of(s.neurons[n]@.inputs),
        forall|n: u32| #[trigger]
            o.neurons.contains_key(n) && s.neurons[n]@.inputs.len() > o.neurons[n]@.inputs.len()
                ==> st != 0 && n == o.axons[a]@.id_sink,
        forall|b: u128| #[trigger]
            o.axons.contains_key(b) ==> same_ends(s.axons[b]@, o.axons[b]@) && (b != a ==> s.axons[b]
                == o.axons[b]) && s.axons[b]@.happyness == o.axons[b]@.happyness,
        fired_from(o.axons[a]@, s.axons[a]@, dt),
        s.axons[a]@.strength == st,
{
    let x = o.axons[a]@;
    let t = x.id_sink as u32;
    let f2 = fired.insert(a);
    assert(axon_can_tick(x, k, cap));
    assert(o.neurons.contains_key(t));
    assert(o.in_of(t).contains(a));
    assert(s.axons.dom() =~= o.axons.dom());
    assert(s.neurons.dom() =~= o.neurons.dom());
    let step = choose|step: int, negate: bool|
        -20 < step < 20 && (negate ==> x.happyness > 0) && st == #[trigger] mutated(
            x.strength,
            step,
            negate,
        );
    assert(abs_int(st as int) + 20 * (k - 1) <= cap);
    assert(nudged(x.strength, st as int));
    assert forall|n: u32| #[trigger]
        o.neurons.contains_key(n) implies s.neurons[n]@ == (NeuronModel {
            inputs: s.neurons[n]@.inputs,
            ..o.neurons[n]@
        }) by {}
    lemma_same_shape_wf(s, o);
    assert forall|n: u32| #[trigger] s.neurons.contains_key(n) implies s.neuron_mid_tick(n, k, cap, done, f2) by {
        assert(o.neuron_mid_tick(n, k, cap, done, fired));
        let ins = o.in_of(n);
        lemma_unfired_fire(ins, fired, a);
        lemma_mid_tick_inputs(o, n, k, cap, done, fired);
        let u = unfired(ins, fired);
        lemma_unfired_bounds(ins, f2);
        let len = ins.len() as int;
        assert(s.in_of(n) == ins);
        if n == t {
            assert(ins.contains(a));
            assert((u - 1) * cap == u * cap - cap && 0 <= (u - 1) * cap && 0 <= (k - 1) * len * cap) by (nonlinear_arith)
                requires
                    1 <= u,
                    0 <= cap,
                    1 <= k,
                    0 <= len,
            ;
            if st != 0 {
                lemma_abs_total_push(o.neurons[n]@.inputs, st);
                assert(abs_total(s.neurons[n]@.inputs) <= abs_total(o.neurons[n]@.inputs) + cap);
            } else {
                assert(s.neurons[n] == o.neurons[n]);
            }
            assert(s.neurons[n]@.steady(s.clock));
        } else {
            assert(s.neurons[n] == o.neurons[n]);
            assert(!ins.contains(a)) by {
                if ins.contains(a) {
                    assert(o.axons[a]@.id_sink == n);
                }
            }
        }
    }
    assert forall|b: u128| #[trigger] s.axons.contains_key(b) implies axon_can_tick(
        s.axons[b]@,
        if f2.contains(b) {
            k - 1
        } else {
            k
        },
        cap,
    ) by {
        assert(o.axons.contains_key(b));
    }
    assert forall|b: u128| #[trigger] f2.contains(b) implies s.axons.contains_key(b)
        && !s.axons[b]@.is_input && done.contains(s.axons[b]@.id_source as u32) by {
        if b != a {
            assert(fired.contains(b));
        }
    }
}

/// Removing neurons or axons keeps the room for ticks.
proof fn lemma_prune_keeps_tick(s: SpirionModel, o: SpirionModel, k: int, cap: int)
    requires
        o.wf(),
        s.wf(),
        o.can_tick(k, cap),
        pruned_from(s, o),
    ensures
        s.can_tick(k, cap),
{
    assert forall|n: u32| #[trigger] s.neurons.contains_key(n) implies s.neuron_can_tick(n, k, cap) by {
        assert(o.neurons.contains_key(n));
        assert(o.neuron_can_tick(n, k, cap));
        let si = s.in_of(n);
        let oi = o.in_of(n);
        assert forall|x: u128| si.to_set().contains(x) implies oi.to_set().contains(x) by {
            assert(si.contains(x));
            assert(s.axons.contains_key(x));
            assert(o.axons.contains_key(x));
        }
        si.unique_seq_to_set();
        oi.unique_seq_to_set();
        vstd::set_lib::lemma_len_subset(si.to_set(), oi.to_set());
        let l1 = si.len() as int;
        let l2 = oi.len() as int;
        assert(k * l1 * cap <= k * l2 * cap) by (nonlinear_arith)
            requires
                0 <= k,
                0 <= cap,
                0 <= l1 <= l2,
        ;
    }
    assert forall|a: u128| #[trigger] s.axons.contains_key(a) implies axon_can_tick(s.axons[a]@, k, cap) by {
        assert(o.axons.contains_key(a));
    }
}

/// Axons `x` and `y` have the same id, ends and kind.
pub open spec fn same_ends(x: AxionModel, y: AxionModel) -> bool {
    &&& x.id == y.id
    &&& x.id_source == y.id_source
    &&& x.id_sink == y.id_sink
    &&& x.is_input == y.is_input
}

/// Strength `s1` is `s0` moved by less than 20 either way, then possibly negated, and
/// kept within -100 to 100.
pub open spec fn nudged(s0: int, s1: int) -> bool {
    exists|step: int, negate: bool| -20 < step < 20 && s1 == #[trigger] mutated(s0, step, negate)
}

/// Axon `y` is axon `x` fired `dt` ticks after its source last fired: its strength
/// nudged (see `nudged`), its reliability and average interval moved by the interval
/// (see `AxionModel::after_interval`); its happiness aside, nothing else changed.
pub open spec fn fired_from(x: AxionModel, y: AxionModel, dt: int) -> bool {
    &&& nudged(x.strength, y.strength)
    &&& y == (AxionModel { strength: y.strength, happyness: y.happyness, ..x }).after_interval(dt)
}

/// Neuron `n` of `s` dies in its turn at clock `time`, having received the pending
/// inputs `pre[n]` by then: it is active, not an output, fed by no registered input,
/// and at least `MAX_HAPPY_VALUE` unhappy once updated.
pub open spec fn dies_in_turn(s: SpirionModel, n: u32, time: int, pre: Map<u32, Seq<i32>>) -> bool {
    &&& s.active.contains(n)
    &&& s.neurons.contains_key(n)
    &&& !s.neurons[n]@.is_output
    &&& !has_registered_input(s, n)
    &&& turn_of(s.neurons[n]@, time, pre[n]).happyness >= MAX_HAPPY_VALUE
}

/// Neuron `n` of `s` fires in its turn at clock `time`, having received the pending
/// inputs `pre[n]` by then: it is active, not an output, and wants to fire once updated.
pub open spec fn fires_in_turn(s: SpirionModel, n: u32, time: int, pre: Map<u32, Seq<i32>>) -> bool {
    &&& s.active.contains(n)
    &&& s.neurons.contains_key(n)
    &&& !s.neurons[n]@.is_output
    &&& turn_of(s.neurons[n]@, time, pre[n]).wants_to_fire()
}

/// `a` and `b` agree on everything but their pending inputs and connections.
pub open spec fn same_state(a: NeuronModel, b: NeuronModel) -> bool {
    a == (NeuronModel {
        inputs: a.inputs,
        output_axons: a.output_axons,
        input_axons: a.input_axons,
        ..b
    })
}

/// A neuron's turn in a tick at clock `time`: it is updated, and its interval starts
/// over if it then wants to fire.
pub open spec fn after_turn(m: NeuronModel, time: int) -> NeuronModel {
    let u = m.updated(time);
    NeuronModel {
        delta_t: if u.wants_to_fire() {
            0
        } else {
            u.delta_t
        },
        ..u
    }
}

/// Neuron `m` updated at clock `time`, with the pending inputs `pre` it had received by
/// its turn.
pub open spec fn turn_of(m: NeuronModel, time: int, pre: Seq<i32>) -> NeuronModel {
    NeuronModel { inputs: pre, ..m }.updated(time)
}

/// What an active neuron `before` became in its turn at clock `time`, having received
/// the pending inputs `pre` by then: updated, its interval starting over if it then
/// wanted to fire, its pending inputs then followed by any signals that came after.
pub open spec fn visited(before: NeuronModel, after: NeuronModel, time: int, pre: Seq<i32>) -> bool {
    &&& before.inputs.is_prefix_of(pre)
    &&& same_state(after, after_turn(NeuronModel { inputs: pre, ..before }, time))
    &&& turn_of(before, time, pre).inputs.is_prefix_of(after.inputs)
}

/// One tick took `before` to `after` and reported the outputs `out`, each active neuron
/// `n` having received the pending inputs `pre[n]` by its turn:
/// - the clock moved on by one (see `ticked`);
/// - every neuron that was active took its turn (see `visited`), every other one only
///   received signals;
/// - a neuron left exactly when it died in its turn (see `dies_in_turn`);
/// - the outputs reported are, once each, the active outputs that wanted to fire after
///   their turn;
/// - the neurons active for the next tick were not active in this one, and of the
///   neurons still there they are those that were not active and received a signal;
/// - every axon keeps its ends and kind, and takes on the happiness the neuron it
///   reaches had before its turn, if that neuron was active; an axon leaving a neuron
///   that fired in its turn (see `fires_in_turn`) fired with that neuron's interval
///   (see `fired_from`) and stayed only if its strength came out nonzero; any other
///   axon is as it was but for its happiness; an axon left only if it fired or
///   touched a neuron that left.
pub open spec fn one_tick(
    before: SpirionModel,
    after: SpirionModel,
    out: Seq<u32>,
    pre: Map<u32, Seq<i32>>,
) -> bool {
    let t = before.clock + 1;
    &&& ticked(after, before, 1)
    &&& forall|n: u32| #[trigger]
        after.neurons.contains_key(n) ==> if before.active.contains(n) {
            visited(before.neurons[n]@, after.neurons[n]@, t, pre[n])
        } else {
            same_state(after.neurons[n]@, before.neurons[n]@)
                && before.neurons[n]@.inputs.is_prefix_of(after.neurons[n]@.inputs)
        }
    &&& forall|n: u32| #[trigger]
        before.neurons.contains_key(n) ==> (!after.neurons.contains_key(n) <==> dies_in_turn(
            before,
            n,
            t,
            pre,
        ))
    &&& out.no_duplicates()
    &&& forall|x: u32| #[trigger]
        out.contains(x) <==> {
            &&& before.active.contains(x)
            &&& before.neurons.contains_key(x)
            &&& before.neurons[x]@.is_output
            &&& turn_of(before.neurons[x]@, t, pre[x]).wants_to_fire()
        }
    &&& forall|n: u32| #[trigger]
        after.neurons.contains_key(n) && !before.active.contains(n)
            && after.neurons[n]@.inputs.len() > before.neurons[n]@.inputs.len()
            ==> after.active.contains(n)
    &&& after.active.disjoint(before.active)
    &&& forall|n: u32| #[trigger]
        after.active.contains(n) ==> before.neurons.contains_key(n) && (after.neurons.contains_key(n)
            ==> after.neurons[n]@.inputs.len() > before.neurons[n]@.inputs.len())
    &&& forall|a: u128| #[trigger]
        after.axons.contains_key(a) ==> {
            let x = before.axons[a]@;
            let y = after.axons[a]@;
            let src = x.id_source as u32;
            let sink = x.id_sink as u32;
            &&& same_ends(y, x)
            &&& y.happyness == if before.active.contains(sink) && before.neurons.contains_key(sink) {
                before.neurons[sink]@.happyness
            } else {
                x.happyness
            }
            &&& if !x.is_input && fires_in_turn(before, src, t, pre) {
                fired_from(x, y, turn_of(before.neurons[src]@, t, pre[src]).delta_t) && y.strength != 0
            } else {
                y == (AxionModel { happyness: y.happyness, ..x })
            }
        }
    &&& forall|a: u128| #[trigger]
        before.axons.contains_key(a) && !after.axons.contains_key(a) ==> {
            ||| !before.axons[a]@.is_input && fires_in_turn(
                before,
                before.axons[a]@.id_source as u32,
                t,
                pre,
            )
            ||| exists|n: u32|
                before.neurons.contains_key(n) && !#[trigger] after.neurons.contains_key(n) && touches(
                    before.axons[a]@,
                    n,
                )
        }
}

/// Some incoming axon of neuron `n` is a registered input.
pub open spec fn has_registered_input(s: SpirionModel, n: u32) -> bool {
    exists|j: int| 0 <= j < s.in_of(n).len() && s.input_ids.contains(#[trigger] s.in_of(n)[j])
}

/// A neuron that had no registered input when a tick began has none while the tick
/// removes axons and neurons: every axon that is left kept the neuron it reaches.
proof fn lemma_no_registered_input(s: SpirionModel, main: SpirionModel, o: SpirionModel, d: u32)
    requires
        s.wf(),
        o.wf(),
        s.input_ids == o.input_ids,
        s.neurons.contains_key(d),
        o.neurons.contains_key(d),
        !has_registered_input(o, d),
        forall|a: u128| #[trigger]
            s.axons.contains_key(a) ==> main.axons.contains_key(a) && s.axons[a] == main.axons[a],
        forall|a: u128| #[trigger]
            main.axons.contains_key(a) ==> o.axons.contains_key(a) && main.axons[a]@.id_sink
                == o.axons[a]@.id_sink,
    ensures
        !has_registered_input(s, d),
{
    if has_registered_input(s, d) {
        let w = choose|w: int| 0 <= w < s.in_of(d).len() && s.input_ids.contains(#[trigger] s.in_of(d)[w]);
        let a = s.in_of(d)[w];
        assert(s.in_of(d).contains(a));
        assert(s.axons.contains_key(a));
        assert(main.axons.contains_key(a));
        assert(o.axons.contains_key(a));
        assert(o.in_of(d).contains(a));
        let v = choose|v: int| 0 <= v < o.in_of(d).len() && o.in_of(d)[v] == a;
        assert(o.input_ids.contains(o.in_of(d)[v]));
    }
}

/// Axon `a` of `o` is `y` partway through a tick at clock `time`, the neurons in `done`
/// having taken their turn with the pending inputs `pre`: it took on the happiness of
/// the neuron it reaches if that took its turn; it fired if the neuron it leaves fired
/// in its turn, and is then marked for removal in `dropped` exactly when its strength
/// came out zero; otherwise it is as it was but for its happiness.
pub open spec fn axon_mid_tick(
    o: SpirionModel,
    y: AxionModel,
    a: u128,
    time: int,
    done: Set<u32>,
    pre: Map<u32, Seq<i32>>,
    dropped: Seq<u128>,
) -> bool {
    let x = o.axons[a]@;
    let sink = x.id_sink as u32;
    let src = x.id_source as u32;
    &&& same_ends(y, x)
    &&& y.happyness == if done.contains(sink) && o.neurons.contains_key(sink) {
        o.neurons[sink]@.happyness
    } else {
        x.happyness
    }
    &&& if !x.is_input && done.contains(src) && fires_in_turn(o, src, time, pre) {
        &&& fired_from(x, y, turn_of(o.neurons[src]@, time, pre[src]).delta_t)
        &&& (y.strength == 0 <==> dropped.contains(a))
    } else {
        &&& y == (AxionModel { happyness: y.happyness, ..x })
        &&& !dropped.contains(a)
    }
}

/// After neuron `id`'s turn took `s` to `f` (see `visit`), every axon of `o` is where
/// the tick has it with `id` added to `done` (see `axon_mid_tick`).
proof fn lemma_axons_after_visit(
    o: SpirionModel,
    s: SpirionModel,
    f: SpirionModel,
    id: u32,
    t: int,
    done: Set<u32>,
    pre: Map<u32, Seq<i32>>,
    p2: Map<u32, Seq<i32>>,
    dropped_before: Seq<u128>,
    dropped_after: Seq<u128>,
)
    requires
        !done.contains(id),
        o.active.contains(id),
        s.clock == t,
        s.neurons.dom() == o.neurons.dom(),
        s.axons.dom() == o.axons.dom(),
        f.axons.dom() == o.axons.dom(),
        forall|a: u128| #[trigger] o.axons.contains_key(a) ==> axon_mid_tick(o, s.axons[a]@, a, t, done, pre, dropped_before),
        s.neurons.contains_key(id) ==> {
            &&& s.neurons[id]@.happyness == o.neurons[id]@.happyness
            &&& s.neurons[id]@.is_output == o.neurons[id]@.is_output
            &&& p2 == pre.insert(id, s.neurons[id]@.inputs)
            &&& turn_of(o.neurons[id]@, t, p2[id]) == s.neurons[id]@.updated(s.clock)
        },
        !s.neurons.contains_key(id) ==> p2 == pre,
        forall|b: u128| #[trigger]
            s.axons.contains_key(b) ==> same_ends(f.axons[b]@, s.axons[b]@)
                && (s.axons[b]@.id_source != id || s.axons[b]@.is_input
                ==> f.axons[b]@ == (AxionModel {
                happyness: f.axons[b]@.happyness,
                ..s.axons[b]@
            })),
        dropped_before.is_prefix_of(dropped_after),
        forall|j: int|
            dropped_before.len() <= j < dropped_after.len() ==> {
                let b = #[trigger] dropped_after[j];
                &&& s.axons.contains_key(b)
                &&& !s.axons[b]@.is_input
                &&& s.axons[b]@.id_source == id
            },
        forall|b: u128| #[trigger]
            s.axons.contains_key(b) ==> f.axons[b]@.happyness == if s.axons[b]@.id_sink == id
                && s.neurons.contains_key(id) {
                s.neurons[id]@.happyness
            } else {
                s.axons[b]@.happyness
            },
        !(s.neurons.contains_key(id) && !s.neurons[id]@.is_output && s.neurons[id]@.updated(
            s.clock,
        ).wants_to_fire()) ==> dropped_after == dropped_before && forall|b: u128| #[trigger]
            s.axons.contains_key(b) ==> f.axons[b]@ == (AxionModel {
                happyness: f.axons[b]@.happyness,
                ..s.axons[b]@
            }),
        forall|b: u128| #[trigger]
            s.axons.contains_key(b) && !s.axons[b]@.is_input && s.axons[b]@.id_source == id
                && s.neurons.contains_key(id) && !s.neurons[id]@.is_output
                && s.neurons[id]@.updated(s.clock).wants_to_fire() ==> fired_from(
                s.axons[b]@,
                f.axons[b]@,
                s.neurons[id]@.updated(s.clock).delta_t,
            ) && (f.axons[b]@.strength == 0 <==> exists|x: int|
                dropped_before.len() <= x < dropped_after.len() && dropped_after[x] == b),
    ensures
        forall|a: u128| #[trigger] o.axons.contains_key(a) ==> axon_mid_tick(o, f.axons[a]@, a, t, done.insert(id), p2, dropped_after),
{
    let d2 = done.insert(id);
    assert forall|a: u128| #[trigger] o.axons.contains_key(a) implies axon_mid_tick(o, f.axons[a]@, a, t, d2, p2, dropped_after) by {
        assert(s.axons.contains_key(a));
        assert(axon_mid_tick(o, s.axons[a]@, a, t, done, pre, dropped_before));
        o.axons[a].lemma_ends_in_range();
        let x = o.axons[a]@;
        let src = x.id_source as u32;
        let sink = x.id_sink as u32;
        assert(d2.contains(sink) == (done.contains(sink) || sink == id));
        let y = f.axons[a]@;
        let ys = s.axons[a]@;
        assert(same_ends(y, x));
        assert(ys.id_sink == x.id_sink);
        assert(y.happyness == if d2.contains(sink) && o.neurons.contains_key(sink) {
            o.neurons[sink]@.happyness
        } else {
            x.happyness
        });
        let fires_now = !x.is_input && d2.contains(src) && fires_in_turn(o, src, t, p2);
        if src != id {
            assert(p2[src] == pre[src]);
            assert(fires_now == (!x.is_input && done.contains(src) && fires_in_turn(o, src, t, pre)));
            assert(y == (AxionModel { happyness: y.happyness, ..ys }));
            assert(dropped_after.contains(a) <==> dropped_before.contains(a)) by {
                if dropped_after.contains(a) {
                    let w = choose|w: int| 0 <= w < dropped_after.len() && dropped_after[w] == a;
                    if w >= dropped_before.len() {
                        assert(s.axons[dropped_after[w]]@.id_source == id);
                    } else {
                        assert(dropped_before[w] == a);
                    }
                }
                if dropped_before.contains(a) {
                    let w = choose|w: int| 0 <= w < dropped_before.len() && dropped_before[w] == a;
                    assert(dropped_after[w] == a);
                }
            }
        } else if !x.is_input {
            assert(!dropped_before.contains(a));
            assert(ys == (AxionModel { happyness: ys.happyness, ..x }));
            if s.neurons.contains_key(id) {
                assert(fires_now == (!s.neurons[id]@.is_output && s.neurons[id]@.updated(s.clock).wants_to_fire()));
            } else {
                assert(!fires_now);
            }
            assert(dropped_after.contains(a) <==> exists|w: int|
                dropped_before.len() <= w < dropped_after.len() && dropped_after[w] == a) by {
                if dropped_after.contains(a) {
                    let w = choose|w: int| 0 <= w < dropped_after.len() && dropped_after[w] == a;
                    if w < dropped_before.len() {
                        assert(dropped_before[w] == a);
                    }
                }
            }
        } else {
            assert(!fires_now);
            assert(!dropped_after.contains(a)) by {
                if dropped_after.contains(a) {
                    let w = choose|w: int| 0 <= w < dropped_after.len() && dropped_after[w] == a;
                    if w < dropped_before.len() {
                        assert(dropped_before[w] == a);
                    }
                }
            }
        }
    }
}

/// Every neuron marked for removal has been updated this tick and, while it is still
/// there, is not an output and is at least `MAX_HAPPY_VALUE` unhappy.
pub open spec fn doomed_ok(s: SpirionModel, doomed: Seq<u32>, done: Set<u32>) -> bool {
    forall|j: int|
        0 <= j < doomed.len() ==> done.contains(#[trigger] doomed[j]) && (s.neurons.contains_key(
            doomed[j],
        ) ==> !s.neurons[doomed[j]]@.is_output && s.neurons[doomed[j]]@.happyness >= MAX_HAPPY_VALUE)
}

/// Every id reported is a registered output.
pub open spec fn outputs_ok(s: SpirionModel, outputs: Seq<u32>) -> bool {
    forall|j: int| 0 <= j < outputs.len() ==> s.output_ids.contains(#[trigger] outputs[j])
}

/// Ticking
impl Spirion {
    /// Gives every existing axon in `ins` (the incoming axons of neuron `id`) the
    /// happiness `happy` of that neuron, and tells whether any of `ins` is a
    /// registered input.
    fn share_happiness(
        &mut self,
        id: u32,
        ins: &Vec<u128>,
        happy: u32,
        Ghost(k): Ghost<int>,
        Ghost(cap): Ghost<int>,
        Ghost(done): Ghost<Set<u32>>,
        Ghost(fired): Ghost<Set<u128>>,
    ) -> (has_input: bool)
        requires
            old(self)@.wf(),
            old(self)@.mid_tick(k, cap, done, fired),
            old(self)@.neurons.contains_key(id),
            !done.contains(id),
            happy == old(self)@.neurons[id]@.happyness,
        ensures
            final(self)@.wf(),
            final(self)@.mid_tick(k, cap, done, fired),
            final(self)@ == (SpirionModel { axons: final(self)@.axons, ..old(self)@ }),
            final(self)@.axons.dom() == old(self)@.axons.dom(),
            forall|a: u128| #[trigger]
                final(self)@.axons.contains_key(a) ==> final(self)@.axons[a]@ == (AxionModel {
                    happyness: final(self)@.axons[a]@.happyness,
                    ..old(self)@.axons[a]@
                }),
            forall|a: u128| #[trigger]
                final(self)@.axons.contains_key(a) ==> final(self)@.axons[a]@.happyness == if ins@.contains(
                    a,
                ) {
                    happy as int
                } else {
                    old(self)@.axons[a]@.happyness
                },
            has_input == exists|j: int|
                0 <= j < ins@.len() && old(self)@.input_ids.contains(#[trigger] ins@[j]),
    {
        let ghost o = self@;
        let mut has_input = false;
        let mut j: usize = 0;
        while j < ins.len()
            invariant
                j <= ins@.len(),
                self@.wf(),
                self@.mid_tick(k, cap, done, fired),
                self@ == (SpirionModel { axons: self@.axons, ..o }),
                self@.axons.dom() == o.axons.dom(),
                forall|a: u128| #[trigger]
                    self@.axons.contains_key(a) ==> self@.axons[a]@ == (AxionModel {
                        happyness: self@.axons[a]@.happyness,
                        ..o.axons[a]@
                    }),
                o.neurons.contains_key(id),
                !done.contains(id),
                happy == o.neurons[id]@.happyness,
                has_input == exists|j2: int| 0 <= j2 < j && o.input_ids.contains(#[trigger] ins@[j2]),
                forall|a: u128| #[trigger]
                    self@.axons.contains_key(a) ==> self@.axons[a]@.happyness == if ins@.take(
                        j as int,
                    ).contains(a) {
                        happy as int
                    } else {
                        o.axons[a]@.happyness
                    },
            decreases ins.len() - j,
        {
            let a = ins[j];
            if self.input_ids.contains(&a) {
                has_input = true;
            }
            let ghost before = self@;
            match self.axons.remove(&a) {
                Some(mut axon) => {
                    axon.update_happyness(happy);
                    self.axons.insert(a, axon);
                    proof {
                        assert(self@.axons =~= before.axons.insert(a, self@.axons[a]));
                        lemma_tick_share(self@, before, id, a, k, cap, done, fired);
                    }
                },
                None => {
                    proof {
                        assert(self@.axons =~= before.axons);
                    }
                },
            }
            proof {
                assert forall|b: u128| #[trigger] self@.axons.contains_key(b) implies self@.axons[b]@.happyness
                    == if ins@.take(j + 1).contains(b) {
                    happy as int
                } else {
                    o.axons[b]@.happyness
                } by {
                    let t0 = ins@.take(j as int);
                    let t1 = ins@.take(j + 1);
                    assert(t1 =~= t0.push(a));
                    if t1.contains(b) && b != a {
                        let w = choose|w: int| 0 <= w < t1.len() && t1[w] == b;
                        assert(t0[w] == b);
                    }
                    if t0.contains(b) {
                        let w = choose|w: int| 0 <= w < t0.len() && t0[w] == b;
                        assert(t1[w] == b);
                    }
                    if b == a {
                        assert(t1[j as int] == b);
                    }
                }
                assert forall|j2: int| 0 <= j2 < j + 1 && o.input_ids.contains(#[trigger] ins@[j2]) implies
                    has_input by {
                    if j2 == j {
                        assert(o.input_ids.contains(a));
                    }
                }
                if has_input && !o.input_ids.contains(a) {
                    let j2 = choose|j2: int| 0 <= j2 < j && o.input_ids.contains(#[trigger] ins@[j2]);
                }
            }
            j = j + 1;
        }
        proof {
            assert(ins@.take(ins@.len() as int) =~= ins@);
        }
        has_input
    }

    /// Fires, in order, the axons `outs` leaving neuron `id` with its interval `dt`.
    /// A nonzero signal goes to the pending inputs of the neuron the axon reaches, which
    /// becomes active unless it was active when the tick began (`was_active`); an axon
    /// whose strength came out zero is marked for removal in `dropped`.
    fn fire_along(
        &mut self,
        id: u32,
        outs: &Vec<u128>,
        dt: u32,
        was_active: &HashSet<u32>,
        dropped: &mut Vec<u128>,
        Ghost(k): Ghost<int>,
        Ghost(cap): Ghost<int>,
        Ghost(done): Ghost<Set<u32>>,
        Ghost(fired): Ghost<Set<u128>>,
    ) -> (nf: Ghost<Set<u128>>)
        requires
            old(self)@.wf(),
            old(self)@.mid_tick(k, cap, done, fired),
            old(self)@.neurons.contains_key(id),
            done.contains(id),
            outs@ == old(self)@.out_of(id),
            dt <= TIME_SPAN_LIMIT,
            forall|j: int| 0 <= j < outs@.len() ==> !fired.contains(#[trigger] outs@[j]),
        ensures
            final(self)@.wf(),
            final(self)@.mid_tick(k, cap, done, nf@),
            final(self)@ == (SpirionModel {
                neurons: final(self)@.neurons,
                axons: final(self)@.axons,
                active: final(self)@.active,
                ..old(self)@
            }),
            final(self)@.neurons.dom() == old(self)@.neurons.dom(),
            final(self)@.axons.dom() == old(self)@.axons.dom(),
            forall|n: u32| #[trigger]
                old(self)@.neurons.contains_key(n) ==> final(self)@.neurons[n]@ == (NeuronModel {
                    inputs: final(self)@.neurons[n]@.inputs,
                    ..old(self)@.neurons[n]@
                }),
            forall|n: u32| #[trigger]
                old(self)@.neurons.contains_key(n) ==> old(self)@.neurons[n]@.inputs.is_prefix_of(
                    final(self)@.neurons[n]@.inputs,
                ),
            forall|n: u32| #[trigger]
                old(self)@.neurons.contains_key(n) && !was_active@.contains(n)
                    && final(self)@.neurons[n]@.inputs.len() > old(self)@.neurons[n]@.inputs.len()
                    ==> final(self)@.active.contains(n),
            old(self)@.active.subset_of(final(self)@.active),
            forall|n: u32| #[trigger]
                final(self)@.active.contains(n) ==> old(self)@.active.contains(n)
                    || !was_active@.contains(n),
            forall|n: u32| #[trigger]
                final(self)@.active.contains(n) && !old(self)@.active.contains(n)
                    ==> old(self)@.neurons.contains_key(n) && final(self)@.neurons[n]@.inputs.len()
                    > old(self)@.neurons[n]@.inputs.len(),
            forall|b: u128| #[trigger]
                old(self)@.axons.contains_key(b) ==> same_ends(final(self)@.axons[b]@, old(self)@.axons[b]@)
                    && (old(self)@.axons[b]@.id_source != id || old(self)@.axons[b]@.is_input
                    ==> final(self)@.axons[b] == old(self)@.axons[b]),
            old(dropped)@.is_prefix_of(final(dropped)@),
            forall|j: int|
                old(dropped)@.len() <= j < final(dropped)@.len() ==> {
                    let b = #[trigger] final(dropped)@[j];
                    &&& old(self)@.axons.contains_key(b)
                    &&& !old(self)@.axons[b]@.is_input
                    &&& old(self)@.axons[b]@.id_source == id
                },
            forall|b: u128| #[trigger]
                old(self)@.axons.contains_key(b) ==> final(self)@.axons[b]@.happyness == old(
                    self,
                )@.axons[b]@.happyness,
            forall|b: u128| #[trigger]
                old(self)@.axons.contains_key(b) && !old(self)@.axons[b]@.is_input
                    && old(self)@.axons[b]@.id_source == id ==> fired_from(
                    old(self)@.axons[b]@,
                    final(self)@.axons[b]@,
                    dt as int,
                ) && (final(self)@.axons[b]@.strength == 0 <==> exists|x: int|
                    old(dropped)@.len() <= x < final(dropped)@.len() && final(dropped)@[x] == b),
    {
        let ghost o = self@;
        let ghost d0 = dropped@;
        let ghost mut f = fired;
        let mut j: usize = 0;
        while j < outs.len()
            invariant
                j <= outs@.len(),
                self@.wf(),
                self@.mid_tick(k, cap, done, f),
                self@ == (SpirionModel {
                    neurons: self@.neurons,
                    axons: self@.axons,
                    active: self@.active,
                    ..o
                }),
                self@.neurons.dom() == o.neurons.dom(),
                self@.axons.dom() == o.axons.dom(),
                forall|n: u32| #[trigger]
                    o.neurons.contains_key(n) ==> self@.neurons[n]@ == (NeuronModel {
                        inputs: self@.neurons[n]@.inputs,
                        ..o.neurons[n]@
                    }),
                forall|n: u32| #[trigger]
                    o.neurons.contains_key(n) ==> o.neurons[n]@.inputs.is_prefix_of(
                        self@.neurons[n]@.inputs,
                    ),
                forall|n: u32| #[trigger]
                    o.neurons.contains_key(n) && !was_active@.contains(n)
                        && self@.neurons[n]@.inputs.len() > o.neurons[n]@.inputs.len()
                        ==> self@.active.contains(n),
                o.active.subset_of(self@.active),
                forall|n: u32| #[trigger]
                    self@.active.contains(n) ==> o.active.contains(n) || !was_active@.contains(n),
                forall|n: u32| #[trigger]
                    self@.active.contains(n) && !o.active.contains(n) ==> o.neurons.contains_key(n)
                        && self@.neurons[n]@.inputs.len() > o.neurons[n]@.inputs.len(),
                forall|b: u128| #[trigger]
                    o.axons.contains_key(b) ==> same_ends(self@.axons[b]@, o.axons[b]@) && (
                    o.axons[b]@.id_source != id || o.axons[b]@.is_input ==> self@.axons[b]
                        == o.axons[b]),
                d0.is_prefix_of(dropped@),
                forall|j2: int|
                    d0.len() <= j2 < dropped@.len() ==> {
                        let b = #[trigger] dropped@[j2];
                        &&& o.axons.contains_key(b)
                        &&& !o.axons[b]@.is_input
                        &&& o.axons[b]@.id_source == id
                    },
                outs@.no_duplicates(),
                forall|b: u128| #[trigger]
                    o.axons.contains_key(b) ==> self@.axons[b]@.happyness == o.axons[b]@.happyness,
                forall|j2: int|
                    0 <= j2 < j ==> {
                        let b = #[trigger] outs@[j2];
                        &&& fired_from(o.axons[b]@, self@.axons[b]@, dt as int)
                        &&& (self@.axons[b]@.strength == 0 <==> exists|x: int|
                            d0.len() <= x < dropped@.len() && dropped@[x] == b)
                    },
                forall|j2: int| j <= j2 < outs@.len() ==> self@.axons[#[trigger] outs@[j2]] == o.axons[outs@[j2]],
                forall|x: int|
                    d0.len() <= x < dropped@.len() ==> exists|j2: int|
                        0 <= j2 < j && #[trigger] outs@[j2] == #[trigger] dropped@[x],
                o.neurons.contains_key(id),
                done.contains(id),
                outs@ == o.out_of(id),
                dt <= TIME_SPAN_LIMIT,
                forall|j2: int| j <= j2 < outs@.len() ==> !f.contains(#[trigger] outs@[j2]),
            decreases outs.len() - j,
        {
            let a = outs[j];
            let ghost before = self@;
            let ghost dropped_step = dropped@;
            proof {
                assert(self@.out_of(id) == o.out_of(id));
                assert(self@.out_of(id).contains(a));
                assert(!f.contains(a));
            }
            let mut axon = match self.axons.remove(&a) {
                Some(x) => x,
                None => {
                    proof {
                        assert(false);
                    }
                    return Ghost(f);
                },
            };
            proof {
                assert(axon_can_tick(axon@, k, cap));
            }
            let (target, strength) = axon.fire(dt);
            self.axons.insert(a, axon);
            let ghost mid = self@;
            proof {
                assert(mid.axons =~= before.axons.insert(a, mid.axons[a]));
                assert(before.neurons.contains_key(target));
            }
            if strength != 0 {
                let mut t = match self.neurons.remove(&target) {
                    Some(n) => n,
                    None => {
                        proof {
                            assert(false);
                        }
                        return Ghost(f);
                    },
                };
                t.push_input(strength);
                self.neurons.insert(target, t);
                if !was_active.contains(&target) {
                    self.active_neurons.insert(target);
                }
                proof {
                    assert(self@.neurons =~= mid.neurons.insert(target, self@.neurons[target]));
                }
            } else {
                dropped.push(a);
            }
            proof {
                lemma_tick_fire(self@, mid, before, a, strength, dt as int, k, cap, done, f);
                assert forall|j2: int| j + 1 <= j2 < outs@.len() implies !f.insert(a).contains(
                    #[trigger] outs@[j2],
                ) by {
                    assert(outs@[j2] != outs@[j as int]);
                }
                assert(outs@[j as int] == a);
                assert(before.axons[a] == o.axons[a]);
                assert forall|j2: int| 0 <= j2 < j + 1 implies {
                    let b = #[trigger] outs@[j2];
                    &&& fired_from(o.axons[b]@, self@.axons[b]@, dt as int)
                    &&& (self@.axons[b]@.strength == 0 <==> exists|x: int|
                        d0.len() <= x < dropped@.len() && dropped@[x] == b)
                } by {
                    let b = outs@[j2];
                    if j2 < j {
                        assert(b != a);
                        assert(self@.axons[b] == before.axons[b]);
                        if exists|x: int| d0.len() <= x < dropped@.len() && dropped@[x] == b {
                            let x = choose|x: int| d0.len() <= x < dropped@.len() && dropped@[x] == b;
                            if x == dropped@.len() - 1 && strength == 0 {
                                assert(dropped@[x] == a);
                            }
                            assert(x < dropped_step.len());
                            assert(dropped_step[x] == b);
                        }
                        if before.axons[b]@.strength == 0 {
                            let x = choose|x: int| d0.len() <= x < dropped_step.len() && dropped_step[x] == b;
                            assert(dropped@[x] == b);
                        }
                    } else {
                        if strength == 0 {
                            assert(dropped@[dropped@.len() - 1] == a);
                        } else {
                            if exists|x: int| d0.len() <= x < dropped@.len() && dropped@[x] == b {
                                let x = choose|x: int| d0.len() <= x < dropped@.len() && dropped@[x] == b;
                                let w = choose|w: int| 0 <= w < j && #[trigger] outs@[w] == dropped_step[x];
                                assert(outs@[w] != outs@[j as int]);
                            }
                        }
                    }
                }
                assert forall|x: int| d0.len() <= x < dropped@.len() implies exists|j2: int| 0 <= j2 < j + 1 && #[trigger] outs@[j2] == #[trigger] dropped@[x] by {
                    if x < dropped_step.len() {
                        let w = choose|w: int| 0 <= w < j && #[trigger] outs@[w] == dropped_step[x];
                        assert(outs@[w] == dropped@[x]);
                    } else {
                        assert(outs@[j as int] == dropped@[x]);
                    }
                }
                f = f.insert(a);
            }
            j = j + 1;
        }
        proof {
            assert forall|b: u128| #[trigger] o.axons.contains_key(b) && !o.axons[b]@.is_input
                && o.axons[b]@.id_source == id implies fired_from(o.axons[b]@, self@.axons[b]@, dt as int)
                && (self@.axons[b]@.strength == 0 <==> exists|x: int|
                d0.len() <= x < dropped@.len() && dropped@[x] == b) by {
                assert(o.out_of(id).contains(b));
                let w = choose|w: int| 0 <= w < outs@.len() && outs@[w] == b;
            }
        }
        Ghost(f)
    }
}

impl Spirion {
    /// One active neuron's turn in a tick: its incoming axons take on its happiness,
    /// it is updated at the clock, marked for removal in `doomed` if it should die,
    /// and if it is ready it fires: an output is reported in `outputs`, any other
    /// neuron fires its outgoing axons (see `fire_along`). An id of no neuron is skipped.
    fn visit(
        &mut self,
        id: u32,
        was_active: &HashSet<u32>,
        outputs: &mut Vec<u32>,
        dropped: &mut Vec<u128>,
        doomed: &mut Vec<u32>,
        Ghost(k): Ghost<int>,
        Ghost(cap): Ghost<int>,
        Ghost(done): Ghost<Set<u32>>,
        Ghost(fired): Ghost<Set<u128>>,
    ) -> (nf: Ghost<Set<u128>>)
        requires
            old(self)@.wf(),
            old(self)@.mid_tick(k, cap, done, fired),
            !done.contains(id),
            was_active@.contains(id),
            doomed_ok(old(self)@, old(doomed)@, done),
            outputs_ok(old(self)@, old(outputs)@),
        ensures
            final(self)@.wf(),
            final(self)@.mid_tick(k, cap, done.insert(id), nf@),
            doomed_ok(final(self)@, final(doomed)@, done.insert(id)),
            outputs_ok(final(self)@, final(outputs)@),
            forall|n: u32| #[trigger]
                old(self)@.neurons.contains_key(n) && n != id ==> same_state(
                    final(self)@.neurons[n]@,
                    old(self)@.neurons[n]@,
                ) && old(self)@.neurons[n]@.inputs.is_prefix_of(final(self)@.neurons[n]@.inputs),
            forall|n: u32| #[trigger]
                old(self)@.neurons.contains_key(n) ==> final(self)@.out_of(n) == old(self)@.out_of(n)
                    && final(self)@.in_of(n) == old(self)@.in_of(n),
            old(self)@.neurons.contains_key(id) ==> same_state(
                final(self)@.neurons[id]@,
                after_turn(old(self)@.neurons[id]@, old(self)@.clock),
            ) && old(self)@.neurons[id]@.updated(old(self)@.clock).inputs.is_prefix_of(
                final(self)@.neurons[id]@.inputs,
            ),
            final(outputs)@ == old(outputs)@ + if old(self)@.neurons.contains_key(id)
                && old(self)@.neurons[id]@.is_output && old(self)@.neurons[id]@.updated(
                old(self)@.clock,
            ).wants_to_fire() {
                seq![id]
            } else {
                Seq::<u32>::empty()
            },
            final(doomed)@ == if old(self)@.neurons.contains_key(id) && !old(self)@.neurons[id]@.is_output
                && !has_registered_input(old(self)@, id) && old(self)@.neurons[id]@.updated(
                old(self)@.clock,
            ).happyness >= MAX_HAPPY_VALUE {
                old(doomed)@.push(id)
            } else {
                old(doomed)@
            },
            forall|n: u32| #[trigger]
                old(self)@.neurons.contains_key(n) && !was_active@.contains(n)
                    && final(self)@.neurons[n]@.inputs.len() > old(self)@.neurons[n]@.inputs.len()
                    ==> final(self)@.active.contains(n),
            old(self)@.active.subset_of(final(self)@.active),
            forall|n: u32| #[trigger]
                final(self)@.active.contains(n) ==> old(self)@.active.contains(n)
                    || !was_active@.contains(n),
            forall|n: u32| #[trigger]
                final(self)@.active.contains(n) && !old(self)@.active.contains(n)
                    ==> old(self)@.neurons.contains_key(n) && final(self)@.neurons[n]@.inputs.len()
                    > old(self)@.neurons[n]@.inputs.len(),
            final(self)@ == (SpirionModel {
                neurons: final(self)@.neurons,
                axons: final(self)@.axons,
                active: final(self)@.active,
                ..old(self)@
            }),
            final(self)@.neurons.dom() == old(self)@.neurons.dom(),
            final(self)@.axons.dom() == old(self)@.axons.dom(),
            forall|b: u128| #[trigger]
                old(self)@.axons.contains_key(b) ==> same_ends(final(self)@.axons[b]@, old(self)@.axons[b]@)
                    && (old(self)@.axons[b]@.id_source != id || old(self)@.axons[b]@.is_input
                    ==> final(self)@.axons[b]@ == (AxionModel {
                    happyness: final(self)@.axons[b]@.happyness,
                    ..old(self)@.axons[b]@
                })),
            old(dropped)@.is_prefix_of(final(dropped)@),
            forall|j: int|
                old(dropped)@.len() <= j < final(dropped)@.len() ==> {
                    let b = #[trigger] final(dropped)@[j];
                    &&& old(self)@.axons.contains_key(b)
                    &&& !old(self)@.axons[b]@.is_input
                    &&& old(self)@.axons[b]@.id_source == id
                },
            forall|b: u128| #[trigger]
                old(self)@.axons.contains_key(b) ==> final(self)@.axons[b]@.happyness == if old(
                    self,
                )@.axons[b]@.id_sink == id && old(self)@.neurons.contains_key(id) {
                    old(self)@.neurons[id]@.happyness
                } else {
                    old(self)@.axons[b]@.happyness
                },
            !(old(self)@.neurons.contains_key(id) && !old(self)@.neurons[id]@.is_output && old(
                self,
            )@.neurons[id]@.updated(old(self)@.clock).wants_to_fire()) ==> final(dropped)@ == old(
                dropped,
            )@ && forall|b: u128| #[trigger]
                old(self)@.axons.contains_key(b) ==> final(self)@.axons[b]@ == (AxionModel {
                    happyness: final(self)@.axons[b]@.happyness,
                    ..old(self)@.axons[b]@
                }),
            forall|b: u128| #[trigger]
                old(self)@.axons.contains_key(b) && !old(self)@.axons[b]@.is_input
                    && old(self)@.axons[b]@.id_source == id && old(self)@.neurons.contains_key(id)
                    && !old(self)@.neurons[id]@.is_output && old(self)@.neurons[id]@.updated(
                    old(self)@.clock,
                ).wants_to_fire() ==> fired_from(
                    old(self)@.axons[b]@,
                    final(self)@.axons[b]@,
                    old(self)@.neurons[id]@.updated(old(self)@.clock).delta_t,
                ) && (final(self)@.axons[b]@.strength == 0 <==> exists|x: int|
                    old(dropped)@.len() <= x < final(dropped)@.len() && final(dropped)@[x] == b),
    {
        let ghost o = self@;
        let ghost d2 = done.insert(id);
        let (ins, happy) = match self.neurons.get(&id) {
            Some(n) => (n.input_axon_ids(), n.get_happyness()),
            None => {
                proof {
                    assert forall|n: u32| #[trigger] o.neurons.contains_key(n) implies o.neuron_mid_tick(
                        n,
                        k,
                        cap,
                        d2,
                        fired,
                    ) by {
                        assert(o.neuron_mid_tick(n, k, cap, done, fired));
                    }
                    assert forall|b: u128| #[trigger] fired.contains(b) implies o.axons.contains_key(b)
                        && !o.axons[b]@.is_input && d2.contains(o.axons[b]@.id_source as u32) by {}
                }
                return Ghost(fired);
            },
        };
        let has_input = self.share_happiness(
            id,
            &ins,
            happy,
            Ghost(k),
            Ghost(cap),
            Ghost(done),
            Ghost(fired),
        );
        let ghost s1 = self@;
        let mut neuron = match self.neurons.remove(&id) {
            Some(n) => n,
            None => {
                proof {
                    assert(false);
                }
                return Ghost(fired);
            },
        };
        proof {
            assert(s1.neuron_mid_tick(id, k, cap, done, fired));
            let g = neuron@.growth_until(self.clock + k - 1);
            assert(0 <= k * g) by (nonlinear_arith)
                requires
                    1 <= k,
                    0 <= g,
            ;
            neuron@.lemma_update_steady(self.clock as int, self.clock + k - 1);
            lemma_calm_memory_fits(neuron@.updated(self.clock as int).memory);
        }
        neuron.update(self.clock);
        let kill = neuron.check_to_kill(has_input);
        let ready = neuron.ready_to_fire();
        let mut dt: u32 = 0;
        if ready {
            dt = neuron.fired();
        }
        let outs = neuron.output_axon_ids();
        let is_out = neuron.is_output_neuron();
        self.neurons.insert(id, neuron);
        if kill {
            doomed.push(id);
        }
        proof {
            assert(self@.neurons =~= s1.neurons.insert(id, self@.neurons[id]));
            lemma_tick_refresh(self@, s1, id, k, cap, done, fired);
            assert forall|j: int| 0 <= j < doomed@.len() implies d2.contains(#[trigger] doomed@[j])
                && (self@.neurons.contains_key(doomed@[j]) ==> !self@.neurons[doomed@[j]]@.is_output
                && self@.neurons[doomed@[j]]@.happyness >= MAX_HAPPY_VALUE) by {
                if j < old(doomed)@.len() {
                    assert(old(doomed)@[j] == doomed@[j]);
                    assert(done.contains(doomed@[j]));
                }
            }
        }
        if !ready {
            return Ghost(fired);
        }
        if is_out {
            outputs.push(id);
            return Ghost(fired);
        }
        proof {
            assert forall|j: int| 0 <= j < outs@.len() implies !fired.contains(#[trigger] outs@[j]) by {
                assert(o.out_of(id).contains(outs@[j]));
                if fired.contains(outs@[j]) {
                    assert(o.axons[outs@[j]]@.id_source == id);
                }
            }
        }
        let ghost s2 = self@;
        let nf = self.fire_along(id, &outs, dt, was_active, dropped, Ghost(k), Ghost(cap), Ghost(d2), Ghost(fired));
        proof {
            assert forall|b: u128| #[trigger] o.axons.contains_key(b) implies self@.axons[b]@.happyness == if o.axons[b]@.id_sink == id && o.neurons.contains_key(id) {
                o.neurons[id]@.happyness
            } else {
                o.axons[b]@.happyness
            } by {
                assert(s2.axons[b] == s1.axons[b]);
                if o.axons[b]@.id_sink == id {
                    assert(o.in_of(id).contains(b));
                }
                if ins@.contains(b) {
                    assert(o.in_of(id).contains(b));
                }
            }
        }
        nf
    }

    /// One tick of the brain, with room for `k` ticks and signals within `cap`: the
    /// clock moves on, every neuron active at the start takes its turn (see `visit`),
    /// then the axons marked for removal are removed and the neurons marked for
    /// removal get their save check (see `no_more_outputs`), which they cannot pass.
    fn tick_once(&mut self, outputs: &mut Vec<u32>, Ghost(k): Ghost<int>, Ghost(cap): Ghost<int>) -> (pre: Ghost<Map<u32, Seq<i32>>>)
        requires
            old(self)@.wf(),
            old(self)@.can_tick(k, cap),
            1 <= k,
            outputs_ok(old(self)@, old(outputs)@),
        ensures
            final(self)@.wf(),
            final(self)@.can_tick(k - 1, cap),
            outputs_ok(final(self)@, final(outputs)@),
            old(outputs)@.is_prefix_of(final(outputs)@),
            one_tick(old(self)@, final(self)@, final(outputs)@.skip(old(outputs)@.len() as int), pre@),
            old(self)@.active == Set::<u32>::empty() ==> final(outputs)@ == old(outputs)@,
    {
        let ghost o = self@;
        let ghost t = o.clock + 1;
        let ghost out0 = outputs@;
        self.clock = self.clock + 1;
        let ids = u32_set_to_vec(&self.active_neurons);
        let mut was_active: HashSet<u32> = HashSet::new();
        std::mem::swap(&mut was_active, &mut self.active_neurons);
        proof {
            lemma_tick_start(self@, o, k, cap);
        }
        let ghost start = self@;
        let mut dropped: Vec<u128> = Vec::new();
        let mut doomed: Vec<u32> = Vec::new();
        let ghost mut done: Set<u32> = Set::empty();
        let ghost mut fired: Set<u128> = Set::empty();
        let ghost mut pre: Map<u32, Seq<i32>> = Map::empty();
        let ghost mut newo: Seq<u32> = Seq::empty();
        let mut i: usize = 0;
        proof {
            assert(outputs@ == out0 + newo);
            assert forall|n: u32| #[trigger] o.neurons.contains_key(n) implies o.neurons[n]@.inputs.is_prefix_of(
                self@.neurons[n]@.inputs,
            ) by {
                assert(o.neurons[n]@.inputs =~= self@.neurons[n]@.inputs.subrange(0, o.neurons[n]@.inputs.len() as int));
            }
        }
        while i < ids.len()
            invariant
                i <= ids@.len(),
                ids@.no_duplicates(),
                ids@.to_set() == o.active,
                was_active@ == o.active,
                t == o.clock + 1,
                self@.wf(),
                self@.mid_tick(k, cap, done, fired),
                doomed_ok(self@, doomed@, done),
                outputs_ok(self@, outputs@),
                forall|x: u32| done.contains(x) <==> exists|j: int| 0 <= j < i && ids@[j] == x,
                self@ == (SpirionModel {
                    neurons: self@.neurons,
                    axons: self@.axons,
                    active: self@.active,
                    ..start
                }),
                start == (SpirionModel { clock: o.clock + 1, active: start.active, ..o }),
                self@.neurons.dom() == o.neurons.dom(),
                self@.axons.dom() == o.axons.dom(),
                ids@.len() == 0 ==> self@ == start && dropped@.len() == 0 && doomed@.len() == 0
                    && outputs@ == old(outputs)@,
                outputs@ == out0 + newo,
                newo.no_duplicates(),
                forall|x: u32|
                    #[trigger] newo.contains(x) <==> done.contains(x) && o.neurons.contains_key(x)
                        && o.neurons[x]@.is_output && turn_of(o.neurons[x]@, t, pre[x]).wants_to_fire(),
                forall|n: u32| #[trigger]
                    o.neurons.contains_key(n) ==> self@.out_of(n) == o.out_of(n) && self@.in_of(n)
                        == o.in_of(n),
                forall|n: u32| #[trigger]
                    o.neurons.contains_key(n) ==> if done.contains(n) {
                        visited(o.neurons[n]@, self@.neurons[n]@, t, pre[n])
                    } else {
                        same_state(self@.neurons[n]@, o.neurons[n]@)
                            && o.neurons[n]@.inputs.is_prefix_of(self@.neurons[n]@.inputs)
                    },
                forall|j: int|
                    0 <= j < doomed@.len() ==> {
                        let d = #[trigger] doomed@[j];
                        &&& o.neurons.contains_key(d)
                        &&& !o.neurons[d]@.is_output
                        &&& !has_registered_input(o, d)
                        &&& turn_of(o.neurons[d]@, t, pre[d]).happyness >= MAX_HAPPY_VALUE
                    },
                forall|n: u32| #[trigger]
                    o.neurons.contains_key(n) && done.contains(n) && !o.neurons[n]@.is_output
                        && !has_registered_input(o, n) && turn_of(o.neurons[n]@, t, pre[n]).happyness
                        >= MAX_HAPPY_VALUE ==> doomed@.contains(n),
                forall|n: u32| #[trigger]
                    o.neurons.contains_key(n) && !o.active.contains(n)
                        && self@.neurons[n]@.inputs.len() > o.neurons[n]@.inputs.len()
                        ==> self@.active.contains(n),
                self@.active.disjoint(o.active),
                forall|n: u32| #[trigger]
                    self@.active.contains(n) ==> o.neurons.contains_key(n)
                        && self@.neurons[n]@.inputs.len() > o.neurons[n]@.inputs.len(),
                forall|a: u128| #[trigger]
                    o.axons.contains_key(a) ==> axon_mid_tick(o, self@.axons[a]@, a, t, done, pre, dropped@),
                forall|j: int|
                    0 <= j < dropped@.len() ==> {
                        let b = #[trigger] dropped@[j];
                        &&& o.axons.contains_key(b)
                        &&& !o.axons[b]@.is_input
                        &&& done.contains(o.axons[b]@.id_source as u32)
                    },
            decreases ids.len() - i,
        {
            let id = ids[i];
            proof {
                if done.contains(id) {
                    let j = choose|j: int| 0 <= j < i && ids@[j] == id;
                    assert(ids@[j] == ids@[i as int]);
                }
                assert(ids@.to_set().contains(id));
            }
            let ghost s = self@;
            let ghost d0 = doomed@;
            let ghost outs_before = outputs@;
            let ghost dropped_before = dropped@;
            let Ghost(nf) = self.visit(
                id,
                &was_active,
                outputs,
                &mut dropped,
                &mut doomed,
                Ghost(k),
                Ghost(cap),
                Ghost(done),
                Ghost(fired),
            );
            proof {
                let p2 = if s.neurons.contains_key(id) {
                    pre.insert(id, s.neurons[id]@.inputs)
                } else {
                    pre
                };
                if s.neurons.contains_key(id) {
                    assert(s.neurons[id]@ == (NeuronModel { inputs: s.neurons[id]@.inputs, ..o.neurons[id]@ }));
                    assert(s.neurons[id]@.updated(s.clock) == turn_of(o.neurons[id]@, t, p2[id]));
                    assert(s.neurons[id]@.happyness == o.neurons[id]@.happyness);
                    assert(s.neurons[id]@.is_output == o.neurons[id]@.is_output);
                }
                assert(o.active.contains(id)) by {
                    assert(ids@.to_set().contains(id));
                }
                let d2 = done.insert(id);
                let newo2 = if s.neurons.contains_key(id) && s.neurons[id]@.is_output && s.neurons[id]@.updated(s.clock).wants_to_fire() {
                    newo.push(id)
                } else {
                    newo
                };
                assert(outputs@ == out0 + newo2) by {
                    assert(outputs@ == outs_before + (newo2.skip(newo.len() as int)));
                    assert(out0 + newo2 =~= out0 + newo + newo2.skip(newo.len() as int));
                }
                assert forall|x: u32| #[trigger] newo2.contains(x) <==> d2.contains(x) && o.neurons.contains_key(x)
                    && o.neurons[x]@.is_output && turn_of(o.neurons[x]@, t, p2[x]).wants_to_fire() by {
                    if x != id {
                        if newo2.contains(x) {
                            let j = choose|j: int| 0 <= j < newo2.len() && newo2[j] == x;
                            assert(newo.contains(x)) by {
                                assert(newo[j] == x);
                            }
                        }
                        if newo.contains(x) {
                            let j = choose|j: int| 0 <= j < newo.len() && newo[j] == x;
                            assert(newo2[j] == x);
                        }
                    } else {
                        if newo2.contains(x) && !(s.neurons.contains_key(id) && s.neurons[id]@.is_output && s.neurons[id]@.updated(s.clock).wants_to_fire()) {
                            assert(newo.contains(x));
                        }
                        if s.neurons.contains_key(id) && s.neurons[id]@.is_output && s.neurons[id]@.updated(s.clock).wants_to_fire() {
                            assert(newo2[newo.len() as int] == x);
                        }
                    }
                }
                assert(newo2.no_duplicates()) by {
                    if newo2 != newo {
                        assert(!newo.contains(id));
                    }
                }
                assert forall|n: u32| #[trigger] o.neurons.contains_key(n) implies if d2.contains(n) {
                    visited(o.neurons[n]@, self@.neurons[n]@, t, p2[n])
                } else {
                    same_state(self@.neurons[n]@, o.neurons[n]@)
                        && o.neurons[n]@.inputs.is_prefix_of(self@.neurons[n]@.inputs)
                } by {
                    if n != id {
                        assert(s.neurons.contains_key(n));
                    }
                }
                assert forall|j: int| 0 <= j < doomed@.len() implies {
                    let d = #[trigger] doomed@[j];
                    &&& o.neurons.contains_key(d)
                    &&& !o.neurons[d]@.is_output
                    &&& !has_registered_input(o, d)
                    &&& turn_of(o.neurons[d]@, t, p2[d]).happyness >= MAX_HAPPY_VALUE
                } by {
                    if j < d0.len() {
                        assert(doomed@[j] == d0[j]);
                        assert(done.contains(d0[j]));
                    } else {
                        assert(doomed@[j] == id);
                        if has_registered_input(o, id) {
                            let w = choose|w: int| 0 <= w < o.in_of(id).len() && o.input_ids.contains(#[trigger] o.in_of(id)[w]);
                            assert(s.in_of(id)[w] == o.in_of(id)[w]);
                        }
                    }
                }
                assert forall|n: u32| #[trigger] o.neurons.contains_key(n) && !o.active.contains(n)
                    && self@.neurons[n]@.inputs.len() > o.neurons[n]@.inputs.len() implies self@.active.contains(n) by {
                    assert(n != id);
                    if s.neurons[n]@.inputs.len() > o.neurons[n]@.inputs.len() {
                        assert(s.active.contains(n));
                    }
                }
                assert forall|x: u32| done.insert(id).contains(x) <==> exists|j: int|
                    0 <= j < i + 1 && ids@[j] == x by {
                    if x == id {
                        assert(ids@[i as int] == x);
                    }
                    if exists|j: int| 0 <= j < i + 1 && ids@[j] == x {
                        let j = choose|j: int| 0 <= j < i + 1 && ids@[j] == x;
                        if j < i {
                            assert(done.contains(x));
                        }
                    }
                }
                lemma_axons_after_visit(o, s, self@, id, t, done, pre, p2, dropped_before, dropped@);
                assert(o.neurons.contains_key(id) ==> has_registered_input(s, id) == has_registered_input(o, id)) by {
                    if o.neurons.contains_key(id) {
                        assert(s.in_of(id) == o.in_of(id));
                    }
                    if o.neurons.contains_key(id) && has_registered_input(s, id) {
                        let w = choose|w: int| 0 <= w < s.in_of(id).len() && s.input_ids.contains(#[trigger] s.in_of(id)[w]);
                        assert(o.in_of(id)[w] == s.in_of(id)[w]);
                    }
                    if o.neurons.contains_key(id) && has_registered_input(o, id) {
                        let w = choose|w: int| 0 <= w < o.in_of(id).len() && o.input_ids.contains(#[trigger] o.in_of(id)[w]);
                        assert(o.in_of(id)[w] == s.in_of(id)[w]);
                    }
                }
                assert forall|n: u32| #[trigger] o.neurons.contains_key(n) && d2.contains(n)
                    && !o.neurons[n]@.is_output && !has_registered_input(o, n) && turn_of(o.neurons[n]@, t, p2[n]).happyness
                    >= MAX_HAPPY_VALUE implies doomed@.contains(n) by {
                    if n == id {
                        assert(doomed@[doomed@.len() - 1] == id);
                    } else {
                        assert(p2[n] == pre[n]);
                        assert(d0.contains(n));
                        let w = choose|w: int| 0 <= w < d0.len() && d0[w] == n;
                        assert(doomed@[w] == n);
                    }
                }
                assert forall|j: int| 0 <= j < dropped@.len() implies {
                    let b = #[trigger] dropped@[j];
                    &&& o.axons.contains_key(b)
                    &&& !o.axons[b]@.is_input
                    &&& d2.contains(o.axons[b]@.id_source as u32)
                } by {
                    if j < dropped_before.len() {
                        assert(dropped@[j] == dropped_before[j]);
                    } else {
                        assert(s.axons.contains_key(dropped@[j]));
                    }
                }
                done = d2;
                fired = nf;
                pre = p2;
                newo = newo2;
            }
            i = i + 1;
        }
        proof {
            lemma_tick_end(self@, k, cap, done, fired);
            assert forall|x: u32| done.contains(x) <==> o.active.contains(x) by {
                if o.active.contains(x) {
                    assert(ids@.to_set().contains(x));
                    let j = choose|j: int| 0 <= j < ids@.len() && ids@[j] == x;
                }
                if done.contains(x) {
                    let j = choose|j: int| 0 <= j < i && ids@[j] == x;
                    assert(ids@.to_set().contains(x));
                }
            }
        }
        proof {
            assert forall|n: u32| #[trigger] dies_in_turn(o, n, t, pre) implies doomed@.contains(n) by {
                assert(done.contains(n));
            }
        }
        let ghost main = self@;
        proof {
            assert forall|a: u128| #[trigger] main.axons.contains_key(a) implies o.axons.contains_key(a)
                && main.axons[a]@.id_sink == o.axons[a]@.id_sink by {
                assert(axon_mid_tick(o, main.axons[a]@, a, t, done, pre, dropped@));
            }
            assert forall|x: int| 0 <= x < dropped@.len() implies !o.input_ids.contains(#[trigger] dropped@[x]) by {
                assert(o.axons.contains_key(dropped@[x]));
            }
        }
        let mut j: usize = 0;
        while j < dropped.len()
            invariant
                j <= dropped@.len(),
                self@.wf(),
                self@.can_tick(k - 1, cap),
                doomed_ok(self@, doomed@, done),
                outputs_ok(self@, outputs@),
                self@.clock == o.clock + 1,
                self@.output_ids == o.output_ids,
                self@.input_ids == o.input_ids,
                self@.limiter == o.limiter,
                self@.displayed == o.displayed,
                self@.active == main.active,
                self@.neurons.dom().subset_of(main.neurons.dom()),
                self@.axons.dom().subset_of(o.axons.dom()),
                main.neurons.dom() == o.neurons.dom(),
                o.wf(),
                forall|a: u128| #[trigger]
                    main.axons.contains_key(a) ==> o.axons.contains_key(a) && main.axons[a]@.id_sink
                        == o.axons[a]@.id_sink,
                forall|x: int| 0 <= x < dropped@.len() ==> !o.input_ids.contains(#[trigger] dropped@[x]),
                forall|x: int| 0 <= x < doomed@.len() ==> !has_registered_input(o, #[trigger] doomed@[x]),
                forall|n: u32| #[trigger]
                    self@.neurons.contains_key(n) ==> self@.neurons[n]@ == (NeuronModel {
                        output_axons: self@.out_of(n),
                        input_axons: self@.in_of(n),
                        ..main.neurons[n]@
                    }),
                forall|n: u32| #[trigger]
                    main.neurons.contains_key(n) && !self@.neurons.contains_key(n) ==> exists|m: int|
                        0 <= m < doomed@.len() && doomed@[m] == n,
                dropped@.len() == 0 ==> self@ == main,
                forall|x: int| 0 <= x < j ==> !self@.axons.contains_key(#[trigger] dropped@[x]),
                forall|n: u32| #[trigger] dies_in_turn(o, n, t, pre) ==> doomed@.contains(n),
                forall|a: u128| #[trigger]
                    self@.axons.contains_key(a) ==> main.axons.contains_key(a) && self@.axons[a]
                        == main.axons[a],
                forall|a: u128| #[trigger]
                    main.axons.contains_key(a) && !self@.axons.contains_key(a) ==> (exists|x: int|
                        0 <= x < dropped@.len() && dropped@[x] == a) || (exists|n: u32|
                        main.neurons.contains_key(n) && !#[trigger] self@.neurons.contains_key(n)
                            && touches(main.axons[a]@, n)),
            decreases dropped.len() - j,
        {
            let ghost before = self@;
            proof {
                assert(!o.input_ids.contains(dropped@[j as int]));
            }
            self.remove_axon(dropped[j]);
            proof {
                lemma_prune_keeps_tick(self@, before, k - 1, cap);
                assert forall|x: int| 0 <= x < doomed@.len() implies done.contains(#[trigger] doomed@[x])
                    && (self@.neurons.contains_key(doomed@[x]) ==> !self@.neurons[doomed@[x]]@.is_output
                    && self@.neurons[doomed@[x]]@.happyness >= MAX_HAPPY_VALUE) by {
                    if self@.neurons.contains_key(doomed@[x]) {
                        assert(before.neurons.contains_key(doomed@[x]));
                    }
                }
                assert forall|n: u32| #[trigger] self@.neurons.contains_key(n) implies self@.neurons[n]@ == (NeuronModel {
                    output_axons: self@.out_of(n),
                    input_axons: self@.in_of(n),
                    ..main.neurons[n]@
                }) by {
                    assert(before.neurons.contains_key(n));
                }
                assert forall|n: u32| #[trigger] main.neurons.contains_key(n) && !self@.neurons.contains_key(n) implies exists|m: int|
                    0 <= m < doomed@.len() && doomed@[m] == n by {
                    assert(!before.neurons.contains_key(n));
                }
            }
            j = j + 1;
        }
        let mut m: usize = 0;
        while m < doomed.len()
            invariant
                m <= doomed@.len(),
                self@.wf(),
                self@.can_tick(k - 1, cap),
                doomed_ok(self@, doomed@, done),
                outputs_ok(self@, outputs@),
                self@.clock == o.clock + 1,
                self@.output_ids == o.output_ids,
                self@.input_ids == o.input_ids,
                self@.limiter == o.limiter,
                self@.displayed == o.displayed,
                self@.active == main.active,
                self@.neurons.dom().subset_of(main.neurons.dom()),
                self@.axons.dom().subset_of(o.axons.dom()),
                main.neurons.dom() == o.neurons.dom(),
                o.wf(),
                forall|a: u128| #[trigger]
                    main.axons.contains_key(a) ==> o.axons.contains_key(a) && main.axons[a]@.id_sink
                        == o.axons[a]@.id_sink,
                forall|x: int| 0 <= x < dropped@.len() ==> !o.input_ids.contains(#[trigger] dropped@[x]),
                forall|x: int| 0 <= x < doomed@.len() ==> !has_registered_input(o, #[trigger] doomed@[x]),
                forall|n: u32| #[trigger]
                    self@.neurons.contains_key(n) ==> self@.neurons[n]@ == (NeuronModel {
                        output_axons: self@.out_of(n),
                        input_axons: self@.in_of(n),
                        ..main.neurons[n]@
                    }),
                forall|n: u32| #[trigger]
                    main.neurons.contains_key(n) && !self@.neurons.contains_key(n) ==> exists|x: int|
                        0 <= x < doomed@.len() && doomed@[x] == n,
                doomed@.len() == 0 && dropped@.len() == 0 ==> self@ == main,
                forall|x: int| 0 <= x < dropped@.len() ==> !self@.axons.contains_key(#[trigger] dropped@[x]),
                forall|n: u32| #[trigger] dies_in_turn(o, n, t, pre) ==> doomed@.contains(n),
                forall|x: int| 0 <= x < m ==> !self@.neurons.contains_key(#[trigger] doomed@[x]),
                forall|a: u128| #[trigger]
                    self@.axons.contains_key(a) ==> main.axons.contains_key(a) && self@.axons[a]
                        == main.axons[a],
                forall|a: u128| #[trigger]
                    main.axons.contains_key(a) && !self@.axons.contains_key(a) ==> (exists|x: int|
                        0 <= x < dropped@.len() && dropped@[x] == a) || (exists|n: u32|
                        main.neurons.contains_key(n) && !#[trigger] self@.neurons.contains_key(n)
                            && touches(main.axons[a]@, n)),
            decreases doomed.len() - m,
        {
            let d = doomed[m];
            let ghost before = self@;
            proof {
                assert(d == doomed@[m as int]);
                if before.neurons.contains_key(d) {
                    assert(before.neuron_can_tick(d, k - 1, cap));
                    assert(!has_registered_input(o, doomed@[m as int]));
                    lemma_no_registered_input(before, main, o, d);
                }
            }
            self.no_more_outputs(d, Ghost(0));
            proof {
                if before.neurons.contains_key(d) && !before.neurons[d]@.is_output {
                    lemma_prune_keeps_tick(self@, before, k - 1, cap);
                }
                assert forall|x: int| 0 <= x < doomed@.len() implies done.contains(#[trigger] doomed@[x])
                    && (self@.neurons.contains_key(doomed@[x]) ==> !self@.neurons[doomed@[x]]@.is_output
                    && self@.neurons[doomed@[x]]@.happyness >= MAX_HAPPY_VALUE) by {
                    if self@.neurons.contains_key(doomed@[x]) {
                        assert(before.neurons.contains_key(doomed@[x]));
                    }
                }
                assert forall|n: u32| #[trigger] self@.neurons.contains_key(n) implies self@.neurons[n]@ == (NeuronModel {
                    output_axons: self@.out_of(n),
                    input_axons: self@.in_of(n),
                    ..main.neurons[n]@
                }) by {
                    assert(before.neurons.contains_key(n));
                }
                assert forall|n: u32| #[trigger] main.neurons.contains_key(n) && !self@.neurons.contains_key(n) implies exists|x: int|
                    0 <= x < doomed@.len() && doomed@[x] == n by {
                    if before.neurons.contains_key(n) {
                        assert(n == d);
                        assert(doomed@[m as int] == n);
                    }
                }
                assert forall|x: int| 0 <= x < m + 1 implies !self@.neurons.contains_key(#[trigger] doomed@[x]) by {
                    if x == m && before.neurons.contains_key(d) {
                        assert(doomed_ok(before, doomed@, done));
                        assert(!before.neurons[d]@.is_output);
                        assert(before.neurons[d]@.happyness >= MAX_HAPPY_VALUE);
                    }
                }
            }
            m = m + 1;
        }
        proof {
            let f = self@;
            assert(outputs@.skip(out0.len() as int) =~= newo);
            assert(out0.is_prefix_of(outputs@)) by {
                assert(outputs@.subrange(0, out0.len() as int) =~= out0);
            }
            assert forall|n: u32| #[trigger] f.neurons.contains_key(n) implies if o.active.contains(n) {
                visited(o.neurons[n]@, f.neurons[n]@, t, pre[n])
            } else {
                same_state(f.neurons[n]@, o.neurons[n]@)
                    && o.neurons[n]@.inputs.is_prefix_of(f.neurons[n]@.inputs)
            } by {
                assert(main.neurons.contains_key(n));
                assert(o.neurons.contains_key(n));
                assert(f.neurons[n]@.inputs == main.neurons[n]@.inputs);
            }
            assert forall|n: u32| #[trigger] o.neurons.contains_key(n) && !f.neurons.contains_key(n) implies {
                &&& o.active.contains(n)
                &&& !o.neurons[n]@.is_output
                &&& !has_registered_input(o, n)
                &&& turn_of(o.neurons[n]@, t, pre[n]).happyness >= MAX_HAPPY_VALUE
            } by {
                assert(main.neurons.contains_key(n));
                let x = choose|x: int| 0 <= x < doomed@.len() && doomed@[x] == n;
                assert(done.contains(doomed@[x]));
            }
            assert forall|n: u32| #[trigger] f.neurons.contains_key(n) && !o.active.contains(n)
                && f.neurons[n]@.inputs.len() > o.neurons[n]@.inputs.len() implies f.active.contains(n) by {
                assert(main.neurons.contains_key(n));
                assert(o.neurons.contains_key(n));
            }
            assert forall|x: u32| #[trigger] newo.contains(x) <==> {
                &&& o.active.contains(x)
                &&& o.neurons.contains_key(x)
                &&& o.neurons[x]@.is_output
                &&& turn_of(o.neurons[x]@, t, pre[x]).wants_to_fire()
            } by {}
            assert(done =~= o.active);
            assert forall|n: u32| #[trigger] o.neurons.contains_key(n) implies (!f.neurons.contains_key(n) <==> dies_in_turn(o, n, t, pre)) by {
                if dies_in_turn(o, n, t, pre) {
                    let x = choose|x: int| 0 <= x < doomed@.len() && doomed@[x] == n;
                    assert(!f.neurons.contains_key(doomed@[x]));
                }
                if !f.neurons.contains_key(n) {
                    assert(main.neurons.contains_key(n));
                    let x = choose|x: int| 0 <= x < doomed@.len() && doomed@[x] == n;
                    assert(done.contains(doomed@[x]));
                }
            }
            assert forall|a: u128| #[trigger] f.axons.contains_key(a) implies {
                let x = o.axons[a]@;
                let y = f.axons[a]@;
                let src = x.id_source as u32;
                let sink = x.id_sink as u32;
                &&& same_ends(y, x)
                &&& y.happyness == if o.active.contains(sink) && o.neurons.contains_key(sink) {
                    o.neurons[sink]@.happyness
                } else {
                    x.happyness
                }
                &&& if !x.is_input && fires_in_turn(o, src, t, pre) {
                    fired_from(x, y, turn_of(o.neurons[src]@, t, pre[src]).delta_t) && y.strength != 0
                } else {
                    y == (AxionModel { happyness: y.happyness, ..x })
                }
            } by {
                assert(main.axons.contains_key(a));
                assert(f.axons[a] == main.axons[a]);
                assert(axon_mid_tick(o, main.axons[a]@, a, t, done, pre, dropped@));
                if dropped@.contains(a) {
                    let w = choose|w: int| 0 <= w < dropped@.len() && dropped@[w] == a;
                    assert(!f.axons.contains_key(dropped@[w]));
                }
            }
            if o.active == Set::<u32>::empty() {
                assert(ids@.len() == 0) by {
                    if ids@.len() > 0 {
                        assert(ids@.to_set().contains(ids@[0]));
                    }
                }
            }
        }
        Ghost(pre)
    }
}

/// How many ticks a call of `tick` runs: the number asked, 1 when none is.
pub open spec fn tick_count(num_iterations: Option<u32>) -> int {
    match num_iterations {
        Some(n) => n as int,
        None => 1,
    }
}

/// `after` is well formed and `n` ticks on from `before`, with the same registered
/// inputs and outputs, the same limiter and display flag, no neuron or axon that was
/// not there before, and every axon left of the same kind (an input or not) as before.
pub open spec fn kept_through(after: SpirionModel, before: SpirionModel, n: int) -> bool {
    &&& after.wf()
    &&& after.clock == before.clock + n
    &&& after.output_ids == before.output_ids
    &&& after.input_ids == before.input_ids
    &&& after.limiter == before.limiter
    &&& after.displayed == before.displayed
    &&& after.neurons.dom().subset_of(before.neurons.dom())
    &&& after.axons.dom().subset_of(before.axons.dom())
    &&& forall|a: u128| #[trigger]
        after.axons.contains_key(a) ==> after.axons[a]@.is_input == before.axons[a]@.is_input
}

/// `after` is what `n` ticks can make of `before`: kept through them (see
/// `kept_through`); and when no neuron was active, or no tick ran, nothing but the
/// clock changed.
pub open spec fn ticked(after: SpirionModel, before: SpirionModel, n: int) -> bool {
    &&& kept_through(after, before, n)
    &&& before.active == Set::<u32>::empty() || n == 0 ==> after == (SpirionModel {
        clock: before.clock + n,
        ..before
    })
}

/// `states` are the brain before and after each of a run of ticks, `outs` the outputs
/// each tick reported and `pres` the pending inputs each active neuron had received by
/// its turn: every tick is a `one_tick`.
pub open spec fn ticks_ran(
    states: Seq<SpirionModel>,
    outs: Seq<Seq<u32>>,
    pres: Seq<Map<u32, Seq<i32>>>,
) -> bool {
    &&& states.len() == outs.len() + 1
    &&& pres.len() == outs.len()
    &&& forall|j: int| 0 <= j < outs.len() ==> #[trigger] one_tick(states[j], states[j + 1], outs[j], pres[j])
}

/// `n` ticks took `before` to `after` and reported `out`: some run of `n` ticks (see
/// `ticks_ran`) starts at `before` and ends at `after`, and `out` holds the outputs its
/// ticks reported, in order, or is `None` when they reported none.
pub open spec fn ran_ticks(before: SpirionModel, after: SpirionModel, n: int, out: Option<Vec<u32>>) -> bool {
    exists|states: Seq<SpirionModel>, outs: Seq<Seq<u32>>, pres: Seq<Map<u32, Seq<i32>>>|
        #[trigger] ticks_ran(states, outs, pres) && states[0] == before && states.last() == after
            && outs.len() == n && match out {
            Some(v) => v@ == outs.flatten() && v@.len() > 0,
            None => outs.flatten().len() == 0,
        }
}

impl Spirion {
    /// `tick` with room for `budget` ticks and signals within `cap`: what it leaves has
    /// room for the ticks that were not run.
    fn tick_within(&mut self, num_iterations: Option<u32>, Ghost(budget): Ghost<int>, Ghost(cap): Ghost<int>) -> (out: Option<Vec<u32>>)
        requires
            old(self)@.wf(),
            old(self)@.can_tick(budget, cap),
            tick_count(num_iterations) <= budget,
        ensures
            ticked(final(self)@, old(self)@, tick_count(num_iterations)),
            final(self)@.can_tick(budget - tick_count(num_iterations), cap),
            ran_ticks(old(self)@, final(self)@, tick_count(num_iterations), out),
            match out {
                Some(v) => v@.len() > 0 && forall|j: int|
                    0 <= j < v@.len() ==> final(self)@.output_ids.contains(#[trigger] v@[j]),
                None => true,
            },
            old(self)@.active == Set::<u32>::empty() || tick_count(num_iterations) == 0 ==> out is None,
    {
        let ghost o = self@;
        let count: u32 = match num_iterations {
            Some(n) => n,
            None => 1,
        };
        let mut output: Vec<u32> = Vec::new();
        let ghost mut states: Seq<SpirionModel> = seq![o];
        let ghost mut outs: Seq<Seq<u32>> = Seq::empty();
        let ghost mut pres: Seq<Map<u32, Seq<i32>>> = Seq::empty();
        let mut i: u32 = 0;
        while i < count
            invariant
                i <= count,
                count == tick_count(num_iterations),
                count <= budget,
                self@.wf(),
                self@.can_tick(budget - i, cap),
                outputs_ok(self@, output@),
                ticked(self@, o, i as int),
                ticks_ran(states, outs, pres),
                states[0] == o,
                states.last() == self@,
                outs.len() == i,
                output@ == outs.flatten(),
                o.active == Set::<u32>::empty() || i == 0 ==> output@.len() == 0,
            decreases count - i,
        {
            let ghost before = self@;
            let ghost out_before = output@;
            let Ghost(p) = self.tick_once(&mut output, Ghost(budget - i), Ghost(cap));
            proof {
                let seg = output@.skip(out_before.len() as int);
                assert(output@ =~= out_before + seg) by {
                    assert(output@.subrange(0, out_before.len() as int) =~= out_before);
                }
                outs.lemma_flatten_push(seg);
                let s2 = states.push(self@);
                let o2 = outs.push(seg);
                let p2 = pres.push(p);
                assert forall|j: int| 0 <= j < o2.len() implies #[trigger] one_tick(s2[j], s2[j + 1], o2[j], p2[j]) by {
                    if j < outs.len() {
                        assert(one_tick(states[j], states[j + 1], outs[j], pres[j]));
                    }
                }
                lemma_ticked_chain(self@, before, o, i as int, 1);
                states = s2;
                outs = o2;
                pres = p2;
            }
            i = i + 1;
        }
        if output.len() == 0 {
            None
        } else {
            Some(output)
        }
    }
}

// Public
impl Spirion {
    /// Ticks over the brain simulation for however many specified ticks (see
    /// `tick_count`: one by default), with no input. Each tick (see `one_tick`) moves the clock on and gives every neuron that
    /// was active its turn: its incoming axons take on its happiness, it is updated
    /// (see `NeuronModel::updated`), and if it then wants to fire it fires. An output
    /// that fires is reported; any other neuron sends a signal along each outgoing
    /// axon, whose strength first mutates: a nonzero signal goes to the pending inputs
    /// of the neuron it reaches, which is active in the next tick unless it was in
    /// this one, and an axon whose strength came out zero is removed. A neuron fed by
    /// no registered input that ends its turn at least `MAX_HAPPY_VALUE` unhappy dies
    /// with its axons. The ids of the outputs that fired come out in the order they
    /// fired (`None` when none did). A brain with no active neuron only moves its clock
    /// on. The brain must have room for the ticks with some bound on the signals (see
    /// `SpirionModel::can_tick`; `has_room` tells).
    pub fn tick(&mut self, num_iterations: Option<u32>) -> (out: Option<Vec<u32>>)
        requires
            old(self)@.wf(),
            exists|cap: int| old(self)@.can_tick(tick_count(num_iterations), cap),
        ensures
            ticked(final(self)@, old(self)@, tick_count(num_iterations)),
            ran_ticks(old(self)@, final(self)@, tick_count(num_iterations), out),
            match out {
                Some(v) => v@.len() > 0 && forall|j: int|
                    0 <= j < v@.len() ==> final(self)@.output_ids.contains(#[trigger] v@[j]),
                None => true,
            },
            old(self)@.active == Set::<u32>::empty() || tick_count(num_iterations) == 0 ==> out is None,
    {
        let ghost cap = choose|cap: int| old(self)@.can_tick(tick_count(num_iterations), cap);
        self.tick_within(num_iterations, Ghost(tick_count(num_iterations)), Ghost(cap))
    }
}

/// `n` ticks took `before` to `after`, whatever they reported: some run of `n` ticks
/// (see `ticks_ran`) starts at `before` and ends at `after`.
pub open spec fn ran(before: SpirionModel, after: SpirionModel, n: int) -> bool {
    exists|states: Seq<SpirionModel>, outs: Seq<Seq<u32>>, pres: Seq<Map<u32, Seq<i32>>>|
        #[trigger] ticks_ran(states, outs, pres) && states[0] == before && states.last() == after
            && outs.len() == n
}

/// No tick at all leaves a brain as it was.
pub proof fn lemma_ran_none(s: SpirionModel)
    ensures
        ran(s, s, 0),
{
    let states = seq![s];
    let outs = Seq::<Seq<u32>>::empty();
    let pres = Seq::<Map<u32, Seq<i32>>>::empty();
    assert(ticks_ran(states, outs, pres));
}

/// Ticks that reported outputs are ticks.
pub proof fn lemma_ran_ticks_ran(before: SpirionModel, after: SpirionModel, n: int, out: Option<Vec<u32>>)
    requires
        ran_ticks(before, after, n, out),
    ensures
        ran(before, after, n),
{
    let (states, outs, pres) = choose|states: Seq<SpirionModel>, outs: Seq<Seq<u32>>, pres: Seq<Map<u32, Seq<i32>>>|
        #[trigger] ticks_ran(states, outs, pres) && states[0] == before && states.last() == after
            && outs.len() == n && match out {
            Some(v) => v@ == outs.flatten() && v@.len() > 0,
            None => outs.flatten().len() == 0,
        };
    assert(ticks_ran(states, outs, pres));
}

/// A run of `x` ticks followed by a run of `y` ticks is a run of `x + y` ticks.
pub proof fn lemma_ran_chain(a: SpirionModel, b: SpirionModel, c: SpirionModel, x: int, y: int)
    requires
        ran(a, b, x),
        ran(b, c, y),
    ensures
        ran(a, c, x + y),
{
    let (s1, o1, p1) = choose|states: Seq<SpirionModel>, outs: Seq<Seq<u32>>, pres: Seq<Map<u32, Seq<i32>>>|
        #[trigger] ticks_ran(states, outs, pres) && states[0] == a && states.last() == b
            && outs.len() == x;
    let (s2, o2, p2) = choose|states: Seq<SpirionModel>, outs: Seq<Seq<u32>>, pres: Seq<Map<u32, Seq<i32>>>|
        #[trigger] ticks_ran(states, outs, pres) && states[0] == b && states.last() == c
            && outs.len() == y;
    let s3 = s1 + s2.skip(1);
    let o3 = o1 + o2;
    let p3 = p1 + p2;
    assert forall|j: int| 0 <= j < o3.len() implies #[trigger] one_tick(s3[j], s3[j + 1], o3[j], p3[j]) by {
        if j < o1.len() {
            assert(one_tick(s1[j], s1[j + 1], o1[j], p1[j]));
            if j + 1 == o1.len() {
                assert(s3[j + 1] == s1[j + 1]);
            }
        } else {
            let i = j - o1.len();
            assert(one_tick(s2[i], s2[i + 1], o2[i], p2[i]));
            if i == 0 {
                assert(s3[j] == s1.last());
            } else {
                assert(s3[j] == s2[i]);
            }
            assert(s3[j + 1] == s2[i + 1]);
        }
    }
    assert(ticks_ran(s3, o3, p3));
    assert(s3[0] == a);
    assert(s3.last() == c) by {
        if s2.len() == 1 {
            assert(s3 =~= s1);
        }
    }
}

/// Ticks of `y` after ticks of `x` are ticks of `x + y`: what `ticked` states of each
/// composes.
pub proof fn lemma_ticked_chain(c: SpirionModel, b: SpirionModel, a: SpirionModel, x: int, y: int)
    requires
        0 <= x,
        0 <= y,
        ticked(b, a, x),
        ticked(c, b, y),
    ensures
        ticked(c, a, x + y),
{
}

/// An intensity of reward or pain, capped at 10.
pub open spec fn capped_intensity(intensity: u32) -> int {
    if intensity < 10 {
        intensity as int
    } else {
        10
    }
}

/// How many ticks a reward or pain of `intensity` runs: `ITERATION_MULTIPLIER` a level.
pub open spec fn rounds_for(intensity: u32) -> int {
    ITERATION_MULTIPLIER * capped_intensity(intensity)
}

/// The input axons that the signals of `list` go down, in order.
pub open spec fn signal_ids(list: Seq<(u128, i32)>) -> Seq<u128> {
    list.map_values(|p: (u128, i32)| p.0)
}

/// The registered inputs of `s` that are due in round `round` of a reward: those whose
/// average interval divides the round number and is below it.
pub open spec fn due_inputs(s: SpirionModel, round: int) -> Set<u128> {
    Set::new(
        |a: u128|
            s.input_ids.contains(a) && s.axons.contains_key(a) && round % s.axons[a]@.avg_t == 0
                && s.axons[a]@.avg_t < round,
    )
}

/// The inputs due in each of the first `n` rounds of a reward on `s`.
pub open spec fn reward_dues(s: SpirionModel, n: int) -> Seq<Set<u128>> {
    Seq::new(n as nat, |r: int| due_inputs(s, r))
}

/// How many of the axons in `due` reach neuron `n`.
pub open spec fn due_reaching(due: Set<u128>, axons: Map<u128, Axion>, n: u32) -> nat {
    due.filter(|a: u128| axons[a]@.id_sink == n).len()
}

/// The neurons reached by the axons in `due`.
pub open spec fn due_sinks(due: Set<u128>, axons: Map<u128, Axion>) -> Set<u32> {
    Set::new(|n: u32| exists|a: u128| due.contains(a) && #[trigger] axons[a]@.id_sink == n)
}

/// `after` is `before` with a signal of `MAX_THRESHOLD` sent down each input axon in
/// `due`: each neuron gets one such pending input for each of those axons that reaches
/// it, and the neurons reached become active; nothing else changes.
pub open spec fn fed_from(after: SpirionModel, before: SpirionModel, due: Set<u128>) -> bool {
    &&& after.neurons.dom() == before.neurons.dom()
    &&& forall|n: u32| #[trigger]
        before.neurons.contains_key(n) ==> after.neurons[n]@ == (NeuronModel {
            inputs: before.neurons[n]@.inputs + Seq::new(
                due_reaching(due, before.axons, n),
                |i: int| MAX_THRESHOLD,
            ),
            ..before.neurons[n]@
        })
    &&& after == (SpirionModel {
        neurons: after.neurons,
        active: before.active + due_sinks(due, before.axons),
        ..before
    })
}

/// `states` are the brain before each round of a run and after the last, `fed` the
/// brain once each round's inputs `dues` were fed to it: each round feeds its inputs
/// (see `fed_from`) and then runs one tick (see `one_tick`), which reported `outs` and
/// in which each active neuron had received `pres` by its turn.
pub open spec fn fed_ticks_ran(
    states: Seq<SpirionModel>,
    fed: Seq<SpirionModel>,
    dues: Seq<Set<u128>>,
    outs: Seq<Seq<u32>>,
    pres: Seq<Map<u32, Seq<i32>>>,
) -> bool {
    &&& states.len() == dues.len() + 1
    &&& fed.len() == dues.len()
    &&& outs.len() == dues.len()
    &&& pres.len() == dues.len()
    &&& forall|j: int| 0 <= j < dues.len() ==> #[trigger] fed_from(fed[j], states[j], dues[j])
    &&& forall|j: int|
        0 <= j < dues.len() ==> #[trigger] one_tick(fed[j], states[j + 1], outs[j], pres[j])
}

/// Rounds that each feed the inputs of `dues` and tick once took `before` to `after`.
pub open spec fn fed_run(before: SpirionModel, after: SpirionModel, dues: Seq<Set<u128>>) -> bool {
    exists|states: Seq<SpirionModel>, fed: Seq<SpirionModel>, outs: Seq<Seq<u32>>, pres: Seq<Map<u32, Seq<i32>>>|
        #[trigger] fed_ticks_ran(states, fed, dues, outs, pres) && states[0] == before
            && states.last() == after
}

/// No round at all leaves a brain as it was.
proof fn lemma_fed_run_none(s: SpirionModel)
    ensures
        fed_run(s, s, Seq::empty()),
{
    let states = seq![s];
    let fed = Seq::<SpirionModel>::empty();
    let outs = Seq::<Seq<u32>>::empty();
    let pres = Seq::<Map<u32, Seq<i32>>>::empty();
    assert(fed_ticks_ran(states, fed, Seq::empty(), outs, pres));
}

/// One more round, feeding `due` and ticking once, extends a run.
proof fn lemma_fed_run_step(
    a: SpirionModel,
    b: SpirionModel,
    f: SpirionModel,
    c: SpirionModel,
    dues: Seq<Set<u128>>,
    due: Set<u128>,
    n: int,
    out: Option<Vec<u32>>,
)
    requires
        fed_run(a, b, dues),
        fed_from(f, b, due),
        ran_ticks(f, c, 1, out),
    ensures
        fed_run(a, c, dues.push(due)),
{
    let (states, fed, outs, pres) = choose|states: Seq<SpirionModel>, fed: Seq<SpirionModel>, outs: Seq<Seq<u32>>, pres: Seq<Map<u32, Seq<i32>>>|
        #[trigger] fed_ticks_ran(states, fed, dues, outs, pres) && states[0] == a && states.last() == b;
    let (st1, outs1, pres1) = choose|st: Seq<SpirionModel>, outs: Seq<Seq<u32>>, pres: Seq<Map<u32, Seq<i32>>>|
        #[trigger] ticks_ran(st, outs, pres) && st[0] == f && st.last() == c && outs.len() == 1 && match out {
            Some(v) => v@ == outs.flatten() && v@.len() > 0,
            None => outs.flatten().len() == 0,
        };
    assert(ticks_ran(st1, outs1, pres1));
    assert(one_tick(st1[0], st1[0int + 1], outs1[0], pres1[0]));
    assert(st1[0int + 1] == c);
    let states2 = states.push(c);
    let fed2 = fed.push(f);
    let outs2 = outs.push(outs1[0]);
    let pres2 = pres.push(pres1[0]);
    let d2 = dues.push(due);
    assert forall|j: int| 0 <= j < d2.len() implies #[trigger] fed_from(fed2[j], states2[j], d2[j]) by {
        if j < dues.len() {
            assert(fed2[j] == fed[j] && states2[j] == states[j] && d2[j] == dues[j]);
            assert(fed_from(fed[j], states[j], dues[j]));
        } else {
            assert(states2[j] == b);
            assert(fed2[j] == f);
            assert(d2[j] == due);
        }
    }
    assert forall|j: int| 0 <= j < d2.len() implies #[trigger] one_tick(
        fed2[j],
        states2[j + 1],
        outs2[j],
        pres2[j],
    ) by {
        if j < dues.len() {
            assert(fed2[j] == fed[j] && states2[j] == states[j] && states2[j + 1] == states[j + 1]);
            assert(outs2[j] == outs[j] && pres2[j] == pres[j] && d2[j] == dues[j]);
            assert(one_tick(fed[j], states[j + 1], outs[j], pres[j]));
        } else {
            assert(states2[j] == b);
            assert(fed2[j] == f && states2[j + 1] == c && outs2[j] == outs1[0] && pres2[j] == pres1[0]);
            assert(d2[j] == due);
        }
    }
    assert(fed_ticks_ran(states2, fed2, d2, outs2, pres2));
    assert(states2[0] == a);
}

/// Pending inputs followed by `c` signals of `MAX_THRESHOLD` add `c` times
/// `MAX_THRESHOLD` to their total magnitude.
proof fn lemma_abs_total_repeat(s: Seq<i32>, c: nat)
    ensures
        abs_total(s + Seq::new(c, |i: int| MAX_THRESHOLD)) == abs_total(s) + MAX_THRESHOLD * c,
    decreases c,
{
    if c == 0 {
        assert(s + Seq::new(0, |i: int| MAX_THRESHOLD) =~= s);
    } else {
        let c1 = (c - 1) as nat;
        lemma_abs_total_repeat(s, c1);
        let t = s + Seq::new(c1, |i: int| MAX_THRESHOLD);
        assert(s + Seq::new(c, |i: int| MAX_THRESHOLD) =~= t.push(MAX_THRESHOLD));
        lemma_abs_total_push(t, MAX_THRESHOLD);
    }
}

/// Registered inputs reaching neuron `n` are among its incoming axons, so no more of
/// them reach it than it has incoming axons.
proof fn lemma_due_count_le(s: SpirionModel, due: Set<u128>, n: u32)
    requires
        s.wf(),
        due.finite(),
        due.subset_of(s.input_ids),
        s.neurons.contains_key(n),
    ensures
        due_reaching(due, s.axons, n) <= s.in_of(n).len(),
{
    let pred = |a: u128| s.axons[a]@.id_sink == n;
    let f = due.filter(pred);
    assert forall|a: u128| f.contains(a) implies s.in_of(n).to_set().contains(a) by {
        assert(s.input_ids.contains(a));
        assert(s.axons.contains_key(a));
        assert(s.in_of(s.axons[a]@.id_sink as u32).contains(a));
    }
    s.in_of(n).unique_seq_to_set();
    vstd::seq_lib::seq_to_set_is_finite(s.in_of(n));
    vstd::set_lib::lemma_len_subset(f, s.in_of(n).to_set());
}

/// The most an update can add to the unhappiness grows with the clock it runs to.
proof fn lemma_growth_grows(m: NeuronModel, e1: int, e2: int)
    requires
        e1 <= e2,
        0 <= m.avg_t,
        m.last_fired <= e1,
    ensures
        0 <= m.growth_until(e1) <= m.growth_until(e2),
{
    let a = m.span_until(e1);
    let b = m.span_until(e2);
    assert(0 <= a <= b);
    assert(a / ONE_STANDARD_DEV_THRESHOLD as int <= b / ONE_STANDARD_DEV_THRESHOLD as int) by (nonlinear_arith)
        requires
            0 <= a <= b,
            ONE_STANDARD_DEV_THRESHOLD > 0,
    ;
    assert(0 <= a / ONE_STANDARD_DEV_THRESHOLD as int) by (nonlinear_arith)
        requires
            0 <= a,
            ONE_STANDARD_DEV_THRESHOLD > 0,
    ;
}

/// Feeding a brain with room for `k` ticks signals of `MAX_THRESHOLD` down some of its
/// registered inputs, at most one each, uses up the room of one tick (an input axon
/// takes no more than the bound `cap` a tick allows each incoming axon).
proof fn lemma_feed_room(after: SpirionModel, before: SpirionModel, due: Set<u128>, k: int, cap: int)
    requires
        before.wf(),
        before.can_tick(k, cap),
        1 <= k,
        MAX_THRESHOLD <= cap,
        due.finite(),
        due.subset_of(before.input_ids),
        fed_from(after, before, due),
    ensures
        after.wf(),
        after.can_tick(k - 1, cap),
{
    lemma_inputs_keep_wf(after, before);
    assert forall|n: u32| #[trigger] after.neurons.contains_key(n) implies after.neuron_can_tick(n, k - 1, cap) by {
        assert(before.neuron_can_tick(n, k, cap));
        let m = before.neurons[n]@;
        let c = due_reaching(due, before.axons, n);
        lemma_due_count_le(before, due, n);
        lemma_abs_total_repeat(m.inputs, c);
        let len = m.input_axons.len() as int;
        assert(MAX_THRESHOLD * c <= len * cap) by (nonlinear_arith)
            requires
                0 <= c <= len,
                0 <= MAX_THRESHOLD <= cap,
        ;
        assert(len * cap + (k - 1) * len * cap == k * len * cap) by (nonlinear_arith);
        assert(0 <= (k - 1) * len * cap) by (nonlinear_arith)
            requires
                1 <= k,
                0 <= len,
                0 <= cap,
        ;
        lemma_growth_grows(m, before.clock + k - 1, before.clock + k);
        let g1 = m.growth_until(before.clock + k - 1);
        let g2 = m.growth_until(before.clock + k);
        assert((k - 1) * g1 <= k * g2) by (nonlinear_arith)
            requires
                1 <= k,
                0 <= g1 <= g2,
        ;
    }
    assert forall|a: u128| #[trigger] after.axons.contains_key(a) implies axon_can_tick(after.axons[a]@, k - 1, cap) by {
        assert(axon_can_tick(before.axons[a]@, k, cap));
    }
}

/// Signals of `MAX_THRESHOLD` down distinct registered inputs, fed through
/// `brain_input`, feed the brain exactly those inputs (see `fed_from`).
proof fn lemma_input_feeds(after: SpirionModel, before: SpirionModel, list: Seq<(u128, i32)>)
    requires
        forall|k: int| 0 <= k < list.len() ==> (#[trigger] list[k]).1 == MAX_THRESHOLD,
        signal_ids(list).no_duplicates(),
        after.neurons.dom() == before.neurons.dom(),
        forall|n: u32| #[trigger]
            before.neurons.contains_key(n) ==> after.neurons[n]@ == (NeuronModel {
                inputs: before.neurons[n]@.inputs + signals_for(list, before.axons, n),
                ..before.neurons[n]@
            }),
        after == (SpirionModel {
            neurons: after.neurons,
            active: before.active + sinks_of(list, before.axons),
            ..before
        }),
    ensures
        fed_from(after, before, signal_ids(list).to_set()),
{
    let ids = signal_ids(list);
    assert forall|n: u32| #[trigger] before.neurons.contains_key(n) implies after.neurons[n]@ == (NeuronModel {
        inputs: before.neurons[n]@.inputs + Seq::new(
            due_reaching(ids.to_set(), before.axons, n),
            |i: int| MAX_THRESHOLD,
        ),
        ..before.neurons[n]@
    }) by {
        lemma_signals_all_max(list, before.axons, n);
    }
    assert(sinks_of(list, before.axons) =~= due_sinks(ids.to_set(), before.axons)) by {
        assert forall|n: u32| sinks_of(list, before.axons).contains(n) implies due_sinks(ids.to_set(), before.axons).contains(n) by {
            let k = choose|k: int| 0 <= k < list.len() && before.axons[list[k].0]@.id_sink == n;
            assert(ids[k] == list[k].0);
            assert(ids.to_set().contains(ids[k]));
        }
        assert forall|n: u32| due_sinks(ids.to_set(), before.axons).contains(n) implies sinks_of(list, before.axons).contains(n) by {
            let a = choose|a: u128| ids.to_set().contains(a) && #[trigger] before.axons[a]@.id_sink == n;
            let k = choose|k: int| 0 <= k < ids.len() && ids[k] == a;
            assert(list[k].0 == a);
        }
    }
}

/// A round that fed `before` its inputs and then ticked once keeps the brain kept
/// through one more tick from `o`.
proof fn lemma_kept_chain(after: SpirionModel, fed: SpirionModel, before: SpirionModel, o: SpirionModel, due: Set<u128>, n: int)
    requires
        kept_through(before, o, n),
        fed_from(fed, before, due),
        ticked(after, fed, 1),
    ensures
        kept_through(after, o, n + 1),
{
}

/// Signals all of strength `MAX_THRESHOLD`, down distinct input axons, deliver to each
/// neuron as many of them as there are of those axons reaching it.
proof fn lemma_signals_all_max(list: Seq<(u128, i32)>, axons: Map<u128, Axion>, n: u32)
    requires
        forall|k: int| 0 <= k < list.len() ==> (#[trigger] list[k]).1 == MAX_THRESHOLD,
        signal_ids(list).no_duplicates(),
    ensures
        signals_for(list, axons, n) == Seq::new(
            due_reaching(signal_ids(list).to_set(), axons, n),
            |i: int| MAX_THRESHOLD,
        ),
    decreases list.len(),
{
    let ids = signal_ids(list);
    let pred = |a: u128| axons[a]@.id_sink == n;
    if list.len() == 0 {
        assert(ids.to_set() =~= Set::empty());
        assert(ids.to_set().filter(pred) =~= Set::empty());
    } else {
        let rest = list.drop_last();
        let rids = signal_ids(rest);
        assert(rids =~= ids.drop_last());
        assert forall|k: int| 0 <= k < rest.len() implies (#[trigger] rest[k]).1 == MAX_THRESHOLD by {
            assert(rest[k] == list[k]);
        }
        assert forall|i: int, j: int| 0 <= i < rids.len() && 0 <= j < rids.len() && i != j implies rids[i] != rids[j] by {
            assert(rids[i] == ids[i] && rids[j] == ids[j]);
        }
        lemma_signals_all_max(rest, axons, n);
        let x = list.last().0;
        assert(ids.to_set() =~= rids.to_set().insert(x)) by {
            assert forall|a: u128| ids.to_set().contains(a) implies rids.to_set().insert(x).contains(a) by {
                let k = choose|k: int| 0 <= k < ids.len() && ids[k] == a;
                if k < rids.len() {
                    assert(rids[k] == a);
                }
            }
            assert forall|a: u128| rids.to_set().insert(x).contains(a) implies ids.to_set().contains(a) by {
                if a == x {
                    assert(ids[ids.len() - 1] == x);
                } else {
                    let k = choose|k: int| 0 <= k < rids.len() && rids[k] == a;
                    assert(ids[k] == a);
                }
            }
        }
        assert(!rids.to_set().contains(x)) by {
            if rids.to_set().contains(x) {
                let k = choose|k: int| 0 <= k < rids.len() && rids[k] == x;
                assert(ids[k] == ids[ids.len() - 1]);
            }
        }
        rids.to_set().lemma_len_filter(pred);
        vstd::seq_lib::seq_to_set_is_finite(rids);
        let fr = rids.to_set().filter(pred);
        if pred(x) {
            assert(ids.to_set().filter(pred) =~= fr.insert(x));
            assert(!fr.contains(x));
        } else {
            assert(ids.to_set().filter(pred) =~= fr);
        }
        assert(signals_for(list, axons, n) =~= Seq::new(
            due_reaching(ids.to_set(), axons, n),
            |i: int| MAX_THRESHOLD,
        ));
    }
}

// Public
impl Spirion {
    /// Rewards Spirion with a level of intensity, ranging from 0 (none) to 10 (endless
    /// bliss; more counts as 10). It runs `ITERATION_MULTIPLIER` rounds per level. In
    /// round `r` (counting from 0) it fires, through `brain_input`, a signal of
    /// `MAX_THRESHOLD` down every registered input that is due (see `due_inputs`: its
    /// average interval divides `r` and is below it), then ticks once. `None` and a
    /// level of 0 do nothing. Otherwise the brain must have room for twice as many
    /// ticks as rounds, with signals bounded by no less than `MAX_THRESHOLD` (see
    /// `has_room_above`).
    pub fn reward(&mut self, intensity: Option<u32>)
        requires
            old(self)@.wf(),
            intensity matches Some(i) ==> (rounds_for(i) > 0 ==> exists|cap: int|
                MAX_THRESHOLD <= cap && #[trigger] old(self)@.can_tick(2 * rounds_for(i), cap)),
        ensures
            intensity is None ==> final(self)@ == old(self)@,
            intensity matches Some(i) ==> kept_through(final(self)@, old(self)@, rounds_for(i))
                && fed_run(old(self)@, final(self)@, reward_dues(old(self)@, rounds_for(i))),
    {
        let level: u32 = match intensity {
            None => {
                return ;
            },
            Some(i) => if i < 10 {
                i
            } else {
                10
            },
        };
        let ghost o = self@;
        if level == 0 {
            proof {
                lemma_fed_run_none(o);
                assert(reward_dues(o, 0) =~= Seq::<Set<u128>>::empty());
            }
            return ;
        }
        let ghost cap = choose|cap: int| MAX_THRESHOLD <= cap && #[trigger] o.can_tick(2 * rounds_for(level), cap);
        let ids = u128_set_to_vec(&self.input_ids);
        let mut frequencies: Vec<u32> = Vec::new();
        let mut k: usize = 0;
        while k < ids.len()
            invariant
                k <= ids@.len(),
                self@ == o,
                ids@.to_set() == o.input_ids,
                frequencies@.len() == k,
                o.wf(),
                forall|j: int|
                    0 <= j < k ==> #[trigger] frequencies@[j] == o.axons[ids@[j]]@.avg_t
                        && frequencies@[j] >= 1,
            decreases ids.len() - k,
        {
            let a = ids[k];
            proof {
                assert(ids@.to_set().contains(a));
            }
            let f: u32 = match self.axons.get(&a) {
                Some(axon) => axon.avg_t(),
                None => {
                    proof {
                        assert(false);
                    }
                    return ;
                },
            };
            frequencies.push(f);
            k = k + 1;
        }
        let rounds: u32 = level * ITERATION_MULTIPLIER;
        proof {
            lemma_fed_run_none(o);
            assert(reward_dues(o, 0) =~= Seq::<Set<u128>>::empty());
        }
        let mut round: u32 = 0;
        while round < rounds
            invariant
                round <= rounds,
                rounds == rounds_for(level),
                o.wf(),
                kept_through(self@, o, round as int),
                fed_run(o, self@, reward_dues(o, round as int)),
                MAX_THRESHOLD <= cap,
                self@.can_tick(2 * (rounds - round), cap),
                ids@.no_duplicates(),
                ids@.to_set() == o.input_ids,
                frequencies@.len() == ids@.len(),
                forall|j: int|
                    0 <= j < ids@.len() ==> #[trigger] frequencies@[j] == o.axons[ids@[j]]@.avg_t
                        && frequencies@[j] >= 1,
            decreases rounds - round,
        {
            let mut due: Vec<(u128, i32)> = Vec::new();
            let mut i: usize = 0;
            while i < frequencies.len()
                invariant
                    i <= frequencies@.len(),
                    frequencies@.len() == ids@.len(),
                    ids@.no_duplicates(),
                    forall|j: int| 0 <= j < ids@.len() ==> #[trigger] frequencies@[j] >= 1,
                    forall|m: int| 0 <= m < due@.len() ==> (#[trigger] due@[m]).1 == MAX_THRESHOLD,
                    signal_ids(due@).no_duplicates(),
                    forall|m: int| #![trigger due@[m]]
                        0 <= m < due@.len() ==> exists|j: int|
                            0 <= j < i && #[trigger] ids@[j] == due@[m].0,
                    forall|j: int|
                        0 <= j < i ==> (signal_ids(due@).contains(#[trigger] ids@[j]) <==> (round
                            % frequencies@[j] == 0 && frequencies@[j] < round)),
                decreases frequencies.len() - i,
            {
                proof {
                    assert(frequencies@[i as int] >= 1);
                }
                if round % frequencies[i] == 0 && frequencies[i] < round {
                    let ghost before_due = due@;
                    proof {
                        assert(!signal_ids(before_due).contains(ids@[i as int])) by {
                            if signal_ids(before_due).contains(ids@[i as int]) {
                                let m = choose|m: int| 0 <= m < before_due.len() && signal_ids(before_due)[m] == ids@[i as int];
                                let j = choose|j: int| 0 <= j < i && #[trigger] ids@[j] == before_due[m].0;
                            }
                        }
                    }
                    due.push((ids[i], MAX_THRESHOLD));
                    proof {
                        assert(signal_ids(due@) =~= signal_ids(before_due).push(ids@[i as int]));
                        assert forall|m: int| #![trigger due@[m]] 0 <= m < due@.len() implies exists|j: int|
                            0 <= j < i + 1 && #[trigger] ids@[j] == due@[m].0 by {
                            if m < before_due.len() {
                                assert(due@[m] == before_due[m]);
                                let j = choose|j: int| 0 <= j < i && #[trigger] ids@[j] == before_due[m].0;
                            } else {
                                assert(ids@[i as int] == due@[m].0);
                            }
                        }
                        assert forall|j: int| 0 <= j < i + 1 implies (signal_ids(due@).contains(#[trigger] ids@[j]) <==> (round
                            % frequencies@[j] == 0 && frequencies@[j] < round)) by {
                            if j < i {
                                assert(ids@[j] != ids@[i as int]);
                                if signal_ids(due@).contains(ids@[j]) {
                                    let m = choose|m: int| 0 <= m < signal_ids(due@).len() && signal_ids(due@)[m] == ids@[j];
                                    assert(m < before_due.len());
                                    assert(signal_ids(before_due)[m] == ids@[j]);
                                }
                                if signal_ids(before_due).contains(ids@[j]) {
                                    let m = choose|m: int| 0 <= m < signal_ids(before_due).len() && signal_ids(before_due)[m] == ids@[j];
                                    assert(signal_ids(due@)[m] == ids@[j]);
                                }
                            } else {
                                assert(signal_ids(due@)[before_due.len() as int] == ids@[j]);
                            }
                        }
                    }
                } else {
                    proof {
                        assert(!signal_ids(due@).contains(ids@[i as int])) by {
                            if signal_ids(due@).contains(ids@[i as int]) {
                                let m = choose|m: int| 0 <= m < due@.len() && signal_ids(due@)[m] == ids@[i as int];
                                let j = choose|j: int| 0 <= j < i && #[trigger] ids@[j] == due@[m].0;
                            }
                        }
                    }
                }
                i = i + 1;
            }
            let ghost before = self@;
            let ghost d = signal_ids(due@).to_set();
            proof {
                assert(d =~= due_inputs(o, round as int)) by {
                    assert forall|a: u128| d.contains(a) implies due_inputs(o, round as int).contains(a) by {
                        let m = choose|m: int| 0 <= m < due@.len() && signal_ids(due@)[m] == a;
                        let j = choose|j: int| 0 <= j < ids@.len() && #[trigger] ids@[j] == due@[m].0;
                        assert(ids@.to_set().contains(a));
                        assert(frequencies@[j] == o.axons[ids@[j]]@.avg_t);
                    }
                    assert forall|a: u128| due_inputs(o, round as int).contains(a) implies d.contains(a) by {
                        assert(ids@.to_set().contains(a));
                        let j = choose|j: int| 0 <= j < ids@.len() && ids@[j] == a;
                        assert(frequencies@[j] == o.axons[ids@[j]]@.avg_t);
                    }
                }
                assert forall|m: int| 0 <= m < due@.len() implies before.input_ids.contains(
                    #[trigger] due@[m].0,
                ) by {
                    let j = choose|j: int| 0 <= j < ids@.len() && #[trigger] ids@[j] == due@[m].0;
                    assert(ids@.to_set().contains(ids@[j]));
                }
            }
            self.brain_input(Some(due));
            proof {
                lemma_input_feeds(self@, before, due@);
                vstd::seq_lib::seq_to_set_is_finite(signal_ids(due@));
                assert(d.subset_of(before.input_ids));
                lemma_feed_room(self@, before, d, 2 * (rounds - round), cap);
            }
            let ghost fed = self@;
            let out = self.tick_within(None, Ghost(2 * (rounds - round) - 1), Ghost(cap));
            proof {
                lemma_fed_run_step(o, before, fed, self@, reward_dues(o, round as int), d, 1, out);
                assert(reward_dues(o, round + 1) =~= reward_dues(o, round as int).push(d));
                lemma_kept_chain(self@, fed, before, o, d, round as int);
            }
            round = round + 1;
        }
    }

    /// Causes pain to Spirion, with a level of chaos based on the intensity: 0 (none)
    /// to 10 (pure hellish agony; more counts as 10). It runs `ITERATION_MULTIPLIER`
    /// rounds per level. In each round every registered input is drawn when a random
    /// draw from -2 to 0 comes out at 0 (about two times in three, as the draw rounds
    /// toward zero), a signal of `MAX_THRESHOLD` is fired down each one drawn through
    /// `brain_input`, and the brain ticks once. `None` and a level of 0 do nothing.
    /// Otherwise the brain must have room for twice as many ticks as rounds, with
    /// signals bounded by no less than `MAX_THRESHOLD` (see `has_room_above`).
    pub fn pain(&mut self, intensity: Option<u32>)
        requires
            old(self)@.wf(),
            intensity matches Some(i) ==> (rounds_for(i) > 0 ==> exists|cap: int|
                MAX_THRESHOLD <= cap && #[trigger] old(self)@.can_tick(2 * rounds_for(i), cap)),
        ensures
            intensity is None ==> final(self)@ == old(self)@,
            intensity matches Some(i) ==> kept_through(final(self)@, old(self)@, rounds_for(i))
                && exists|dues: Seq<Set<u128>>|
                dues.len() == rounds_for(i) && (forall|r: int|
                    0 <= r < dues.len() ==> (#[trigger] dues[r]).subset_of(old(self)@.input_ids))
                    && #[trigger] fed_run(old(self)@, final(self)@, dues),
    {
        let level: u32 = match intensity {
            None => {
                return ;
            },
            Some(i) => if i < 10 {
                i
            } else {
                10
            },
        };
        let ghost o = self@;
        if level == 0 {
            proof {
                lemma_fed_run_none(o);
                let dues = Seq::<Set<u128>>::empty();
                assert(fed_run(o, o, dues));
            }
            return ;
        }
        let ghost cap = choose|cap: int| MAX_THRESHOLD <= cap && #[trigger] o.can_tick(2 * rounds_for(level), cap);
        let rounds: u32 = level * ITERATION_MULTIPLIER;
        let ghost mut dues: Seq<Set<u128>> = Seq::empty();
        proof {
            lemma_fed_run_none(o);
        }
        let mut round: u32 = 0;
        while round < rounds
            invariant
                round <= rounds,
                rounds == rounds_for(level),
                o.wf(),
                kept_through(self@, o, round as int),
                dues.len() == round,
                forall|r: int| 0 <= r < dues.len() ==> (#[trigger] dues[r]).subset_of(o.input_ids),
                fed_run(o, self@, dues),
                MAX_THRESHOLD <= cap,
                self@.can_tick(2 * (rounds - round), cap),
            decreases rounds - round,
        {
            let known = u128_set_to_vec(&self.input_ids);
            let mut due: Vec<(u128, i32)> = Vec::new();
            let ghost mut from: Seq<int> = Seq::empty();
            let mut k: usize = 0;
            while k < known.len()
                invariant
                    k <= known@.len(),
                    known@.no_duplicates(),
                    forall|m: int| 0 <= m < due@.len() ==> (#[trigger] due@[m]).1 == MAX_THRESHOLD,
                    signal_ids(due@).no_duplicates(),
                    from.len() == due@.len(),
                    forall|m: int|
                        0 <= m < due@.len() ==> 0 <= #[trigger] from[m] < k && known@[from[m]] == due@[m].0,
                decreases known.len() - k,
            {
                if random_i32(-2, 1) >= 0 {
                    let ghost before_due = due@;
                    proof {
                        assert(!signal_ids(before_due).contains(known@[k as int])) by {
                            if signal_ids(before_due).contains(known@[k as int]) {
                                let m = choose|m: int| 0 <= m < before_due.len() && signal_ids(before_due)[m] == known@[k as int];
                                assert(known@[from[m]] == known@[k as int]);
                            }
                        }
                    }
                    due.push((known[k], MAX_THRESHOLD));
                    proof {
                        assert(signal_ids(due@) =~= signal_ids(before_due).push(known@[k as int]));
                        let f2 = from.push(k as int);
                        assert forall|m: int| 0 <= m < due@.len() implies 0 <= #[trigger] f2[m] < k + 1
                            && known@[f2[m]] == due@[m].0 by {
                            if m < before_due.len() {
                                assert(due@[m] == before_due[m] && f2[m] == from[m]);
                            }
                        }
                        from = f2;
                    }
                }
                k = k + 1;
            }
            let ghost before = self@;
            let ghost d = signal_ids(due@).to_set();
            proof {
                assert forall|m: int| 0 <= m < due@.len() implies before.input_ids.contains(
                    #[trigger] due@[m].0,
                ) by {
                    assert(known@.to_set().contains(known@[from[m]]));
                }
                assert forall|a: u128| d.contains(a) implies before.input_ids.contains(a) by {
                    let m = choose|m: int| 0 <= m < due@.len() && signal_ids(due@)[m] == a;
                    assert(before.input_ids.contains(due@[m].0));
                }
            }
            self.brain_input(Some(due));
            proof {
                lemma_input_feeds(self@, before, due@);
                vstd::seq_lib::seq_to_set_is_finite(signal_ids(due@));
                lemma_feed_room(self@, before, d, 2 * (rounds - round), cap);
            }
            let ghost fed = self@;
            let out = self.tick_within(None, Ghost(2 * (rounds - round) - 1), Ghost(cap));
            proof {
                lemma_fed_run_step(o, before, fed, self@, dues, d, 1, out);
                lemma_kept_chain(self@, fed, before, o, d, round as int);
                dues = dues.push(d);
                assert forall|r: int| 0 <= r < dues.len() implies (#[trigger] dues[r]).subset_of(o.input_ids) by {
                    if r < dues.len() - 1 {
                        assert(dues[r] == dues.drop_last()[r]);
                    }
                }
            }
            round = round + 1;
        }
    }

    /// Allows Spirion to run at full speed regardless of input.
    fn remove_limits(&mut self)
        ensures
            final(self)@ == (SpirionModel { limiter: false, ..old(self)@ }),
    {
        self.limiter = false;
    }
}

/// Ticks never remove an output: every registered output of `before` is still an
/// output neuron after them.
pub proof fn lemma_ticks_keep_outputs(after: SpirionModel, before: SpirionModel, n: int)
    requires
        ticked(after, before, n),
    ensures
        forall|o: u32| #[trigger]
            before.output_ids.contains(o) ==> after.neurons.contains_key(o)
                && after.neurons[o]@.is_output,
{
}

/// Ticks never remove an input: every input axon of `before` is still an input axon,
/// and registered, after them.
pub proof fn lemma_ticks_keep_inputs(after: SpirionModel, before: SpirionModel, n: int)
    requires
        before.wf(),
        ticked(after, before, n),
    ensures
        forall|a: u128| #[trigger]
            before.axons.contains_key(a) && before.axons[a]@.is_input ==> after.axons.contains_key(a)
                && after.axons[a]@.is_input && after.input_ids.contains(a),
{
    assert forall|a: u128| #[trigger] before.axons.contains_key(a) && before.axons[a]@.is_input implies after.axons.contains_key(a)
        && after.axons[a]@.is_input && after.input_ids.contains(a) by {
        assert(before.input_ids.contains(a));
        assert(after.input_ids.contains(a));
    }
}

/// Adding an axon and then removing it, as `add_axon` and `remove_axon` do, gives the
/// brain back: the same axons, the same lists for every neuron, the same counter.
pub proof fn lemma_add_then_remove_axon(
    s: SpirionModel,
    mid: SpirionModel,
    after: SpirionModel,
    id: u128,
    source: u32,
    sink: u32,
)
    requires
        s.wf(),
        0 <= s.num_of_axons,
        !s.axons.contains_key(id),
        mid.axons == s.axons.insert(id, mid.axons[id]),
        mid.axons[id]@.id_source == source,
        mid.axons[id]@.id_sink == sink,
        !mid.axons[id]@.is_input,
        mid.neurons.dom() == s.neurons.dom(),
        forall|n: u32| #[trigger]
            s.neurons.contains_key(n) ==> mid.neurons[n]@ == with_link(
                s.neurons[n]@,
                n,
                source as int,
                sink as int,
                id,
            ),
        mid == (SpirionModel {
            neurons: mid.neurons,
            axons: mid.axons,
            num_of_axons: s.num_of_axons + 1,
            ..s
        }),
        after.axons == mid.axons.remove(id),
        after.neurons.dom() == mid.neurons.dom(),
        forall|n: u32| #[trigger]
            mid.neurons.contains_key(n) ==> after.neurons[n]@ == without_link(
                mid.neurons[n]@,
                n,
                source as int,
                sink as int,
                id,
            ),
        after == (SpirionModel {
            neurons: after.neurons,
            axons: after.axons,
            num_of_axons: if mid.num_of_axons > 0 {
                mid.num_of_axons - 1
            } else {
                0
            },
            ..mid
        }),
    ensures
        after.axons == s.axons,
        after.neurons.dom() == s.neurons.dom(),
        forall|n: u32| #[trigger] s.neurons.contains_key(n) ==> after.neurons[n]@ == s.neurons[n]@,
        after == (SpirionModel { neurons: after.neurons, ..s }),
{
    assert(after.axons =~= s.axons);
    assert forall|n: u32| #[trigger] s.neurons.contains_key(n) implies after.neurons[n]@ == s.neurons[n]@ by {
        let m = s.neurons[n]@;
        assert(!m.output_axons.contains(id));
        assert(!m.input_axons.contains(id));
        assert(m.output_axons.push(id).drop_last() =~= m.output_axons);
        assert(m.input_axons.push(id).drop_last() =~= m.input_axons);
        lemma_drop_absent(m.output_axons, id);
        lemma_drop_absent(m.input_axons, id);
    }
    assert(after.num_of_axons == s.num_of_axons);
    assert(after == (SpirionModel { neurons: after.neurons, ..s }));
}

/// A tick spares every neuron that was not active, every output, and every neuron fed
/// by a registered input.
pub proof fn lemma_tick_spares(
    before: SpirionModel,
    after: SpirionModel,
    out: Seq<u32>,
    pre: Map<u32, Seq<i32>>,
    n: u32,
)
    requires
        one_tick(before, after, out, pre),
        before.neurons.contains_key(n),
        !before.active.contains(n) || before.neurons[n]@.is_output || has_registered_input(before, n),
    ensures
        after.neurons.contains_key(n),
{
}

/// A brain in which nothing has happened yet (as `spin_up_new` leaves it) has room for
/// up to 100000 ticks with signals within `100 + 20 * k`, as long as no neuron has more
/// than `d` incoming axons, with `k * d * (100 + 20 * k)` within `INPUT_CAP`.
pub proof fn lemma_pristine_can_tick(s: SpirionModel, k: int, d: int)
    requires
        s.wf(),
        s.pristine(),
        0 <= k <= 100000,
        0 <= d,
        forall|n: u32| #[trigger] s.neurons.contains_key(n) ==> s.in_of(n).len() <= d,
        k * d * (100 + 20 * k) <= INPUT_CAP,
    ensures
        s.can_tick(k, 100 + 20 * k),
{
    let cap = 100 + 20 * k;
    assert forall|n: u32| #[trigger] s.neurons.contains_key(n) implies s.neuron_can_tick(n, k, cap) by {
        let m = s.neurons[n]@;
        assert(m.inputs == Seq::<i32>::empty());
        assert(abs_total(m.inputs) == 0);
        assert(m.memory == seq![0i32, 0i32, 0i32, 0i32, 0i32]);
        assert(memory_calm(m.memory));
        let g = m.growth_until(s.clock + k);
        assert(g == 3 * (k / 30));
        assert(k * (3 * (k / 30)) <= 100000 * 9999) by (nonlinear_arith)
            requires
                0 <= k <= 100000,
        ;
        let len = m.input_axons.len() as int;
        assert(k * len * cap <= k * d * cap) by (nonlinear_arith)
            requires
                0 <= k,
                0 <= cap,
                0 <= len <= d,
        ;
    }
    assert forall|a: u128| #[trigger] s.axons.contains_key(a) implies axon_can_tick(s.axons[a]@, k, cap) by {
        assert(fresh_axon(s.axons[a]@));
    }
}

// Public
impl Spirion {
    /// How many neurons the brain counts.
    pub fn num_of_neurons(&self) -> (n: u32)
        ensures
            n == self@.num_of_neurons,
    {
        self.num_of_neurons
    }

    /// How many axons the brain counts.
    pub fn num_of_axons(&self) -> (n: u128)
        ensures
            n == self@.num_of_axons,
    {
        self.num_of_axons
    }

    /// The ids of the neurons, each once.
    pub fn neuron_ids(&self) -> (ids: Vec<u32>)
        ensures
            ids@.no_duplicates(),
            ids@.to_set() == self@.neurons.dom(),
    {
        neuron_ids_of(&self.neurons)
    }

    /// The ids of the axons, each once.
    pub fn axon_ids(&self) -> (ids: Vec<u128>)
        ensures
            ids@.no_duplicates(),
            ids@.to_set() == self@.axons.dom(),
    {
        axon_ids_of(&self.axons)
    }

    /// The neuron under `id`, if there is one.
    pub fn neuron(&self, id: u32) -> (n: Option<&Neuron>)
        ensures
            match n {
                Some(x) => self@.neurons.contains_key(id) && *x == self@.neurons[id],
                None => !self@.neurons.contains_key(id),
            },
    {
        self.neurons.get(&id)
    }

    /// The axon under `id`, if there is one.
    pub fn axon(&self, id: u128) -> (a: Option<&Axion>)
        ensures
            match a {
                Some(x) => self@.axons.contains_key(id) && *x == self@.axons[id],
                None => !self@.axons.contains_key(id),
            },
    {
        self.axons.get(&id)
    }

    /// The registered outputs, each once.
    pub fn output_ids(&self) -> (ids: Vec<u32>)
        ensures
            ids@.no_duplicates(),
            ids@.to_set() == self@.output_ids,
    {
        u32_set_to_vec(&self.output_ids)
    }

    /// The registered inputs, each once.
    pub fn input_ids(&self) -> (ids: Vec<u128>)
        ensures
            ids@.no_duplicates(),
            ids@.to_set() == self@.input_ids,
    {
        u128_set_to_vec(&self.input_ids)
    }

    /// The neurons that take their turn in the next tick, each once.
    pub fn active_ids(&self) -> (ids: Vec<u32>)
        ensures
            ids@.no_duplicates(),
            ids@.to_set() == self@.active,
    {
        u32_set_to_vec(&self.active_neurons)
    }

    /// Whether the speed limiter is on.
    pub fn is_limited(&self) -> (b: bool)
        ensures
            b == self@.limiter,
    {
        self.limiter
    }

    /// Whether the brain is meant to be drawn.
    pub fn is_displayed(&self) -> (b: bool)
        ensures
            b == self@.displayed,
    {
        self.displayed
    }
}

// Public
impl Spirion {
    /// Whether the brain has room for `ticks` more ticks with some bound on the signals
    /// (see `SpirionModel::can_tick`), as `tick` needs.
    pub fn has_room(&self, ticks: u32) -> (b: bool)
        ensures
            b == exists|cap: int| #[trigger] self@.can_tick(ticks as int, cap),
    {
        let b = self.has_room_above(ticks, 0);
        proof {
            if !b {
                assert forall|c: int| !#[trigger] self@.can_tick(ticks as int, c) by {
                    if self@.can_tick(ticks as int, c) {
                        assert(0 <= c && self@.can_tick(ticks as int, c));
                    }
                }
            }
        }
        b
    }

    /// Whether the brain has room for `ticks` more ticks with some bound on the signals
    /// no smaller than `floor` (see `SpirionModel::can_tick`), as `reward` and `pain`
    /// need with `floor` at `MAX_THRESHOLD`, for twice their rounds.
    pub fn has_room_above(&self, ticks: u32, floor: u32) -> (b: bool)
        requires
            floor <= INPUT_CAP,
        ensures
            b == exists|cap: int| floor <= cap && #[trigger] self@.can_tick(ticks as int, cap),
    {
        let ghost s = self@;
        let ghost k = ticks as int;
        let axon_ids = axon_ids_of(&self.axons);
        let mut cap: u32 = floor;
        let mut i: usize = 0;
        while i < axon_ids.len()
            invariant
                s == self@,
                k == ticks as int,
                i <= axon_ids@.len(),
                axon_ids@.to_set() == s.axons.dom(),
                floor <= cap <= INPUT_CAP,
                forall|j: int|
                    0 <= j < i ==> s.axons[#[trigger] axon_ids@[j]]@.fires_within(k)
                        && s.axons[axon_ids@[j]]@.room_needed(k) <= cap,
                cap == floor || exists|j: int|
                    0 <= j < i && s.axons[#[trigger] axon_ids@[j]]@.room_needed(k) == cap,
            decreases axon_ids.len() - i,
        {
            let a = axon_ids[i];
            proof {
                assert(axon_ids@.to_set().contains(a));
            }
            let axon = match self.axons.get(&a) {
                Some(x) => x,
                None => {
                    proof {
                        assert(false);
                    }
                    return false;
                },
            };
            match axon.room_needed(ticks) {
                None => {
                    proof {
                        assert forall|c: int| !(floor <= c && #[trigger] s.can_tick(k, c)) by {
                            if floor <= c && s.can_tick(k, c) {
                                assert(axon_can_tick(s.axons[a]@, k, c));
                            }
                        }
                    }
                    return false;
                },
                Some(c) => {
                    if c > cap {
                        cap = c;
                    }
                    proof {
                        if cap == c {
                            assert(s.axons[axon_ids@[i as int]]@.room_needed(k) == cap);
                        }
                    }
                },
            }
            i = i + 1;
        }
        if self.clock > u128::MAX - ticks as u128 {
            proof {
                assert forall|c: int| !(floor <= c && #[trigger] s.can_tick(k, c)) by {}
            }
            return false;
        }
        let ids = neuron_ids_of(&self.neurons);
        let mut j: usize = 0;
        while j < ids.len()
            invariant
                s == self@,
                k == ticks as int,
                j <= ids@.len(),
                ids@.to_set() == s.neurons.dom(),
                axon_ids@.to_set() == s.axons.dom(),
                floor <= cap <= INPUT_CAP,
                forall|w: int|
                    0 <= w < axon_ids@.len() ==> s.axons[#[trigger] axon_ids@[w]]@.fires_within(k)
                        && s.axons[axon_ids@[w]]@.room_needed(k) <= cap,
                cap == floor || exists|w: int|
                    0 <= w < axon_ids@.len() && s.axons[#[trigger] axon_ids@[w]]@.room_needed(k)
                        == cap,
                forall|m: int|
                    0 <= m < j ==> s.neurons[#[trigger] ids@[m]]@.has_room(s.clock, k, cap as int),
            decreases ids.len() - j,
        {
            let id = ids[j];
            proof {
                assert(ids@.to_set().contains(id));
            }
            let neuron = match self.neurons.get(&id) {
                Some(n) => n,
                None => {
                    proof {
                        assert(false);
                    }
                    return false;
                },
            };
            if !neuron.has_room(self.clock, ticks, cap) {
                proof {
                    assert forall|c: int| !(floor <= c && #[trigger] s.can_tick(k, c)) by {
                        if floor <= c && s.can_tick(k, c) {
                            assert(cap <= c) by {
                                if cap != floor {
                                    let w = choose|w: int|
                                        0 <= w < axon_ids@.len() && s.axons[#[trigger] axon_ids@[w]]@.room_needed(k) == cap;
                                    assert(axon_ids@.to_set().contains(axon_ids@[w]));
                                    assert(axon_can_tick(s.axons[axon_ids@[w]]@, k, c));
                                }
                            }
                            assert(s.neuron_can_tick(id, k, c));
                            s.neurons[id]@.lemma_room_smaller_cap(s.clock, k, cap as int, c);
                        }
                    }
                }
                return false;
            }
            j = j + 1;
        }
        proof {
            assert forall|n: u32| #[trigger] s.neurons.contains_key(n) implies s.neuron_can_tick(n, k, cap as int) by {
                assert(ids@.to_set().contains(n));
                let m = choose|m: int| 0 <= m < ids@.len() && ids@[m] == n;
                assert(s.neurons[ids@[m]]@.has_room(s.clock, k, cap as int));
            }
            assert forall|a: u128| #[trigger] s.axons.contains_key(a) implies axon_can_tick(s.axons[a]@, k, cap as int) by {
                assert(axon_ids@.to_set().contains(a));
                let w = choose|w: int| 0 <= w < axon_ids@.len() && axon_ids@[w] == a;
                assert(s.axons[axon_ids@[w]]@.fires_within(k));
            }
            assert(s.can_tick(k, cap as int));
        }
        true
    }
}

/// A save check keeps a pristine brain pristine.
proof fn lemma_pristine_after_rescue(after: SpirionModel, before: SpirionModel, id: u32)
    requires
        before.pristine(),
        before.neurons.contains_key(id),
        !before.neurons[id]@.is_output,
        grown_from(after, before, id) || (pruned_from(after, before) && after.neurons.dom()
            == before.neurons.dom().remove(id)),
    ensures
        after.pristine(),
        after.output_ids == before.output_ids,
        after.input_ids == before.input_ids,
        after.neurons.dom().subset_of(before.neurons.dom()),
{
    if grown_from(after, before, id) {
        assert forall|a: u128| #[trigger] after.axons.contains_key(a) implies (before.axons.contains_key(a)
            && after.axons[a] == before.axons[a]) || fresh_axon(after.axons[a]@) by {}
        assert forall|n: u32| #[trigger] after.neurons.contains_key(n) implies before.neurons.contains_key(n) by {
            assert(after.neurons.dom().contains(n));
        }
        lemma_pristine_kept(after, before);
    } else {
        lemma_pristine_kept(after, before);
    }
}

/// The ids of the neurons, in the order the map walks them.
fn neuron_ids_of(neurons: &HashMap<u32, Neuron>) -> (ids: Vec<u32>)
    ensures
        ids@.no_duplicates(),
        ids@.to_set() == neurons@.dom(),
        ids@.len() == neurons@.dom().len(),
{
    let mut ids: Vec<u32> = Vec::new();
    for k in it: neurons.keys()
        invariant
            ids@ == it.seq().take(it.index() as int).map_values(|r: &u32| *r),
            it.seq() == vstd::std_specs::hash::spec_keys_iter(neurons).remaining(),
    {
        ids.push(*k);
    }
    proof {
        let r = vstd::std_specs::hash::spec_keys_iter(neurons).remaining();
        assert(ids@ =~= r.unref());
    }
    ids
}

/// The ids of the axons, in the order the map walks them.
fn axon_ids_of(axons: &HashMap<u128, Axion>) -> (ids: Vec<u128>)
    ensures
        ids@.no_duplicates(),
        ids@.to_set() == axons@.dom(),
        ids@.len() == axons@.dom().len(),
{
    let mut ids: Vec<u128> = Vec::new();
    for k in it: axons.keys()
        invariant
            ids@ == it.seq().take(it.index() as int).map_values(|r: &u128| *r),
            it.seq() == vstd::std_specs::hash::spec_keys_iter(axons).remaining(),
    {
        ids.push(*k);
    }
    proof {
        let r = vstd::std_specs::hash::spec_keys_iter(axons).remaining();
        assert(ids@ =~= r.unref());
    }
    ids
}

/// The largest id plus one (1 when there is none).
fn next_u32_id(ids: &Vec<u32>) -> (id: u32)
    requires
        forall|i: int| 0 <= i < ids@.len() ==> ids@[i] < u32::MAX,
    ensures
        forall|i: int| 0 <= i < ids@.len() ==> ids@[i] < id,
        id == 1 || ids@.contains((id - 1) as u32),
{
    let mut max: u32 = 0;
    let mut i: usize = 0;
    while i < ids.len()
        invariant
            i <= ids@.len(),
            forall|j: int| 0 <= j < ids@.len() ==> ids@[j] < u32::MAX,
            forall|j: int| 0 <= j < i ==> ids@[j] <= max,
            max == 0 || ids@.contains(max),
        decreases ids.len() - i,
    {
        if ids[i] > max {
            max = ids[i];
        }
        i = i + 1;
    }
    max + 1
}

/// The largest id plus one (1 when there is none).
fn next_u128_id(ids: &Vec<u128>) -> (id: u128)
    requires
        forall|i: int| 0 <= i < ids@.len() ==> ids@[i] < u128::MAX,
    ensures
        forall|i: int| 0 <= i < ids@.len() ==> ids@[i] < id,
        id == 1 || ids@.contains((id - 1) as u128),
{
    let mut max: u128 = 0;
    let mut i: usize = 0;
    while i < ids.len()
        invariant
            i <= ids@.len(),
            forall|j: int| 0 <= j < ids@.len() ==> ids@[j] < u128::MAX,
            forall|j: int| 0 <= j < i ==> ids@[j] <= max,
            max == 0 || ids@.contains(max),
        decreases ids.len() - i,
    {
        if ids[i] > max {
            max = ids[i];
        }
        i = i + 1;
    }
    max + 1
}

} // verus!
