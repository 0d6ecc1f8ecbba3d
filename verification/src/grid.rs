use std::collections::HashMap;
use vstd::prelude::*;

use crate::axion::Axion;
use crate::neuron::Neuron;

verus! {

broadcast use vstd::std_specs::hash::group_hash_axioms;

/// A new happiness for an axon: that of the neuron it reaches.
#[derive(Clone, Copy, Debug, PartialEq, Eq)]
pub struct AxionUpdate {
    pub id: u128,
    pub new_happyness: u32,
}

/// The updates for the axons in `ins` that exist in `axons`, in order, each taking on
/// the happiness `h`.
pub open spec fn updates_for(ins: Seq<u128>, axons: Map<u128, Axion>, h: u32) -> Seq<AxionUpdate>
    decreases ins.len(),
{
    if ins.len() == 0 {
        Seq::empty()
    } else {
        let rest = updates_for(ins.drop_last(), axons, h);
        if axons.contains_key(ins.last()) {
            rest.push(AxionUpdate { id: ins.last(), new_happyness: h })
        } else {
            rest
        }
    }
}

/// The happiness updates a neuron sends back along its incoming axons: one for each of
/// them that exists, in the order the neuron lists them, carrying its happiness.
pub fn axion_updates(neuron: &Neuron, axons: &HashMap<u128, Axion>) -> (r: Vec<AxionUpdate>)
    ensures
        r@ == updates_for(neuron@.input_axons, axons@, neuron@.happyness as u32),
{
    let ins = neuron.input_axon_ids();
    let h = neuron.get_happyness();
    let mut r: Vec<AxionUpdate> = Vec::new();
    let mut j: usize = 0;
    while j < ins.len()
        invariant
            j <= ins@.len(),
            ins@ == neuron@.input_axons,
            h == neuron@.happyness,
            r@ == updates_for(ins@.take(j as int), axons@, h),
        decreases ins.len() - j,
    {
        proof {
            assert(ins@.take(j + 1).drop_last() =~= ins@.take(j as int));
        }
        if axons.contains_key(&ins[j]) {
            r.push(AxionUpdate { id: ins[j], new_happyness: h });
        }
        j = j + 1;
    }
    proof {
        assert(ins@.take(ins@.len() as int) =~= ins@);
    }
    r
}

} // verus!
