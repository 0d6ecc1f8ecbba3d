use vstd::prelude::*;

verus! {

/// A sensory input that plugs straight into neurons.
///
/// Its position on the screen lives with whoever draws it.
pub struct Input {
    /// Name, basically.
    pub id: u32,
    /// How long since firing, at most 5.
    pub tick: u32,
    /// The neurons it connects to.
    pub output_neurons: Vec<u32>,
}

/// How an input or an output is drawn.
#[derive(Clone, Copy, Debug, PartialEq, Eq)]
pub enum PortStyle {
    /// Fired within the last five ticks.
    Fired,
    /// Waiting to fire.
    Waiting,
}

impl Input {
    /// A new input connected to nothing.
    pub fn new(id: u32) -> (i: Self)
        ensures
            i.id == id,
            i.tick == 0,
            i.output_neurons@ == Seq::<u32>::empty(),
    {
        Self { id, tick: 0, output_neurons: Vec::new() }
    }

    /// Marks the input as just fired.
    pub fn reset(&mut self)
        ensures
            final(self).tick == 0,
            final(self).id == old(self).id,
            final(self).output_neurons@ == old(self).output_neurons@,
    {
        self.tick = 0;
    }

    /// The neurons the input's signal goes to.
    pub fn fire(&self) -> (r: Vec<u32>)
        ensures
            r@ == self.output_neurons@,
    {
        self.output_neurons.clone()
    }

    /// Connects the input to neuron `id`.
    pub fn connect(&mut self, id: u32)
        ensures
            final(self).output_neurons@ == old(self).output_neurons@.push(id),
            final(self).id == old(self).id,
            final(self).tick == old(self).tick,
    {
        self.output_neurons.push(id);
    }

    /// One tick passes: the time since firing grows by one, up to 5.
    pub fn tick(&mut self)
        ensures
            final(self).tick == (if old(self).tick >= 5 { 5 } else { old(self).tick + 1 }),
            final(self).id == old(self).id,
            final(self).output_neurons@ == old(self).output_neurons@,
    {
        if self.tick >= 5 {
            self.tick = 5;
            return ;
        }
        self.tick += 1;
    }

    /// How the input is drawn: fired until five ticks have passed.
    pub fn style(&self) -> (s: PortStyle)
        ensures
            s == (if self.tick < 5 { PortStyle::Fired } else { PortStyle::Waiting }),
    {
        if self.tick < 5 {
            PortStyle::Fired
        } else {
            PortStyle::Waiting
        }
    }
}

} // verus!
