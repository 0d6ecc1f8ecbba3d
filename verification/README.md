# digital_brain

A small simulated brain, Spirion: neurons joined by axons, fed by sensory inputs,
ticking over a shared clock and reporting the output neurons that fire.

- `src/` is the library, written in Verus and verified: the neuron firing rules
  (`neuron`), their short memory (`memory`), axons (`axion`), the brain's wiring and its
  tick (`brain`), sensory inputs and outputs (`input`, `output`), and the happiness
  updates of the layout step (`grid`). Random draws go through
  `macroquad::rand::gen_range` (`chance`).
- `app/` holds what needs a window, a file or floating point: placing and drawing
  neurons with macroquad, the spatial layout forces, and saving a brain with bincode.
- `tests/` runs the library on concrete brains.
