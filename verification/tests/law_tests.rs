use digital_brain::neuron::Neuron;
use digital_brain::{Spirion, MAX_THRESHOLD, MEMORY_SIZE, MIN_THRESHOLD};

#[test]
fn base_threshold_stays_in_band_through_updates() {
    let mut n = Neuron::new_with_data(None, None, None, None, Some(vec![60, 0, 0, 0, 0]), None, None, None, None, None, None);
    for time in [200u128, 260, 700, 705, 2000] {
        n.update(time);
        assert!(MIN_THRESHOLD <= n.base_threshold() && n.base_threshold() <= MAX_THRESHOLD);
        assert_eq!(n.memory().len(), MEMORY_SIZE);
    }
}

#[test]
fn memory_keeps_its_length_through_small_steps() {
    let mut n = Neuron::new_with_data(None, None, None, None, None, Some(vec![3, 4]), None, None, None, None, None);
    for time in 1u128..12 {
        n.update(time);
        assert_eq!(n.memory().len(), MEMORY_SIZE);
    }
}

#[test]
fn ticks_compose() {
    let (mut a, inputs, _) = Spirion::spin_up_new(Some(8), 2, 2, false);
    a.brain_input(Some(vec![(inputs[0], 70), (inputs[1], -70)]));
    assert!(a.has_room(2));
    a.tick(Some(2));
    assert!(a.has_room(3));
    a.tick(Some(3));
    assert_eq!(a.clock, 5);
}

#[test]
fn outputs_survive_ticks() {
    let (mut brain, inputs, outputs) = Spirion::spin_up_new(Some(30), 4, 5, false);
    let signals: Vec<(u128, i32)> = inputs.iter().map(|&id| (id, 100)).collect();
    brain.brain_input(Some(signals));
    for _ in 0..3 {
        if brain.has_room(10) {
            brain.tick(Some(10));
        }
    }
    for id in outputs {
        assert!(brain.neuron(id).unwrap().is_output_neuron());
    }
}

#[test]
fn fresh_brain_has_room_for_long_runs() {
    let (brain, _, _) = Spirion::spin_up_new(Some(5), 1, 1, false);
    assert!(brain.has_room(29));
    assert!(brain.has_room(50));
}

#[test]
fn idle_brain_only_moves_its_clock() {
    let (mut brain, inputs, outputs) = Spirion::spin_up_new(Some(4), 1, 1, false);
    let neurons = brain.neuron_ids();
    let axons = brain.axon_ids();
    assert!(brain.has_room(7));
    assert_eq!(brain.tick(Some(7)), None);
    assert_eq!(brain.clock, 7);
    assert_eq!(brain.neuron_ids(), neurons);
    assert_eq!(brain.axon_ids(), axons);
    assert_eq!(brain.input_ids(), inputs);
    assert_eq!(brain.output_ids().len(), outputs.len());
}
