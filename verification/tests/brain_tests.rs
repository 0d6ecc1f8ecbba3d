use digital_brain::Spirion;

fn small_brain() -> (Spirion, Vec<u128>, Vec<u32>) {
    Spirion::spin_up_new(Some(10), 3, 2, false)
}

#[test]
fn asking_for_nothing_gives_an_empty_brain() {
    let (brain, inputs, outputs) = Spirion::spin_up_new(Some(0), 0, 0, false);
    assert_eq!(brain.num_of_neurons(), 0);
    assert!(brain.neuron_ids().is_empty());
    assert_eq!(brain.num_of_axons(), 0);
    assert!(brain.axon_ids().is_empty());
    assert!(inputs.is_empty());
    assert!(outputs.is_empty());
    assert!(brain.active_ids().is_empty());
    assert!(brain.is_limited());
    assert!(!brain.is_displayed());
}

#[test]
fn spin_up_registers_inputs_and_outputs() {
    let (brain, inputs, outputs) = small_brain();
    assert_eq!(outputs.len(), 2);
    assert_eq!(inputs.len(), 3);
    assert!(brain.num_of_neurons() <= 12);
    assert!(brain.num_of_neurons() >= 2);
    for id in brain.neuron_ids() {
        assert!(1 <= id && id <= 12);
    }
    assert_eq!(brain.clock, 0);
    let mut registered = brain.output_ids();
    registered.sort();
    let mut sorted = outputs.clone();
    sorted.sort();
    assert_eq!(registered, sorted);
    for id in &outputs {
        assert!(brain.neuron(*id).unwrap().is_output_neuron());
    }
    for id in &inputs {
        let axon = brain.axon(*id).unwrap();
        assert!(axon.is_input());
        assert!(!brain.neuron(axon.get_sink()).unwrap().is_output_neuron());
    }
    let mut registered_inputs = brain.input_ids();
    registered_inputs.sort();
    let mut sorted_inputs = inputs.clone();
    sorted_inputs.sort();
    assert_eq!(registered_inputs, sorted_inputs);
}

#[test]
fn spin_up_can_be_displayed() {
    let (brain, _, _) = Spirion::spin_up_new(Some(0), 0, 1, true);
    assert!(brain.is_displayed());
    assert_eq!(brain.num_of_neurons(), 1);
    assert_eq!(brain.output_ids(), vec![1]);
}

#[test]
fn brain_input_none_changes_nothing() {
    let (mut brain, _, _) = small_brain();
    let before = brain.active_ids();
    brain.brain_input(None);
    assert_eq!(brain.active_ids(), before);
    assert_eq!(brain.clock, 0);
}

#[test]
fn brain_input_feeds_the_sink_and_wakes_it() {
    let (mut brain, inputs, _) = small_brain();
    let sink = brain.axon(inputs[0]).unwrap().get_sink();
    let pending = brain.neuron(sink).unwrap().inputs.clone();
    brain.brain_input(Some(vec![(inputs[0], 70)]));
    let mut expected = pending;
    expected.push(70);
    assert_eq!(brain.neuron(sink).unwrap().inputs, expected);
    assert!(brain.active_ids().contains(&sink));
}

#[test]
fn tick_without_active_neurons_only_moves_the_clock() {
    let (mut brain, _, _) = small_brain();
    let neurons = brain.num_of_neurons();
    let axons = brain.num_of_axons();
    assert!(brain.has_room(5));
    assert_eq!(brain.tick(Some(5)), None);
    assert_eq!(brain.clock, 5);
    assert_eq!(brain.num_of_neurons(), neurons);
    assert_eq!(brain.num_of_axons(), axons);
}

#[test]
fn tick_defaults_to_one_and_runs_as_many_as_asked() {
    let (mut brain, _, _) = small_brain();
    assert!(brain.has_room(1));
    brain.tick(None);
    assert_eq!(brain.clock, 1);
    assert!(brain.has_room(30));
    brain.tick(Some(30));
    assert_eq!(brain.clock, 31);
}

#[test]
fn tick_of_zero_does_nothing() {
    let (mut brain, _, _) = small_brain();
    assert_eq!(brain.tick(Some(0)), None);
    assert_eq!(brain.clock, 0);
}

#[test]
fn ticks_after_input_keep_outputs_and_report_only_outputs() {
    let (mut brain, inputs, outputs) = small_brain();
    let signals: Vec<(u128, i32)> = inputs.iter().map(|&id| (id, 70)).collect();
    brain.brain_input(Some(signals));
    for _ in 0..4 {
        assert!(brain.has_room(5));
        if let Some(fired) = brain.tick(Some(5)) {
            assert!(!fired.is_empty());
            for id in fired {
                assert!(outputs.contains(&id));
            }
        }
    }
    assert_eq!(brain.clock, 20);
    for id in &outputs {
        assert!(brain.neuron(*id).unwrap().is_output_neuron());
    }
}

#[test]
fn reward_and_pain_none_do_nothing() {
    let (mut brain, _, _) = small_brain();
    brain.reward(None);
    brain.pain(None);
    assert_eq!(brain.clock, 0);
}

#[test]
fn reward_runs_five_ticks_a_level() {
    let (mut brain, _, _) = small_brain();
    assert!(brain.has_room_above(20, 70));
    brain.reward(Some(2));
    assert_eq!(brain.clock, 10);
}

#[test]
fn reward_feeds_the_due_inputs() {
    let (mut brain, inputs, _) = small_brain();
    assert!(brain.active_ids().is_empty());
    let sink = brain.axon(inputs[0]).unwrap().get_sink();
    let before = brain.neuron(sink).unwrap().clone();
    assert!(brain.has_room_above(10, 70));
    brain.reward(Some(1));
    assert_eq!(brain.clock, 5);
    assert!(brain.neuron(sink).unwrap() != &before);
    assert_eq!(brain.input_ids().len(), 3);
}

#[test]
fn pain_on_a_quiet_brain_keeps_its_ports() {
    let (mut brain, inputs, outputs) = small_brain();
    assert!(brain.has_room_above(10, 70));
    brain.pain(Some(1));
    assert_eq!(brain.clock, 5);
    for id in &inputs {
        assert!(brain.axon(*id).unwrap().is_input());
    }
    for id in &outputs {
        assert!(brain.neuron(*id).unwrap().is_output_neuron());
    }
}

#[test]
fn pain_is_capped_at_ten_levels() {
    let (mut brain, _, _) = lone_input_brain();
    assert!(brain.has_room_above(100, 70));
    brain.pain(Some(40));
    assert_eq!(brain.clock, 50);
}

#[test]
fn fresh_brains_have_room_for_a_full_tick() {
    for _ in 0..5 {
        let (brain, _, _) = small_brain();
        assert!(brain.has_room(29));
        assert!(!brain.has_room(u32::MAX));
    }
}

#[test]
fn neuron_and_axon_lookups_miss_unknown_ids() {
    let (brain, _, _) = small_brain();
    assert!(brain.neuron(0).is_none());
    assert!(brain.axon(0).is_none());
}

/// A brain of one output and one other neuron, fed by a single input and with no
/// other axon (drawn again until the save check left it so).
fn lone_input_brain() -> (Spirion, u128, u32) {
    for _ in 0..500 {
        let (brain, inputs, _) = Spirion::spin_up_new(Some(1), 1, 1, false);
        if inputs.len() == 1 && brain.num_of_axons() == 1 {
            let input = inputs[0];
            let sink = brain.axon(input).unwrap().get_sink();
            return (brain, input, sink);
        }
    }
    panic!("no lone input brain came up");
}

#[test]
fn a_fed_neuron_takes_its_turn_in_the_next_tick() {
    let (mut brain, input, sink) = lone_input_brain();
    brain.brain_input(Some(vec![(input, 70)]));
    assert_eq!(brain.active_ids(), vec![sink]);
    assert!(brain.has_room(1));
    assert_eq!(brain.tick(Some(1)), None);
    let n = brain.neuron(sink).unwrap();
    assert_eq!(n.get_delta_t(), 1);
    assert_eq!(n.threshold(), 80);
    assert_eq!(n.get_happyness(), 18);
    assert_eq!(n.avg_t(), 0);
    assert_eq!(n.memory(), vec![70, 0, 0, 0, 0]);
    assert_eq!(n.inputs, vec![70]);
    assert_eq!(brain.axon(input).unwrap().happyness(), 25);
    assert!(brain.active_ids().is_empty());
}

#[test]
fn a_charged_neuron_fires_after_its_cooldown() {
    let (mut brain, input, sink) = lone_input_brain();
    brain.brain_input(Some(vec![(input, 100)]));
    assert!(brain.has_room(1));
    brain.tick(Some(1));
    assert!(brain.has_room(5));
    brain.tick(Some(5));
    assert_eq!(brain.clock, 6);
    brain.brain_input(Some(vec![(input, 1)]));
    assert!(brain.has_room(1));
    assert_eq!(brain.tick(Some(1)), None);
    let n = brain.neuron(sink).unwrap();
    assert_eq!(n.get_delta_t(), 0);
    assert_eq!(n.get_happyness(), 7);
    assert_eq!(n.avg_t(), 2);
    assert!(n.inputs.is_empty());
    assert_eq!(n.threshold(), 80);
    assert_eq!(n.memory(), vec![101, 0, 0, 0, 0]);
    assert_eq!(brain.axon(input).unwrap().happyness(), 18);
}

#[test]
fn inputs_are_spread_over_neurons() {
    let (brain, inputs, _) = Spirion::spin_up_new(Some(30), 20, 0, false);
    assert_eq!(inputs.len(), 20);
    let first = brain.axon(inputs[0]).unwrap().get_sink();
    assert!(inputs.iter().any(|&id| brain.axon(id).unwrap().get_sink() != first));
}

#[test]
fn default_brain_asks_for_five_hundred_neurons() {
    let (brain, inputs, outputs) = Spirion::spin_up_new(None, 3, 4, false);
    assert_eq!(inputs.len(), 3);
    assert_eq!(outputs.len(), 4);
    assert!(brain.num_of_neurons() >= 4);
    assert!(brain.num_of_neurons() <= 504);
    for id in brain.neuron_ids() {
        assert!(1 <= id && id <= 504);
    }
}

#[test]
fn spin_up_wires_sanely() {
    let (brain, inputs, outputs) = Spirion::spin_up_new(Some(30), 4, 3, false);
    let mut sorted = outputs.clone();
    sorted.sort();
    assert_eq!(sorted, vec![1, 2, 3]);
    for id in &inputs {
        assert_eq!(brain.axon(*id).unwrap().id_source, 0);
    }
    for id in brain.axon_ids() {
        let a = brain.axon(id).unwrap();
        if !a.is_input() {
            assert_ne!(a.id_source, a.id_sink);
            if outputs.contains(&a.id_source) {
                assert!(outputs.contains(&a.id_sink));
            }
        }
    }
}

#[test]
fn wire_pick_turns_an_axon_toward_an_output() {
    let (mut brain, _, sink) = lone_input_brain();
    let before = brain.num_of_axons();
    assert_eq!(brain.wire_pick(sink, sink), None);
    assert_eq!(brain.num_of_axons(), before);
    let made = brain.wire_pick(1, sink).unwrap();
    let a = brain.axon(made).unwrap();
    assert_eq!(a.id_source, sink);
    assert_eq!(a.id_sink, 1);
    assert!(!a.is_input());
    assert_eq!(brain.num_of_axons(), before + 2);
    let other = brain.wire_pick(sink, 1).unwrap();
    assert_eq!(brain.axon(other).unwrap().id_source, sink);
    assert_eq!(other, made + 1);
}

#[test]
fn reward_and_pain_of_level_zero_do_nothing() {
    let (mut brain, _, sink) = lone_input_brain();
    let before = brain.neuron(sink).unwrap().clone();
    brain.reward(Some(0));
    brain.pain(Some(0));
    assert_eq!(brain.clock, 0);
    assert!(brain.neuron(sink).unwrap() == &before);
}
