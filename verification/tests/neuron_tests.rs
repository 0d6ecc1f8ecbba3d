use std::collections::HashSet;

use digital_brain::neuron::{Neuron, NeuronStyle};

fn with_memory(memory: Vec<i32>, delta_t: u32) -> Neuron {
    Neuron::new_with_data(
        None,
        None,
        None,
        None,
        Some(memory),
        None,
        None,
        None,
        None,
        Some(delta_t),
        None,
    )
}

#[test]
fn new_neuron_starts_calm() {
    let n = Neuron::new(true);
    assert!(n.is_output_neuron());
    assert_eq!(n.get_happyness(), 25);
    assert_eq!(n.base_threshold(), 50);
    assert_eq!(n.threshold(), 50);
    assert_eq!(n.memory(), vec![0, 0, 0, 0, 0]);
    assert!(n.inputs.is_empty());
    assert_eq!(n.get_delta_t(), 0);
    assert_eq!(n.avg_t(), 0);
    assert_eq!(n.last_fired(), 0);
    assert!(!Neuron::new(false).is_output_neuron());
}

#[test]
fn new_with_data_keeps_given_values() {
    let n = Neuron::new_with_data(
        Some(7),
        Some(40),
        Some(45),
        Some(true),
        Some(vec![1, 2]),
        Some(vec![3]),
        Some(vec![11]),
        Some(vec![12, 13]),
        Some(9),
        Some(4),
        Some(6),
    );
    assert_eq!(n.get_happyness(), 7);
    assert_eq!(n.base_threshold(), 40);
    assert_eq!(n.threshold(), 45);
    assert!(n.is_output_neuron());
    assert_eq!(n.memory(), vec![1, 2]);
    assert_eq!(n.inputs, vec![3]);
    assert_eq!(n.input_axon_ids(), vec![11]);
    assert_eq!(n.output_axon_ids(), vec![12, 13]);
    assert_eq!(n.last_fired(), 9);
    assert_eq!(n.get_delta_t(), 4);
    assert_eq!(n.avg_t(), 6);
}

#[test]
fn save_roll_needs_low_total() {
    let n = Neuron::new(false);
    assert!(n.survives_roll(74));
    assert!(!n.survives_roll(75));
}

#[test]
fn save_check_always_saves_outputs() {
    let n = Neuron::new(true);
    for _ in 0..20 {
        let c = n.roll_save_check(true).unwrap();
        assert!(10 <= c && c < 20);
    }
}

#[test]
fn save_check_never_saves_unhappy_neurons() {
    let n = Neuron::new_with_data(Some(200), None, None, None, None, None, None, None, None, None, None);
    for _ in 0..20 {
        assert_eq!(n.roll_save_check(false), None);
    }
}

#[test]
fn fired_returns_interval_and_restarts_it() {
    let mut n = with_memory(vec![0, 0, 0, 0, 0], 17);
    assert_eq!(n.fired(), 17);
    assert_eq!(n.get_delta_t(), 0);
}

#[test]
fn update_shortly_after_firing_sets_recovery_threshold() {
    let mut n = Neuron::new(false);
    assert_eq!(n.update(3), (0, 0));
    assert_eq!(n.get_delta_t(), 3);
    assert_eq!(n.threshold(), 80);
    assert_eq!(n.base_threshold(), 50);
    assert_eq!(n.get_happyness(), 18);
    assert_eq!(n.avg_t(), 1);
    assert_eq!(n.memory(), vec![0, 0, 0, 0, 0]);
}

#[test]
fn update_shifts_pending_total_into_memory() {
    let mut n = Neuron::new_with_data(None, None, None, None, None, Some(vec![10, -4]), None, None, None, None, None);
    n.update(2);
    assert_eq!(n.memory(), vec![6, 0, 0, 0, 0]);
    assert_eq!(n.inputs, vec![10, -4]);
    assert_eq!(n.avg_t(), 0);
    assert_eq!(n.get_happyness(), 18);
}

#[test]
fn update_after_a_long_gap_replaces_the_memory() {
    let mut n = Neuron::new_with_data(None, None, None, None, None, Some(vec![10]), None, None, None, None, None);
    n.update(7);
    assert!(n.inputs.is_empty());
    assert_eq!(n.memory(), vec![10, 0, 0, 0, 0]);
    assert_eq!(n.threshold(), 44);
    assert_eq!(n.avg_t(), 2);
    assert_eq!(n.get_happyness(), 18);
}

#[test]
fn update_of_a_regular_firing_neuron_makes_it_happier() {
    let mut n = with_memory(vec![60, 0, 0, 0, 0], 0);
    n.update(10);
    assert_eq!(n.get_happyness(), 14);
    assert_eq!(n.threshold(), 50);
    assert_eq!(n.avg_t(), 3);
    assert_eq!(n.memory(), vec![0, 0, 0, 0, 0]);
    assert!(!n.ready_to_fire());
}

#[test]
fn update_of_a_late_neuron_lowers_its_base_threshold() {
    let mut n = with_memory(vec![60, 0, 0, 0, 0], 0);
    n.update(200);
    assert_eq!(n.base_threshold(), 44);
    assert_eq!(n.threshold(), 0);
    assert_eq!(n.get_happyness(), 31);
    assert_eq!(n.avg_t(), 66);
}

#[test]
fn update_threshold_alone_applies_post_fire_level() {
    let mut n = with_memory(vec![0, 0, 0, 0, 0], 3);
    n.update_threshold();
    assert_eq!(n.threshold(), 80);
    let mut m = with_memory(vec![0, 0, 0, 0, 0], 20);
    m.update_threshold();
    assert_eq!(m.threshold(), 5);
}

#[test]
fn ready_to_fire_needs_cooldown_and_potential() {
    assert!(!with_memory(vec![60, 0, 0, 0, 0], 5).ready_to_fire());
    assert!(with_memory(vec![30, 20, 0, 0, 0], 6).ready_to_fire());
    assert!(!with_memory(vec![30, 19, 0, 0, 0], 6).ready_to_fire());
    assert!(with_memory(vec![-60, 0, 0, 0, 0], 6).ready_to_fire());
}

#[test]
fn check_to_kill_spares_fed_neurons_and_outputs() {
    let unhappy = Neuron::new_with_data(Some(500), None, None, None, None, None, None, None, None, None, None);
    assert!(unhappy.check_to_kill(false));
    assert!(!unhappy.check_to_kill(true));
    let unhappy_output = Neuron::new_with_data(Some(500), None, None, Some(true), None, None, None, None, None, None, None);
    assert!(!unhappy_output.check_to_kill(false));
    let bored = with_memory(vec![0, 0, 0, 0, 0], 1_000_000_000);
    assert!(bored.check_to_kill(false));
    let fine = Neuron::new_with_data(Some(499), None, None, None, None, None, None, None, None, Some(999_999_999), None);
    assert!(!fine.check_to_kill(false));
}

#[test]
fn wants_to_reproduce_when_happy_enough() {
    let n = Neuron::new_with_data(Some(124), None, None, None, None, None, None, None, None, None, None);
    assert!(n.want_to_reproduce());
    let m = Neuron::new_with_data(Some(125), None, None, None, None, None, None, None, None, None, None);
    assert!(!m.want_to_reproduce());
}

#[test]
fn has_input_looks_for_registered_inputs() {
    let n = Neuron::new_with_data(None, None, None, None, None, None, Some(vec![4, 9]), None, None, None, None);
    let mut ids = HashSet::new();
    ids.insert(7u128);
    assert!(!n.has_input(&ids));
    ids.insert(9u128);
    assert!(n.has_input(&ids));
}

#[test]
fn style_tells_outputs_and_recent_firing() {
    assert_eq!(Neuron::new(true).style(), NeuronStyle::Output);
    assert_eq!(with_memory(vec![], 10).style(), NeuronStyle::Active);
    assert_eq!(with_memory(vec![], 11).style(), NeuronStyle::Idle);
}

#[test]
fn links_are_recorded_and_forgotten() {
    let mut n = Neuron::new(false);
    n.link_output_axon(3);
    n.link_output_axon(4);
    n.link_output_axon(3);
    n.link_input_axon(8);
    n.unlink_output_axon(3);
    assert_eq!(n.output_axon_ids(), vec![4]);
    assert!(n.has_output_axons());
    n.unlink_input_axon(8);
    assert!(n.input_axon_ids().is_empty());
    n.push_input(-5);
    assert_eq!(n.inputs, vec![-5]);
}

#[test]
fn room_for_ticks_depends_on_clock_and_happiness() {
    let n = Neuron::new(false);
    assert!(n.has_room(0, 29, 680));
    let unhappy = Neuron::new_with_data(Some(2_147_483_600), None, None, None, None, None, None, None, None, None, None);
    assert!(unhappy.has_room(0, 29, 680));
    assert!(!unhappy.has_room(0, 30, 680));
    assert!(!n.has_room(800_000_000, 1, 680));
}

#[test]
fn update_threshold_takes_a_negative_base() {
    let mut n = Neuron::new_with_data(None, Some(-10), Some(-10), None, Some(vec![0, 0, 0, 0, 0]), None, None, None, None, Some(3), None);
    n.update_threshold();
    assert_eq!(n.threshold(), 20);
    assert_eq!(n.base_threshold(), -10);
}
