use std::collections::HashMap;

use digital_brain::axion::{Axion, AxonStyle};
use digital_brain::grid::{axion_updates, AxionUpdate};
use digital_brain::neuron::Neuron;

#[test]
fn new_axon_has_random_values_in_range() {
    for _ in 0..50 {
        let a = Axion::new(1, 2, 7, false);
        assert_eq!(a.id, 7);
        assert_eq!(a.id_source, 1);
        assert_eq!(a.id_sink, 2);
        assert!(!a.is_input());
        assert!(-100 <= a.strength && a.strength < 100);
        assert!(a.reliability() < 50);
        assert!(a.happyness() < 75);
        assert_eq!(a.delta_t, 0);
        assert_eq!(a.avg_t(), 1);
    }
}

#[test]
fn happiness_is_taken_over() {
    let mut a = Axion::new(1, 2, 7, false);
    a.update_happyness(321);
    assert_eq!(a.happyness(), 321);
}

#[test]
fn input_fires_unchanged() {
    let mut a = Axion::new(0, 5, 3, true);
    let strength = a.strength;
    let reliable = a.reliability();
    assert_eq!(a.fire(9), (5, strength));
    assert_eq!(a.strength, strength);
    assert_eq!(a.reliability(), reliable);
    assert_eq!(a.delta_t, 0);
    assert_eq!(a.avg_t(), 1);
}

#[test]
fn firing_moves_strength_a_little_and_updates_reliability() {
    for _ in 0..50 {
        let mut a = Axion::new(1, 2, 3, false);
        let before = a.strength;
        let reliable = a.reliability();
        let (sink, s) = a.fire(1);
        assert_eq!(sink, 2);
        assert_eq!(s, a.strength);
        let moved = (s.abs() - before.abs()).abs();
        assert!(moved < 20 || (s + before).abs() < 20 || (s - before).abs() < 20);
        assert_eq!(a.reliability(), reliable + 5);
        assert_eq!(a.avg_t(), 1);
        assert_eq!(a.delta_t, 1);
    }
}

#[test]
fn reliability_drops_with_irregular_firing() {
    let mut a = Axion::new(1, 2, 3, false);
    let reliable = a.reliability();
    a.fire(76);
    assert_eq!(a.reliability(), reliable.saturating_sub(2));
    assert_eq!(a.avg_t(), 26);
}

#[test]
fn strength_after_draws_follows_the_signs() {
    let mut a = Axion::new(1, 2, 3, false);
    a.strength = 40;
    assert_eq!(a.strength_after_draws(-3, 5, 7), -47);
    assert_eq!(a.strength_after_draws(0, -1, 7), 33);
    assert_eq!(a.strength_after_draws(12, 0, 19), 59);
    assert_eq!(a.strength_after_draws(-1, -2, 0), -40);
}

#[test]
fn drawing_data_tells_kind_and_sign() {
    let input = Axion::new(0, 5, 3, true);
    assert_eq!(input.get_to_draw(), (0, 5, AxonStyle::Input));
    let mut a = Axion::new(1, 2, 3, false);
    a.strength = 5;
    assert_eq!(a.get_to_draw(), (1, 2, AxonStyle::Excitatory));
    a.strength = -5;
    assert_eq!(a.get_to_draw(), (1, 2, AxonStyle::Inhibitory));
    a.strength = 0;
    assert_eq!(a.get_to_draw(), (1, 2, AxonStyle::Neutral));
}

#[test]
fn room_needed_grows_with_firings() {
    let input = Axion::new(0, 5, 3, true);
    assert_eq!(input.room_needed(29), Some(0));
    let mut a = Axion::new(1, 2, 3, false);
    a.strength = -30;
    assert_eq!(a.room_needed(2), Some(70));
    a.strength = 429_496_729;
    assert_eq!(a.room_needed(1), None);
}

#[test]
fn axon_updates_carry_the_neuron_happiness() {
    let n = Neuron::new_with_data(Some(40), None, None, None, None, None, Some(vec![1, 2, 3]), None, None, None, None);
    let mut axons = HashMap::new();
    axons.insert(1u128, Axion::new(4, 9, 1, false));
    axons.insert(3u128, Axion::new(0, 9, 3, true));
    let updates = axion_updates(&n, &axons);
    assert_eq!(
        updates,
        vec![AxionUpdate { id: 1, new_happyness: 40 }, AxionUpdate { id: 3, new_happyness: 40 }]
    );
}

#[test]
fn draws_vary_between_axons() {
    let axons: Vec<Axion> = (0..30).map(|i| Axion::new(1, 2, i, false)).collect();
    let first = &axons[0];
    assert!(axons.iter().any(|a| a.strength != first.strength));
    assert!(axons.iter().any(|a| a.reliability() != first.reliability()));
    assert!(axons.iter().any(|a| a.happyness() != first.happyness()));
}

#[test]
fn firing_keeps_strength_and_reliability_in_range() {
    let mut a = Axion::new(1, 2, 7, false);
    a.strength = 100;
    for _ in 0..40 {
        let (sink, s) = a.fire(1);
        assert_eq!(sink, 2);
        assert!(-100 <= s && s <= 100);
        assert_eq!(a.strength, s);
        assert!(a.reliability() <= 100);
    }
    assert_eq!(a.reliability(), 100);
}

#[test]
fn strength_after_draws_is_kept_within_a_hundred() {
    let mut a = Axion::new(1, 2, 7, false);
    a.strength = 95;
    assert_eq!(a.strength_after_draws(1, 1, 19), 100);
    a.strength = -95;
    assert_eq!(a.strength_after_draws(1, -1, 19), -100);
    assert_eq!(a.strength_after_draws(-1, -1, 19), 100);
}
