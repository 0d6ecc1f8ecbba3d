use digital_brain::input::{Input, PortStyle};
use digital_brain::output::Output;

#[test]
fn input_ticks_up_to_five() {
    let mut i = Input::new(3);
    assert_eq!(i.id, 3);
    assert_eq!(i.tick, 0);
    assert_eq!(i.style(), PortStyle::Fired);
    for _ in 0..7 {
        i.tick();
    }
    assert_eq!(i.tick, 5);
    assert_eq!(i.style(), PortStyle::Waiting);
    i.reset();
    assert_eq!(i.tick, 0);
}

#[test]
fn input_fires_to_its_neurons() {
    let mut i = Input::new(1);
    i.connect(4);
    i.connect(6);
    assert_eq!(i.fire(), vec![4, 6]);
}

#[test]
fn output_memory_follows_updates() {
    let mut o = Output::new(1);
    assert!(o.memory().is_empty());
    o.inputs.push(80);
    o.update(1);
    assert_eq!(o.memory(), vec![80]);
    assert_eq!(o.last_tick(), 1);
    assert_eq!(o.inputs, vec![80]);
    assert!(!o.ready_to_fire());
    o.tick = 5;
    assert!(o.ready_to_fire());
    assert_eq!(o.style(), PortStyle::Waiting);
}

#[test]
fn output_forgets_after_a_long_gap() {
    let mut o = Output::new(1);
    o.inputs.push(30);
    o.update(3);
    assert_eq!(o.memory(), vec![30, 0, 0]);
    o.update(9);
    assert!(o.inputs.is_empty());
    assert_eq!(o.memory(), vec![30, 0, 0, 0, 0]);
    assert_eq!(o.last_tick(), 9);
    o.inputs.push(5);
    o.tick = 3;
    o.fired();
    assert!(o.inputs.is_empty());
    assert_eq!(o.memory(), vec![5, 0, 0, 0, 0]);
    assert_eq!(o.tick, 0);
}

#[test]
fn output_below_threshold_does_not_fire() {
    let mut o = Output::new(1);
    o.inputs.push(69);
    o.update(1);
    o.tick = 5;
    assert!(!o.ready_to_fire());
}
