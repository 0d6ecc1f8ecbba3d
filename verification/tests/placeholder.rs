use digital_brain::Spirion;

#[test]
fn test_placeholder() {
    assert_eq!(true, true);
}

#[test]
fn crate_root_names_the_brain() {
    let (brain, inputs, outputs) = Spirion::spin_up_new(Some(0), 0, 0, false);
    assert_eq!(brain.clock, 0);
    assert!(inputs.is_empty());
    assert!(outputs.is_empty());
}
