use digital_brain::memory::{calm_total, forget_into, is_calm, total};

#[test]
fn total_adds_signed_signals() {
    assert_eq!(total(&vec![1, 2, -3]), 0);
    assert_eq!(total(&vec![]), 0);
    assert_eq!(total(&vec![10, -4, 7]), 13);
}

#[test]
fn forget_with_none_replaces_the_memory() {
    let mut inputs = vec![4, 5];
    let mut memory = vec![1, 2, 3, 4, 5];
    forget_into(&mut inputs, &mut memory, None);
    assert!(inputs.is_empty());
    assert_eq!(memory, vec![9, 0, 0, 0, 0]);
}

#[test]
fn forget_with_zero_ticks_changes_nothing() {
    let mut inputs = vec![4, 5];
    let mut memory = vec![1, 2, 3, 4, 5];
    forget_into(&mut inputs, &mut memory, Some(0));
    assert_eq!(inputs, vec![4, 5]);
    assert_eq!(memory, vec![1, 2, 3, 4, 5]);
}

#[test]
fn forget_shifts_memory_with_total_in_front() {
    let mut inputs = vec![4, 5];
    let mut memory = vec![1, 2, 3, 4, 5];
    forget_into(&mut inputs, &mut memory, Some(2));
    assert_eq!(memory, vec![9, 0, 1, 2, 3]);
    assert_eq!(inputs, vec![4, 5]);
}

#[test]
fn forget_shifts_at_most_memory_size() {
    let mut inputs = vec![4, 5];
    let mut memory = vec![1, 2, 3, 4, 5];
    forget_into(&mut inputs, &mut memory, Some(9));
    assert_eq!(memory, vec![9, 0, 0, 0, 0]);
}

#[test]
fn calm_total_reports_magnitudes() {
    assert_eq!(calm_total(&vec![-3, 4]), Some(7));
    assert_eq!(calm_total(&vec![]), Some(0));
    assert_eq!(calm_total(&vec![i32::MAX]), None);
    assert_eq!(calm_total(&vec![429496729]), Some(429496729));
    assert_eq!(calm_total(&vec![429496729, -1]), None);
}

#[test]
fn calm_memory_is_short_and_small() {
    assert!(is_calm(&vec![0, 0, 0, 0, 0]));
    assert!(is_calm(&vec![-429496729, 429496729]));
    assert!(!is_calm(&vec![0, 0, 0, 0, 0, 0]));
    assert!(!is_calm(&vec![429496730]));
}
