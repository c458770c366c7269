use compressed_set::utils::{get_steps_freq, max_step_size};

#[test]
fn steps_frequency_counts_deltas() {
    let freq = get_steps_freq(&[1, 3, 5, 6, 8, 18]);
    assert_eq!(freq.len(), 3);
    assert_eq!(freq.get(&2), Some(&3));
    assert_eq!(freq.get(&1), Some(&1));
    assert_eq!(freq.get(&10), Some(&1));
    assert!(get_steps_freq(&[4]).is_empty());
}

#[test]
fn most_frequent_step() {
    assert_eq!(max_step_size(&[1, 3, 5, 6, 8, 18]), 2);
    assert_eq!(max_step_size(&[0, 10, 20, 30, 31]), 10);
    assert_eq!(max_step_size(&[]), 1);
    assert_eq!(max_step_size(&[42]), 1);
}
