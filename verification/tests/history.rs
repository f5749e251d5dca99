use jury_pool::history::{active_at, from_history, is_active, to_history, MAX_HISTORY};

#[test]
fn from_history_writes_little_endian_words() {
    assert_eq!(
        from_history(&vec![1, 0x0102_0304]),
        vec![1, 0, 0, 0, 4, 3, 2, 1]
    );
    assert_eq!(from_history(&vec![u32::MAX]), vec![255, 255, 255, 255]);
}

#[test]
fn from_history_of_nothing_is_empty() {
    assert_eq!(from_history(&Vec::new()), Vec::<u8>::new());
    assert_eq!(to_history(&Vec::new()), Vec::<u32>::new());
}

#[test]
fn to_history_reads_little_endian_words() {
    assert_eq!(
        to_history(&vec![7, 0, 0, 0, 0, 1, 0, 0]),
        vec![7, 256]
    );
}

#[test]
fn history_round_trips_up_to_the_cap() {
    let mut history: Vec<u32> = Vec::new();
    for n in 0..=MAX_HISTORY {
        let bytes = from_history(&history);
        assert_eq!(bytes.len(), 4 * n);
        assert_eq!(to_history(&bytes), history);
        history.push(0x1000_0000 * (n as u32) + 17 * (n as u32));
    }
}

#[test]
fn bytes_round_trip_when_made_of_whole_words() {
    let bytes: Vec<u8> = (0u8..32).collect();
    assert_eq!(from_history(&to_history(&bytes)), bytes);
}

#[test]
fn to_history_leaves_out_an_incomplete_word() {
    assert_eq!(to_history(&vec![9, 0, 0, 0, 1, 2, 3]), vec![9]);
    assert_eq!(to_history(&vec![1, 2, 3]), Vec::<u32>::new());
}

#[test]
fn odd_length_means_active() {
    assert!(!is_active(&vec![]));
    assert!(is_active(&vec![4]));
    assert!(!is_active(&vec![4, 9]));
    assert!(is_active(&vec![4, 9, 9]));
}

#[test]
fn active_juror_counts_from_its_activation_on() {
    let history = vec![3];
    assert!(!active_at(&history, 0));
    assert!(!active_at(&history, 2));
    assert!(active_at(&history, 3));
    assert!(active_at(&history, u32::MAX));
}

#[test]
fn removed_juror_counts_inside_its_span_only() {
    let history = vec![3, 7];
    assert!(!active_at(&history, 2));
    assert!(active_at(&history, 3));
    assert!(active_at(&history, 6));
    assert!(!active_at(&history, 7));
    assert!(!active_at(&history, 100));
}

#[test]
fn readded_juror_counts_in_span_and_after_last_activation() {
    let history = vec![3, 7, 9];
    assert!(active_at(&history, 5));
    assert!(!active_at(&history, 7));
    assert!(!active_at(&history, 8));
    assert!(active_at(&history, 9));
    assert!(active_at(&history, 50));
    let full = vec![0, 1, 2, 3, 4, 5, 6, 7];
    assert!(active_at(&full, 0));
    assert!(!active_at(&full, 1));
    assert!(active_at(&full, 6));
    assert!(!active_at(&full, 7));
}

#[test]
fn span_that_opens_and_closes_at_one_epoch_holds_nothing() {
    let history = vec![4, 4];
    assert!(!active_at(&history, 3));
    assert!(!active_at(&history, 4));
    assert!(!active_at(&history, 5));
}

#[test]
fn nobody_is_active_in_an_empty_history() {
    assert!(!active_at(&vec![], 0));
    assert!(!active_at(&vec![], 9));
}
