use matching_engine::sequence::SequenceManager;

#[test]
fn test_sequence_increment() {
    let mut seq = SequenceManager::new();

    assert_eq!(seq.current(), 0);
    assert_eq!(seq.next(), 0);
    assert_eq!(seq.current(), 1);
    assert_eq!(seq.next(), 1);
    assert_eq!(seq.current(), 2);
}

#[test]
fn test_sequence_set() {
    let mut seq = SequenceManager::new();

    seq.set(1000);
    assert_eq!(seq.current(), 1000);
    assert_eq!(seq.next(), 1000);
    assert_eq!(seq.current(), 1001);
}

#[test]
fn test_checkpoint_detection() {
    let mut seq = SequenceManager::with_interval(100);

    // Set to just before checkpoint
    seq.set(99);
    assert!(!seq.needs_checkpoint());

    seq.next(); // Now at 100
    assert!(seq.needs_checkpoint());

    seq.next(); // Now at 101
    assert!(!seq.needs_checkpoint());
}
