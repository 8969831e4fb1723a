use raft::types::LogIndex;
use raft::types::NodeId;
use raft::types::Term;

#[test]
fn term_next_increases_by_one() {
    assert_eq!(Term::from(3).next(), Term::from(4));
}

#[test]
fn term_next_saturates_at_max() {
    assert_eq!(Term::from(u64::MAX).next(), Term::from(u64::MAX));
}

#[test]
fn log_index_next_increases_by_one() {
    assert_eq!(LogIndex::from(5).next(), LogIndex::from(6));
}

#[test]
fn log_index_next_saturates_at_max() {
    assert_eq!(LogIndex::from(u64::MAX).next(), LogIndex::from(u64::MAX));
}

#[test]
fn log_index_prev_returns_predecessor() {
    assert_eq!(LogIndex::from(3).prev(), Some(LogIndex::from(2)));
}

#[test]
fn log_index_prev_returns_none_at_zero() {
    assert_eq!(LogIndex::default().prev(), None);
}

#[test]
fn log_index_advance_by_adds_steps() {
    assert_eq!(LogIndex::from(2).advance_by(3), LogIndex::from(5));
}

#[test]
fn log_index_value_since_returns_none_when_not_strictly_greater() {
    assert_eq!(LogIndex::from(2).value_since(LogIndex::from(2)), None);
    assert_eq!(LogIndex::from(1).value_since(LogIndex::from(2)), None);
}

#[test]
fn log_index_value_since_returns_step_count() {
    assert_eq!(LogIndex::from(5).value_since(LogIndex::from(2)), Some(3));
}

#[test]
fn log_index_from_length_maps_array_length_to_last_index() {
    assert_eq!(LogIndex::from_length(0), LogIndex::default());
    assert_eq!(LogIndex::from_length(3), LogIndex::from(3));
}

#[test]
fn identifiers_are_shown_with_their_letter_and_number() {
    assert_eq!(Term::from(7).display(), "T7");
    assert_eq!(LogIndex::from(120).display(), "I120");
    assert_eq!(NodeId::from(u64::MAX).display(), "N18446744073709551615");
    assert_eq!(NodeId::from(3).value(), 3);
}

#[test]
fn identifiers_default_to_zero() {
    assert_eq!(Term::default(), Term::from(0));
    assert_eq!(LogIndex::default(), LogIndex::from(0));
}

#[test]
fn log_index_advance_by_saturates_at_max() {
    assert_eq!(LogIndex::from(u64::MAX - 1).advance_by(5), LogIndex::from(u64::MAX));
}
