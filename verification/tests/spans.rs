use spma::spans::{cover_pid_sequence, AlignmentType, SpanState};
use spma::symbols::{Pattern, Symbol};

fn pat(ids: &[u32], pid: u32) -> Pattern {
    Pattern::new(ids.iter().map(|&i| Symbol::new(i)).collect(), pid)
}

#[test]
fn span_state_enforces_contiguity_and_order() {
    let mut st = SpanState::new(4, 2);
    // A pattern starts with its first symbol at or after the furthest cover.
    assert!(st.can_extend(0, 0, 0));
    assert!(!st.can_extend(0, 1, 0));
    st.extend_match(0, 0, 0);
    // Advancing must continue right after the last matched position.
    assert!(st.can_extend(0, 1, 1));
    assert!(!st.can_extend(0, 1, 2));
    // Re-matching an earlier position of the same pattern is refused.
    st.extend_match(0, 1, 1);
    assert!(!st.can_extend(0, 0, 3));
    assert!(st.can_extend(0, 1, 3));
    // A second pattern may not start before the furthest covered position.
    assert!(!st.can_extend(1, 0, 0));
    assert!(st.can_extend(1, 0, 2));
    assert_eq!(st.max_covered_new, 1);
    assert_eq!(st.covered_new, vec![true, true, false, false]);
    assert_eq!(st.used_patterns(), vec![0]);
}

#[test]
fn alignment_types() {
    let old = vec![vec![0u32, 1], vec![5u32]];
    // Both symbols of pattern 0 matched, one position left uncovered.
    let mut st = SpanState::new(3, 2);
    st.extend_match(0, 0, 0);
    st.extend_match(0, 1, 1);
    assert_eq!(st.alignment_type(&[0, 1, 2], &old), AlignmentType::FullB);
    // The same matches cover a two-symbol sequence completely.
    let mut full = SpanState::new(2, 2);
    full.extend_match(0, 0, 0);
    full.extend_match(0, 1, 1);
    assert_eq!(full.alignment_type(&[0, 1], &old), AlignmentType::FullA);
    // Pattern 0 only half matched.
    let mut half = SpanState::new(2, 2);
    half.extend_match(0, 0, 0);
    assert_eq!(half.alignment_type(&[0, 1], &old), AlignmentType::Partial);
    // Nothing used: every used pattern trivially appears.
    assert_eq!(SpanState::new(2, 2).alignment_type(&[0, 1], &old), AlignmentType::FullB);
}

#[test]
fn cover_pid_sequence_orders_by_first_cover() {
    let old = vec![pat(&[7, 8], 30), pat(&[1], 31), pat(&[9], 32)];
    let ids = [1u32, 7, 8, 4];
    let covered = [true, true, true, false];
    // Pattern 0 first covers position 1, pattern 1 position 0, pattern 2 nowhere.
    assert_eq!(cover_pid_sequence(&ids, &covered, &[0, 1, 2], &old), vec![31, 30]);
    assert!(cover_pid_sequence(&ids, &[false, false, false, false], &[0, 1], &old).is_empty());
}
