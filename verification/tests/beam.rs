use spma::beam::{MatchArena, MatchState, MatchStep, MAX_BITMASK_SYMBOLS};
use spma::model::{GapConstraint, Pattern, SymbolRef};

#[test]
fn bitmask_coverage_round_trip() {
    let mut mask = [0u64; 8];
    // set bits 0, 2, 5
    mask[0] |= 1u64 << 0;
    mask[0] |= 1u64 << 2;
    mask[0] |= 1u64 << 5;
    assert!(mask[0] & (1u64 << 0) != 0);
    assert!(mask[0] & (1u64 << 1) == 0);
    assert!(mask[0] & (1u64 << 2) != 0);
    assert!(mask[0] & (1u64 << 5) != 0);
    assert!(mask[0] & (1u64 << 6) == 0);
    let total: u32 = mask.iter().map(|w| w.count_ones()).sum();
    assert_eq!(total, 3);
    // test cross-word bit (bit 64 = word 1, bit 0)
    mask[1] |= 1u64 << 0;
    let total2: u32 = mask.iter().map(|w| w.count_ones()).sum();
    assert_eq!(total2, 4);
}

#[test]
fn test_arena_fork() {
    let mut arena = MatchArena::new();
    let root = arena.push(MatchStep { old_idx: 0, old_pos: 0, new_pos: 0 }, None);
    let branch_a = arena.push(MatchStep { old_idx: 0, old_pos: 1, new_pos: 1 }, Some(root));
    let branch_b = arena.push(MatchStep { old_idx: 1, old_pos: 0, new_pos: 2 }, Some(root));

    let log_a = arena.collect(Some(branch_a));
    assert_eq!(log_a.len(), 2);
    assert_eq!(log_a[0].new_pos, 0);
    assert_eq!(log_a[1].new_pos, 1);
    assert_eq!(log_a[1].old_idx, 0);

    let log_b = arena.collect(Some(branch_b));
    assert_eq!(log_b.len(), 2);
    assert_eq!(log_b[0].new_pos, 0);
    assert_eq!(log_b[1].new_pos, 2);
    assert_eq!(log_b[1].old_idx, 1);
}

#[test]
fn arena_push_keeps_earlier_histories() {
    let mut arena = MatchArena::new();
    assert_eq!(arena.len(), 0);
    assert!(arena.collect(None).is_empty());
    let a = arena.push(MatchStep { old_idx: 2, old_pos: 0, new_pos: 4 }, None);
    let before = arena.collect(Some(a));
    let b = arena.push(MatchStep { old_idx: 2, old_pos: 1, new_pos: 5 }, Some(a));
    assert_eq!(a, 0);
    assert_eq!(b, 1);
    assert_eq!(arena.len(), 2);
    assert_eq!(arena.collect(Some(a)), before);
    let mut expected = before.clone();
    expected.push(MatchStep { old_idx: 2, old_pos: 1, new_pos: 5 });
    assert_eq!(arena.collect(Some(b)), expected);
}

#[test]
fn match_state_records_coverage_across_words() {
    let mut st = MatchState::new(130, 2);
    assert_eq!(st.seq_len_exec(), 130);
    assert_eq!(st.covered_count(), 0);
    st.record(0, 0);
    st.record(1, 64);
    st.record(1, 129);
    assert!(st.is_covered(0));
    assert!(!st.is_covered(1));
    assert!(st.is_covered(64));
    assert!(st.is_covered(129));
    assert_eq!(st.covered_count(), 3);
    let flags = st.covered_flags();
    assert_eq!(flags.len(), 130);
    assert_eq!(flags.iter().filter(|&&b| b).count(), 3);
    let words = st.coverage_words();
    assert_eq!(words.len(), MAX_BITMASK_SYMBOLS / 64);
    assert_eq!(words[0], 1);
    assert_eq!(words[1], 1);
    assert_eq!(words[2], 1u64 << 1);
}

#[test]
fn match_state_extension_rules() {
    let contiguous = Pattern::new_contiguous(0, vec![SymbolRef::Atom(1), SymbolRef::Atom(2)], 0);
    let gapped = Pattern::new_with_gaps(
        1,
        vec![SymbolRef::Atom(1), SymbolRef::Atom(2)],
        vec![GapConstraint::up_to(2)],
        0,
    );
    let mut st = MatchState::new(10, 2);
    // A pattern not yet started must start with its first symbol.
    assert!(st.can_extend(0, 0, 3, &contiguous));
    assert!(!st.can_extend(0, 1, 3, &contiguous));
    st.record(0, 3);
    // Contiguous: the next symbol must come right after.
    assert!(st.can_extend(0, 1, 4, &contiguous));
    assert!(!st.can_extend(0, 1, 5, &contiguous));
    // A new pattern cannot start before the furthest covered position.
    assert!(!st.can_extend(1, 0, 2, &gapped));
    assert!(st.can_extend(1, 0, 4, &gapped));
    st.record(1, 4);
    // Gapped: up to two positions may be skipped.
    assert!(st.can_extend(1, 1, 7, &gapped));
    assert!(!st.can_extend(1, 1, 8, &gapped));
}
