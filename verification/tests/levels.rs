use spma::beam::MatchStep;
use spma::levels::{
    build_next_level_patterns, candidate_atoms, next_pattern_id, pattern_from_candidate, patterns_from_ngrams,
    pid_sequence, start_sequence,
};
use spma::model::{GapConstraint, GrammarLevel, Pattern, SymbolRef};
use spma::ngrams::GAP_MARKER;

fn step(old_idx: usize, old_pos: usize, new_pos: usize) -> MatchStep {
    MatchStep { old_idx, old_pos, new_pos }
}

fn pats() -> Vec<Pattern> {
    vec![
        Pattern::new_contiguous(10, vec![SymbolRef::Atom(0), SymbolRef::Atom(1)], 0),
        Pattern::new_contiguous(11, vec![SymbolRef::Atom(2)], 0),
        Pattern::new_contiguous(12, vec![SymbolRef::Atom(3)], 0),
    ]
}

#[test]
fn pid_sequence_orders_starts_by_position_first_wins() {
    // Starts at positions 4, 0, 4 (two at 4), and a continuation step.
    let log = vec![step(1, 0, 4), step(0, 0, 0), step(0, 1, 1), step(2, 0, 4), step(2, 0, 2)];
    assert_eq!(pid_sequence(&log, &pats()), vec![10, 12, 11]);
    // Without dedup both starts at 4 stay, in history order.
    assert_eq!(start_sequence(&log, &pats()), vec![10, 12, 11, 12]);
}

#[test]
fn pid_sequence_skips_unknown_patterns() {
    let log = vec![step(7, 0, 0), step(1, 0, 1)];
    assert_eq!(pid_sequence(&log, &pats()), vec![11]);
}

#[test]
fn next_level_patterns_reference_patterns() {
    // Four histories that each start pattern 10 then pattern 11.
    let log = vec![step(0, 0, 0), step(0, 1, 1), step(1, 0, 2)];
    let logs = vec![log.clone(), log.clone(), log.clone(), log];
    let mut next_id = 50u32;
    let r = build_next_level_patterns(&logs, &pats(), 0, &mut next_id);
    assert_eq!(r.len(), 1);
    assert_eq!(r[0].id, 50);
    assert_eq!(r[0].symbols, vec![SymbolRef::Pattern(10), SymbolRef::Pattern(11)]);
    assert_eq!(r[0].frequency, 4);
    assert_eq!(r[0].level, 1);
    assert!(r[0].gaps.is_empty());
    assert_eq!(next_id, 51);
}

#[test]
fn ngrams_with_gap_marker_do_not_become_next_level_patterns() {
    let ngrams = vec![(vec![1u32, GAP_MARKER, 1, 2], 5), (vec![3u32, 4], 2)];
    let mut next_id = 0u32;
    let r = patterns_from_ngrams(&ngrams, &mut next_id, 3);
    assert_eq!(r.len(), 1);
    assert_eq!(r[0].symbols, vec![SymbolRef::Pattern(3), SymbolRef::Pattern(4)]);
    assert_eq!(r[0].frequency, 2);
    assert_eq!(r[0].level, 3);
    assert_eq!(next_id, 1);
}

#[test]
fn gap_candidates_become_two_atom_gap_patterns() {
    let ng = vec![7u32, GAP_MARKER, 2, 9];
    assert_eq!(candidate_atoms(&ng), vec![7, 9]);
    let p = pattern_from_candidate(&ng, 3, 6);
    assert_eq!(p.symbols, vec![SymbolRef::Atom(7), SymbolRef::Atom(9)]);
    assert_eq!(p.gaps, vec![GapConstraint::up_to(2)]);
    assert_eq!(p.frequency, 6);
    assert_eq!(p.id, 3);

    let plain = vec![4u32, 5, 6];
    assert_eq!(candidate_atoms(&plain), plain);
    let q = pattern_from_candidate(&plain, 1, 2);
    assert_eq!(q.symbols, vec![SymbolRef::Atom(4), SymbolRef::Atom(5), SymbolRef::Atom(6)]);
    assert!(q.gaps.is_empty());
}

#[test]
fn next_pattern_id_is_one_past_largest() {
    assert_eq!(next_pattern_id(&[]), 0);
    let levels = vec![GrammarLevel::new(pats()), GrammarLevel::new(vec![Pattern::new_contiguous(4, vec![], 1)])];
    assert_eq!(next_pattern_id(&levels), 13);
}
