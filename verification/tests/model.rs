use spma::model::{GapConstraint, GrammarLevel, Pattern, SymbolIndex, SymbolRef};

#[test]
fn contiguous_pattern_has_empty_gaps() {
    let p = Pattern::new_contiguous(1, vec![SymbolRef::Atom(0), SymbolRef::Atom(1)], 0);
    assert!(p.is_contiguous());
    assert!(p.gaps.is_empty());
    assert_eq!(p.len(), 2);
}

#[test]
fn gap_pattern_invariant_holds() {
    let symbols = vec![SymbolRef::Atom(0), SymbolRef::Atom(1), SymbolRef::Atom(2)];
    let gaps = vec![GapConstraint::up_to(3), GapConstraint::up_to(2)];
    let p = Pattern::new_with_gaps(2, symbols, gaps, 0);
    assert!(!p.is_contiguous());
    assert_eq!(p.gaps.len(), p.symbols.len() - 1);
}

#[test]
fn gap_between_returns_correct_constraint() {
    let symbols = vec![SymbolRef::Atom(0), SymbolRef::Atom(1), SymbolRef::Atom(2)];
    let gaps = vec![GapConstraint::new(1, 3), GapConstraint::new(0, 2)];
    let p = Pattern::new_with_gaps(3, symbols, gaps, 0);
    assert_eq!(p.gap_between(0), Some(&GapConstraint::new(1, 3)));
    assert_eq!(p.gap_between(1), Some(&GapConstraint::new(0, 2)));
    assert_eq!(p.gap_between(2), None);
}

#[test]
fn new_patterns_are_seen_once() {
    let p = Pattern::new_contiguous(7, vec![SymbolRef::Pattern(3)], 2);
    assert_eq!(p.id, 7);
    assert_eq!(p.frequency, 1);
    assert_eq!(p.level, 2);
    assert!(!p.is_empty());
    let e = Pattern::new_contiguous(8, vec![], 0);
    assert!(e.is_empty());
    assert_eq!(e.len(), 0);
}

#[test]
fn gap_constraint_constructors() {
    assert_eq!(GapConstraint::none(), GapConstraint::new(0, 0));
    assert_eq!(GapConstraint::up_to(4), GapConstraint::new(0, 4));
}

#[test]
fn symbol_ref_raw_id_ignores_kind() {
    assert_eq!(SymbolRef::Atom(5).raw_id(), 5);
    assert_eq!(SymbolRef::Pattern(5).raw_id(), 5);
    let p = Pattern::new_contiguous(0, vec![SymbolRef::Atom(4), SymbolRef::Pattern(9)], 0);
    assert_eq!(p.symbol_ids(), vec![4, 9]);
}

#[test]
fn symbol_index_lists_occurrences_by_pattern_then_position() {
    let p0 = Pattern::new_contiguous(0, vec![SymbolRef::Atom(1), SymbolRef::Atom(2), SymbolRef::Atom(1)], 0);
    let p1 = Pattern::new_contiguous(1, vec![SymbolRef::Atom(2), SymbolRef::Atom(3)], 0);
    let idx = SymbolIndex::build(&[p0, p1]);
    assert_eq!(idx.get(1), &[(0, 0), (0, 2)]);
    assert_eq!(idx.get(2), &[(0, 1), (1, 0)]);
    assert_eq!(idx.get(3), &[(1, 1)]);
    assert!(idx.get(4).is_empty());
}

#[test]
fn grammar_level_index_follows_patterns() {
    let p0 = Pattern::new_contiguous(0, vec![SymbolRef::Atom(1), SymbolRef::Atom(2)], 0);
    let mut level = GrammarLevel::new(vec![p0]);
    assert_eq!(level.symbol_index.get(2), &[(0, 1)]);
    level.patterns.push(Pattern::new_contiguous(1, vec![SymbolRef::Atom(2)], 0));
    level.rebuild_index();
    assert_eq!(level.symbol_index.get(2), &[(0, 1), (1, 0)]);
}
