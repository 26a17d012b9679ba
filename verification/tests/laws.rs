use spma::beam::{MatchArena, MatchStep};
use spma::model::{GrammarLevel, Pattern, SymbolRef};
use spma::training::{add_patterns, bump_used_frequencies};
use spma::Interner;

fn atoms(id: u32, ids: &[u32]) -> Pattern {
    Pattern::new_contiguous(id, ids.iter().map(|&a| SymbolRef::Atom(a)).collect(), 0)
}

#[test]
fn interning_is_idempotent_and_ids_are_stable() {
    let mut i = Interner::new();
    let a = i.intern("alpha");
    let b = i.intern("beta");
    let a2 = i.intern("alpha");
    assert_eq!(a, a2);
    assert_ne!(a, b);
    assert_eq!(i.len(), 2);
    // Later strings never move earlier ids.
    i.intern("gamma");
    assert_eq!(i.name(a), "alpha");
    assert_eq!(i.name(b), "beta");
}

#[test]
fn grammar_only_grows() {
    let mut levels = vec![GrammarLevel::new(vec![atoms(0, &[0, 1]), atoms(1, &[2, 3])])];
    let before: Vec<(u32, Vec<SymbolRef>)> = levels[0].patterns.iter().map(|p| (p.id, p.symbols.clone())).collect();
    bump_used_frequencies(&mut levels[0].patterns, &[MatchStep { old_idx: 1, old_pos: 0, new_pos: 0 }]);
    add_patterns(&mut levels, 0, vec![atoms(2, &[4, 5])]);
    add_patterns(&mut levels, 1, vec![Pattern::new_contiguous(3, vec![SymbolRef::Pattern(0)], 1)]);
    let after: Vec<(u32, Vec<SymbolRef>)> =
        levels[0].patterns.iter().take(2).map(|p| (p.id, p.symbols.clone())).collect();
    assert_eq!(before, after);
    assert_eq!(levels[0].patterns[1].frequency, 2);
    assert_eq!(levels.len(), 2);
}

#[test]
fn arena_histories_are_shared_not_copied() {
    let mut arena = MatchArena::new();
    let root = arena.push(MatchStep { old_idx: 0, old_pos: 0, new_pos: 0 }, None);
    let a = arena.push(MatchStep { old_idx: 0, old_pos: 1, new_pos: 1 }, Some(root));
    let root_history = arena.collect(Some(root));
    let a_history = arena.collect(Some(a));
    for k in 0..5 {
        arena.push(MatchStep { old_idx: 1, old_pos: 0, new_pos: 2 + k }, Some(a));
    }
    assert_eq!(arena.collect(Some(root)), root_history);
    assert_eq!(arena.collect(Some(a)), a_history);
    assert_eq!(arena.collect(Some(6)).len(), 3);
}
