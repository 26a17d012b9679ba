use std::collections::HashMap;

use spma::alignment::{alignment_rows, uncovered_positions, CellLayout};
use spma::beam::MatchStep;
use spma::model::{GapConstraint, GrammarLevel, Pattern, SymbolRef};
use spma::report::{gap_pattern_count, levels_to_show, link_after, total_frequency, uncovered_atoms, Link};
use spma::symbols::{classify_token, input_pattern, table_assignment, Symbol, SymbolStatus, SymbolType};
use spma::symbols::Pattern as SymPattern;
use spma::tally::{count_keys, ngram_counts};
use spma::training::{
    add_patterns, bump_used_frequencies, fingerprint_known, merge_atom_frequencies, merge_gap_candidates,
    min_frequency, pid_frequencies,
};
use spma::validate::{validate_corpus, validate_sequence, ValidationError};
use spma::Interner;

fn atoms(id: u32, ids: &[u32], level: u8) -> Pattern {
    Pattern::new_contiguous(id, ids.iter().map(|&a| SymbolRef::Atom(a)).collect(), level)
}

fn step(old_idx: usize, old_pos: usize, new_pos: usize) -> MatchStep {
    MatchStep { old_idx, old_pos, new_pos }
}

// ── Interning ────────────────────────────────────────────────────────────────

#[test]
fn intern_corpus_assigns_ids_in_first_appearance_order() {
    let mut i = Interner::new();
    let corpus = vec![vec!["a", "b", "a"], vec!["c", "b"]];
    let ids = i.intern_corpus(&corpus);
    assert_eq!(ids, vec![vec![0, 1, 0], vec![2, 1]]);
    assert_eq!(i.len(), 3);
    assert_eq!(i.name(2), "c");
    // Interning again changes nothing.
    let again = i.intern_corpus(&corpus);
    assert_eq!(again, ids);
    assert_eq!(i.len(), 3);
}

#[test]
fn lookup_maps_unknown_tokens_past_the_end() {
    let mut i = Interner::new();
    i.intern_sequence(&["x", "y"]);
    assert_eq!(i.lookup_ids(&["y", "z", "x"]), vec![1, 2, 0]);
    assert_eq!(i.get("z"), None);
    assert_eq!(i.get("y"), Some(1));
    assert!(!i.is_empty());
    assert!(Interner::default().is_empty());
}

// ── Validation ───────────────────────────────────────────────────────────────

#[test]
fn sequences_longer_than_the_bitmask_are_rejected() {
    let ok: Vec<&str> = vec!["a"; 512];
    let long: Vec<&str> = vec!["a"; 513];
    assert_eq!(validate_sequence(&ok), Ok(()));
    assert_eq!(validate_sequence(&long), Err(ValidationError::SequenceTooLong { len: 513, limit: 512 }));
    let corpus = vec![ok.clone(), ok.clone(), ok.clone(), long.clone(), long];
    assert_eq!(
        validate_corpus(&corpus),
        Err(ValidationError::CorpusSequenceTooLong { index: 3, len: 513, limit: 512 })
    );
    assert_eq!(validate_corpus(&[ok]), Ok(()));
    assert_eq!(validate_corpus(&[]), Ok(()));
}

// ── Grammar report ───────────────────────────────────────────────────────────

#[test]
fn uncovered_atoms_are_those_no_pattern_uses() {
    let l0 = GrammarLevel::new(vec![atoms(0, &[0, 2], 0)]);
    let l1 = GrammarLevel::new(vec![Pattern::new_contiguous(1, vec![SymbolRef::Pattern(1), SymbolRef::Atom(4)], 1)]);
    assert_eq!(uncovered_atoms(&[l0, l1], 6), vec![1, 3, 5]);
    assert_eq!(uncovered_atoms(&[], 2), vec![0, 1]);
}

#[test]
fn level_figures() {
    let mut p0 = atoms(0, &[1, 2], 0);
    p0.frequency = 5;
    let mut p1 = Pattern::new_with_gaps(1, vec![SymbolRef::Atom(1), SymbolRef::Atom(3)], vec![GapConstraint::up_to(2)], 0);
    p1.frequency = u32::MAX;
    let pats = vec![p0, p1];
    assert_eq!(gap_pattern_count(&pats), 1);
    assert_eq!(total_frequency(&pats), 5 + u32::MAX as u64);
    assert_eq!(levels_to_show(Some(4), 2), vec![4]);
    assert_eq!(levels_to_show(None, 3), vec![0, 1, 2]);
}

#[test]
fn links_between_symbols() {
    let p = Pattern::new_with_gaps(
        0,
        vec![SymbolRef::Atom(0), SymbolRef::Atom(1), SymbolRef::Atom(2)],
        vec![GapConstraint::none(), GapConstraint::new(1, 3)],
        0,
    );
    assert_eq!(link_after(&p, 0), Link::Adjacent);
    assert_eq!(link_after(&p, 1), Link::Gap { min: 1, max: 3 });
    assert_eq!(link_after(&atoms(1, &[0, 1], 0), 0), Link::Adjacent);
}

// ── Training bookkeeping ─────────────────────────────────────────────────────

#[test]
fn atom_frequencies_accumulate() {
    let mut freqs: HashMap<u32, u32> = HashMap::new();
    freqs.insert(9, 4);
    let mut total: u64 = 10;
    merge_atom_frequencies(&mut freqs, &mut total, &[vec![1, 2, 1], vec![9]]);
    assert_eq!(freqs.get(&1), Some(&2));
    assert_eq!(freqs.get(&2), Some(&1));
    assert_eq!(freqs.get(&9), Some(&5));
    assert_eq!(freqs.len(), 3);
    assert_eq!(total, 14);
}

#[test]
fn pid_frequencies_count_ids_below_the_bound() {
    let pats = vec![atoms(2, &[0], 0), atoms(0, &[1], 0)];
    assert_eq!(pid_frequencies(&[2, 0, 2, 7], &pats), vec![1, 0, 2]);
    assert_eq!(pid_frequencies(&[0, 0], &[]), vec![2]);
}

#[test]
fn used_patterns_count_once_per_history() {
    let mut pats = vec![atoms(0, &[0, 1], 0), atoms(1, &[2], 0), atoms(2, &[3], 0)];
    bump_used_frequencies(&mut pats, &[step(0, 0, 0), step(0, 1, 1), step(2, 0, 3)]);
    assert_eq!(pats[0].frequency, 2);
    assert_eq!(pats[1].frequency, 1);
    assert_eq!(pats[2].frequency, 2);
    assert_eq!(pats[0].symbols, vec![SymbolRef::Atom(0), SymbolRef::Atom(1)]);
}

#[test]
fn gap_candidates_join_pool_by_fingerprint() {
    let mut pool = vec![Pattern::new_contiguous(0, vec![SymbolRef::Pattern(1), SymbolRef::Pattern(2)], 1)];
    let cands = vec![
        atoms(5, &[1, 2], 1),
        atoms(6, &[3, 4], 1),
        atoms(7, &[3, 4], 1),
        atoms(8, &[4], 1),
    ];
    merge_gap_candidates(&mut pool, cands);
    let ids: Vec<u32> = pool.iter().map(|p| p.id).collect();
    assert_eq!(ids, vec![0, 6, 8]);
}

#[test]
fn known_fingerprints_ignore_symbol_kind() {
    let pats = vec![atoms(0, &[1, 2], 0), Pattern::new_contiguous(1, vec![SymbolRef::Pattern(3)], 1)];
    assert!(fingerprint_known(&pats, &[1, 2]));
    assert!(fingerprint_known(&pats, &[3]));
    assert!(!fingerprint_known(&pats, &[1]));
    assert!(!fingerprint_known(&pats, &[2, 1]));
    assert!(!fingerprint_known(&[], &[]));
}

#[test]
fn adding_patterns_keeps_existing_ones() {
    let mut levels = vec![GrammarLevel::new(vec![atoms(0, &[0, 1], 0)])];
    add_patterns(&mut levels, 0, vec![atoms(1, &[2, 3], 0)]);
    assert_eq!(levels.len(), 1);
    assert_eq!(levels[0].patterns.iter().map(|p| p.id).collect::<Vec<_>>(), vec![0, 1]);
    assert_eq!(levels[0].symbol_index.get(3), &[(1, 1)]);
    add_patterns(&mut levels, 1, vec![atoms(2, &[0], 1)]);
    assert_eq!(levels.len(), 2);
    assert_eq!(levels[0].patterns.len(), 2);
    assert_eq!(levels[1].patterns[0].id, 2);
}

#[test]
fn min_frequency_is_half_but_at_least_two() {
    assert_eq!(min_frequency(0), 2);
    assert_eq!(min_frequency(5), 2);
    assert_eq!(min_frequency(6), 3);
    assert_eq!(min_frequency(100), 50);
}

// ── Alignment layout ─────────────────────────────────────────────────────────

#[test]
fn gap_cell_inserted_between_non_adjacent_matches() {
    let pat = Pattern::new_with_gaps(
        0,
        vec![SymbolRef::Atom(0), SymbolRef::Atom(1)],
        vec![GapConstraint::up_to(2)],
        0,
    );
    let log = vec![step(0, 0, 0), step(0, 1, 2)];
    let rows = alignment_rows(&log, &[pat]);
    assert_eq!(rows.len(), 1);
    let row = &rows[0];
    assert_eq!(row.cells.len(), 3);
    assert_eq!(row.cells[0], CellLayout { old_pos: 0, new_pos: 0, is_gap: false, gap_span: 0, step: 0 });
    assert_eq!(row.cells[1], CellLayout { old_pos: 0, new_pos: 1, is_gap: true, gap_span: 1, step: 0 });
    assert_eq!(row.cells[2], CellLayout { old_pos: 1, new_pos: 2, is_gap: false, gap_span: 0, step: 1 });
    assert!(row.fully_matched);
}

#[test]
fn scenario8_row_count_matches_distinct_patterns() {
    let p0 = atoms(0, &[0, 1], 0);
    let p1 = atoms(1, &[2, 3], 0);
    let log = vec![step(0, 0, 0), step(0, 1, 1), step(1, 0, 2), step(1, 1, 3)];
    let rows = alignment_rows(&log, &[p0, p1]);
    assert_eq!(rows.len(), 2);
    assert_eq!(rows[0].old_idx, 0);
    assert_eq!(rows[1].old_idx, 1);
}

#[test]
fn scenario10_fully_matched_true_and_false() {
    let p0 = atoms(0, &[0, 1, 2], 0);
    let full = alignment_rows(&[step(0, 0, 0), step(0, 1, 1), step(0, 2, 2)], &[p0.clone()]);
    assert!(full[0].fully_matched, "all 3 matched → fully_matched true");
    let partial = alignment_rows(&[step(0, 0, 0), step(0, 1, 1)], &[p0]);
    assert!(!partial[0].fully_matched, "only 2 of 3 matched → fully_matched false");
}

#[test]
fn scenario11_unmatched_symbols_in_order() {
    assert_eq!(uncovered_positions(&[true, false, false, false]), vec![1, 2, 3]);
    assert!(uncovered_positions(&[true, true]).is_empty());
}

#[test]
fn scenario13_rows_sorted_by_level_then_first_new_pos() {
    let p0 = atoms(0, &[2, 3], 1);
    let p1 = atoms(1, &[0, 1], 0);
    let log = vec![step(0, 0, 2), step(0, 1, 3), step(1, 0, 0), step(1, 1, 1)];
    let rows = alignment_rows(&log, &[p0, p1]);
    assert_eq!(rows.len(), 2);
    assert_eq!(rows[0].old_idx, 1);
    assert_eq!(rows[1].old_idx, 0);
}

#[test]
fn rows_on_one_level_follow_their_first_position() {
    let p0 = atoms(0, &[5], 0);
    let p1 = atoms(1, &[6], 0);
    // Pattern 0 matched twice, at 4 then at 1; pattern 1 at 2.
    let log = vec![step(0, 0, 4), step(1, 0, 2), step(0, 0, 1)];
    let rows = alignment_rows(&log, &[p0, p1]);
    assert_eq!(rows.iter().map(|r| r.old_idx).collect::<Vec<_>>(), vec![0, 1]);
    // Cells of a row come by position; no gap cells for a contiguous pattern.
    assert_eq!(rows[0].cells.iter().map(|c| c.new_pos).collect::<Vec<_>>(), vec![1, 4]);
    assert_eq!(rows[0].cells.iter().map(|c| c.step).collect::<Vec<_>>(), vec![2, 0]);
    assert!(!rows[0].fully_matched);
}

// ── Key counting ─────────────────────────────────────────────────────────────

#[test]
fn keys_are_counted_in_key_order() {
    let keys = vec![vec![2u32, 1], vec![1, 5], vec![2, 1], vec![1], vec![1, 5, 0]];
    assert_eq!(
        count_keys(&keys),
        vec![(vec![1u32], 1), (vec![1, 5], 1), (vec![1, 5, 0], 1), (vec![2, 1], 2)]
    );
}

#[test]
fn legacy_ngram_counts_keep_frequent_windows() {
    let mk = |ids: &[u32]| SymPattern::new(ids.iter().map(|&i| Symbol::new(i)).collect(), 0);
    let pats = vec![mk(&[1, 2, 3]), mk(&[1, 2, 4]), mk(&[9])];
    assert_eq!(ngram_counts(&pats, 3, 2), vec![(vec![1u32, 2], 2)]);
    assert_eq!(
        ngram_counts(&pats, 2, 1),
        vec![(vec![1u32, 2], 2), (vec![2, 3], 1), (vec![2, 4], 1)]
    );
    assert!(ngram_counts(&pats, 1, 1).is_empty());
}

// ── Input lines and legacy tables ────────────────────────────────────────────

#[test]
fn tokens_are_classified() {
    assert_eq!(classify_token("<"), ("<", SymbolType::LeftBracket, SymbolStatus::BoundaryMarker));
    assert_eq!(classify_token(">"), (">", SymbolType::RightBracket, SymbolStatus::BoundaryMarker));
    assert_eq!(classify_token("#1"), ("#1", SymbolType::UniqueIdSymbol, SymbolStatus::Identification));
    assert_eq!(classify_token("!food"), ("food", SymbolType::DataSymbol, SymbolStatus::Identification));
    assert_eq!(classify_token("meat"), ("meat", SymbolType::DataSymbol, SymbolStatus::Contents));
    assert_eq!(classify_token("<<"), ("<<", SymbolType::DataSymbol, SymbolStatus::Contents));
}

#[test]
fn input_line_becomes_a_pattern() {
    let mut interner = Interner::new();
    let first = input_pattern(&mut interner, &["<", "the", "cat", ">", "sat", "on", "<", "the", "mat", ">"], 1);
    assert_eq!(
        first.get_symbol_names(&interner),
        vec!["<", "the", "cat", ">", "sat", "on", "<", "the", "mat", ">"]
    );
    let second = input_pattern(&mut interner, &["!animal", "dog", "#1", "eats", "!food", "meat", "#2"], 2);
    let names = second.get_symbol_names(&interner);
    assert!(names.contains(&"dog".to_string()));
    assert!(names.contains(&"meat".to_string()));
    assert_eq!(names[0], "animal");
    assert_eq!(second.symbols[0].status, SymbolStatus::Identification);
    assert_eq!(second.symbols[2].symbol_type, SymbolType::UniqueIdSymbol);
    assert_eq!(second.symbols[6].position, 6);
    assert_eq!(second.pattern_id, 2);
}

#[test]
fn table_rows_are_assigned_to_first_holder() {
    let rows = vec![vec![1u32, 2], vec![2u32, 3]];
    assert_eq!(
        table_assignment(&[1, 2, 3, 4], &[true, true, true, false], &rows),
        vec![Some(0), Some(0), Some(1), None]
    );
    assert_eq!(table_assignment(&[3], &[true], &[]), vec![None]);
}
