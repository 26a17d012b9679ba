use spma::induce::{contiguous_spans, extract_learned_patterns, merge_close_spans};
use spma::model::{Pattern, SymbolRef};
use spma::ngrams::{extract_frequent_ngrams, GAP_MARKER};

#[test]
fn test_extract_frequent_ngrams_bigram_freq3() {
    let seqs = vec![vec![0u32, 1], vec![0u32, 1], vec![0u32, 1]];
    let ngrams = extract_frequent_ngrams(&seqs, 3);
    let found = ngrams.iter().find(|(ng, _)| ng == &vec![0u32, 1]);
    assert!(found.is_some(), "bigram [0,1] must be found");
    assert_eq!(found.unwrap().1, 3, "frequency must be 3");
}

#[test]
fn test_extract_learned_patterns_gap_merge() {
    // covered=[T,T,F,F,T,T], max_gap=3 → gap=2 ≤ 3 → one gap pattern
    let symbols: Vec<SymbolRef> = (0u32..6).map(SymbolRef::Atom).collect();
    let pat = Pattern::new_contiguous(0, symbols, 0);
    let covered = vec![true, true, false, false, true, true];
    let mut next_id = 1u32;
    let result = extract_learned_patterns(&pat, &covered, &mut next_id, 3, 0);
    assert_eq!(result.len(), 1, "should produce one gap pattern");
    assert_eq!(result[0].symbols.len(), 4, "symbols: sym0,sym1,sym4,sym5");
    assert!(!result[0].gaps.is_empty(), "must have gap constraints");
    let cross_gap = result[0].gaps.iter().find(|g| g.max > 0);
    assert!(cross_gap.is_some(), "must have a cross-span gap constraint");
    assert_eq!(cross_gap.unwrap().max, 2, "gap max must be 2");
}

#[test]
fn test_extract_learned_patterns_gap_too_wide() {
    // covered=[T,T,F,F,F,F,T,T], max_gap=3 → gap=4 > 3 → two separate patterns
    let symbols: Vec<SymbolRef> = (0u32..8).map(SymbolRef::Atom).collect();
    let pat = Pattern::new_contiguous(0, symbols, 0);
    let covered = vec![true, true, false, false, false, false, true, true];
    let mut next_id = 1u32;
    let result = extract_learned_patterns(&pat, &covered, &mut next_id, 3, 0);
    assert_eq!(result.len(), 2, "gap too wide: must produce two separate patterns");
    assert!(result[0].gaps.is_empty(), "first pattern must be contiguous");
    assert!(result[1].gaps.is_empty(), "second pattern must be contiguous");
    assert_eq!(result[0].symbols.len(), 2);
    assert_eq!(result[1].symbols.len(), 2);
}

#[test]
fn gap_merge_keeps_ids_levels_and_constraints() {
    let symbols: Vec<SymbolRef> = (10u32..16).map(SymbolRef::Atom).collect();
    let pat = Pattern::new_contiguous(0, symbols, 0);
    let covered = vec![true, true, false, false, true, true];
    let mut next_id = 4u32;
    let result = extract_learned_patterns(&pat, &covered, &mut next_id, 3, 2);
    assert_eq!(next_id, 5);
    assert_eq!(result[0].id, 4);
    assert_eq!(result[0].level, 2);
    assert_eq!(
        result[0].symbols,
        vec![SymbolRef::Atom(10), SymbolRef::Atom(11), SymbolRef::Atom(14), SymbolRef::Atom(15)]
    );
    let maxes: Vec<usize> = result[0].gaps.iter().map(|g| g.max).collect();
    assert_eq!(maxes, vec![0, 2, 0]);
}

#[test]
fn spans_are_maximal_runs() {
    assert_eq!(contiguous_spans(&[true, true, false, true]), vec![(0, 2), (3, 4)]);
    assert_eq!(contiguous_spans(&[false, false]), Vec::<(usize, usize)>::new());
    assert_eq!(contiguous_spans(&[true, true, true]), vec![(0, 3)]);
}

#[test]
fn close_spans_are_grouped() {
    let groups = merge_close_spans(vec![(0, 2), (4, 6), (11, 12)], 3);
    assert_eq!(groups, vec![vec![(0, 2), (4, 6)], vec![(11, 12)]]);
    assert!(merge_close_spans(vec![], 3).is_empty());
}

#[test]
fn frequent_ngrams_include_gap_keys_and_are_ranked() {
    // "a x b" three times: bigrams (a,x),(x,b), trigram (a,x,b), gap key (a,_1,b)
    let seqs = vec![vec![1u32, 7, 2], vec![1u32, 8, 2], vec![1u32, 9, 2]];
    let ngrams = extract_frequent_ngrams(&seqs, 3);
    assert_eq!(ngrams, vec![(vec![1u32, GAP_MARKER, 1, 2], 3)]);
    // Ranking: score = count × length, then key order.
    let seqs2 = vec![vec![1u32, 2, 3], vec![1u32, 2, 3], vec![1u32, 2]];
    let r = extract_frequent_ngrams(&seqs2, 2);
    assert_eq!(r[0], (vec![1u32, GAP_MARKER, 1, 3], 2));
    assert_eq!(r[1], (vec![1u32, 2], 3));
    assert_eq!(r[2], (vec![1u32, 2, 3], 2));
    assert_eq!(r[3], (vec![2u32, 3], 2));
    assert_eq!(r.len(), 4);
}

#[test]
fn infrequent_ngrams_are_dropped() {
    let seqs = vec![vec![1u32, 2], vec![3u32, 4]];
    assert!(extract_frequent_ngrams(&seqs, 2).is_empty());
}
