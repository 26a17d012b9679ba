use spma::symbols::{extract_learned_patterns, Pattern, Symbol};

fn sym(id: u32) -> Symbol {
    Symbol::new(id)
}

fn pat(ids: &[u32]) -> Pattern {
    Pattern::new(ids.iter().map(|&id| sym(id)).collect(), 0)
}

#[test]
fn contiguous_full_coverage() {
    // covered = [T,T,T] → one span [0,1,2]
    let p = pat(&[0, 1, 2]);
    let mut id = 10u32;
    let spans = extract_learned_patterns(&p, &[true, true, true], &mut id);
    assert_eq!(spans.len(), 1);
    assert_eq!(spans[0].symbols.iter().map(|s| s.raw_id()).collect::<Vec<_>>(), vec![0, 1, 2]);
    assert_eq!(id, 11);
}

#[test]
fn gap_produces_two_spans() {
    // covered = [T,T,F,T,T] → spans [0,1] and [3,4]
    let p = pat(&[0, 1, 2, 3, 4]);
    let mut id = 1u32;
    let spans = extract_learned_patterns(&p, &[true, true, false, true, true], &mut id);
    assert_eq!(spans.len(), 2);
    assert_eq!(spans[0].symbols.iter().map(|s| s.raw_id()).collect::<Vec<_>>(), vec![0, 1]);
    assert_eq!(spans[1].symbols.iter().map(|s| s.raw_id()).collect::<Vec<_>>(), vec![3, 4]);
    assert_eq!(id, 3);
}

#[test]
fn single_symbol_spans_discarded() {
    // covered = [T,F,T] → both spans length 1, nothing returned
    let p = pat(&[0, 1, 2]);
    let mut id = 5u32;
    let spans = extract_learned_patterns(&p, &[true, false, true], &mut id);
    assert!(spans.is_empty());
    assert_eq!(id, 5, "id counter must not advance for discarded spans");
}

#[test]
fn no_coverage_returns_empty() {
    let p = pat(&[0, 1, 2]);
    let mut id = 1u32;
    let spans = extract_learned_patterns(&p, &[false, false, false], &mut id);
    assert!(spans.is_empty());
    assert_eq!(id, 1);
}

#[test]
fn mixed_gap_at_start_and_end() {
    // covered = [F,T,T,T,F] → one span [1,2,3]
    let p = pat(&[0, 1, 2, 3, 4]);
    let mut id = 7u32;
    let spans = extract_learned_patterns(&p, &[false, true, true, true, false], &mut id);
    assert_eq!(spans.len(), 1);
    assert_eq!(spans[0].symbols.iter().map(|s| s.raw_id()).collect::<Vec<_>>(), vec![1, 2, 3]);
    assert_eq!(id, 8);
}

#[test]
fn learned_spans_get_ids_in_order_and_frequency_one() {
    let p = pat(&[5, 6, 7, 8, 9, 10]);
    let mut id = 20u32;
    let spans = extract_learned_patterns(&p, &[true, true, false, true, true, true], &mut id);
    assert_eq!(spans.len(), 2);
    assert_eq!(spans[0].pattern_id, 20);
    assert_eq!(spans[1].pattern_id, 21);
    assert_eq!(spans[1].symbols.iter().map(|s| s.raw_id()).collect::<Vec<_>>(), vec![8, 9, 10]);
    assert!(spans.iter().all(|s| s.frequency == 1));
    assert_eq!(id, 22);
}
