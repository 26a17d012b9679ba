use spma::symbols::{Pattern, Symbol, SymbolStatus, SymbolType};
use spma::Interner;

fn make_interner_and_symbol(name: &str) -> (Interner, Symbol) {
    let mut interner = Interner::new();
    let id = interner.intern(name);
    (interner, Symbol::new(id))
}

#[test]
fn symbols_test_symbol_creation() {
    let (interner, symbol) = make_interner_and_symbol("test");
    assert_eq!(interner.name(symbol.raw_id()), "test");
    assert_eq!(symbol.symbol_type, SymbolType::DataSymbol);
    assert_eq!(symbol.status, SymbolStatus::Contents);
    assert_eq!(symbol.frequency, 1);
}

#[test]
fn symbols_test_symbol_matching() {
    let mut interner = Interner::new();
    let cat_id = interner.intern("cat");
    let dog_id = interner.intern("dog");

    let sym1 = Symbol::new(cat_id);
    let sym2 = Symbol::new(cat_id);
    let sym3 = Symbol::new(dog_id);

    assert!(sym1.matches(&sym2));
    assert!(!sym1.matches(&sym3));
}

#[test]
fn symbols_test_pattern_creation() {
    let mut interner = Interner::new();
    let the_id = interner.intern("the");
    let cat_id = interner.intern("cat");

    let symbols = vec![Symbol::new(the_id), Symbol::new(cat_id)];
    let pattern = Pattern::new(symbols, 1);

    assert_eq!(pattern.pattern_id, 1);
    assert_eq!(pattern.len(), 2);
    assert!(!pattern.is_empty());
    assert_eq!(pattern.get_symbol_names(&interner), vec!["the", "cat"]);
}

#[test]
fn symbols_interner_same_string_same_id() {
    let mut i = Interner::new();
    let a = i.intern("foo");
    let b = i.intern("foo");
    assert_eq!(a, b);
    assert_eq!(i.len(), 1);
}

#[test]
fn symbols_interner_different_strings_different_ids() {
    let mut i = Interner::new();
    let a = i.intern("foo");
    let b = i.intern("bar");
    assert_ne!(a, b);
    assert_eq!(i.len(), 2);
}

#[test]
fn symbols_interner_name_roundtrip() {
    let mut i = Interner::new();
    let id = i.intern("hello");
    assert_eq!(i.name(id), "hello");
}

#[test]
fn symbols_assign_symbol_types_promotes_identification_symbols() {
    let mut interner = Interner::new();
    let a = interner.intern("A");
    let b = interner.intern("B");

    let mut sym_a = Symbol::new(a);
    sym_a.status = SymbolStatus::Contents;
    let mut sym_b = Symbol::new(b);
    sym_b.status = SymbolStatus::Identification;

    let mut old_patterns: Vec<Pattern> = Vec::new();
    let mut new_patterns = vec![Pattern::new(vec![sym_a, sym_b], 1)];
    spma::symbols::assign_symbol_types(&mut old_patterns, &mut new_patterns);

    let b_in_pat = new_patterns[0].symbols.iter().find(|s| s.raw_id() == b).unwrap();
    assert_eq!(
        b_in_pat.symbol_type,
        SymbolType::ContextSymbol,
        "Identification symbol should be promoted to ContextSymbol"
    );

    let a_in_pat = new_patterns[0].symbols.iter().find(|s| s.raw_id() == a).unwrap();
    assert_eq!(
        a_in_pat.symbol_type,
        SymbolType::DataSymbol,
        "Contents symbol should stay DataSymbol"
    );
}

#[test]
fn symbols_assign_symbol_types_no_identification_no_change() {
    let mut interner = Interner::new();
    let a = interner.intern("A");
    let mut old_patterns: Vec<Pattern> = Vec::new();
    let mut new_patterns = vec![Pattern::new(vec![Symbol::new(a)], 1)];
    spma::symbols::assign_symbol_types(&mut old_patterns, &mut new_patterns);
    assert_eq!(new_patterns[0].symbols[0].symbol_type, SymbolType::DataSymbol);
}

#[test]
fn assign_symbol_types_promotes_across_pattern_lists() {
    // An id marked identifying in the new patterns is promoted in the old ones too.
    let mut sym_b = Symbol::new(1);
    sym_b.status = SymbolStatus::Identification;
    let mut old_patterns = vec![Pattern::new(vec![Symbol::new(1), Symbol::new(2)], 1)];
    let mut new_patterns = vec![Pattern::new(vec![sym_b], 2)];
    spma::symbols::assign_symbol_types(&mut old_patterns, &mut new_patterns);
    assert_eq!(old_patterns[0].symbols[0].symbol_type, SymbolType::ContextSymbol);
    assert_eq!(old_patterns[0].symbols[1].symbol_type, SymbolType::DataSymbol);
    assert_eq!(new_patterns[0].symbols[0].symbol_type, SymbolType::ContextSymbol);
}
