use vstd::prelude::*;
use std::collections::HashMap;

verus! {

broadcast use vstd::std_specs::hash::group_hash_axioms;

// ── SymbolRef ─────────────────────────────────────────────────────────────────

/// A reference to either an interned atom or a learned pattern.
#[derive(Clone, Copy, Debug, PartialEq, Eq, Hash, Structural)]
pub enum SymbolRef {
    /// Interned string id.
    Atom(u32),
    /// Id of a learned pattern at the level below.
    Pattern(u32),
}

/// The id a symbol carries, whichever kind it is.
pub open spec fn sym_id(s: SymbolRef) -> u32 {
    match s {
        SymbolRef::Atom(id) => id,
        SymbolRef::Pattern(id) => id,
    }
}

impl SymbolRef {
    /// The id this symbol carries, whichever kind it is.
    pub fn raw_id(&self) -> (r: u32)
        ensures
            r == sym_id(*self),
    {
        match self {
            SymbolRef::Atom(id) => *id,
            SymbolRef::Pattern(id) => *id,
        }
    }
}

/// The ids of a sequence of symbols, in order.
pub open spec fn sym_ids(syms: Seq<SymbolRef>) -> Seq<u32> {
    syms.map_values(|s: SymbolRef| sym_id(s))
}

// ── GapConstraint ─────────────────────────────────────────────────────────────

/// Constraint on the number of positions skipped between two adjacent
/// symbols of a pattern.
#[derive(Clone, Copy, Debug, PartialEq, Eq, Structural)]
pub struct GapConstraint {
    /// Minimum positions to skip (0 = adjacent is fine).
    pub min: usize,
    /// Maximum positions to skip.
    pub max: usize,
}

impl GapConstraint {
    pub fn new(min: usize, max: usize) -> (r: Self)
        ensures
            r.min == min,
            r.max == max,
    {
        GapConstraint { min, max }
    }

    /// Adjacent symbols: no gap allowed.
    pub fn none() -> (r: Self)
        ensures
            r.min == 0,
            r.max == 0,
    {
        GapConstraint { min: 0, max: 0 }
    }

    /// Any gap of at most `max` positions.
    pub fn up_to(max: usize) -> (r: Self)
        ensures
            r.min == 0,
            r.max == max,
    {
        GapConstraint { min: 0, max }
    }
}

// ── Pattern ───────────────────────────────────────────────────────────────────

/// A learned grammar pattern.
///
/// `gaps` is empty for a contiguous pattern; otherwise `gaps[i]` constrains
/// the skip between `symbols[i]` and `symbols[i + 1]`.
#[derive(Clone, Debug)]
pub struct Pattern {
    pub id: u32,
    pub symbols: Vec<SymbolRef>,
    pub gaps: Vec<GapConstraint>,
    /// Match count accumulated during training.
    pub frequency: u32,
    /// Grammar level the pattern was induced at (0 = atom level).
    pub level: u8,
}

/// The gap list of a pattern is empty or has one entry per adjacent pair.
pub open spec fn gaps_fit(n_symbols: int, n_gaps: int) -> bool {
    n_gaps == 0 || n_gaps + 1 == n_symbols
}

impl Pattern {
    /// The pattern satisfies the gap invariant.
    pub open spec fn wf(&self) -> bool {
        gaps_fit(self.symbols@.len() as int, self.gaps@.len() as int)
    }

    /// Contiguous pattern: no gaps between symbols.
    pub fn new_contiguous(id: u32, symbols: Vec<SymbolRef>, level: u8) -> (r: Self)
        ensures
            r.id == id,
            r.symbols@ == symbols@,
            r.gaps@.len() == 0,
            r.frequency == 1,
            r.level == level,
            r.wf(),
    {
        Pattern { id, symbols, gaps: Vec::new(), frequency: 1, level }
    }

    /// Pattern with a gap constraint between each pair of adjacent symbols.
    pub fn new_with_gaps(id: u32, symbols: Vec<SymbolRef>, gaps: Vec<GapConstraint>, level: u8) -> (r:
        Self)
        requires
            gaps_fit(symbols@.len() as int, gaps@.len() as int),
        ensures
            r.id == id,
            r.symbols@ == symbols@,
            r.gaps@ == gaps@,
            r.frequency == 1,
            r.level == level,
            r.wf(),
    {
        Pattern { id, symbols, gaps, frequency: 1, level }
    }

    pub fn len(&self) -> (r: usize)
        ensures
            r == self.symbols@.len(),
    {
        self.symbols.len()
    }

    pub fn is_empty(&self) -> (r: bool)
        ensures
            r == (self.symbols@.len() == 0),
    {
        self.symbols.len() == 0
    }

    /// True if the pattern has no gap constraints.
    pub fn is_contiguous(&self) -> (r: bool)
        ensures
            r == (self.gaps@.len() == 0),
    {
        self.gaps.len() == 0
    }

    /// The constraint between `symbols[i]` and `symbols[i + 1]`; `None` for a
    /// contiguous pattern or an index out of range.
    pub fn gap_between(&self, i: usize) -> (r: Option<&GapConstraint>)
        ensures
            i < self.gaps@.len() ==> r == Some(&self.gaps@[i as int]),
            i >= self.gaps@.len() ==> r.is_none(),
    {
        if i < self.gaps.len() {
            Some(&self.gaps[i])
        } else {
            None
        }
    }

    /// The ids of the pattern's symbols, in order.
    pub fn symbol_ids(&self) -> (r: Vec<u32>)
        ensures
            r@ == sym_ids(self.symbols@),
    {
        let mut r: Vec<u32> = Vec::new();
        let n = self.symbols.len();
        for i in 0..n
            invariant
                n == self.symbols@.len(),
                r@ == sym_ids(self.symbols@.take(i as int)),
        {
            r.push(self.symbols[i].raw_id());
            assert(self.symbols@.take(i + 1) =~= self.symbols@.take(i as int).push(
                self.symbols@[i as int],
            ));
        }
        assert(self.symbols@.take(n as int) =~= self.symbols@);
        r
    }
}

// ── SymbolIndex ───────────────────────────────────────────────────────────────

/// The `(pattern index, position)` pairs of the first `upto` symbols of
/// `syms` (the symbols of pattern `oi`) that carry id `sym`, in order.
pub open spec fn occurrences_in(syms: Seq<SymbolRef>, oi: int, sym: u32, upto: int) -> Seq<(u32, u32)>
    decreases upto,
{
    if upto <= 0 {
        Seq::empty()
    } else {
        let prior = occurrences_in(syms, oi, sym, upto - 1);
        if sym_id(syms[upto - 1]) == sym {
            prior.push((oi as u32, (upto - 1) as u32))
        } else {
            prior
        }
    }
}

/// The `(pattern index, position)` pairs of the first `upto` patterns whose
/// symbol carries id `sym`, by pattern then position.
pub open spec fn occurrences(pats: Seq<Pattern>, sym: u32, upto: int) -> Seq<(u32, u32)>
    decreases upto,
{
    if upto <= 0 {
        Seq::empty()
    } else {
        occurrences(pats, sym, upto - 1).add(
            occurrences_in(pats[upto - 1].symbols@, upto - 1, sym, pats[upto - 1].symbols@.len() as int),
        )
    }
}

/// For each symbol id, where it occurs among a list of patterns.
pub struct SymbolIndex {
    slots: HashMap<u32, usize>,
    lists: Vec<Vec<(u32, u32)>>,
}

impl SymbolIndex {
    #[verifier::type_invariant]
    spec fn inv(self) -> bool {
        &&& forall|s: u32| #[trigger] self.slots@.contains_key(s) ==> self.slots@[s] < self.lists@.len()
        &&& forall|s: u32, t: u32|
            #[trigger] self.slots@.contains_key(s) && #[trigger] self.slots@.contains_key(t) && s != t
                ==> self.slots@[s] != self.slots@[t]
    }

    /// The occurrences recorded for `sym`.
    pub closed spec fn lookup(&self, sym: u32) -> Seq<(u32, u32)> {
        if self.slots@.contains_key(sym) && self.slots@[sym] < self.lists@.len() {
            self.lists@[self.slots@[sym] as int]@
        } else {
            Seq::empty()
        }
    }

    /// True if the index records the occurrences of every symbol of `pats`.
    pub open spec fn describes(&self, pats: Seq<Pattern>) -> bool {
        forall|sym: u32| #[trigger] self.lookup(sym) == occurrences(pats, sym, pats.len() as int)
    }

    /// Indexes the symbols of `patterns`.
    pub fn build(patterns: &[Pattern]) -> (r: Self)
        ensures
            r.describes(patterns@),
    {
        let mut slots: HashMap<u32, usize> = HashMap::new();
        let mut lists: Vec<Vec<(u32, u32)>> = Vec::new();
        let ghost pats = patterns@;
        let np = patterns.len();
        let mut oi: usize = 0;
        while oi < np
            invariant
                np == pats.len(),
                pats == patterns@,
                oi <= np,
                forall|s: u32| #[trigger] slots@.contains_key(s) ==> slots@[s] < lists@.len(),
                forall|s: u32, t: u32|
                    #[trigger] slots@.contains_key(s) && #[trigger] slots@.contains_key(t) && s != t
                        ==> slots@[s] != slots@[t],
                forall|sym: u32|
                    (if slots@.contains_key(sym) {
                        lists@[slots@[sym] as int]@
                    } else {
                        Seq::<(u32, u32)>::empty()
                    }) == #[trigger] occurrences(pats, sym, oi as int),
            decreases np - oi,
        {
            let syms = &patterns[oi].symbols;
            let ns = syms.len();
            let mut q: usize = 0;
            while q < ns
                invariant
                    np == pats.len(),
                    pats == patterns@,
                    oi < np,
                    syms@ == pats[oi as int].symbols@,
                    ns == syms@.len(),
                    q <= ns,
                    forall|s: u32| #[trigger] slots@.contains_key(s) ==> slots@[s] < lists@.len(),
                    forall|s: u32, t: u32|
                        #[trigger] slots@.contains_key(s) && #[trigger] slots@.contains_key(t) && s
                            != t ==> slots@[s] != slots@[t],
                    forall|sym: u32|
                        (if slots@.contains_key(sym) {
                            lists@[slots@[sym] as int]@
                        } else {
                            Seq::<(u32, u32)>::empty()
                        }) == #[trigger] occurrences(pats, sym, oi as int).add(
                            occurrences_in(syms@, oi as int, sym, q as int),
                        ),
                decreases ns - q,
            {
                let sym = syms[q].raw_id();
                let entry = (oi as u32, q as u32);
                let ghost before = lists@;
                let ghost slots_before = slots@;
                assert(sym_id(syms@[q as int]) == sym);
                assert forall|x: u32| #[trigger] occurrences_in(syms@, oi as int, x, q as int + 1) == (
                if x == sym {
                    occurrences_in(syms@, oi as int, x, q as int).push(entry)
                } else {
                    occurrences_in(syms@, oi as int, x, q as int)
                }) by {}
                match slots.get(&sym) {
                    Some(slot_ref) => {
                        let slot = *slot_ref;
                        lists[slot].push(entry);
                        assert forall|x: u32| (if slots@.contains_key(x) {
                            lists@[slots@[x] as int]@
                        } else {
                            Seq::<(u32, u32)>::empty()
                        }) == #[trigger] occurrences(pats, x, oi as int).add(
                            occurrences_in(syms@, oi as int, x, q as int + 1),
                        ) by {
                            if x == sym {
                                assert(occurrences(pats, x, oi as int).add(
                                    occurrences_in(syms@, oi as int, x, q as int + 1),
                                ) =~= occurrences(pats, x, oi as int).add(
                                    occurrences_in(syms@, oi as int, x, q as int),
                                ).push(entry));
                            } else if slots@.contains_key(x) {
                                assert(slots@[x] != slot);
                                assert(lists@[slots@[x] as int] == before[slots@[x] as int]);
                            }
                        }
                    },
                    None => {
                        let slot = lists.len();
                        let mut fresh: Vec<(u32, u32)> = Vec::new();
                        fresh.push(entry);
                        lists.push(fresh);
                        slots.insert(sym, slot);
                        assert forall|x: u32| (if slots@.contains_key(x) {
                            lists@[slots@[x] as int]@
                        } else {
                            Seq::<(u32, u32)>::empty()
                        }) == #[trigger] occurrences(pats, x, oi as int).add(
                            occurrences_in(syms@, oi as int, x, q as int + 1),
                        ) by {
                            if x == sym {
                                assert(occurrences(pats, x, oi as int).add(
                                    occurrences_in(syms@, oi as int, x, q as int),
                                ) =~= Seq::<(u32, u32)>::empty());
                                assert(occurrences(pats, x, oi as int).add(
                                    occurrences_in(syms@, oi as int, x, q as int + 1),
                                ) =~= seq![entry]);
                            } else if slots@.contains_key(x) {
                                assert(slots_before.contains_key(x));
                                assert(lists@[slots@[x] as int] == before[slots@[x] as int]);
                            }
                        }
                    },
                }
                q = q + 1;
            }
            proof {
                assert forall|sym: u32| (if slots@.contains_key(sym) {
                    lists@[slots@[sym] as int]@
                } else {
                    Seq::<(u32, u32)>::empty()
                }) == #[trigger] occurrences(pats, sym, oi as int + 1) by {
                    assert(occurrences(pats, sym, oi as int).add(
                        occurrences_in(syms@, oi as int, sym, ns as int),
                    ) == occurrences(pats, sym, oi as int + 1));
                }
            }
            oi = oi + 1;
        }
        let r = SymbolIndex { slots, lists };
        assert forall|sym: u32| #[trigger] r.lookup(sym) == occurrences(pats, sym, pats.len() as int) by {
            if r.slots@.contains_key(sym) {
                assert(r.slots@[sym] < r.lists@.len());
            }
        }
        r
    }

    /// The `(pattern index, position)` pairs at which `sym` occurs.
    pub fn get(&self, sym: u32) -> (r: &[(u32, u32)])
        ensures
            r@ == self.lookup(sym),
    {
        proof {
            use_type_invariant(self);
        }
        match self.slots.get(&sym) {
            Some(slot_ref) => self.lists[*slot_ref].as_slice(),
            None => &[],
        }
    }
}

// ── GrammarLevel ──────────────────────────────────────────────────────────────

/// The patterns of one grammar level with the index used to match them.
pub struct GrammarLevel {
    pub patterns: Vec<Pattern>,
    pub symbol_index: SymbolIndex,
}

impl GrammarLevel {
    /// The index matches the patterns.
    pub open spec fn indexed(&self) -> bool {
        self.symbol_index.describes(self.patterns@)
    }

    pub fn new(patterns: Vec<Pattern>) -> (r: Self)
        ensures
            r.patterns@ == patterns@,
            r.indexed(),
    {
        let symbol_index = SymbolIndex::build(patterns.as_slice());
        GrammarLevel { patterns, symbol_index }
    }

    /// Rebuilds the index after the patterns changed.
    pub fn rebuild_index(&mut self)
        ensures
            final(self).patterns@ == old(self).patterns@,
            final(self).indexed(),
    {
        self.symbol_index = SymbolIndex::build(self.patterns.as_slice());
    }
}

} // verus!
