use vstd::prelude::*;
use std::collections::HashMap;
use crate::intern::{Interner, interned_all, lemma_interned_all_prefix};
use vstd::string::*;
use crate::induce::{contiguous_spans, runs, int_pairs, lemma_runs_from_props, ordered_ranges};

verus! {

broadcast use vstd::std_specs::hash::group_hash_axioms;

/// The role a symbol plays in a pattern.
#[derive(Clone, Copy, Debug, PartialEq, Eq, Structural)]
pub enum SymbolType {
    DataSymbol,
    ContextSymbol,
    LeftBracket,
    RightBracket,
    UniqueIdSymbol,
}

/// Whether a symbol is content, identifies its pattern, or marks a boundary.
#[derive(Clone, Copy, Debug, PartialEq, Eq, Structural)]
pub enum SymbolStatus {
    Contents,
    Identification,
    BoundaryMarker,
}

/// An interned symbol with its annotations.
#[derive(Clone, Copy, Debug, PartialEq, Eq, Structural)]
pub struct Symbol {
    /// Interned id of the symbol's text.
    pub name: u32,
    pub symbol_type: SymbolType,
    pub status: SymbolStatus,
    pub frequency: u32,
    /// Position of the symbol in its pattern.
    pub position: i32,
}

impl Symbol {
    /// A content data symbol seen once, at position 0.
    pub fn new(name: u32) -> (r: Self)
        ensures
            r.name == name,
            r.symbol_type == SymbolType::DataSymbol,
            r.status == SymbolStatus::Contents,
            r.frequency == 1,
            r.position == 0,
    {
        Symbol {
            name,
            symbol_type: SymbolType::DataSymbol,
            status: SymbolStatus::Contents,
            frequency: 1,
            position: 0,
        }
    }

    /// The interned id.
    pub fn raw_id(&self) -> (r: u32)
        ensures
            r == self.name,
    {
        self.name
    }

    /// Two symbols match when they carry the same interned id.
    pub fn matches(&self, other: &Symbol) -> (r: bool)
        ensures
            r == (self.name == other.name),
    {
        self.name == other.name
    }
}

/// A sequence of symbols with an id.
#[derive(Clone, Debug)]
pub struct Pattern {
    pub symbols: Vec<Symbol>,
    pub pattern_id: u32,
    pub frequency: u32,
}

impl Pattern {
    /// A pattern seen once.
    pub fn new(symbols: Vec<Symbol>, pattern_id: u32) -> (r: Self)
        ensures
            r.symbols@ == symbols@,
            r.pattern_id == pattern_id,
            r.frequency == 1,
    {
        Pattern { symbols, pattern_id, frequency: 1 }
    }

    pub fn len(&self) -> (r: usize)
        ensures
            r == self.symbols@.len(),
    {
        self.symbols.len()
    }

    pub fn is_empty(&self) -> (r: bool)
        ensures
            r == (self.symbols@.len() == 0),
    {
        self.symbols.len() == 0
    }

    /// The text of each symbol, in order.
    pub fn get_symbol_names(&self, interner: &Interner) -> (r: Vec<String>)
        requires
            forall|i: int| 0 <= i < self.symbols@.len() ==> (#[trigger] self.symbols@[i]).name
                < interner@.len(),
        ensures
            r@.len() == self.symbols@.len(),
            forall|i: int| 0 <= i < r@.len() ==> (#[trigger] r@[i])@ == interner@[self.symbols@[i].name as int],
    {
        let mut r: Vec<String> = Vec::new();
        let n = self.symbols.len();
        let mut i: usize = 0;
        while i < n
            invariant
                n == self.symbols@.len(),
                i <= n,
                r@.len() == i,
                forall|i: int| 0 <= i < self.symbols@.len() ==> (#[trigger] self.symbols@[i]).name
                    < interner@.len(),
                forall|k: int| 0 <= k < i ==> (#[trigger] r@[k])@ == interner@[self.symbols@[k].name as int],
            decreases n - i,
        {
            let s = interner.name(self.symbols[i].name);
            r.push(s.to_owned());
            i = i + 1;
        }
        r
    }
}

// ── Symbol frequencies ───────────────────────────────────────────────────────

/// The weight of `id` in `syms`: `f` for each occurrence.
pub open spec fn symbol_weight(syms: Seq<Symbol>, id: u32, f: int) -> int
    decreases syms.len(),
{
    if syms.len() == 0 {
        0
    } else {
        symbol_weight(syms.drop_last(), id, f) + if syms.last().name == id {
            f
        } else {
            0
        }
    }
}

/// The weight of `id` over the patterns: each occurrence counts the
/// frequency of its pattern.
pub open spec fn pattern_weight(pats: Seq<Pattern>, id: u32) -> int
    decreases pats.len(),
{
    if pats.len() == 0 {
        0
    } else {
        pattern_weight(pats.drop_last(), id) + symbol_weight(
            pats.last().symbols@,
            id,
            pats.last().frequency as int,
        )
    }
}

/// `id` occurs in some pattern.
pub open spec fn appears(pats: Seq<Pattern>, id: u32) -> bool {
    exists|p: int, q: int|
        0 <= p < pats.len() && 0 <= q < pats[p].symbols@.len() && (#[trigger] pats[p].symbols@[q]).name
            == id
}

/// The value for `k`, or 0 when absent.
pub open spec fn value_or_zero(m: Map<u32, u32>, k: u32) -> int {
    if m.contains_key(k) {
        m[k] as int
    } else {
        0
    }
}

proof fn lemma_symbol_weight_nonneg(syms: Seq<Symbol>, id: u32, f: int)
    requires
        f >= 0,
    ensures
        symbol_weight(syms, id, f) >= 0,
    decreases syms.len(),
{
    if syms.len() > 0 {
        lemma_symbol_weight_nonneg(syms.drop_last(), id, f);
    }
}

proof fn lemma_pattern_weight_nonneg(pats: Seq<Pattern>, id: u32)
    ensures
        0 <= pattern_weight(pats, id),
    decreases pats.len(),
{
    if pats.len() > 0 {
        lemma_pattern_weight_nonneg(pats.drop_last(), id);
        lemma_symbol_weight_nonneg(pats.last().symbols@, id, pats.last().frequency as int);
    }
}

proof fn lemma_pattern_weight_prefix(pats: Seq<Pattern>, k: int, id: u32)
    requires
        0 <= k <= pats.len(),
    ensures
        pattern_weight(pats.take(k), id) <= pattern_weight(pats, id),
        0 <= pattern_weight(pats.take(k), id),
    decreases pats.len() - k,
{
    lemma_pattern_weight_nonneg(pats.take(k), id);
    if k < pats.len() {
        lemma_pattern_weight_prefix(pats, k + 1, id);
        assert(pats.take(k + 1).drop_last() =~= pats.take(k));
        lemma_symbol_weight_nonneg(pats[k].symbols@, id, pats[k].frequency as int);
    } else {
        assert(pats.take(k) =~= pats);
    }
}

proof fn lemma_symbol_weight_prefix(syms: Seq<Symbol>, k: int, id: u32, f: int)
    requires
        0 <= k <= syms.len(),
        f >= 0,
    ensures
        symbol_weight(syms.take(k), id, f) <= symbol_weight(syms, id, f),
    decreases syms.len() - k,
{
    if k < syms.len() {
        lemma_symbol_weight_prefix(syms, k + 1, id, f);
        assert(syms.take(k + 1).drop_last() =~= syms.take(k));
    } else {
        assert(syms.take(k) =~= syms);
    }
}

/// Adds, for every symbol of every pattern, the pattern's frequency to the
/// count of the symbol's id.
pub fn collect_frequencies(freqs: &mut HashMap<u32, u32>, patterns: &[Pattern])
    requires
        forall|id: u32| value_or_zero(old(freqs)@, id) + #[trigger] pattern_weight(patterns@, id) <= u32::MAX,
    ensures
        forall|id: u32| #[trigger] final(freqs)@.contains_key(id) <==> old(freqs)@.contains_key(id) || appears(patterns@, id),
        forall|id: u32| #[trigger] final(freqs)@.contains_key(id) ==> final(freqs)@[id] == value_or_zero(old(freqs)@, id) + pattern_weight(patterns@, id),
{
    let ghost start = freqs@;
    let ghost pats = patterns@;
    let n = patterns.len();
    let mut p: usize = 0;
    assert(pats.take(0) =~= Seq::<Pattern>::empty());
    while p < n
        invariant
            n == pats.len(),
            pats == patterns@,
            p <= n,
            forall|id: u32| value_or_zero(start, id) + #[trigger] pattern_weight(pats, id) <= u32::MAX,
            forall|id: u32| #[trigger] freqs@.contains_key(id) <==> start.contains_key(id) || appears(pats.take(p as int), id),
            forall|id: u32| #[trigger] freqs@.contains_key(id) ==> freqs@[id] == value_or_zero(start, id) + pattern_weight(pats.take(p as int), id),
            forall|id: u32| !(#[trigger] freqs@.contains_key(id)) ==> pattern_weight(pats.take(p as int), id) == 0,
            forall|id: u32| #[trigger] start.contains_key(id) ==> freqs@.contains_key(id),
        decreases n - p,
    {
        let syms = &patterns[p].symbols;
        let f = patterns[p].frequency;
        let ns = syms.len();
        let ghost tp = pats.take(p as int);
        let ghost tp1 = pats.take(p as int + 1);
        assert(tp1.drop_last() =~= tp);
        assert(tp1.last() == pats[p as int]);
        let mut q: usize = 0;
        assert(syms@.take(0) =~= Seq::<Symbol>::empty());
        while q < ns
            invariant
                n == pats.len(),
                pats == patterns@,
                p < n,
                syms@ == pats[p as int].symbols@,
                f == pats[p as int].frequency,
                ns == syms@.len(),
                q <= ns,
                tp == pats.take(p as int),
                tp1 == pats.take(p as int + 1),
                tp1.drop_last() == tp,
                tp1.last() == pats[p as int],
                forall|id: u32| value_or_zero(start, id) + #[trigger] pattern_weight(pats, id) <= u32::MAX,
                forall|id: u32| #[trigger] freqs@.contains_key(id) <==> start.contains_key(id) || appears(tp, id)
                    || exists|k: int| 0 <= k < q && (#[trigger] syms@[k]).name == id,
                forall|id: u32| #[trigger] freqs@.contains_key(id) ==> freqs@[id] == value_or_zero(start, id)
                    + pattern_weight(tp, id) + symbol_weight(syms@.take(q as int), id, f as int),
                forall|id: u32| !(#[trigger] freqs@.contains_key(id)) ==> pattern_weight(tp, id) + symbol_weight(syms@.take(q as int), id, f as int) == 0,
                forall|id: u32| #[trigger] start.contains_key(id) ==> freqs@.contains_key(id),
            decreases ns - q,
        {
            let id = syms[q].name;
            let ghost before = freqs@;
            proof {
                let t1 = syms@.take(q as int + 1);
                assert(t1.drop_last() =~= syms@.take(q as int));
                lemma_symbol_weight_prefix(syms@, q as int + 1, id, f as int);
                lemma_pattern_weight_prefix(pats, p as int + 1, id);
                assert(pattern_weight(tp1, id) == pattern_weight(tp, id) + symbol_weight(syms@, id, f as int));
                assert(symbol_weight(t1, id, f as int) == symbol_weight(syms@.take(q as int), id, f as int) + f);
            }
            let cur = match freqs.get(&id) {
                Some(v) => *v,
                None => 0,
            };
            freqs.insert(id, cur + f);
            proof {
                assert forall|x: u32| #[trigger] freqs@.contains_key(x) ==> freqs@[x] == value_or_zero(start, x)
                    + pattern_weight(tp, x) + symbol_weight(syms@.take(q as int + 1), x, f as int) by {
                    let t1 = syms@.take(q as int + 1);
                    assert(t1.drop_last() =~= syms@.take(q as int));
                }
                assert forall|x: u32| !(#[trigger] freqs@.contains_key(x)) ==> pattern_weight(tp, x) + symbol_weight(syms@.take(q as int + 1), x, f as int) == 0 by {
                    let t1 = syms@.take(q as int + 1);
                    assert(t1.drop_last() =~= syms@.take(q as int));
                }
                assert forall|x: u32| #[trigger] freqs@.contains_key(x) <==> start.contains_key(x) || appears(tp, x)
                    || exists|k: int| 0 <= k < q + 1 && (#[trigger] syms@[k]).name == x by {
                    if x == id {
                        assert(syms@[q as int].name == x);
                    } else if exists|k: int| 0 <= k < q + 1 && (#[trigger] syms@[k]).name == x {
                        let k = choose|k: int| 0 <= k < q + 1 && (#[trigger] syms@[k]).name == x;
                        assert(k < q);
                    }
                }
            }
            q = q + 1;
        }
        proof {
            assert(syms@.take(ns as int) =~= syms@);
            assert forall|id: u32| !(#[trigger] freqs@.contains_key(id)) implies pattern_weight(tp1, id) == 0 by {
                assert(pattern_weight(tp1, id) == pattern_weight(tp, id) + symbol_weight(syms@, id, f as int));
            }
            assert forall|id: u32| #[trigger] freqs@.contains_key(id) implies freqs@[id] == value_or_zero(start, id) + pattern_weight(tp1, id) by {
                assert(pattern_weight(tp1, id) == pattern_weight(tp, id) + symbol_weight(syms@, id, f as int));
            }
            assert forall|id: u32| #[trigger] freqs@.contains_key(id) <==> start.contains_key(id) || appears(tp1, id) by {
                if appears(tp1, id) && !appears(tp, id) {
                    let (a, b) = choose|a: int, b: int| 0 <= a < tp1.len() && 0 <= b < tp1[a].symbols@.len() && (#[trigger] tp1[a].symbols@[b]).name == id;
                    if a < p {
                        assert(tp[a] == tp1[a]);
                    } else {
                        assert(syms@[b].name == id);
                    }
                }
                if appears(tp, id) {
                    let (a, b) = choose|a: int, b: int| 0 <= a < tp.len() && 0 <= b < tp[a].symbols@.len() && (#[trigger] tp[a].symbols@[b]).name == id;
                    assert(tp1[a] == tp[a]);
                }
                if exists|k: int| 0 <= k < ns && (#[trigger] syms@[k]).name == id {
                    let k = choose|k: int| 0 <= k < ns && (#[trigger] syms@[k]).name == id;
                    assert(tp1[p as int].symbols@[k].name == id);
                }
            }
        }
        p = p + 1;
    }
    assert(pats.take(n as int) =~= pats);
}

// ── Learned spans ────────────────────────────────────────────────────────────

/// The patterns learned from the runs that cover at least two symbols, as
/// (symbols, id) pairs numbered from `first`.
pub open spec fn spans_learned(syms: Seq<Symbol>, rs: Seq<(int, int)>, first: int) -> Seq<(Seq<Symbol>, u32)>
    decreases rs.len(),
{
    if rs.len() == 0 {
        Seq::empty()
    } else {
        let prior = spans_learned(syms, rs.drop_last(), first);
        let r = rs.last();
        if r.1 - r.0 >= 2 {
            prior.push((syms.subrange(r.0, r.1), (first + prior.len()) as u32))
        } else {
            prior
        }
    }
}

proof fn lemma_spans_learned_prefix(syms: Seq<Symbol>, rs: Seq<(int, int)>, k: int, first: int)
    requires
        0 <= k <= rs.len(),
    ensures
        spans_learned(syms, rs.take(k), first).len() <= spans_learned(syms, rs, first).len(),
    decreases rs.len() - k,
{
    if k < rs.len() {
        lemma_spans_learned_prefix(syms, rs, k + 1, first);
        assert(rs.take(k + 1).drop_last() =~= rs.take(k));
    } else {
        assert(rs.take(k) =~= rs);
    }
}

/// Every maximal run of covered symbols that is at least two long becomes a
/// pattern, numbered from `*next_id`, which is advanced past them.
pub fn extract_learned_patterns(new_pattern: &Pattern, covered: &[bool], next_id: &mut u32) -> (result:
    Vec<Pattern>)
    requires
        covered@.len() >= new_pattern.symbols@.len(),
        *old(next_id) + spans_learned(
            new_pattern.symbols@,
            runs(covered@.take(new_pattern.symbols@.len() as int)),
            *old(next_id) as int,
        ).len() <= u32::MAX,
    ensures
        result@.map_values(|p: Pattern| (p.symbols@, p.pattern_id)) == spans_learned(
            new_pattern.symbols@,
            runs(covered@.take(new_pattern.symbols@.len() as int)),
            *old(next_id) as int,
        ),
        forall|k: int| 0 <= k < result@.len() ==> (#[trigger] result@[k]).frequency == 1,
        *final(next_id) == *old(next_id) + result@.len(),
{
    let ghost syms = new_pattern.symbols@;
    let ghost first = *next_id as int;
    let n = new_pattern.symbols.len();
    let mut flags: Vec<bool> = Vec::new();
    let mut i: usize = 0;
    while i < n
        invariant
            n == syms.len(),
            n <= covered@.len(),
            i <= n,
            flags@ == covered@.take(i as int),
        decreases n - i,
    {
        flags.push(covered[i]);
        assert(flags@ =~= covered@.take(i as int + 1));
        i = i + 1;
    }
    let ghost c = flags@;
    let spans = contiguous_spans(flags.as_slice());
    let ghost rs = int_pairs(spans@);
    proof {
        lemma_runs_from_props(c, 0);
    }
    let mut result: Vec<Pattern> = Vec::new();
    let ns = spans.len();
    let mut k: usize = 0;
    assert(rs.take(0) =~= Seq::<(int, int)>::empty());
    assert(result@.map_values(|p: Pattern| (p.symbols@, p.pattern_id)) =~= Seq::<(Seq<Symbol>, u32)>::empty());
    while k < ns
        invariant
            ns == spans@.len(),
            rs == int_pairs(spans@),
            rs == runs(c),
            c.len() == syms.len(),
            syms == new_pattern.symbols@,
            ordered_ranges(rs, 0, c.len() as int),
            first + spans_learned(syms, rs, first).len() <= u32::MAX,
            k <= ns,
            result@.map_values(|p: Pattern| (p.symbols@, p.pattern_id)) == spans_learned(syms, rs.take(k as int), first),
            forall|j: int| 0 <= j < result@.len() ==> (#[trigger] result@[j]).frequency == 1,
            *next_id == first + result@.len(),
        decreases ns - k,
    {
        let (s, e) = spans[k];
        assert(rs[k as int] == (s as int, e as int));
        let ghost t = rs.take(k as int + 1);
        assert(t.drop_last() =~= rs.take(k as int));
        assert(t.last() == rs[k as int]);
        if e - s >= 2 {
            proof {
                lemma_spans_learned_prefix(syms, rs, k as int + 1, first);
            }
            let mut symbols: Vec<Symbol> = Vec::new();
            let mut q: usize = s;
            while q < e
                invariant
                    s <= q <= e,
                    e <= syms.len(),
                    syms == new_pattern.symbols@,
                    symbols@ == syms.subrange(s as int, q as int),
                decreases e - q,
            {
                symbols.push(new_pattern.symbols[q]);
                assert(symbols@ =~= syms.subrange(s as int, q as int + 1));
                q = q + 1;
            }
            let pat = Pattern::new(symbols, *next_id);
            *next_id = *next_id + 1;
            let ghost before = result@.map_values(|p: Pattern| (p.symbols@, p.pattern_id));
            result.push(pat);
            assert(result@.map_values(|p: Pattern| (p.symbols@, p.pattern_id)) =~= before.push(
                (pat.symbols@, pat.pattern_id),
            ));
        }
        k = k + 1;
    }
    assert(rs.take(ns as int) =~= rs);
    result
}

// ── Context symbols ──────────────────────────────────────────────────────────

/// Some symbol with id `id` is marked as identifying its pattern.
pub open spec fn identified(pats: Seq<Pattern>, id: u32) -> bool {
    exists|p: int, q: int|
        0 <= p < pats.len() && 0 <= q < pats[p].symbols@.len() && (#[trigger] pats[p].symbols@[q]).name
            == id && pats[p].symbols@[q].status == SymbolStatus::Identification
}

/// `s` made a context symbol when `ctx` holds.
pub open spec fn promoted(s: Symbol, ctx: bool) -> Symbol {
    if ctx {
        Symbol { symbol_type: SymbolType::ContextSymbol, ..s }
    } else {
        s
    }
}

/// The patterns with every symbol promoted when its id is identified in `all`.
pub open spec fn promoted_patterns(before: Seq<Pattern>, after: Seq<Pattern>, all: Seq<Pattern>) -> bool {
    &&& after.len() == before.len()
    &&& forall|p: int|
        0 <= p < before.len() ==> {
            &&& (#[trigger] after[p]).pattern_id == before[p].pattern_id
            &&& after[p].frequency == before[p].frequency
            &&& after[p].symbols@.len() == before[p].symbols@.len()
            &&& forall|q: int|
                0 <= q < before[p].symbols@.len() ==> #[trigger] after[p].symbols@[q] == promoted(
                    before[p].symbols@[q],
                    identified(all, before[p].symbols@[q].name),
                )
        }
}

fn collect_identified(pats: &Vec<Pattern>, ids: &mut Vec<u32>, Ghost(all): Ghost<Seq<Pattern>>, Ghost(offset): Ghost<int>)
    requires
        0 <= offset,
        offset + pats@.len() <= all.len(),
        forall|p: int| 0 <= p < pats@.len() ==> #[trigger] all[offset + p] == pats@[p],
        forall|i: int| 0 <= i < old(ids)@.len() ==> identified(all, #[trigger] old(ids)@[i]),
    ensures
        forall|i: int| 0 <= i < final(ids)@.len() ==> identified(all, #[trigger] final(ids)@[i]),
        forall|id: u32| #[trigger] old(ids)@.contains(id) ==> final(ids)@.contains(id),
        forall|p: int, q: int|
            0 <= p < pats@.len() && 0 <= q < pats@[p].symbols@.len() && (#[trigger] pats@[p].symbols@[q]).status
                == SymbolStatus::Identification ==> final(ids)@.contains(pats@[p].symbols@[q].name),
{
    let n = pats.len();
    let mut p: usize = 0;
    while p < n
        invariant
            n == pats@.len(),
            p <= n,
            0 <= offset,
            offset + pats@.len() <= all.len(),
            forall|p: int| 0 <= p < pats@.len() ==> #[trigger] all[offset + p] == pats@[p],
            forall|i: int| 0 <= i < ids@.len() ==> identified(all, #[trigger] ids@[i]),
            forall|id: u32| #[trigger] old(ids)@.contains(id) ==> ids@.contains(id),
            forall|a: int, q: int|
                0 <= a < p && 0 <= q < pats@[a].symbols@.len() && (#[trigger] pats@[a].symbols@[q]).status
                    == SymbolStatus::Identification ==> ids@.contains(pats@[a].symbols@[q].name),
        decreases n - p,
    {
        let syms = &pats[p].symbols;
        let m = syms.len();
        let mut q: usize = 0;
        while q < m
            invariant
                n == pats@.len(),
                p < n,
                syms@ == pats@[p as int].symbols@,
                m == syms@.len(),
                q <= m,
                0 <= offset,
                offset + pats@.len() <= all.len(),
                forall|p: int| 0 <= p < pats@.len() ==> #[trigger] all[offset + p] == pats@[p],
                forall|i: int| 0 <= i < ids@.len() ==> identified(all, #[trigger] ids@[i]),
                forall|id: u32| #[trigger] old(ids)@.contains(id) ==> ids@.contains(id),
                forall|a: int, q: int|
                    0 <= a < p && 0 <= q < pats@[a].symbols@.len() && (#[trigger] pats@[a].symbols@[q]).status
                        == SymbolStatus::Identification ==> ids@.contains(pats@[a].symbols@[q].name),
                forall|r: int|
                    0 <= r < q && (#[trigger] syms@[r]).status == SymbolStatus::Identification
                        ==> ids@.contains(syms@[r].name),
            decreases m - q,
        {
            let sym = syms[q];
            if sym.status == SymbolStatus::Identification {
                let ghost before = ids@;
                proof {
                    assert(all[offset + p] == pats@[p as int]);
                    assert(all[offset + p].symbols@[q as int] == sym);
                }
                ids.push(sym.name);
                assert forall|id: u32| #[trigger] before.contains(id) implies ids@.contains(id) by {
                    let i = choose|i: int| 0 <= i < before.len() && before[i] == id;
                    assert(ids@[i] == id);
                }
                assert(ids@[before.len() as int] == sym.name);
            }
            q = q + 1;
        }
        p = p + 1;
    }
}

fn promote_all(pats: &mut Vec<Pattern>, ids: &Vec<u32>, Ghost(all): Ghost<Seq<Pattern>>)
    requires
        forall|i: int| 0 <= i < ids@.len() ==> identified(all, #[trigger] ids@[i]),
        forall|id: u32| identified(all, id) ==> ids@.contains(id),
    ensures
        promoted_patterns(old(pats)@, final(pats)@, all),
{
    let ghost before = pats@;
    let n = pats.len();
    let mut p: usize = 0;
    while p < n
        invariant
            n == pats@.len(),
            before.len() == n,
            p <= n,
            forall|i: int| 0 <= i < ids@.len() ==> identified(all, #[trigger] ids@[i]),
            forall|id: u32| identified(all, id) ==> ids@.contains(id),
            forall|a: int| p <= a < n ==> #[trigger] pats@[a] == before[a],
            forall|a: int|
                0 <= a < p ==> {
                    &&& (#[trigger] pats@[a]).pattern_id == before[a].pattern_id
                    &&& pats@[a].frequency == before[a].frequency
                    &&& pats@[a].symbols@.len() == before[a].symbols@.len()
                    &&& forall|q: int|
                        0 <= q < before[a].symbols@.len() ==> #[trigger] pats@[a].symbols@[q] == promoted(
                            before[a].symbols@[q],
                            identified(all, before[a].symbols@[q].name),
                        )
                },
        decreases n - p,
    {
        let m = pats[p].symbols.len();
        let mut syms: Vec<Symbol> = Vec::new();
        let mut q: usize = 0;
        while q < m
            invariant
                n == pats@.len(),
                p < n,
                pats@[p as int] == before[p as int],
                m == before[p as int].symbols@.len(),
                q <= m,
                syms@.len() == q,
                forall|i: int| 0 <= i < ids@.len() ==> identified(all, #[trigger] ids@[i]),
                forall|id: u32| identified(all, id) ==> ids@.contains(id),
                forall|r: int|
                    0 <= r < q ==> #[trigger] syms@[r] == promoted(
                        before[p as int].symbols@[r],
                        identified(all, before[p as int].symbols@[r].name),
                    ),
            decreases m - q,
        {
            let sym = pats[p].symbols[q];
            let mut found = false;
            let mut i: usize = 0;
            while i < ids.len()
                invariant
                    i <= ids@.len(),
                    found == ids@.take(i as int).contains(sym.name),
                decreases ids@.len() - i,
            {
                proof {
                    let a = ids@.take(i as int);
                    let b = ids@.take(i as int + 1);
                    assert(b =~= a.push(ids@[i as int]));
                    if a.contains(sym.name) {
                        let k = choose|k: int| 0 <= k < a.len() && a[k] == sym.name;
                        assert(b[k] == sym.name);
                    }
                    if b.contains(sym.name) && !a.contains(sym.name) {
                        let k = choose|k: int| 0 <= k < b.len() && b[k] == sym.name;
                        assert(k == i);
                    }
                    if ids@[i as int] == sym.name {
                        assert(b[i as int] == sym.name);
                    }
                }
                if ids[i] == sym.name {
                    found = true;
                }
                i = i + 1;
            }
            assert(ids@.take(ids@.len() as int) =~= ids@);
            proof {
                if found {
                    let k = choose|k: int| 0 <= k < ids@.len() && ids@[k] == sym.name;
                    assert(identified(all, ids@[k]));
                }
            }
            let mut out = sym;
            if found {
                out.symbol_type = SymbolType::ContextSymbol;
            }
            syms.push(out);
            q = q + 1;
        }
        let ghost pb = pats@;
        let id = pats[p].pattern_id;
        let freq = pats[p].frequency;
        let newpat = Pattern { symbols: syms, pattern_id: id, frequency: freq };
        pats.set(p, newpat);
        assert forall|a: int| p + 1 <= a < n implies #[trigger] pats@[a] == before[a] by {
            assert(pats@[a] == pb[a]);
        }
        assert forall|a: int| 0 <= a < p implies #[trigger] pats@[a] == pb[a] by {}
        p = p + 1;
    }
}

/// Promotes to context symbols every symbol whose id is marked as
/// identification somewhere in either list of patterns.
pub fn assign_symbol_types(old_patterns: &mut Vec<Pattern>, new_patterns: &mut Vec<Pattern>)
    ensures
        promoted_patterns(old(old_patterns)@, final(old_patterns)@, old(old_patterns)@.add(old(new_patterns)@)),
        promoted_patterns(old(new_patterns)@, final(new_patterns)@, old(old_patterns)@.add(old(new_patterns)@)),
{
    let ghost all = old_patterns@.add(new_patterns@);
    let mut ids: Vec<u32> = Vec::new();
    collect_identified(old_patterns, &mut ids, Ghost(all), Ghost(0));
    collect_identified(new_patterns, &mut ids, Ghost(all), Ghost(old_patterns@.len() as int));
    assert forall|id: u32| identified(all, id) implies ids@.contains(id) by {
        let (p, q) = choose|p: int, q: int|
            0 <= p < all.len() && 0 <= q < all[p].symbols@.len() && (#[trigger] all[p].symbols@[q]).name == id
                && all[p].symbols@[q].status == SymbolStatus::Identification;
        if p < old_patterns@.len() {
            assert(old_patterns@[p].symbols@[q] == all[p].symbols@[q]);
        } else {
            let r = p - old_patterns@.len();
            assert(all[old_patterns@.len() + r] == new_patterns@[r]);
            assert(new_patterns@[r].symbols@[q] == all[p].symbols@[q]);
        }
    }
    promote_all(old_patterns, &ids, Ghost(all));
    promote_all(new_patterns, &ids, Ghost(all));
}

// ── Alignment table of the legacy engine ─────────────────────────────────────

/// The first of `rows` that holds `id`, if any.
pub open spec fn first_holder(rows: Seq<Seq<u32>>, id: u32) -> Option<usize>
    decreases rows.len(),
{
    if rows.len() == 0 {
        None
    } else {
        let prior = first_holder(rows.drop_last(), id);
        if prior is Some {
            prior
        } else if rows.last().contains(id) {
            Some((rows.len() - 1) as usize)
        } else {
            None
        }
    }
}

proof fn lemma_first_holder(rows: Seq<Seq<u32>>, id: u32, r: int)
    requires
        0 <= r < rows.len(),
        rows.len() <= usize::MAX,
        rows[r].contains(id),
        forall|q: int| 0 <= q < r ==> !(#[trigger] rows[q]).contains(id),
    ensures
        first_holder(rows, id) == Some(r as usize),
    decreases rows.len(),
{
    if r < rows.len() - 1 {
        lemma_first_holder(rows.drop_last(), id, r);
        assert(rows.drop_last()[r] == rows[r]);
    } else {
        lemma_first_holder_none(rows.drop_last(), id);
    }
}

proof fn lemma_first_holder_none(rows: Seq<Seq<u32>>, id: u32)
    requires
        forall|q: int| 0 <= q < rows.len() ==> !(#[trigger] rows[q]).contains(id),
    ensures
        first_holder(rows, id) is None,
    decreases rows.len(),
{
    if rows.len() > 0 {
        assert forall|q: int| 0 <= q < rows.len() - 1 implies !(#[trigger] rows.drop_last()[q]).contains(id) by {
            assert(rows.drop_last()[q] == rows[q]);
        }
        lemma_first_holder_none(rows.drop_last(), id);
        assert(!rows[rows.len() - 1].contains(id));
    }
}

/// The row each position of an alignment table is shown in: a covered
/// position goes to the first row whose symbols hold its id, an uncovered
/// one to none.
pub fn table_assignment(new_ids: &[u32], covered: &[bool], rows: &[Vec<u32>]) -> (r: Vec<Option<usize>>)
    requires
        covered@.len() == new_ids@.len(),
    ensures
        r@.len() == new_ids@.len(),
        forall|p: int|
            0 <= p < r@.len() ==> #[trigger] r@[p] == if covered@[p] {
                first_holder(rows@.map_values(|v: Vec<u32>| v@), new_ids@[p])
            } else {
                None
            },
{
    let ghost rv = rows@.map_values(|v: Vec<u32>| v@);
    let nr = rows.len();
    let n = new_ids.len();
    let mut r: Vec<Option<usize>> = Vec::new();
    let mut p: usize = 0;
    while p < n
        invariant
            n == new_ids@.len(),
            n == covered@.len(),
            nr == rows@.len(),
            rv == rows@.map_values(|v: Vec<u32>| v@),
            p <= n,
            r@.len() == p,
            forall|x: int|
                0 <= x < p ==> #[trigger] r@[x] == if covered@[x] {
                    first_holder(rv, new_ids@[x])
                } else {
                    None
                },
        decreases n - p,
    {
        let mut found: Option<usize> = None;
        if covered[p] {
            let id = new_ids[p];
            let mut q: usize = 0;
            while q < nr
                invariant
                    nr == rows@.len(),
                    rv == rows@.map_values(|v: Vec<u32>| v@),
                    q <= nr,
                    found is None ==> forall|x: int| 0 <= x < q ==> !(#[trigger] rv[x]).contains(id),
                    found is Some ==> found == first_holder(rv, id),
                decreases nr - q,
            {
                if found.is_none() {
                    let row = &rows[q];
                    let mut hit = false;
                    let mut k: usize = 0;
                    while k < row.len()
                        invariant
                            k <= row@.len(),
                            !hit ==> forall|x: int| 0 <= x < k ==> row@[x] != id,
                            hit ==> row@.contains(id),
                        decreases row@.len() - k,
                    {
                        if row[k] == id {
                            hit = true;
                        }
                        k = k + 1;
                    }
                    assert(rv[q as int] == row@);
                    if hit {
                        proof {
                            lemma_first_holder(rv, id, q as int);
                        }
                        found = Some(q);
                    }
                }
                q = q + 1;
            }
            proof {
                if found is None {
                    lemma_first_holder_none(rv, id);
                }
            }
        }
        r.push(found);
        p = p + 1;
    }
    r
}

// ── Input lines ──────────────────────────────────────────────────────────────

/// The text interned for a token, with the type and status it gives its
/// symbol: `<` and `>` are boundary brackets, a token starting with `#` is a
/// unique id, a token starting with `!` is an identifying data symbol named
/// by the rest of the token, anything else is a content data symbol.
pub open spec fn token_class(t: Seq<char>) -> (Seq<char>, SymbolType, SymbolStatus) {
    if t == seq!['<'] {
        (t, SymbolType::LeftBracket, SymbolStatus::BoundaryMarker)
    } else if t == seq!['>'] {
        (t, SymbolType::RightBracket, SymbolStatus::BoundaryMarker)
    } else if t.len() > 0 && t[0] == '#' {
        (t, SymbolType::UniqueIdSymbol, SymbolStatus::Identification)
    } else if t.len() > 0 && t[0] == '!' {
        (t.drop_first(), SymbolType::DataSymbol, SymbolStatus::Identification)
    } else {
        (t, SymbolType::DataSymbol, SymbolStatus::Contents)
    }
}

/// Classifies an input token (see `token_class`).
pub fn classify_token(token: &str) -> (r: (&str, SymbolType, SymbolStatus))
    ensures
        (r.0@, r.1, r.2) == token_class(token@),
{
    let n = token.unicode_len();
    if n == 0 {
        return (token, SymbolType::DataSymbol, SymbolStatus::Contents);
    }
    let c = token.get_char(0);
    if n == 1 && c == '<' {
        assert(token@ =~= seq!['<']);
        (token, SymbolType::LeftBracket, SymbolStatus::BoundaryMarker)
    } else if n == 1 && c == '>' {
        assert(token@ =~= seq!['>']);
        (token, SymbolType::RightBracket, SymbolStatus::BoundaryMarker)
    } else if c == '#' {
        (token, SymbolType::UniqueIdSymbol, SymbolStatus::Identification)
    } else if c == '!' {
        let rest = token.substring_char(1, n);
        assert(rest@ =~= token@.drop_first());
        (rest, SymbolType::DataSymbol, SymbolStatus::Identification)
    } else {
        assert(token@ != seq!['<']);
        assert(token@ != seq!['>']);
        (token, SymbolType::DataSymbol, SymbolStatus::Contents)
    }
}

/// The names the tokens are interned under.
pub open spec fn canonical_names(toks: Seq<&str>) -> Seq<Seq<char>> {
    toks.map_values(|t: &str| token_class(t@).0)
}

/// Turns the tokens of an input line into a pattern with id `pattern_id`:
/// each token is classified, its name interned, and its symbol placed at
/// its position in the line.
pub fn input_pattern(interner: &mut Interner, tokens: &[&str], pattern_id: u32) -> (r: Pattern)
    requires
        interned_all(old(interner)@, canonical_names(tokens@)).len() <= u32::MAX,
    ensures
        final(interner)@ == interned_all(old(interner)@, canonical_names(tokens@)),
        r.pattern_id == pattern_id,
        r.frequency == 1,
        r.symbols@.len() == tokens@.len(),
        forall|i: int|
            0 <= i < tokens@.len() ==> {
                let c = token_class(tokens@[i]@);
                &&& (#[trigger] r.symbols@[i]).name < final(interner)@.len()
                &&& final(interner)@[r.symbols@[i].name as int] == c.0
                &&& r.symbols@[i].symbol_type == c.1
                &&& r.symbols@[i].status == c.2
                &&& r.symbols@[i].frequency == 1
                &&& r.symbols@[i].position == i as i32
            },
{
    let ghost start = interner@;
    let ghost names = canonical_names(tokens@);
    let mut symbols: Vec<Symbol> = Vec::new();
    let n = tokens.len();
    let mut i: usize = 0;
    assert(names.take(0) =~= Seq::<Seq<char>>::empty());
    while i < n
        invariant
            n == tokens@.len(),
            names == canonical_names(tokens@),
            i <= n,
            interned_all(start, names).len() <= u32::MAX,
            interner@ == interned_all(start, names.take(i as int)),
            symbols@.len() == i,
            forall|k: int|
                0 <= k < i ==> {
                    let c = token_class(tokens@[k]@);
                    &&& (#[trigger] symbols@[k]).name < interner@.len()
                    &&& interner@[symbols@[k].name as int] == c.0
                    &&& symbols@[k].symbol_type == c.1
                    &&& symbols@[k].status == c.2
                    &&& symbols@[k].frequency == 1
                    &&& symbols@[k].position == k as i32
                },
        decreases n - i,
    {
        let (canonical, st, ss) = classify_token(tokens[i]);
        let ghost before = interner@;
        proof {
            let t = names.take(i as int + 1);
            assert(t.drop_last() =~= names.take(i as int));
            assert(names[i as int] == canonical@);
            lemma_take_prefix_len(start, names, i as int + 1);
        }
        let id = interner.intern(canonical);
        proof {
            assert(interner@ == interned_all(start, names.take(i as int + 1)));
            lemma_interned_all_prefix(before, seq![canonical@]);
            assert(seq![canonical@].drop_last() =~= Seq::<Seq<char>>::empty());
        }
        let mut sym = Symbol::new(id);
        sym.symbol_type = st;
        sym.status = ss;
        sym.position = #[verifier::truncate] (i as i32);
        symbols.push(sym);
        proof {
            assert forall|k: int| 0 <= k < i + 1 implies {
                let c = token_class(tokens@[k]@);
                &&& (#[trigger] symbols@[k]).name < interner@.len()
                &&& interner@[symbols@[k].name as int] == c.0
                &&& symbols@[k].symbol_type == c.1
                &&& symbols@[k].status == c.2
                &&& symbols@[k].frequency == 1
                &&& symbols@[k].position == k as i32
            } by {
                if k < i {
                    assert(before[symbols@[k].name as int] == interner@[symbols@[k].name as int]);
                }
            }
        }
        i = i + 1;
    }
    assert(names.take(n as int) =~= names);
    Pattern::new(symbols, pattern_id)
}

proof fn lemma_take_prefix_len(names: Seq<Seq<char>>, toks: Seq<Seq<char>>, i: int)
    requires
        0 <= i <= toks.len(),
    ensures
        interned_all(names, toks.take(i)).len() <= interned_all(names, toks).len(),
    decreases toks.len() - i,
{
    if i < toks.len() {
        lemma_take_prefix_len(names, toks, i + 1);
        let t = toks.take(i + 1);
        assert(t.drop_last() =~= toks.take(i));
    } else {
        assert(toks.take(i) =~= toks);
    }
}

} // verus!
