use vstd::prelude::*;
use crate::model::{GapConstraint, GrammarLevel, Pattern, SymbolRef};

verus! {

// ── Atoms no pattern refers to ───────────────────────────────────────────────

/// Some symbol of the pattern is the atom `a`.
pub open spec fn pattern_uses_atom(p: Pattern, a: int) -> bool {
    exists|k: int| 0 <= k < p.symbols@.len() && #[trigger] p.symbols@[k] == SymbolRef::Atom(a as u32)
}

/// Some pattern of the level refers to the atom `a`.
pub open spec fn level_uses_atom(l: GrammarLevel, a: int) -> bool {
    exists|p: int| 0 <= p < l.patterns@.len() && pattern_uses_atom(#[trigger] l.patterns@[p], a)
}

/// Some pattern of the grammar refers to the atom `a`.
pub open spec fn grammar_uses_atom(levels: Seq<GrammarLevel>, a: int) -> bool {
    exists|l: int| 0 <= l < levels.len() && level_uses_atom(#[trigger] levels[l], a)
}

/// Marks the atoms the pattern refers to.
fn mark_pattern_atoms(covered: &mut Vec<bool>, pat: &Pattern)
    requires
        old(covered)@.len() <= u32::MAX + 1,
    ensures
        final(covered)@.len() == old(covered)@.len(),
        forall|a: int|
            0 <= a < final(covered)@.len() ==> (#[trigger] final(covered)@[a]) == (old(covered)@[a]
                || pattern_uses_atom(*pat, a)),
{
    let n = pat.symbols.len();
    let mut k: usize = 0;
    while k < n
        invariant
            n == pat.symbols@.len(),
            k <= n,
            covered@.len() == old(covered)@.len(),
            covered@.len() <= u32::MAX + 1,
            forall|a: int|
                0 <= a < covered@.len() ==> (#[trigger] covered@[a]) == (old(covered)@[a] || exists|j: int|
                    0 <= j < k && pat.symbols@[j] == SymbolRef::Atom(a as u32)),
        decreases n - k,
    {
        let ghost before = covered@;
        match pat.symbols[k] {
            SymbolRef::Atom(id) => {
                if (id as usize) < covered.len() {
                    covered.set(id as usize, true);
                }
            },
            SymbolRef::Pattern(_) => {},
        }
        assert forall|a: int| 0 <= a < covered@.len() implies (#[trigger] covered@[a]) == (old(covered)@[a]
            || exists|j: int| 0 <= j < k + 1 && pat.symbols@[j] == SymbolRef::Atom(a as u32)) by {
            if pat.symbols@[k as int] == SymbolRef::Atom(a as u32) {
                assert(0 <= k < k + 1);
            }
            if exists|j: int| 0 <= j < k + 1 && pat.symbols@[j] == SymbolRef::Atom(a as u32) {
                let j = choose|j: int| 0 <= j < k + 1 && pat.symbols@[j] == SymbolRef::Atom(a as u32);
                if j == k {
                    assert((a as u32) as int == a);
                } else {
                    assert(before[a]);
                }
            }
        }
        k = k + 1;
    }
    assert forall|a: int| 0 <= a < covered@.len() implies (#[trigger] covered@[a]) == (old(covered)@[a]
        || pattern_uses_atom(*pat, a)) by {
        if pattern_uses_atom(*pat, a) {
            let j = choose|j: int| 0 <= j < pat.symbols@.len() && #[trigger] pat.symbols@[j] == SymbolRef::Atom(a as u32);
            assert(0 <= j < n);
        }
    }
}

/// The atoms below `n_atoms` that no pattern of the grammar refers to, in
/// increasing order.
pub fn uncovered_atoms(levels: &[GrammarLevel], n_atoms: usize) -> (r: Vec<usize>)
    requires
        n_atoms <= u32::MAX + 1,
    ensures
        forall|i: int, j: int| 0 <= i < j < r@.len() ==> r@[i] < r@[j],
        forall|i: int| 0 <= i < r@.len() ==> (#[trigger] r@[i]) < n_atoms && !grammar_uses_atom(levels@, r@[i] as int),
        forall|a: int| 0 <= a < n_atoms && !grammar_uses_atom(levels@, a) ==> r@.contains(a as usize),
{
    let mut covered: Vec<bool> = Vec::new();
    let mut a: usize = 0;
    while a < n_atoms
        invariant
            a <= n_atoms,
            covered@.len() == a,
            forall|x: int| 0 <= x < a ==> !(#[trigger] covered@[x]),
        decreases n_atoms - a,
    {
        covered.push(false);
        a = a + 1;
    }
    let nl = levels.len();
    let mut l: usize = 0;
    while l < nl
        invariant
            nl == levels@.len(),
            l <= nl,
            n_atoms <= u32::MAX + 1,
            covered@.len() == n_atoms,
            forall|x: int|
                0 <= x < n_atoms ==> (#[trigger] covered@[x]) == exists|m: int|
                    0 <= m < l && level_uses_atom(#[trigger] levels@[m], x),
        decreases nl - l,
    {
        let ghost before_level = covered@;
        let pats = &levels[l].patterns;
        let np = pats.len();
        let mut p: usize = 0;
        while p < np
            invariant
                pats@ == levels@[l as int].patterns@,
                np == pats@.len(),
                p <= np,
                n_atoms <= u32::MAX + 1,
                covered@.len() == n_atoms,
                forall|x: int|
                    0 <= x < n_atoms ==> (#[trigger] covered@[x]) == (before_level[x] || exists|q: int|
                        0 <= q < p && pattern_uses_atom(#[trigger] pats@[q], x)),
            decreases np - p,
        {
            let ghost before = covered@;
            mark_pattern_atoms(&mut covered, &pats[p]);
            assert forall|x: int| 0 <= x < n_atoms implies (#[trigger] covered@[x]) == (before_level[x]
                || exists|q: int| 0 <= q < p + 1 && pattern_uses_atom(#[trigger] pats@[q], x)) by {
                if exists|q: int| 0 <= q < p + 1 && pattern_uses_atom(#[trigger] pats@[q], x) {
                    let q = choose|q: int| 0 <= q < p + 1 && pattern_uses_atom(#[trigger] pats@[q], x);
                    if q < p {
                        assert(before[x]);
                    }
                }
            }
            p = p + 1;
        }
        assert forall|x: int| 0 <= x < n_atoms implies (#[trigger] covered@[x]) == exists|m: int|
            0 <= m < l + 1 && level_uses_atom(#[trigger] levels@[m], x) by {
            if covered@[x] && !before_level[x] {
                let q = choose|q: int| 0 <= q < np && pattern_uses_atom(#[trigger] pats@[q], x);
                assert(level_uses_atom(levels@[l as int], x));
            }
            if exists|m: int| 0 <= m < l + 1 && level_uses_atom(#[trigger] levels@[m], x) {
                let m = choose|m: int| 0 <= m < l + 1 && level_uses_atom(#[trigger] levels@[m], x);
                if m == l {
                    let q = choose|q: int|
                        0 <= q < levels@[m].patterns@.len() && pattern_uses_atom(#[trigger] levels@[m].patterns@[q], x);
                    assert(pattern_uses_atom(pats@[q], x));
                } else {
                    assert(before_level[x]);
                }
            }
        }
        l = l + 1;
    }
    let mut r: Vec<usize> = Vec::new();
    let mut i: usize = 0;
    while i < n_atoms
        invariant
            i <= n_atoms,
            covered@.len() == n_atoms,
            forall|x: int| 0 <= x < n_atoms ==> (#[trigger] covered@[x]) == grammar_uses_atom(levels@, x),
            forall|x: int, y: int| 0 <= x < y < r@.len() ==> r@[x] < r@[y],
            forall|x: int| 0 <= x < r@.len() ==> (#[trigger] r@[x]) < i && !grammar_uses_atom(levels@, r@[x] as int),
            forall|x: int| 0 <= x < i && !grammar_uses_atom(levels@, x) ==> r@.contains(x as usize),
        decreases n_atoms - i,
    {
        let ghost before = r@;
        if !covered[i] {
            r.push(i);
            assert(r@[r@.len() - 1] == i);
        }
        assert forall|x: int| 0 <= x < i + 1 && !grammar_uses_atom(levels@, x) implies r@.contains(x as usize) by {
            if x == i {
                assert(!covered@[x]);
                assert(r@[r@.len() - 1] == i);
            } else {
                assert(before.contains(x as usize));
                let k = choose|k: int| 0 <= k < before.len() && before[k] == x as usize;
                assert(r@[k] == before[k]);
            }
        }
        i = i + 1;
    }
    r
}

// ── Per-level figures ────────────────────────────────────────────────────────

/// How many of the patterns carry gap constraints.
pub open spec fn gapped_count(pats: Seq<Pattern>) -> nat
    decreases pats.len(),
{
    if pats.len() == 0 {
        0
    } else {
        gapped_count(pats.drop_last()) + if pats.last().gaps@.len() > 0 {
            1nat
        } else {
            0nat
        }
    }
}

/// The sum of the patterns' frequencies.
pub open spec fn frequency_sum(pats: Seq<Pattern>) -> nat
    decreases pats.len(),
{
    if pats.len() == 0 {
        0
    } else {
        frequency_sum(pats.drop_last()) + pats.last().frequency as nat
    }
}

/// The number of gap patterns among `patterns`.
pub fn gap_pattern_count(patterns: &[Pattern]) -> (r: usize)
    ensures
        r == gapped_count(patterns@),
{
    let n = patterns.len();
    let mut c: usize = 0;
    let mut i: usize = 0;
    while i < n
        invariant
            n == patterns@.len(),
            i <= n,
            c == gapped_count(patterns@.take(i as int)),
            c <= i,
        decreases n - i,
    {
        assert(patterns@.take(i as int + 1).drop_last() =~= patterns@.take(i as int));
        if patterns[i].gaps.len() > 0 {
            c = c + 1;
        }
        i = i + 1;
    }
    assert(patterns@.take(n as int) =~= patterns@);
    c
}

proof fn lemma_frequency_sum_prefix(pats: Seq<Pattern>, i: int)
    requires
        0 <= i <= pats.len(),
    ensures
        frequency_sum(pats.take(i)) <= frequency_sum(pats),
    decreases pats.len() - i,
{
    if i < pats.len() {
        lemma_frequency_sum_prefix(pats, i + 1);
        assert(pats.take(i + 1).drop_last() =~= pats.take(i));
    } else {
        assert(pats.take(i) =~= pats);
    }
}

/// The sum of the frequencies of `patterns`.
pub fn total_frequency(patterns: &[Pattern]) -> (r: u64)
    requires
        frequency_sum(patterns@) <= u64::MAX,
    ensures
        r == frequency_sum(patterns@),
{
    let n = patterns.len();
    let mut s: u64 = 0;
    let mut i: usize = 0;
    while i < n
        invariant
            n == patterns@.len(),
            i <= n,
            frequency_sum(patterns@) <= u64::MAX,
            s == frequency_sum(patterns@.take(i as int)),
        decreases n - i,
    {
        assert(patterns@.take(i as int + 1).drop_last() =~= patterns@.take(i as int));
        proof {
            lemma_frequency_sum_prefix(patterns@, i as int + 1);
        }
        s = s + patterns[i].frequency as u64;
        i = i + 1;
    }
    assert(patterns@.take(n as int) =~= patterns@);
    s
}

/// The levels to show: only `filter` when one is given, else all
/// `n_levels` levels in order.
pub fn levels_to_show(filter: Option<usize>, n_levels: usize) -> (r: Vec<usize>)
    ensures
        filter is Some ==> r@ == seq![filter->0],
        filter is None ==> r@.len() == n_levels && forall|i: int| 0 <= i < n_levels ==> r@[i] == i,
{
    let mut r: Vec<usize> = Vec::new();
    match filter {
        Some(l) => {
            r.push(l);
            assert(r@ =~= seq![l]);
        },
        None => {
            let mut i: usize = 0;
            while i < n_levels
                invariant
                    i <= n_levels,
                    r@.len() == i,
                    forall|k: int| 0 <= k < i ==> r@[k] == k,
                decreases n_levels - i,
            {
                r.push(i);
                i = i + 1;
            }
        },
    }
    r
}

// ── How adjacent symbols are joined ──────────────────────────────────────────

/// What lies between two adjacent symbols of a pattern when it is shown.
#[derive(Clone, Copy, Debug, PartialEq, Eq, Structural)]
pub enum Link {
    /// The next symbol follows directly.
    Adjacent,
    /// Between `min` and `max` positions may be skipped.
    Gap { min: usize, max: usize },
}

/// The link a gap constraint (or its absence) is shown as.
pub open spec fn link_of(g: Option<GapConstraint>) -> Link {
    match g {
        Some(c) => if c.min == 0 && c.max == 0 {
            Link::Adjacent
        } else {
            Link::Gap { min: c.min, max: c.max }
        },
        None => Link::Adjacent,
    }
}

/// A link hides no constraint: it is shown as direct exactly when the
/// constraint allows no skipped position (or there is none), and otherwise
/// carries the constraint's own bounds; in particular every constraint that
/// allows skipping (`max > 0`) is shown as a gap.
pub proof fn law_link_shows_constraint(g: GapConstraint)
    ensures
        (link_of(Some(g)) == Link::Adjacent) <==> (g.min == 0 && g.max == 0),
        g.max > 0 ==> link_of(Some(g)) == (Link::Gap { min: g.min, max: g.max }),
        link_of(Some(g)) != Link::Adjacent ==> link_of(Some(g)) == (Link::Gap { min: g.min, max: g.max }),
        link_of(None) == Link::Adjacent,
{
}

/// How symbol `i` of the pattern joins symbol `i + 1`: a constraint that
/// allows no skip, or none at all, is shown as a direct link.
pub fn link_after(pat: &Pattern, i: usize) -> (r: Link)
    ensures
        i < pat.gaps@.len() ==> r == link_of(Some(pat.gaps@[i as int])),
        i >= pat.gaps@.len() ==> r == Link::Adjacent,
{
    match pat.gap_between(i) {
        Some(g) => {
            if g.min == 0 && g.max == 0 {
                Link::Adjacent
            } else {
                Link::Gap { min: g.min, max: g.max }
            }
        },
        None => Link::Adjacent,
    }
}

} // verus!
