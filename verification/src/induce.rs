use vstd::prelude::*;
use crate::model::{GapConstraint, Pattern, SymbolRef, gaps_fit};

verus! {

// ── Runs of covered positions ────────────────────────────────────────────────

/// The first position at or after `s` that is not covered (or the length).
pub open spec fn run_end(c: Seq<bool>, s: int) -> int
    decreases c.len() - s,
{
    if s < 0 || s >= c.len() || !c[s] {
        s
    } else {
        run_end(c, s + 1)
    }
}

/// The maximal runs of covered positions at or after `i`, left to right, as
/// half-open ranges `[start, end)`.
pub open spec fn runs_from(c: Seq<bool>, i: int) -> Seq<(int, int)>
    decreases c.len() - i,
{
    if i < 0 || i >= c.len() {
        Seq::empty()
    } else if !c[i] {
        runs_from(c, i + 1)
    } else {
        let e = run_end(c, i + 1);
        proof {
            lemma_run_end_props(c, i + 1);
        }
        if e <= i {
            Seq::empty()
        } else {
            seq![(i, e)].add(runs_from(c, e))
        }
    }
}

/// The maximal runs of covered positions of `c`.
pub open spec fn runs(c: Seq<bool>) -> Seq<(int, int)> {
    runs_from(c, 0)
}

/// A list of `usize` ranges seen as integer ranges.
pub open spec fn int_pairs(v: Seq<(usize, usize)>) -> Seq<(int, int)> {
    v.map_values(|p: (usize, usize)| (p.0 as int, p.1 as int))
}

/// A run ends at the first uncovered position at or after its start.
pub proof fn lemma_run_end_props(c: Seq<bool>, s: int)
    requires
        0 <= s <= c.len(),
    ensures
        s <= run_end(c, s) <= c.len(),
        forall|j: int| s <= j < run_end(c, s) ==> c[j],
        run_end(c, s) == c.len() || !c[run_end(c, s)],
    decreases c.len() - s,
{
    if s < c.len() && c[s] {
        lemma_run_end_props(c, s + 1);
    }
}

proof fn lemma_runs_from_step(c: Seq<bool>, i: int)
    requires
        0 <= i < c.len(),
        c[i],
    ensures
        runs_from(c, i) == seq![(i, run_end(c, i + 1))].add(runs_from(c, run_end(c, i + 1))),
{
    lemma_run_end_props(c, i + 1);
}

/// What remains to be emitted at position `i`, given the run started at
/// `start` (if any) and not yet closed.
spec fn pending(c: Seq<bool>, start: Option<usize>, i: int) -> Seq<(int, int)> {
    match start {
        None => runs_from(c, i),
        Some(s) => seq![(s as int, run_end(c, i))].add(runs_from(c, run_end(c, i))),
    }
}

/// The maximal runs of `true` in `covered`, left to right, as half-open
/// `(start, end)` ranges.
pub fn contiguous_spans(covered: &[bool]) -> (spans: Vec<(usize, usize)>)
    ensures
        int_pairs(spans@) == runs(covered@),
{
    let mut spans: Vec<(usize, usize)> = Vec::new();
    let mut start: Option<usize> = None;
    let n = covered.len();
    let ghost c = covered@;
    let mut i: usize = 0;
    while i < n
        invariant
            n == c.len(),
            c == covered@,
            i <= n,
            int_pairs(spans@).add(pending(c, start, i as int)) == runs(c),
            match start {
                None => true,
                Some(s) => s < i && (forall|j: int| s <= j < i ==> c[j]),
            },
        decreases n - i,
    {
        let ghost before = int_pairs(spans@);
        proof {
            lemma_run_end_props(c, i as int);
            lemma_run_end_props(c, i as int + 1);
        }
        if covered[i] {
            match start {
                None => {
                    proof {
                        lemma_runs_from_step(c, i as int);
                    }
                    start = Some(i);
                },
                Some(_) => {},
            }
        } else {
            match start {
                Some(s) => {
                    spans.push((s, i));
                    assert(int_pairs(spans@) =~= before.push((s as int, i as int)));
                    start = None;
                    assert(runs_from(c, i as int) == runs_from(c, i as int + 1));
                    assert(int_pairs(spans@).add(pending(c, start, i as int + 1)) =~= before.add(
                        seq![(s as int, i as int)].add(runs_from(c, i as int)),
                    ));
                },
                None => {},
            }
        }
        i = i + 1;
    }
    proof {
        lemma_run_end_props(c, n as int);
    }
    match start {
        Some(s) => {
            let ghost before = int_pairs(spans@);
            spans.push((s, n));
            assert(int_pairs(spans@) =~= before.push((s as int, n as int)));
            assert(before.add(pending(c, Some(s), n as int)) =~= int_pairs(spans@));
        },
        None => {
            assert(int_pairs(spans@).add(pending(c, start, n as int)) =~= int_pairs(spans@));
        },
    }
    spans
}

// ── Grouping runs that lie close together ────────────────────────────────────

/// `a - b`, or 0 when `b > a`.
pub open spec fn sat_sub(a: int, b: int) -> int {
    if a >= b {
        a - b
    } else {
        0
    }
}

/// Splits `sp` into maximal blocks of consecutive ranges in which each range
/// starts at most `max_gap` positions after the previous one ends.
pub open spec fn group_spans(sp: Seq<(int, int)>, max_gap: int) -> Seq<Seq<(int, int)>>
    decreases sp.len(),
{
    if sp.len() == 0 {
        Seq::empty()
    } else if sp.len() == 1 {
        seq![seq![sp[0]]]
    } else {
        let gs = group_spans(sp.drop_last(), max_gap);
        let last = sp.last();
        let prev = sp[sp.len() - 2];
        if gs.len() > 0 && sat_sub(last.0, prev.1) <= max_gap {
            gs.update(gs.len() - 1, gs.last().push(last))
        } else {
            gs.push(seq![last])
        }
    }
}

/// A list of groups of `usize` ranges seen as groups of integer ranges.
pub open spec fn int_groups(v: Seq<Vec<(usize, usize)>>) -> Seq<Seq<(int, int)>> {
    v.map_values(|g: Vec<(usize, usize)>| int_pairs(g@))
}

/// Grouping a non-empty list yields at least one group.
pub proof fn lemma_group_spans_nonempty(sp: Seq<(int, int)>, max_gap: int)
    requires
        sp.len() > 0,
    ensures
        group_spans(sp, max_gap).len() > 0,
    decreases sp.len(),
{
    if sp.len() > 1 {
        lemma_group_spans_nonempty(sp.drop_last(), max_gap);
    }
}

/// Groups consecutive spans whose gap (start minus previous end, saturating)
/// is at most `max_gap`.
pub fn merge_close_spans(spans: Vec<(usize, usize)>, max_gap: usize) -> (groups: Vec<
    Vec<(usize, usize)>,
>)
    ensures
        int_groups(groups@) == group_spans(int_pairs(spans@), max_gap as int),
{
    let ghost sp = int_pairs(spans@);
    let n = spans.len();
    if n == 0 {
        let groups: Vec<Vec<(usize, usize)>> = Vec::new();
        assert(int_groups(groups@) =~= Seq::<Seq<(int, int)>>::empty());
        return groups;
    }
    let mut groups: Vec<Vec<(usize, usize)>> = Vec::new();
    let mut current: Vec<(usize, usize)> = Vec::new();
    current.push(spans[0]);
    assert(sp.take(1) =~= seq![sp[0]]);
    assert(int_pairs(current@) =~= seq![sp[0]]);
    assert(int_groups(groups@).push(int_pairs(current@)) =~= group_spans(sp.take(1), max_gap as int));
    let mut k: usize = 1;
    while k < n
        invariant
            n == spans@.len(),
            sp == int_pairs(spans@),
            1 <= k <= n,
            current@.len() >= 1,
            current@.last() == spans@[k - 1],
            int_groups(groups@).push(int_pairs(current@)) == group_spans(sp.take(k as int), max_gap as int),
        decreases n - k,
    {
        let span = spans[k];
        let prev_end = current[current.len() - 1].1;
        let gap = if span.0 >= prev_end {
            span.0 - prev_end
        } else {
            0
        };
        let ghost gs_before = int_groups(groups@);
        let ghost cur_before = int_pairs(current@);
        let ghost t = sp.take(k as int + 1);
        assert(t.drop_last() =~= sp.take(k as int));
        assert(t.last() == sp[k as int]);
        assert(t[t.len() - 2] == sp[k - 1]);
        proof {
            lemma_group_spans_nonempty(sp.take(k as int), max_gap as int);
        }
        if gap <= max_gap {
            current.push(span);
            assert(int_pairs(current@) =~= cur_before.push(sp[k as int]));
            assert(int_groups(groups@).push(int_pairs(current@)) =~= gs_before.push(cur_before).update(
                gs_before.len() as int,
                cur_before.push(sp[k as int]),
            ));
        } else {
            groups.push(current);
            assert(int_groups(groups@) =~= gs_before.push(cur_before));
            current = Vec::new();
            current.push(span);
            assert(int_pairs(current@) =~= seq![sp[k as int]]);
        }
        k = k + 1;
    }
    assert(sp.take(n as int) =~= sp);
    let ghost gs_before = int_groups(groups@);
    let ghost cur_before = int_pairs(current@);
    groups.push(current);
    assert(int_groups(groups@) =~= gs_before.push(cur_before));
    groups
}

// ── Learned patterns from covered positions ─────────────────────────────────

/// Every range is non-empty, lies in `[lo, hi)`, and ends before the next
/// one starts.
pub open spec fn ordered_ranges(sp: Seq<(int, int)>, lo: int, hi: int) -> bool {
    &&& forall|k: int| 0 <= k < sp.len() ==> lo <= #[trigger] sp[k].0 < sp[k].1 <= hi
    &&& forall|a: int, b: int| 0 <= a < b < sp.len() ==> #[trigger] sp[a].1 < #[trigger] sp[b].0
}

/// Every position inside the ranges is covered.
pub open spec fn ranges_covered(sp: Seq<(int, int)>, c: Seq<bool>) -> bool {
    forall|k: int, j: int| #![trigger sp[k], c[j]] 0 <= k < sp.len() && sp[k].0 <= j < sp[k].1 ==> c[j]
}

/// The runs are ordered, disjoint, and covered.
pub proof fn lemma_runs_from_props(c: Seq<bool>, i: int)
    requires
        0 <= i <= c.len(),
    ensures
        ordered_ranges(runs_from(c, i), i, c.len() as int),
        ranges_covered(runs_from(c, i), c),
    decreases c.len() - i,
{
    if i < c.len() {
        if !c[i] {
            lemma_runs_from_props(c, i + 1);
        } else {
            lemma_run_end_props(c, i + 1);
            let e = run_end(c, i + 1);
            lemma_runs_from_props(c, e);
            let rest = runs_from(c, e);
            let r = runs_from(c, i);
            assert(r == seq![(i, e)].add(rest));
            if e < c.len() {
                assert(!c[e]);
                assert(runs_from(c, e) == runs_from(c, e + 1));
                lemma_runs_from_props(c, e + 1);
            }
            assert forall|k: int| 0 <= k < r.len() implies i <= #[trigger] r[k].0 < r[k].1
                <= c.len() by {
                if k > 0 {
                    assert(r[k] == rest[k - 1]);
                }
            }
            assert forall|a: int, b: int| 0 <= a < b < r.len() implies #[trigger] r[a].1
                < #[trigger] r[b].0 by {
                assert(r[b] == rest[b - 1]);
                if a > 0 {
                    assert(r[a] == rest[a - 1]);
                } else {
                    if e < c.len() {
                        assert(e + 1 <= rest[b - 1].0);
                    }
                }
            }
            assert forall|k: int, j: int| #![trigger r[k], c[j]] 0 <= k < r.len() && r[k].0 <= j < r[k].1
                implies c[j] by {
                if k > 0 {
                    assert(r[k] == rest[k - 1]);
                }
            }
        }
    }
}

proof fn lemma_runs_from_exact(c: Seq<bool>, i: int)
    requires
        0 <= i <= c.len(),
    ensures
        forall|j: int| i <= j < c.len() && c[j] ==> exists|k: int|
            0 <= k < runs_from(c, i).len() && #[trigger] runs_from(c, i)[k].0 <= j < runs_from(c, i)[k].1,
        forall|k: int|
            0 <= k < runs_from(c, i).len() ==> (#[trigger] runs_from(c, i)[k]).1 == c.len() || !c[runs_from(c, i)[k].1],
        forall|k: int|
            0 <= k < runs_from(c, i).len() ==> (#[trigger] runs_from(c, i)[k]).0 == i || !c[runs_from(c, i)[k].0 - 1],
    decreases c.len() - i,
{
    let r = runs_from(c, i);
    if i < c.len() {
        if !c[i] {
            lemma_runs_from_exact(c, i + 1);
            lemma_runs_from_props(c, i + 1);
            let r1 = runs_from(c, i + 1);
            assert(r == r1);
            assert forall|k: int| 0 <= k < r.len() implies (#[trigger] r[k]).0 == i || !c[r[k].0 - 1] by {
                if r[k].0 != i + 1 {
                } else {
                    assert(!c[i]);
                }
            }
        } else {
            lemma_run_end_props(c, i + 1);
            let e = run_end(c, i + 1);
            let rest = runs_from(c, e);
            assert(r == seq![(i, e)].add(rest));
            lemma_runs_from_exact(c, e);
            lemma_runs_from_props(c, e);
            if e < c.len() {
                assert(!c[e]);
                assert(rest == runs_from(c, e + 1));
                lemma_runs_from_props(c, e + 1);
            }
            assert forall|j: int| i <= j < c.len() && c[j] implies exists|k: int|
                0 <= k < r.len() && #[trigger] r[k].0 <= j < r[k].1 by {
                if j < e {
                    assert(r[0].0 <= j < r[0].1);
                } else {
                    let k = choose|k: int| 0 <= k < rest.len() && #[trigger] rest[k].0 <= j < rest[k].1;
                    assert(r[k + 1] == rest[k]);
                }
            }
            assert forall|k: int| 0 <= k < r.len() implies (#[trigger] r[k]).1 == c.len() || !c[r[k].1] by {
                if k > 0 {
                    assert(r[k] == rest[k - 1]);
                }
            }
            assert forall|k: int| 0 <= k < r.len() implies (#[trigger] r[k]).0 == i || !c[r[k].0 - 1] by {
                if k > 0 {
                    assert(r[k] == rest[k - 1]);
                    if rest[k - 1].0 == e {
                        assert(e < c.len());
                        assert(rest == runs_from(c, e + 1));
                        assert(rest[k - 1].0 >= e + 1);
                    }
                }
            }
        }
    }
}

/// The runs of a coverage vector are exactly its maximal blocks of covered
/// positions: every covered position lies in a run, and each run is bounded
/// by uncovered positions or the ends of the vector.
pub proof fn law_runs_are_maximal(c: Seq<bool>)
    ensures
        forall|j: int| 0 <= j < c.len() && c[j] ==> exists|k: int|
            0 <= k < runs(c).len() && #[trigger] runs(c)[k].0 <= j < runs(c)[k].1,
        forall|k: int| 0 <= k < runs(c).len() ==> (#[trigger] runs(c)[k]).1 == c.len() || !c[runs(c)[k].1],
        forall|k: int| 0 <= k < runs(c).len() ==> (#[trigger] runs(c)[k]).0 == 0 || !c[runs(c)[k].0 - 1],
        ordered_ranges(runs(c), 0, c.len() as int),
        ranges_covered(runs(c), c),
{
    lemma_runs_from_exact(c, 0);
    lemma_runs_from_props(c, 0);
    assert forall|j: int| 0 <= j < c.len() && c[j] implies exists|k: int|
        0 <= k < runs(c).len() && #[trigger] runs(c)[k].0 <= j < runs(c)[k].1 by {
        let k = choose|k: int| 0 <= k < runs_from(c, 0).len() && #[trigger] runs_from(c, 0)[k].0 <= j < runs_from(c, 0)[k].1;
        assert(runs(c)[k] == runs_from(c, 0)[k]);
    }
}

/// Each group of ordered, covered ranges is a non-empty run of ordered,
/// covered ranges.
pub proof fn lemma_group_spans_props(sp: Seq<(int, int)>, max_gap: int, lo: int, hi: int, c: Seq<bool>)
    requires
        ordered_ranges(sp, lo, hi),
        ranges_covered(sp, c),
    ensures
        forall|g: int|
            0 <= g < group_spans(sp, max_gap).len() ==> {
                &&& #[trigger] group_spans(sp, max_gap)[g].len() > 0
                &&& ordered_ranges(group_spans(sp, max_gap)[g], lo, hi)
                &&& ranges_covered(group_spans(sp, max_gap)[g], c)
            },
    decreases sp.len(),
{
    if sp.len() > 1 {
        let d = sp.drop_last();
        assert(ordered_ranges(d, lo, hi)) by {
            assert forall|k: int| 0 <= k < d.len() implies lo <= #[trigger] d[k].0 < d[k].1 <= hi by {
                assert(d[k] == sp[k]);
            }
            assert forall|a: int, b: int| 0 <= a < b < d.len() implies #[trigger] d[a].1
                < #[trigger] d[b].0 by {
                assert(d[a] == sp[a]);
                assert(d[b] == sp[b]);
            }
        }
        assert(ranges_covered(d, c)) by {
            assert forall|k: int, j: int| #![trigger d[k], c[j]] 0 <= k < d.len() && d[k].0 <= j < d[k].1
                implies c[j] by {
                assert(d[k] == sp[k]);
            }
        }
        lemma_group_spans_props(d, max_gap, lo, hi, c);
        lemma_group_spans_nonempty(d, max_gap);
        lemma_group_spans_last(d, max_gap);
        let gs = group_spans(d, max_gap);
        let last = sp.last();
        let prev = sp[sp.len() - 2];
        let r = group_spans(sp, max_gap);
        if sat_sub(last.0, prev.1) <= max_gap {
            let lg = gs.last();
            let ng = lg.push(last);
            assert(lg.last() == prev);
            assert forall|k: int| 0 <= k < ng.len() implies lo <= #[trigger] ng[k].0 < ng[k].1
                <= hi by {
                if k < lg.len() {
                    assert(ng[k] == lg[k]);
                }
            }
            assert forall|a: int, b: int| 0 <= a < b < ng.len() implies #[trigger] ng[a].1
                < #[trigger] ng[b].0 by {
                assert(ng[a] == lg[a]);
                if b < lg.len() {
                    assert(ng[b] == lg[b]);
                } else {
                    assert(lg[a].1 <= lg[lg.len() - 1].1);
                    assert(sp[sp.len() - 2].1 < sp[sp.len() - 1].0);
                }
            }
            assert forall|k: int, j: int| #![trigger ng[k], c[j]] 0 <= k < ng.len() && ng[k].0 <= j < ng[k].1
                implies c[j] by {
                if k < lg.len() {
                    assert(ng[k] == lg[k]);
                } else {
                    assert(ng[k] == sp[sp.len() - 1]);
                }
            }
            assert forall|g: int| 0 <= g < r.len() implies {
                &&& #[trigger] r[g].len() > 0
                &&& ordered_ranges(r[g], lo, hi)
                &&& ranges_covered(r[g], c)
            } by {
                if g < gs.len() - 1 {
                    assert(r[g] == gs[g]);
                } else {
                    assert(r[g] == ng);
                }
            }
        } else {
            let ng = seq![last];
            assert(ng[0] == sp[sp.len() - 1]);
            assert forall|k: int, j: int| #![trigger ng[k], c[j]] 0 <= k < ng.len() && ng[k].0 <= j < ng[k].1
                implies c[j] by {
                assert(ng[k] == sp[sp.len() - 1]);
            }
            assert forall|g: int| 0 <= g < r.len() implies {
                &&& #[trigger] r[g].len() > 0
                &&& ordered_ranges(r[g], lo, hi)
                &&& ranges_covered(r[g], c)
            } by {
                if g < gs.len() {
                    assert(r[g] == gs[g]);
                } else {
                    assert(r[g] == ng);
                }
            }
        }
    } else if sp.len() == 1 {
        let r = group_spans(sp, max_gap);
        assert(r[0] =~= sp);
    }
}

/// The last group ends with the last range, and groups are non-empty.
pub proof fn lemma_group_spans_last(sp: Seq<(int, int)>, max_gap: int)
    requires
        sp.len() > 0,
    ensures
        group_spans(sp, max_gap).len() > 0,
        group_spans(sp, max_gap).last().len() > 0,
        group_spans(sp, max_gap).last().last() == sp.last(),
        forall|g: int|
            0 <= g < group_spans(sp, max_gap).len() ==> #[trigger] group_spans(sp, max_gap)[g].len()
                > 0,
    decreases sp.len(),
{
    if sp.len() > 1 {
        lemma_group_spans_last(sp.drop_last(), max_gap);
        let gs = group_spans(sp.drop_last(), max_gap);
        let r = group_spans(sp, max_gap);
        assert forall|g: int| 0 <= g < r.len() implies #[trigger] r[g].len() > 0 by {
            if g < gs.len() {
                if g < gs.len() - 1 {
                    assert(r[g] == gs[g]);
                }
            }
        }
    }
}

/// The number of positions the ranges cover together.
pub open spec fn span_total(g: Seq<(int, int)>) -> int
    decreases g.len(),
{
    if g.len() == 0 {
        0
    } else {
        span_total(g.drop_last()) + (g.last().1 - g.last().0)
    }
}

/// The symbols of `syms` inside the ranges of `g`, in order.
pub open spec fn group_symbols(syms: Seq<SymbolRef>, g: Seq<(int, int)>) -> Seq<SymbolRef>
    decreases g.len(),
{
    if g.len() == 0 {
        Seq::empty()
    } else {
        group_symbols(syms, g.drop_last()).add(syms.subrange(g.last().0, g.last().1))
    }
}

/// `n` constraints that allow no gap.
pub open spec fn adjacent_gaps(n: int) -> Seq<GapConstraint> {
    Seq::new(if n > 0 { n as nat } else { 0 }, |i: int| GapConstraint { min: 0, max: 0 })
}

/// The gap constraints of a pattern spanning the ranges of `g`: no gap inside
/// a range, and between two ranges any gap up to the distance between them.
pub open spec fn group_gaps(g: Seq<(int, int)>) -> Seq<GapConstraint>
    decreases g.len(),
{
    if g.len() == 0 {
        Seq::empty()
    } else if g.len() == 1 {
        adjacent_gaps(g[0].1 - g[0].0 - 1)
    } else {
        group_gaps(g.drop_last()).push(
            GapConstraint { min: 0, max: (g.last().0 - g[g.len() - 2].1) as usize },
        ).add(adjacent_gaps(g.last().1 - g.last().0 - 1))
    }
}

/// A pattern as plain values: id, symbols, gaps, frequency, level.
pub type PatternShape = (u32, Seq<SymbolRef>, Seq<GapConstraint>, u32, u8);

/// The plain values of a pattern.
pub open spec fn shape(p: Pattern) -> PatternShape {
    (p.id, p.symbols@, p.gaps@, p.frequency, p.level)
}

/// The pattern learned from one group: a contiguous pattern for a single
/// range, a gap pattern for several.
pub open spec fn group_pattern(syms: Seq<SymbolRef>, g: Seq<(int, int)>, id: u32, level: u8) -> PatternShape {
    if g.len() == 1 {
        (id, syms.subrange(g[0].0, g[0].1), Seq::empty(), 1, level)
    } else {
        (id, group_symbols(syms, g), group_gaps(g), 1, level)
    }
}

/// The patterns learned from the groups that cover at least two positions,
/// numbered consecutively from `first_id`.
pub open spec fn learned_patterns(
    syms: Seq<SymbolRef>,
    groups: Seq<Seq<(int, int)>>,
    first_id: int,
    level: u8,
) -> Seq<PatternShape>
    decreases groups.len(),
{
    if groups.len() == 0 {
        Seq::empty()
    } else {
        let prior = learned_patterns(syms, groups.drop_last(), first_id, level);
        let g = groups.last();
        if span_total(g) < 2 {
            prior
        } else {
            prior.push(group_pattern(syms, g, (first_id + prior.len()) as u32, level))
        }
    }
}

/// The source positions of the symbols of a group, range by range.
pub open spec fn group_positions(g: Seq<(int, int)>) -> Seq<int>
    decreases g.len(),
{
    if g.len() == 0 {
        Seq::empty()
    } else {
        group_positions(g.drop_last()) + Seq::new(
            if g.last().1 > g.last().0 { (g.last().1 - g.last().0) as nat } else { 0 },
            |t: int| g.last().0 + t,
        )
    }
}

/// Non-empty ranges in increasing order, within the `usize` range.
pub open spec fn increasing_ranges(g: Seq<(int, int)>) -> bool {
    &&& forall|k: int| 0 <= k < g.len() ==> 0 <= (#[trigger] g[k]).0 < g[k].1 <= usize::MAX
    &&& forall|k: int| 0 < k < g.len() ==> g[k - 1].1 <= (#[trigger] g[k]).0
}

proof fn lemma_group_gaps_fit(g: Seq<(int, int)>)
    requires
        g.len() > 0,
        increasing_ranges(g),
    ensures
        group_positions(g).len() == group_gaps(g).len() + 1,
        group_positions(g).len() > 0,
        group_positions(g).last() == g.last().1 - 1,
        group_positions(g)[0] == g[0].0,
        forall|x: int| 0 <= x < group_gaps(g).len() ==> (#[trigger] group_gaps(g)[x]).min == 0,
        forall|x: int|
            0 <= x < group_gaps(g).len() ==> (#[trigger] group_gaps(g)[x]).max == group_positions(g)[x + 1]
                - group_positions(g)[x] - 1,
        forall|x: int, y: int| 0 <= x < y < group_positions(g).len() ==> group_positions(g)[x] < group_positions(g)[y],
    decreases g.len(),
{
    let pos = group_positions(g);
    let l = g.last();
    let run = Seq::new((l.1 - l.0) as nat, |t: int| l.0 + t);
    assert(pos == group_positions(g.drop_last()) + run);
    if g.len() == 1 {
        assert(group_positions(g.drop_last()) =~= Seq::<int>::empty());
        assert(pos =~= run);
        let gg = group_gaps(g);
        assert(gg == adjacent_gaps(g[0].1 - g[0].0 - 1));
    } else {
        let d = g.drop_last();
        assert forall|k: int| 0 <= k < d.len() implies 0 <= (#[trigger] d[k]).0 < d[k].1 <= usize::MAX by {
            assert(d[k] == g[k]);
        }
        assert forall|k: int| 0 < k < d.len() implies d[k - 1].1 <= (#[trigger] d[k]).0 by {
            assert(d[k] == g[k]);
            assert(d[k - 1] == g[k - 1]);
        }
        lemma_group_gaps_fit(d);
        let pd = group_positions(d);
        let gd = group_gaps(d);
        let cross = GapConstraint { min: 0, max: (l.0 - g[g.len() - 2].1) as usize };
        let gg = group_gaps(g);
        assert(gg == gd.push(cross).add(adjacent_gaps(l.1 - l.0 - 1)));
        assert(g[g.len() - 2] == d.last());
        assert(0 <= l.0 - d.last().1 <= usize::MAX);
        assert forall|x: int| 0 <= x < gg.len() implies (#[trigger] gg[x]).min == 0 && gg[x].max == pos[x + 1]
            - pos[x] - 1 by {
            if x < gd.len() {
                assert(gg[x] == gd[x]);
                assert(pos[x] == pd[x]);
                assert(pos[x + 1] == pd[x + 1]);
            } else if x == gd.len() {
                assert(gg[x] == cross);
                assert(pos[x] == pd.last());
                assert(pos[x + 1] == run[0]);
            } else {
                assert(gg[x] == adjacent_gaps(l.1 - l.0 - 1)[x - gd.len() - 1]);
                assert(pos[x] == run[x - pd.len()]);
                assert(pos[x + 1] == run[x + 1 - pd.len()]);
            }
        }
        assert forall|x: int, y: int| 0 <= x < y < pos.len() implies pos[x] < pos[y] by {
            if y < pd.len() {
                assert(pos[x] == pd[x]);
                assert(pos[y] == pd[y]);
            } else if x < pd.len() {
                assert(pos[x] == pd[x]);
                assert(pd[x] <= pd.last()) by {
                    if x < pd.len() - 1 {
                        assert(pd[x] < pd[pd.len() - 1]);
                    }
                }
                assert(pos[y] == run[y - pd.len()]);
            } else {
                assert(pos[x] == run[x - pd.len()]);
                assert(pos[y] == run[y - pd.len()]);
            }
        }
        assert(pos[0] == pd[0]);
    }
}

proof fn lemma_group_symbols_at(syms: Seq<SymbolRef>, g: Seq<(int, int)>)
    requires
        increasing_ranges(g),
        forall|k: int| 0 <= k < g.len() ==> (#[trigger] g[k]).1 <= syms.len(),
    ensures
        group_symbols(syms, g).len() == group_positions(g).len(),
        forall|x: int| 0 <= x < group_positions(g).len() ==> #[trigger] group_symbols(syms, g)[x] == syms[group_positions(g)[x]],
    decreases g.len(),
{
    if g.len() > 0 {
        let d = g.drop_last();
        assert forall|k: int| 0 <= k < d.len() implies 0 <= (#[trigger] d[k]).0 < d[k].1 <= usize::MAX by {
            assert(d[k] == g[k]);
        }
        assert forall|k: int| 0 < k < d.len() implies d[k - 1].1 <= (#[trigger] d[k]).0 by {
            assert(d[k] == g[k]);
            assert(d[k - 1] == g[k - 1]);
        }
        assert forall|k: int| 0 <= k < d.len() implies (#[trigger] d[k]).1 <= syms.len() by {
            assert(d[k] == g[k]);
        }
        lemma_group_symbols_at(syms, d);
        let l = g.last();
        assert(0 <= l.0 < l.1 <= syms.len());
        let pos = group_positions(g);
        let gs = group_symbols(syms, g);
        let pd = group_positions(d);
        assert forall|x: int| 0 <= x < pos.len() implies #[trigger] gs[x] == syms[pos[x]] by {
            if x < pd.len() {
                assert(gs[x] == group_symbols(syms, d)[x]);
                assert(pos[x] == pd[x]);
            } else {
                assert(gs[x] == syms.subrange(l.0, l.1)[x - pd.len()]);
                assert(pos[x] == l.0 + (x - pd.len()));
            }
        }
    }
}

/// A gap pattern learned from several covered runs lists the symbols found
/// at increasing source positions, and the constraint between two
/// neighbouring symbols allows any skip from none up to exactly the number
/// of positions that lie between them in the source: no skip inside a run,
/// and up to the distance between two runs across them.
pub proof fn law_learned_gaps_fit_source(syms: Seq<SymbolRef>, g: Seq<(int, int)>, id: u32, level: u8)
    requires
        g.len() >= 2,
        increasing_ranges(g),
        forall|k: int| 0 <= k < g.len() ==> (#[trigger] g[k]).1 <= syms.len(),
    ensures
        ({
            let p = group_pattern(syms, g, id, level);
            let pos = group_positions(g);
            &&& p.1.len() == pos.len()
            &&& p.2.len() + 1 == pos.len()
            &&& forall|x: int| 0 <= x < pos.len() ==> #[trigger] p.1[x] == syms[pos[x]]
            &&& forall|x: int, y: int| 0 <= x < y < pos.len() ==> pos[x] < pos[y]
            &&& forall|x: int| 0 <= x < p.2.len() ==> (#[trigger] p.2[x]).min == 0
            &&& forall|x: int| 0 <= x < p.2.len() ==> (#[trigger] p.2[x]).max == pos[x + 1] - pos[x] - 1
        }),
{
    lemma_group_gaps_fit(g);
    lemma_group_symbols_at(syms, g);
}

proof fn lemma_learned_from_groups(syms: Seq<SymbolRef>, groups: Seq<Seq<(int, int)>>, first: int, level: u8)
    ensures
        forall|x: int|
            0 <= x < learned_patterns(syms, groups, first, level).len() ==> exists|k: int|
                0 <= k < groups.len() && #[trigger] learned_patterns(syms, groups, first, level)[x] == group_pattern(
                    syms,
                    groups[k],
                    (first + x) as u32,
                    level,
                ),
    decreases groups.len(),
{
    if groups.len() > 0 {
        let d = groups.drop_last();
        lemma_learned_from_groups(syms, d, first, level);
        let prior = learned_patterns(syms, d, first, level);
        let lp = learned_patterns(syms, groups, first, level);
        assert forall|x: int| 0 <= x < lp.len() implies exists|k: int|
            0 <= k < groups.len() && #[trigger] lp[x] == group_pattern(syms, groups[k], (first + x) as u32, level) by {
            if x < prior.len() {
                assert(lp[x] == prior[x]);
                let k = choose|k: int| 0 <= k < d.len() && #[trigger] prior[x] == group_pattern(syms, d[k], (first + x) as u32, level);
                assert(groups[k] == d[k]);
            } else {
                assert(lp[x] == group_pattern(syms, groups.last(), (first + prior.len()) as u32, level));
                assert(groups[groups.len() - 1] == groups.last());
            }
        }
    }
}

/// Every pattern learned from a coverage vector (see
/// `extract_learned_patterns`) allows any skip from none up to the number of
/// source positions between each two neighbouring symbols: every constraint
/// has minimum 0, and its maximum is that distance, where the symbols sit at
/// the increasing positions of one group of covered runs.
pub proof fn law_extracted_patterns_fit_source(syms: Seq<SymbolRef>, covered: Seq<bool>, max_gap: usize, first: int, level: u8)
    requires
        covered.len() <= syms.len(),
        covered.len() <= usize::MAX,
    ensures
        forall|x: int|
            0 <= x < learned_patterns(syms, covered_groups(covered, max_gap), first, level).len() ==> exists|k: int|
                0 <= k < covered_groups(covered, max_gap).len() && increasing_ranges(covered_groups(covered, max_gap)[k])
                    && #[trigger] learned_patterns(syms, covered_groups(covered, max_gap), first, level)[x]
                    == group_pattern(syms, covered_groups(covered, max_gap)[k], (first + x) as u32, level),
        forall|x: int, y: int|
            0 <= x < learned_patterns(syms, covered_groups(covered, max_gap), first, level).len() && 0 <= y
                < learned_patterns(syms, covered_groups(covered, max_gap), first, level)[x].2.len() ==> (#[trigger] learned_patterns(
                syms,
                covered_groups(covered, max_gap),
                first,
                level,
            )[x].2[y]).min == 0,
{
    let gs = covered_groups(covered, max_gap);
    let lp = learned_patterns(syms, gs, first, level);
    lemma_groups_of_runs(covered, max_gap);
    lemma_learned_from_groups(syms, gs, first, level);
    assert forall|k: int| 0 <= k < gs.len() implies increasing_ranges(#[trigger] gs[k]) by {
        let g = gs[k];
        assert(ordered_ranges(g, 0, covered.len() as int));
        assert forall|a: int| 0 < a < g.len() implies g[a - 1].1 <= (#[trigger] g[a]).0 by {
            assert(g[a - 1].1 < g[a].0);
        }
    }
    assert forall|x: int, y: int| 0 <= x < lp.len() && 0 <= y < lp[x].2.len() implies (#[trigger] lp[x].2[y]).min == 0 by {
        let k = choose|k: int| 0 <= k < gs.len() && #[trigger] lp[x] == group_pattern(syms, gs[k], (first + x) as u32, level);
        let g = gs[k];
        assert(increasing_ranges(g));
        if g.len() >= 2 {
            assert forall|a: int| 0 <= a < g.len() implies (#[trigger] g[a]).1 <= syms.len() by {
                assert(ordered_ranges(g, 0, covered.len() as int));
            }
            law_learned_gaps_fit_source(syms, g, (first + x) as u32, level);
        }
    }
    assert forall|x: int| 0 <= x < lp.len() implies exists|k: int|
        0 <= k < gs.len() && increasing_ranges(gs[k]) && #[trigger] lp[x] == group_pattern(syms, gs[k], (first + x) as u32, level) by {
        let k = choose|k: int| 0 <= k < gs.len() && #[trigger] lp[x] == group_pattern(syms, gs[k], (first + x) as u32, level);
        assert(increasing_ranges(gs[k]));
    }
}

/// The groups of covered runs that `covered` yields with `max_gap`.
pub open spec fn covered_groups(covered: Seq<bool>, max_gap: usize) -> Seq<Seq<(int, int)>> {
    group_spans(runs(covered), max_gap as int)
}

/// Ordered ranges within `[lo, hi)` cover at most `hi - lo` positions.
pub proof fn lemma_span_total_bound(g: Seq<(int, int)>, lo: int, hi: int)
    requires
        ordered_ranges(g, lo, hi),
        g.len() > 0,
    ensures
        0 < span_total(g) <= hi - lo,
        span_total(g) <= g.last().1 - lo,
    decreases g.len(),
{
    if g.len() > 1 {
        let d = g.drop_last();
        assert(ordered_ranges(d, lo, hi)) by {
            assert forall|k: int| 0 <= k < d.len() implies lo <= #[trigger] d[k].0 < d[k].1 <= hi by {
                assert(d[k] == g[k]);
            }
            assert forall|a: int, b: int| 0 <= a < b < d.len() implies #[trigger] d[a].1
                < #[trigger] d[b].0 by {
                assert(d[a] == g[a]);
                assert(d[b] == g[b]);
            }
        }
        lemma_span_total_bound(d, lo, hi);
        assert(d.last() == g[g.len() - 2]);
        assert(g[g.len() - 2].1 < g[g.len() - 1].0);
        assert(lo <= g[g.len() - 1].0 < g[g.len() - 1].1 <= hi);
    } else {
        assert(span_total(g.drop_last()) == 0);
        assert(lo <= g[0].0 < g[0].1 <= hi);
    }
}

/// Every group covers at least one position, so each group covers at least
/// one more position than the one before it ends.
proof fn lemma_groups_of_runs(covered: Seq<bool>, max_gap: usize)
    ensures
        forall|g: int|
            0 <= g < covered_groups(covered, max_gap).len() ==> {
                &&& #[trigger] covered_groups(covered, max_gap)[g].len() > 0
                &&& ordered_ranges(covered_groups(covered, max_gap)[g], 0, covered.len() as int)
                &&& ranges_covered(covered_groups(covered, max_gap)[g], covered)
            },
{
    lemma_runs_from_props(covered, 0);
    lemma_group_spans_props(runs(covered), max_gap as int, 0, covered.len() as int, covered);
}

/// A prefix of the groups yields no more patterns than all of them.
pub proof fn lemma_learned_prefix_len(
    syms: Seq<SymbolRef>,
    gs: Seq<Seq<(int, int)>>,
    k: int,
    first: int,
    level: u8,
)
    requires
        0 <= k <= gs.len(),
    ensures
        learned_patterns(syms, gs.take(k), first, level).len() <= learned_patterns(
            syms,
            gs,
            first,
            level,
        ).len(),
    decreases gs.len() - k,
{
    if k < gs.len() {
        lemma_learned_prefix_len(syms, gs, k + 1, first, level);
        let t = gs.take(k + 1);
        assert(t.drop_last() =~= gs.take(k));
    } else {
        assert(gs.take(k) =~= gs);
    }
}

/// A group of non-empty ranges inside `syms` yields as many symbols as it
/// covers positions, and one gap constraint fewer.
pub proof fn lemma_group_sizes(syms: Seq<SymbolRef>, g: Seq<(int, int)>)
    requires
        g.len() > 0,
        forall|k: int| 0 <= k < g.len() ==> 0 <= #[trigger] g[k].0 < g[k].1 <= syms.len(),
    ensures
        group_symbols(syms, g).len() == span_total(g),
        group_gaps(g).len() + 1 == span_total(g),
    decreases g.len(),
{
    if g.len() > 1 {
        let d = g.drop_last();
        assert forall|k: int| 0 <= k < d.len() implies 0 <= #[trigger] d[k].0 < d[k].1 <= syms.len() by {
            assert(d[k] == g[k]);
        }
        lemma_group_sizes(syms, d);
        assert(0 <= g[g.len() - 1].0 < g[g.len() - 1].1 <= syms.len());
        assert(d.last() == g[g.len() - 2]);
    } else {
        assert(span_total(g.drop_last()) == 0);
        assert(group_symbols(syms, g.drop_last()).len() == 0);
        assert(0 <= g[0].0 < g[0].1 <= syms.len());
    }
}

/// Turns the covered positions of `pattern` into candidate patterns.
///
/// Covered positions are split into maximal runs; runs separated by at most
/// `max_gap` uncovered positions are merged into one group. Each group that
/// covers at least two positions becomes a pattern at `target_level`: a
/// contiguous pattern for a single run, a gap pattern otherwise. Patterns
/// are numbered from `*next_id`, which is advanced past them.
pub fn extract_learned_patterns(
    pattern: &Pattern,
    covered: &[bool],
    next_id: &mut u32,
    max_gap: usize,
    target_level: u8,
) -> (result: Vec<Pattern>)
    requires
        forall|i: int| 0 <= i < covered@.len() && covered@[i] ==> i < pattern.symbols@.len(),
        *old(next_id) + learned_patterns(
            pattern.symbols@,
            covered_groups(covered@, max_gap),
            *old(next_id) as int,
            target_level,
        ).len() <= u32::MAX,
    ensures
        result@.map_values(|p: Pattern| shape(p)) == learned_patterns(
            pattern.symbols@,
            covered_groups(covered@, max_gap),
            *old(next_id) as int,
            target_level,
        ),
        *final(next_id) == *old(next_id) + result@.len(),
        forall|k: int| 0 <= k < result@.len() ==> (#[trigger] result@[k]).wf(),
{
    let ghost syms = pattern.symbols@;
    let ghost first = *next_id as int;
    let spans = contiguous_spans(covered);
    let groups = merge_close_spans(spans, max_gap);
    let ghost gs = int_groups(groups@);
    proof {
        lemma_groups_of_runs(covered@, max_gap);
        assert(gs == covered_groups(covered@, max_gap));
    }
    let mut result: Vec<Pattern> = Vec::new();
    let ng = groups.len();
    let mut gi: usize = 0;
    assert(gs.take(0) =~= Seq::<Seq<(int, int)>>::empty());
    assert(result@.map_values(|p: Pattern| shape(p)) =~= Seq::<PatternShape>::empty());
    while gi < ng
        invariant
            ng == groups@.len(),
            gs == int_groups(groups@),
            gs == covered_groups(covered@, max_gap),
            syms == pattern.symbols@,
            forall|i: int| 0 <= i < covered@.len() && covered@[i] ==> i < syms.len(),
            first + learned_patterns(syms, gs, first, target_level).len() <= u32::MAX,
            0 <= gi <= ng,
            result@.map_values(|p: Pattern| shape(p)) == learned_patterns(
                syms,
                gs.take(gi as int),
                first,
                target_level,
            ),
            *next_id == first + result@.len(),
            forall|k: int| 0 <= k < result@.len() ==> (#[trigger] result@[k]).wf(),
            forall|g: int|
                0 <= g < gs.len() ==> {
                    &&& #[trigger] gs[g].len() > 0
                    &&& ordered_ranges(gs[g], 0, covered@.len() as int)
                    &&& ranges_covered(gs[g], covered@)
                },
        decreases ng - gi,
    {
        let sub = &groups[gi];
        let ghost g = gs[gi as int];
        assert(g == int_pairs(sub@));
        let ns = sub.len();
        proof {
            lemma_span_total_bound(g, 0, covered@.len() as int);
            lemma_learned_prefix_len(syms, gs, gi as int + 1, first, target_level);
        }
        let ghost t = gs.take(gi as int + 1);
        assert(t.drop_last() =~= gs.take(gi as int));
        assert(t.last() == g);
        // Count the covered positions of the group.
        let mut total: usize = 0;
        let mut j: usize = 0;
        while j < ns
            invariant
                ns == sub@.len(),
                g == int_pairs(sub@),
                ordered_ranges(g, 0, covered@.len() as int),
                g.len() > 0,
                j <= ns,
                total == span_total(g.take(j as int)),
            decreases ns - j,
        {
            let (s, e) = sub[j];
            proof {
                assert(g.take(j as int + 1).drop_last() =~= g.take(j as int));
                assert(g[j as int] == (s as int, e as int));
                assert(ordered_ranges(g.take(j as int + 1), 0, covered@.len() as int)) by {
                    let h = g.take(j as int + 1);
                    assert forall|k: int| 0 <= k < h.len() implies 0 <= #[trigger] h[k].0 < h[k].1
                        <= covered@.len() by {
                        assert(h[k] == g[k]);
                    }
                    assert forall|a: int, b: int| 0 <= a < b < h.len() implies #[trigger] h[a].1
                        < #[trigger] h[b].0 by {
                        assert(h[a] == g[a]);
                        assert(h[b] == g[b]);
                    }
                }
                lemma_span_total_bound(g.take(j as int + 1), 0, covered@.len() as int);
            }
            total = total + (e - s);
            j = j + 1;
        }
        assert(g.take(ns as int) =~= g);
        if total >= 2 {
            let id = *next_id;
            let pat = if ns == 1 {
                let (s, e) = sub[0];
                let mut symbols: Vec<SymbolRef> = Vec::new();
                let mut i: usize = s;
                assert(covered@[e - 1]);
                while i < e
                    invariant
                        s <= i <= e,
                        e <= syms.len(),
                        syms == pattern.symbols@,
                        symbols@ == syms.subrange(s as int, i as int),
                    decreases e - i,
                {
                    symbols.push(pattern.symbols[i]);
                    assert(symbols@ =~= syms.subrange(s as int, i as int + 1));
                    i = i + 1;
                }
                Pattern::new_contiguous(id, symbols, target_level)
            } else {
                let mut symbols: Vec<SymbolRef> = Vec::new();
                let mut gaps: Vec<GapConstraint> = Vec::new();
                let mut si: usize = 0;
                while si < ns
                    invariant
                        ns == sub@.len(),
                        ns > 1,
                        g == int_pairs(sub@),
                        ordered_ranges(g, 0, covered@.len() as int),
                        ranges_covered(g, covered@),
                        forall|i: int| 0 <= i < covered@.len() && covered@[i] ==> i < syms.len(),
                        syms == pattern.symbols@,
                        si <= ns,
                        symbols@ == group_symbols(syms, g.take(si as int)),
                        gaps@ == if si == 0 {
                            Seq::<GapConstraint>::empty()
                        } else if si < ns {
                            group_gaps(g.take(si as int)).push(
                                GapConstraint { min: 0, max: (g[si as int].0 - g[si - 1].1) as usize },
                            )
                        } else {
                            group_gaps(g)
                        },
                    decreases ns - si,
                {
                    let (s, e) = sub[si];
                    assert(g[si as int] == (s as int, e as int));
                    assert(covered@[e - 1]);
                    let ghost sym_before = symbols@;
                    let ghost gaps_before = gaps@;
                    let mut i: usize = s;
                    while i < e
                        invariant
                            s <= i <= e,
                            e <= syms.len(),
                            syms == pattern.symbols@,
                            symbols@ == sym_before.add(syms.subrange(s as int, i as int)),
                        decreases e - i,
                    {
                        symbols.push(pattern.symbols[i]);
                        assert(symbols@ =~= sym_before.add(syms.subrange(s as int, i as int + 1)));
                        i = i + 1;
                    }
                    let mut z: usize = 0;
                    while z < e - s - 1
                        invariant
                            s < e,
                            z <= e - s - 1,
                            gaps@ == gaps_before.add(adjacent_gaps(z as int)),
                        decreases e - s - 1 - z,
                    {
                        gaps.push(GapConstraint::new(0, 0));
                        assert(gaps@ =~= gaps_before.add(adjacent_gaps(z as int + 1)));
                        z = z + 1;
                    }
                    let ghost h = g.take(si as int + 1);
                    assert(h.drop_last() =~= g.take(si as int));
                    assert(h.last() == g[si as int]);
                    assert(symbols@ == group_symbols(syms, h));
                    if si == 0 {
                        assert(h.len() == 1);
                        assert(gaps@ =~= group_gaps(h));
                    } else {
                        assert(h[h.len() - 2] == g[si - 1]);
                        assert(gaps@ =~= group_gaps(h));
                    }
                    if si + 1 < ns {
                        let next_start = sub[si + 1].0;
                        assert(g[si + 1] == (next_start as int, sub@[si + 1].1 as int));
                        assert(g[si as int].1 < g[si + 1].0);
                        gaps.push(GapConstraint::new(0, next_start - e));
                    } else {
                        assert(h =~= g);
                    }
                    si = si + 1;
                }
                assert(g.take(ns as int) =~= g);
                proof {
                    assert forall|k: int| 0 <= k < g.len() implies 0 <= #[trigger] g[k].0 < g[k].1
                        <= syms.len() by {
                        assert(covered@[g[k].1 - 1]);
                    }
                    lemma_group_sizes(syms, g);
                }
                Pattern::new_with_gaps(id, symbols, gaps, target_level)
            };
            assert(shape(pat) == group_pattern(syms, g, id, target_level));
            let ghost prior = learned_patterns(syms, gs.take(gi as int), first, target_level);
            assert(span_total(g) >= 2);
            assert(id == (first + prior.len()) as u32);
            assert(learned_patterns(syms, t, first, target_level) == prior.push(
                group_pattern(syms, g, id, target_level),
            ));
            *next_id = *next_id + 1;
            let ghost before = result@.map_values(|p: Pattern| shape(p));
            result.push(pat);
            assert(result@.map_values(|p: Pattern| shape(p)) =~= before.push(shape(pat)));
        } else {
            assert(result@.map_values(|p: Pattern| shape(p)) == learned_patterns(
                syms,
                gs.take(gi as int + 1),
                first,
                target_level,
            ));
        }
        gi = gi + 1;
    }
    assert(gs.take(ng as int) =~= gs);
    result
}

} // verus!
