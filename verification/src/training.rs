use vstd::prelude::*;
use std::collections::HashMap;
use crate::beam::MatchStep;
use crate::model::{GrammarLevel, Pattern, SymbolRef, sym_ids};
use crate::ngrams::seqs_view;
use crate::symbols::value_or_zero;
use crate::levels::level_min_freq;

verus! {

broadcast use vstd::std_specs::hash::group_hash_axioms;

// ── Atom frequencies ─────────────────────────────────────────────────────────

/// How often `id` occurs in `s`.
pub open spec fn occurrences_of(s: Seq<u32>, id: u32) -> nat
    decreases s.len(),
{
    if s.len() == 0 {
        0
    } else {
        occurrences_of(s.drop_last(), id) + if s.last() == id {
            1nat
        } else {
            0nat
        }
    }
}

/// How often `id` occurs in the sequences of a corpus.
pub open spec fn corpus_occurrences(c: Seq<Seq<u32>>, id: u32) -> nat
    decreases c.len(),
{
    if c.len() == 0 {
        0
    } else {
        corpus_occurrences(c.drop_last(), id) + occurrences_of(c.last(), id)
    }
}

/// The number of symbols in a corpus.
pub open spec fn corpus_size(c: Seq<Seq<u32>>) -> nat
    decreases c.len(),
{
    if c.len() == 0 {
        0
    } else {
        corpus_size(c.drop_last()) + c.last().len()
    }
}

proof fn lemma_occurrences_take(s: Seq<u32>, i: int, id: u32)
    requires
        0 <= i <= s.len(),
    ensures
        occurrences_of(s.take(i), id) <= occurrences_of(s, id),
    decreases s.len() - i,
{
    if i < s.len() {
        lemma_occurrences_take(s, i + 1, id);
        assert(s.take(i + 1).drop_last() =~= s.take(i));
    } else {
        assert(s.take(i) =~= s);
    }
}

proof fn lemma_corpus_take(c: Seq<Seq<u32>>, i: int, id: u32)
    requires
        0 <= i <= c.len(),
    ensures
        corpus_occurrences(c.take(i), id) <= corpus_occurrences(c, id),
        corpus_size(c.take(i)) <= corpus_size(c),
    decreases c.len() - i,
{
    if i < c.len() {
        lemma_corpus_take(c, i + 1, id);
        assert(c.take(i + 1).drop_last() =~= c.take(i));
    } else {
        assert(c.take(i) =~= c);
    }
}

/// Adds one to the count of each symbol of each sequence, and the number of
/// symbols to `total`.
pub fn merge_atom_frequencies(freqs: &mut HashMap<u32, u32>, total: &mut u64, seqs: &[Vec<u32>])
    requires
        forall|id: u32| value_or_zero(old(freqs)@, id) + #[trigger] corpus_occurrences(seqs_view(seqs@), id) <= u32::MAX,
        *old(total) + corpus_size(seqs_view(seqs@)) <= u64::MAX,
    ensures
        forall|id: u32| #[trigger] final(freqs)@.contains_key(id) <==> old(freqs)@.contains_key(id)
            || corpus_occurrences(seqs_view(seqs@), id) > 0,
        forall|id: u32| #[trigger] final(freqs)@.contains_key(id) ==> final(freqs)@[id] == value_or_zero(old(freqs)@, id)
            + corpus_occurrences(seqs_view(seqs@), id),
        *final(total) == *old(total) + corpus_size(seqs_view(seqs@)),
{
    let ghost start = freqs@;
    let ghost t0 = *total;
    let ghost c = seqs_view(seqs@);
    let n = seqs.len();
    let mut i: usize = 0;
    assert(c.take(0) =~= Seq::<Seq<u32>>::empty());
    while i < n
        invariant
            n == seqs@.len(),
            c == seqs_view(seqs@),
            i <= n,
            forall|id: u32| value_or_zero(start, id) + #[trigger] corpus_occurrences(c, id) <= u32::MAX,
            t0 + corpus_size(c) <= u64::MAX,
            forall|id: u32| #[trigger] freqs@.contains_key(id) <==> start.contains_key(id)
                || corpus_occurrences(c.take(i as int), id) > 0,
            forall|id: u32| #[trigger] freqs@.contains_key(id) ==> freqs@[id] == value_or_zero(start, id)
                + corpus_occurrences(c.take(i as int), id),
            *total == t0 + corpus_size(c.take(i as int)),
        decreases n - i,
    {
        let s = &seqs[i];
        let ghost sv = s@;
        let ghost ci = c.take(i as int);
        let ghost ci1 = c.take(i as int + 1);
        assert(ci1.drop_last() =~= ci);
        assert(ci1.last() == sv);
        proof {
            lemma_corpus_take(c, i as int + 1, 0);
        }
        let m = s.len();
        let mut j: usize = 0;
        assert(sv.take(0) =~= Seq::<u32>::empty());
        while j < m
            invariant
                m == sv.len(),
                sv == s@,
                j <= m,
                ci1.drop_last() == ci,
                ci1.last() == sv,
                ci1 == c.take(i as int + 1),
                i < n,
                n == seqs@.len(),
                c == seqs_view(seqs@),
                forall|id: u32| value_or_zero(start, id) + #[trigger] corpus_occurrences(c, id) <= u32::MAX,
                t0 + corpus_size(c) <= u64::MAX,
                corpus_size(ci1) <= corpus_size(c),
                forall|id: u32| #[trigger] freqs@.contains_key(id) <==> start.contains_key(id)
                    || corpus_occurrences(ci, id) > 0 || occurrences_of(sv.take(j as int), id) > 0,
                forall|id: u32| #[trigger] freqs@.contains_key(id) ==> freqs@[id] == value_or_zero(start, id)
                    + corpus_occurrences(ci, id) + occurrences_of(sv.take(j as int), id),
                *total == t0 + corpus_size(ci) + j,
            decreases m - j,
        {
            let id = s[j];
            proof {
                assert(sv.take(j as int + 1).drop_last() =~= sv.take(j as int));
                lemma_occurrences_take(sv, j as int + 1, id);
                lemma_corpus_take(c, i as int + 1, id);
            }
            let cur = match freqs.get(&id) {
                Some(v) => *v,
                None => 0,
            };
            freqs.insert(id, cur + 1);
            *total = *total + 1;
            proof {
                assert forall|x: u32| #[trigger] freqs@.contains_key(x) <==> start.contains_key(x)
                    || corpus_occurrences(ci, x) > 0 || occurrences_of(sv.take(j as int + 1), x) > 0 by {
                    assert(sv.take(j as int + 1).drop_last() =~= sv.take(j as int));
                }
                assert forall|x: u32| #[trigger] freqs@.contains_key(x) ==> freqs@[x] == value_or_zero(start, x)
                    + corpus_occurrences(ci, x) + occurrences_of(sv.take(j as int + 1), x) by {
                    assert(sv.take(j as int + 1).drop_last() =~= sv.take(j as int));
                }
            }
            j = j + 1;
        }
        assert(sv.take(m as int) =~= sv);
        i = i + 1;
    }
    assert(c.take(n as int) =~= c);
}

// ── Pattern-id frequencies ───────────────────────────────────────────────────

/// One past the largest pattern id, and at least 1.
pub open spec fn id_bound(pats: Seq<Pattern>) -> nat
    decreases pats.len(),
{
    if pats.len() == 0 {
        1
    } else {
        let prior = id_bound(pats.drop_last());
        let here = pats.last().id as nat + 1;
        if here > prior {
            here
        } else {
            prior
        }
    }
}

/// For each id below `id_bound(patterns)`, how often it occurs in `pid_seq`.
pub fn pid_frequencies(pid_seq: &[u32], patterns: &[Pattern]) -> (r: Vec<u32>)
    requires
        forall|id: u32| #[trigger] occurrences_of(pid_seq@, id) <= u32::MAX,
        id_bound(patterns@) <= usize::MAX,
    ensures
        r@.len() == id_bound(patterns@),
        forall|k: int| 0 <= k < r@.len() ==> #[trigger] r@[k] == occurrences_of(pid_seq@, k as u32),
{
    let np = patterns.len();
    let mut bound: usize = 1;
    let mut p: usize = 0;
    assert(patterns@.take(0) =~= Seq::<Pattern>::empty());
    while p < np
        invariant
            np == patterns@.len(),
            p <= np,
            bound == id_bound(patterns@.take(p as int)),
            id_bound(patterns@) <= usize::MAX,
        decreases np - p,
    {
        assert(patterns@.take(p as int + 1).drop_last() =~= patterns@.take(p as int));
        proof {
            lemma_id_bound_take(patterns@, p as int + 1);
        }
        let here = patterns[p].id as usize + 1;
        if here > bound {
            bound = here;
        }
        p = p + 1;
    }
    assert(patterns@.take(np as int) =~= patterns@);
    proof {
        lemma_bound_covers(patterns@);
    }
    let mut r: Vec<u32> = Vec::new();
    let mut k: usize = 0;
    while k < bound
        invariant
            k <= bound,
            r@.len() == k,
            forall|x: int| 0 <= x < k ==> r@[x] == 0,
        decreases bound - k,
    {
        r.push(0);
        k = k + 1;
    }
    let n = pid_seq.len();
    let mut i: usize = 0;
    assert(pid_seq@.take(0) =~= Seq::<u32>::empty());
    while i < n
        invariant
            n == pid_seq@.len(),
            i <= n,
            r@.len() == bound,
            bound <= u32::MAX + 1,
            forall|id: u32| #[trigger] occurrences_of(pid_seq@, id) <= u32::MAX,
            forall|x: int| 0 <= x < bound ==> #[trigger] r@[x] == occurrences_of(pid_seq@.take(i as int), x as u32),
        decreases n - i,
    {
        let pid = pid_seq[i];
        assert(pid_seq@.take(i as int + 1).drop_last() =~= pid_seq@.take(i as int));
        if (pid as usize) < bound {
            proof {
                lemma_occurrences_take(pid_seq@, i as int + 1, pid);
                assert((pid as usize) as int as u32 == pid);
            }
            let c = r[pid as usize];
            r.set(pid as usize, c + 1);
        }
        assert forall|x: int| 0 <= x < bound implies #[trigger] r@[x] == occurrences_of(pid_seq@.take(i as int + 1), x as u32) by {
            if x != pid as int {
                assert(x as u32 != pid) by {
                    assert(x < bound);
                }
            }
        }
        i = i + 1;
    }
    assert(pid_seq@.take(n as int) =~= pid_seq@);
    r
}

proof fn lemma_id_bound_take(pats: Seq<Pattern>, i: int)
    requires
        0 <= i <= pats.len(),
    ensures
        id_bound(pats.take(i)) <= id_bound(pats),
        bound_covers(pats),
    decreases pats.len() - i,
{
    lemma_bound_covers(pats);
    if i < pats.len() {
        lemma_id_bound_take(pats, i + 1);
        assert(pats.take(i + 1).drop_last() =~= pats.take(i));
    } else {
        assert(pats.take(i) =~= pats);
    }
}

/// Every id lies below the bound, which is at most one past the largest id
/// and at most `u32::MAX + 1`.
spec fn bound_covers(pats: Seq<Pattern>) -> bool {
    &&& id_bound(pats) <= u32::MAX + 1
    &&& forall|k: int| 0 <= k < pats.len() ==> (#[trigger] pats[k]).id < id_bound(pats)
}

proof fn lemma_bound_covers(pats: Seq<Pattern>)
    ensures
        bound_covers(pats),
    decreases pats.len(),
{
    if pats.len() > 0 {
        lemma_bound_covers(pats.drop_last());
        assert forall|k: int| 0 <= k < pats.len() implies (#[trigger] pats[k]).id < id_bound(pats) by {
            if k < pats.len() - 1 {
                assert(pats.drop_last()[k] == pats[k]);
            }
        }
    }
}

// ── Match counts of the patterns ─────────────────────────────────────────────

/// Some step of the history matches pattern `k`.
pub open spec fn used_in(log: Seq<MatchStep>, k: int) -> bool {
    exists|j: int| 0 <= j < log.len() && (#[trigger] log[j]).old_idx == k
}

/// The patterns agree in everything but their frequency.
pub open spec fn same_structure(a: Pattern, b: Pattern) -> bool {
    &&& a.id == b.id
    &&& a.symbols@ == b.symbols@
    &&& a.gaps@ == b.gaps@
    &&& a.level == b.level
}

/// Adds one to the frequency of every pattern the history matches, once
/// per pattern however many of its symbols were matched.
pub fn bump_used_frequencies(patterns: &mut Vec<Pattern>, log: &[MatchStep])
    requires
        forall|j: int| 0 <= j < log@.len() ==> (#[trigger] log@[j]).old_idx < old(patterns)@.len(),
        forall|k: int| 0 <= k < old(patterns)@.len() && used_in(log@, k) ==> (#[trigger] old(patterns)@[k]).frequency < u32::MAX,
    ensures
        final(patterns)@.len() == old(patterns)@.len(),
        forall|k: int| 0 <= k < final(patterns)@.len() ==> same_structure(#[trigger] final(patterns)@[k], old(patterns)@[k]),
        forall|k: int| 0 <= k < final(patterns)@.len() ==> (#[trigger] final(patterns)@[k]).frequency == old(patterns)@[k].frequency
            + if used_in(log@, k) {
            1int
        } else {
            0int
        },
{
    let ghost start = patterns@;
    let np = patterns.len();
    let mut seen: Vec<bool> = Vec::new();
    let mut k: usize = 0;
    while k < np
        invariant
            k <= np,
            seen@.len() == k,
            forall|x: int| 0 <= x < k ==> !seen@[x],
        decreases np - k,
    {
        seen.push(false);
        k = k + 1;
    }
    let n = log.len();
    let mut j: usize = 0;
    while j < n
        invariant
            n == log@.len(),
            j <= n,
            np == start.len(),
            patterns@.len() == np,
            seen@.len() == np,
            forall|x: int| 0 <= x < log@.len() ==> (#[trigger] log@[x]).old_idx < np,
            forall|x: int| 0 <= x < np && used_in(log@, x) ==> (#[trigger] start[x]).frequency < u32::MAX,
            forall|x: int| 0 <= x < np ==> (#[trigger] seen@[x]) == exists|y: int| 0 <= y < j && (#[trigger] log@[y]).old_idx == x,
            forall|x: int| 0 <= x < np ==> same_structure(#[trigger] patterns@[x], start[x]),
            forall|x: int| 0 <= x < np ==> (#[trigger] patterns@[x]).frequency == start[x].frequency + if seen@[x] {
                1int
            } else {
                0int
            },
        decreases n - j,
    {
        let oi = log[j].old_idx;
        let ghost before = seen@;
        if !seen[oi] {
            seen.set(oi, true);
            proof {
                assert(used_in(log@, oi as int));
            }
            let f = patterns[oi].frequency;
            patterns[oi].frequency = f + 1;
        }
        assert forall|x: int| 0 <= x < np implies (#[trigger] seen@[x]) == exists|y: int|
            0 <= y < j + 1 && (#[trigger] log@[y]).old_idx == x by {
            if x == oi {
                assert(log@[j as int].old_idx == x);
            } else if seen@[x] {
                assert(before[x]);
            } else {
                if exists|y: int| 0 <= y < j + 1 && (#[trigger] log@[y]).old_idx == x {
                    let y = choose|y: int| 0 <= y < j + 1 && (#[trigger] log@[y]).old_idx == x;
                    assert(y < j);
                }
            }
        }
        j = j + 1;
    }
    assert forall|x: int| 0 <= x < np implies seen@[x] == used_in(log@, x) by {
        if used_in(log@, x) {
            let y = choose|y: int| 0 <= y < log@.len() && (#[trigger] log@[y]).old_idx == x;
        }
    }
}

// ── Pooling next-level candidates ────────────────────────────────────────────

/// The ids a pattern's symbols carry, whatever their kind.
pub open spec fn fingerprint(p: Pattern) -> Seq<u32> {
    sym_ids(p.symbols@)
}

/// Some pattern of `s` has fingerprint `f`.
pub open spec fn has_fingerprint(s: Seq<Pattern>, f: Seq<u32>) -> bool {
    exists|i: int| 0 <= i < s.len() && fingerprint(#[trigger] s[i]) == f
}

/// `base` followed by each candidate whose fingerprint is new at its turn.
pub open spec fn pooled(base: Seq<Pattern>, cands: Seq<Pattern>) -> Seq<Pattern>
    decreases cands.len(),
{
    if cands.len() == 0 {
        base
    } else {
        let prior = pooled(base, cands.drop_last());
        if has_fingerprint(prior, fingerprint(cands.last())) {
            prior
        } else {
            prior.push(cands.last())
        }
    }
}

/// True if the two patterns carry the same ids in the same order.
fn same_fingerprint(a: &Pattern, b: &Pattern) -> (r: bool)
    ensures
        r == (fingerprint(*a) == fingerprint(*b)),
{
    let n = a.symbols.len();
    if n != b.symbols.len() {
        assert(fingerprint(*a).len() != fingerprint(*b).len());
        return false;
    }
    let mut i: usize = 0;
    while i < n
        invariant
            n == a.symbols@.len(),
            n == b.symbols@.len(),
            i <= n,
            forall|k: int| 0 <= k < i ==> fingerprint(*a)[k] == fingerprint(*b)[k],
        decreases n - i,
    {
        if a.symbols[i].raw_id() != b.symbols[i].raw_id() {
            assert(fingerprint(*a)[i as int] != fingerprint(*b)[i as int]);
            return false;
        }
        i = i + 1;
    }
    assert(fingerprint(*a) =~= fingerprint(*b));
    true
}

/// True if some pattern of `pool` has the fingerprint of `c`.
fn pool_has(pool: &Vec<Pattern>, c: &Pattern) -> (r: bool)
    ensures
        r == has_fingerprint(pool@, fingerprint(*c)),
{
    let n = pool.len();
    let mut i: usize = 0;
    while i < n
        invariant
            n == pool@.len(),
            i <= n,
            forall|k: int| 0 <= k < i ==> fingerprint(#[trigger] pool@[k]) != fingerprint(*c),
        decreases n - i,
    {
        if same_fingerprint(&pool[i], c) {
            assert(fingerprint(pool@[i as int]) == fingerprint(*c));
            return true;
        }
        i = i + 1;
    }
    false
}

/// True if some pattern carries exactly the ids `ids`, in order.
pub fn fingerprint_known(patterns: &[Pattern], ids: &[u32]) -> (r: bool)
    ensures
        r == has_fingerprint(patterns@, ids@),
{
    let n = patterns.len();
    let mut i: usize = 0;
    while i < n
        invariant
            n == patterns@.len(),
            i <= n,
            forall|k: int| 0 <= k < i ==> fingerprint(#[trigger] patterns@[k]) != ids@,
        decreases n - i,
    {
        let syms = &patterns[i].symbols;
        let mut same = syms.len() == ids.len();
        let mut j: usize = 0;
        while same && j < ids.len()
            invariant
                same ==> syms@.len() == ids@.len(),
                syms@ == patterns@[i as int].symbols@,
                j <= ids@.len(),
                same ==> forall|x: int| 0 <= x < j ==> sym_ids(syms@)[x] == ids@[x],
                !same ==> fingerprint(patterns@[i as int]) != ids@,
            decreases ids@.len() - j,
        {
            if syms[j].raw_id() != ids[j] {
                assert(sym_ids(syms@)[j as int] != ids@[j as int]);
                same = false;
            }
            j = j + 1;
        }
        if same {
            assert(fingerprint(patterns@[i as int]) =~= ids@);
            return true;
        }
        i = i + 1;
    }
    false
}

/// Appends to `pool` each candidate whose fingerprint neither a pattern of
/// the pool nor an earlier candidate already has.
pub fn merge_gap_candidates(pool: &mut Vec<Pattern>, candidates: Vec<Pattern>)
    ensures
        final(pool)@ == pooled(old(pool)@, candidates@),
{
    let ghost base = pool@;
    let ghost cs = candidates@;
    let mut rest = candidates;
    let n = rest.len();
    let mut i: usize = 0;
    assert(cs.take(0) =~= Seq::<Pattern>::empty());
    assert(rest@ =~= cs.skip(0));
    while i < n
        invariant
            n == cs.len(),
            i <= n,
            rest@ == cs.skip(i as int),
            pool@ == pooled(base, cs.take(i as int)),
        decreases n - i,
    {
        let c = rest.remove(0);
        assert(c == cs[i as int]);
        assert(rest@ =~= cs.skip(i as int + 1));
        assert(cs.take(i as int + 1).drop_last() =~= cs.take(i as int));
        if !pool_has(pool, &c) {
            pool.push(c);
        }
        i = i + 1;
    }
    assert(cs.take(n as int) =~= cs);
}

// ── Growing the grammar ──────────────────────────────────────────────────────

/// `after` keeps every pattern of `before` in place with its structure,
/// possibly followed by more.
pub open spec fn patterns_extend(before: Seq<Pattern>, after: Seq<Pattern>) -> bool {
    &&& before.len() <= after.len()
    &&& forall|p: int| 0 <= p < before.len() ==> same_structure(#[trigger] after[p], before[p])
}

/// Every level of `before` is extended in `after`, which may add levels.
pub open spec fn grammar_extends(before: Seq<GrammarLevel>, after: Seq<GrammarLevel>) -> bool {
    &&& before.len() <= after.len()
    &&& forall|l: int| 0 <= l < before.len() ==> patterns_extend((#[trigger] before[l]).patterns@, after[l].patterns@)
}

/// A grammar that grows twice has grown: old patterns are never removed or
/// overwritten, however many training steps follow.
pub proof fn law_grammar_grows(a: Seq<GrammarLevel>, b: Seq<GrammarLevel>, c: Seq<GrammarLevel>)
    requires
        grammar_extends(a, b),
        grammar_extends(b, c),
    ensures
        grammar_extends(a, c),
{
    assert forall|l: int| 0 <= l < a.len() implies patterns_extend((#[trigger] a[l]).patterns@, c[l].patterns@) by {
        assert(patterns_extend(b[l].patterns@, c[l].patterns@));
        assert forall|p: int| 0 <= p < a[l].patterns@.len() implies same_structure(
            #[trigger] c[l].patterns@[p],
            a[l].patterns@[p],
        ) by {
            assert(same_structure(b[l].patterns@[p], a[l].patterns@[p]));
            assert(same_structure(c[l].patterns@[p], b[l].patterns@[p]));
        }
    }
}

/// Counting matches on the patterns of one level (see
/// `bump_used_frequencies`) extends the grammar.
pub proof fn law_counting_extends(before: Seq<GrammarLevel>, after: Seq<GrammarLevel>, level: int)
    requires
        0 <= level < before.len(),
        after.len() == before.len(),
        forall|l: int| 0 <= l < before.len() && l != level ==> #[trigger] after[l] == before[l],
        after[level].patterns@.len() == before[level].patterns@.len(),
        forall|k: int|
            0 <= k < after[level].patterns@.len() ==> same_structure(
                #[trigger] after[level].patterns@[k],
                before[level].patterns@[k],
            ),
    ensures
        grammar_extends(before, after),
{
    assert forall|l: int| 0 <= l < before.len() implies patterns_extend((#[trigger] before[l]).patterns@, after[l].patterns@) by {
        if l != level {
            assert(after[l] == before[l]);
        }
    }
}

/// Adds `pats` to grammar level `level`: appended after the level's
/// patterns when the level exists, else as a new top level. The patterns
/// already in the grammar are kept as they are, in place.
pub fn add_patterns(levels: &mut Vec<GrammarLevel>, level: usize, pats: Vec<Pattern>)
    requires
        level <= old(levels)@.len(),
    ensures
        level < old(levels)@.len() ==> final(levels)@.len() == old(levels)@.len(),
        level == old(levels)@.len() ==> final(levels)@.len() == old(levels)@.len() + 1,
        final(levels)@[level as int].patterns@ == if level < old(levels)@.len() {
            old(levels)@[level as int].patterns@ + pats@
        } else {
            pats@
        },
        final(levels)@[level as int].indexed(),
        forall|l: int| 0 <= l < old(levels)@.len() && l != level ==> #[trigger] final(levels)@[l] == old(levels)@[l],
        grammar_extends(old(levels)@, final(levels)@),
{
    let mut pats = pats;
    if level < levels.len() {
        let mut lv = levels.remove(level);
        let ghost before = lv.patterns@;
        lv.patterns.append(&mut pats);
        lv.rebuild_index();
        levels.insert(level, lv);
    } else {
        levels.push(GrammarLevel::new(pats));
    }
    let ghost b = old(levels)@;
    let ghost a = levels@;
    assert forall|l: int| 0 <= l < b.len() implies patterns_extend((#[trigger] b[l]).patterns@, a[l].patterns@) by {
        if l == level {
            assert forall|p: int| 0 <= p < b[l].patterns@.len() implies same_structure(
                #[trigger] a[l].patterns@[p],
                b[l].patterns@[p],
            ) by {
                assert(a[l].patterns@[p] == (b[l].patterns@ + pats@)[p]);
            }
        } else {
            assert(a[l] == b[l]);
        }
    }
}

/// The frequency threshold for candidates: half the number of sequences,
/// but at least 2.
pub fn min_frequency(n_seqs: usize) -> (r: usize)
    ensures
        r == level_min_freq(n_seqs as int),
{
    let half = n_seqs / 2;
    if half > 2 {
        half
    } else {
        2
    }
}

} // verus!
