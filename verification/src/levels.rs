use vstd::prelude::*;
use crate::beam::MatchStep;
use crate::model::{GapConstraint, Pattern, SymbolRef};
use crate::ngrams::{
    GAP_MARKER, extract_frequent_ngrams, frequent_ngram_list, corpus_frequency, cands_view,
    seqs_view, key_frequency,
};
use crate::induce::{PatternShape, shape};
use crate::model::GrammarLevel;

verus! {

// ── Pattern-id sequences from match histories ────────────────────────────────

/// A step that starts a match of a known pattern (its first symbol).
pub open spec fn is_start(st: MatchStep, n_pats: int) -> bool {
    st.old_pos == 0 && st.old_idx < n_pats
}

/// Positions never decrease along the list.
pub open spec fn by_position(s: Seq<(u32, usize)>) -> bool {
    forall|i: int, j: int| 0 <= i < j < s.len() ==> (#[trigger] s[i]).1 <= (#[trigger] s[j]).1
}

/// `x` placed after every entry whose position is at most its own.
pub open spec fn insert_stable(s: Seq<(u32, usize)>, x: (u32, usize)) -> Seq<(u32, usize)>
    decreases s.len(),
{
    if s.len() == 0 {
        seq![x]
    } else if s.last().1 <= x.1 {
        s.push(x)
    } else {
        insert_stable(s.drop_last(), x).push(s.last())
    }
}

/// Some entry already holds position `pos`.
pub open spec fn has_position(s: Seq<(u32, usize)>, pos: usize) -> bool {
    exists|i: int| 0 <= i < s.len() && (#[trigger] s[i]).1 == pos
}

/// The `(pattern id, position)` of each start step of `log`, ordered by
/// position, steps at equal positions in log order; with `first_only`, only
/// the first step at each position is kept.
pub open spec fn starts_by_position(log: Seq<MatchStep>, pats: Seq<Pattern>, first_only: bool) -> Seq<
    (u32, usize),
>
    decreases log.len(),
{
    if log.len() == 0 {
        Seq::empty()
    } else {
        let prior = starts_by_position(log.drop_last(), pats, first_only);
        let st = log.last();
        if is_start(st, pats.len() as int) {
            let x = (pats[st.old_idx as int].id, st.new_pos);
            if first_only && has_position(prior, st.new_pos) {
                prior
            } else {
                insert_stable(prior, x)
            }
        } else {
            prior
        }
    }
}

/// The ids of a list of `(id, position)` entries.
pub open spec fn ids_of(s: Seq<(u32, usize)>) -> Seq<u32> {
    s.map_values(|x: (u32, usize)| x.0)
}

/// On a list ordered by position, stable insertion places `x` right after
/// the entries whose position is at most its own.
pub proof fn lemma_insert_stable_at(s: Seq<(u32, usize)>, x: (u32, usize), p: int)
    requires
        by_position(s),
        0 <= p <= s.len(),
        forall|i: int| 0 <= i < p ==> (#[trigger] s[i]).1 <= x.1,
        forall|i: int| p <= i < s.len() ==> (#[trigger] s[i]).1 > x.1,
    ensures
        insert_stable(s, x) == s.insert(p, x),
        by_position(insert_stable(s, x)),
    decreases s.len(),
{
    if s.len() == 0 {
        assert(s.insert(p, x) =~= seq![x]);
    } else if s.last().1 <= x.1 {
        assert(p == s.len());
        assert(s.insert(p, x) =~= s.push(x));
    } else {
        let d = s.drop_last();
        assert(p < s.len());
        lemma_insert_stable_at(d, x, p);
        assert(insert_stable(s, x) =~= d.insert(p, x).push(s.last()));
        assert(s.insert(p, x) =~= d.insert(p, x).push(s.last()));
    }
    let r = s.insert(p, x);
    assert forall|i: int, j: int| 0 <= i < j < r.len() implies (#[trigger] r[i]).1 <= (
    #[trigger] r[j]).1 by {
        if i < p && j < p {
        } else if i < p && j == p {
        } else if i < p {
            assert(r[j] == s[j - 1]);
        } else if i == p {
            assert(r[j] == s[j - 1]);
        } else {
            assert(r[i] == s[i - 1]);
            assert(r[j] == s[j - 1]);
        }
    }
}

/// The starts of `log`, as `(pattern id, position)` entries ordered by
/// position (see `starts_by_position`).
fn collect_starts(log: &[MatchStep], patterns: &[Pattern], first_only: bool) -> (r: Vec<(u32, usize)>)
    requires
        first_only || forall|k: int|
            0 <= k < log@.len() && (#[trigger] log@[k]).old_pos == 0 ==> log@[k].old_idx
                < patterns@.len(),
    ensures
        r@ == starts_by_position(log@, patterns@, first_only),
        by_position(r@),
{
    let mut out: Vec<(u32, usize)> = Vec::new();
    let n = log.len();
    let mut k: usize = 0;
    assert(log@.take(0) =~= Seq::<MatchStep>::empty());
    while k < n
        invariant
            n == log@.len(),
            k <= n,
            out@ == starts_by_position(log@.take(k as int), patterns@, first_only),
            by_position(out@),
        decreases n - k,
    {
        let st = log[k];
        let ghost prior = out@;
        let ghost t = log@.take(k as int + 1);
        assert(t.drop_last() =~= log@.take(k as int));
        assert(t.last() == st);
        if st.old_pos == 0 && st.old_idx < patterns.len() {
            let x = (patterns[st.old_idx].id, st.new_pos);
            let mut seen = false;
            if first_only {
                let mut i: usize = 0;
                while i < out.len()
                    invariant
                        i <= out@.len(),
                        !seen ==> forall|q: int| 0 <= q < i ==> (#[trigger] out@[q]).1 != st.new_pos,
                        seen ==> has_position(out@, st.new_pos),
                    decreases out@.len() - i,
                {
                    if out[i].1 == st.new_pos {
                        seen = true;
                    }
                    i = i + 1;
                }
            }
            if !seen {
                let mut p: usize = out.len();
                while p > 0 && out[p - 1].1 > st.new_pos
                    invariant
                        p <= out@.len(),
                        by_position(out@),
                        forall|i: int| p <= i < out@.len() ==> (#[trigger] out@[i]).1 > st.new_pos,
                    decreases p,
                {
                    p = p - 1;
                }
                proof {
                    assert forall|i: int| 0 <= i < p implies (#[trigger] out@[i]).1 <= x.1 by {
                        if p > 0 {
                            assert(out@[p - 1].1 <= x.1);
                        }
                    }
                    lemma_insert_stable_at(prior, x, p as int);
                    if first_only {
                        assert(!has_position(prior, st.new_pos));
                    }
                }
                out.insert(p, x);
            }
        }
        k = k + 1;
    }
    assert(log@.take(n as int) =~= log@);
    out
}

/// The ids of the patterns a match history starts, ordered by the position
/// they start at; where several start at one position, the first in the
/// history counts.
pub fn pid_sequence(log: &[MatchStep], patterns: &[Pattern]) -> (r: Vec<u32>)
    ensures
        r@ == ids_of(starts_by_position(log@, patterns@, true)),
{
    let starts = collect_starts(log, patterns, true);
    let mut r: Vec<u32> = Vec::new();
    let n = starts.len();
    let mut i: usize = 0;
    while i < n
        invariant
            n == starts@.len(),
            i <= n,
            r@ == ids_of(starts@.take(i as int)),
        decreases n - i,
    {
        r.push(starts[i].0);
        assert(r@ =~= ids_of(starts@.take(i as int + 1)));
        i = i + 1;
    }
    assert(starts@.take(n as int) =~= starts@);
    r
}

/// The ids of the patterns a match history starts, ordered by the position
/// they start at; starts at equal positions keep their order in the history.
pub fn start_sequence(log: &[MatchStep], patterns: &[Pattern]) -> (r: Vec<u32>)
    requires
        forall|k: int|
            0 <= k < log@.len() && (#[trigger] log@[k]).old_pos == 0 ==> log@[k].old_idx
                < patterns@.len(),
    ensures
        r@ == ids_of(starts_by_position(log@, patterns@, false)),
{
    let starts = collect_starts(log, patterns, false);
    let mut r: Vec<u32> = Vec::new();
    let n = starts.len();
    let mut i: usize = 0;
    while i < n
        invariant
            n == starts@.len(),
            i <= n,
            r@ == ids_of(starts@.take(i as int)),
        decreases n - i,
    {
        r.push(starts[i].0);
        assert(r@ =~= ids_of(starts@.take(i as int + 1)));
        i = i + 1;
    }
    assert(starts@.take(n as int) =~= starts@);
    r
}

// ── Next-level patterns ──────────────────────────────────────────────────────

/// A list of ids seen as pattern references.
pub open spec fn pattern_refs(ids: Seq<u32>) -> Seq<SymbolRef> {
    ids.map_values(|id: u32| SymbolRef::Pattern(id))
}

/// The patterns made from the candidates that hold no gap marker, numbered
/// from `first`: a contiguous pattern over pattern references with the
/// candidate's count as its frequency.
pub open spec fn next_level_shapes(ng: Seq<(Seq<u32>, u32)>, first: int, level: u8) -> Seq<PatternShape>
    decreases ng.len(),
{
    if ng.len() == 0 {
        Seq::empty()
    } else {
        let prior = next_level_shapes(ng.drop_last(), first, level);
        let c = ng.last();
        if c.0.contains(GAP_MARKER) {
            prior
        } else {
            prior.push(((first + prior.len()) as u32, pattern_refs(c.0), Seq::empty(), c.1, level))
        }
    }
}

proof fn lemma_next_level_prefix(ng: Seq<(Seq<u32>, u32)>, k: int, first: int, level: u8)
    requires
        0 <= k <= ng.len(),
    ensures
        next_level_shapes(ng.take(k), first, level).len() <= next_level_shapes(ng, first, level).len(),
    decreases ng.len() - k,
{
    if k < ng.len() {
        lemma_next_level_prefix(ng, k + 1, first, level);
        assert(ng.take(k + 1).drop_last() =~= ng.take(k));
    } else {
        assert(ng.take(k) =~= ng);
    }
}

/// Turns ranked candidates into next-level patterns (see `next_level_shapes`).
pub fn patterns_from_ngrams(ngrams: &[(Vec<u32>, u32)], next_id: &mut u32, target_level: u8) -> (r: Vec<
    Pattern,
>)
    requires
        *old(next_id) + next_level_shapes(cands_view(ngrams@), *old(next_id) as int, target_level).len()
            <= u32::MAX,
    ensures
        r@.map_values(|p: Pattern| shape(p)) == next_level_shapes(
            cands_view(ngrams@),
            *old(next_id) as int,
            target_level,
        ),
        *final(next_id) == *old(next_id) + r@.len(),
        forall|k: int| 0 <= k < r@.len() ==> (#[trigger] r@[k]).wf(),
{
    let ghost ng = cands_view(ngrams@);
    let ghost first = *next_id as int;
    let mut r: Vec<Pattern> = Vec::new();
    let n = ngrams.len();
    let mut i: usize = 0;
    assert(ng.take(0) =~= Seq::<(Seq<u32>, u32)>::empty());
    assert(r@.map_values(|p: Pattern| shape(p)) =~= Seq::<PatternShape>::empty());
    while i < n
        invariant
            n == ngrams@.len(),
            ng == cands_view(ngrams@),
            first + next_level_shapes(ng, first, target_level).len() <= u32::MAX,
            i <= n,
            r@.map_values(|p: Pattern| shape(p)) == next_level_shapes(ng.take(i as int), first, target_level),
            *next_id == first + r@.len(),
            forall|k: int| 0 <= k < r@.len() ==> (#[trigger] r@[k]).wf(),
        decreases n - i,
    {
        let key = &ngrams[i].0;
        let freq = ngrams[i].1;
        let ghost t = ng.take(i as int + 1);
        assert(t.drop_last() =~= ng.take(i as int));
        assert(t.last() == (key@, freq));
        let mut has_marker = false;
        let mut symbols: Vec<SymbolRef> = Vec::new();
        let mut j: usize = 0;
        while j < key.len()
            invariant
                j <= key@.len(),
                has_marker == key@.take(j as int).contains(GAP_MARKER),
                symbols@ == pattern_refs(key@.take(j as int)),
            decreases key@.len() - j,
        {
            if key[j] == GAP_MARKER {
                has_marker = true;
            }
            symbols.push(SymbolRef::Pattern(key[j]));
            proof {
                let a = key@.take(j as int);
                let b = key@.take(j as int + 1);
                assert(b =~= a.push(key@[j as int]));
                if b.contains(GAP_MARKER) && !a.contains(GAP_MARKER) {
                    let q = choose|q: int| 0 <= q < b.len() && b[q] == GAP_MARKER;
                    assert(q == j);
                }
                if a.contains(GAP_MARKER) {
                    let q = choose|q: int| 0 <= q < a.len() && a[q] == GAP_MARKER;
                    assert(b[q] == GAP_MARKER);
                }
                if key@[j as int] == GAP_MARKER {
                    assert(b[j as int] == GAP_MARKER);
                }
            }
            assert(symbols@ =~= pattern_refs(key@.take(j as int + 1)));
            j = j + 1;
        }
        assert(key@.take(key@.len() as int) =~= key@);
        if has_marker {
            assert(t.last().0.contains(GAP_MARKER));
        }
        if !has_marker {
            proof {
                lemma_next_level_prefix(ng, i as int + 1, first, target_level);
            }
            let ghost prior = next_level_shapes(ng.take(i as int), first, target_level);
            assert(!t.last().0.contains(GAP_MARKER));
            let mut pat = Pattern::new_contiguous(*next_id, symbols, target_level);
            pat.frequency = freq;
            assert(shape(pat) == ((first + prior.len()) as u32, pattern_refs(key@), Seq::<GapConstraint>::empty(), freq, target_level));
            assert(next_level_shapes(t, first, target_level) == prior.push(shape(pat)));
            *next_id = *next_id + 1;
            let ghost before = r@.map_values(|p: Pattern| shape(p));
            r.push(pat);
            assert(r@.map_values(|p: Pattern| shape(p)) =~= before.push(shape(pat)));
        }
        i = i + 1;
    }
    assert(ng.take(n as int) =~= ng);
    r
}

/// The pattern-id sequences of a list of match histories.
pub open spec fn pid_corpus(logs: Seq<Vec<MatchStep>>, pats: Seq<Pattern>) -> Seq<Seq<u32>> {
    logs.map_values(|l: Vec<MatchStep>| ids_of(starts_by_position(l@, pats, true)))
}

/// The frequency threshold for next-level candidates: half the number of
/// sequences, but at least 2.
pub open spec fn level_min_freq(n_logs: int) -> usize {
    if n_logs / 2 > 2 {
        (n_logs / 2) as usize
    } else {
        2
    }
}

/// Proposes the patterns of the next level: each match history becomes the
/// sequence of pattern ids it starts (see `pid_sequence`), and every frequent
/// n-gram of those sequences without a gap marker becomes a contiguous
/// pattern over pattern references at level `level + 1`, numbered from
/// `*next_id` in rank order.
pub fn build_next_level_patterns(
    match_logs: &[Vec<MatchStep>],
    level_patterns: &[Pattern],
    level: usize,
    next_id: &mut u32,
) -> (r: Vec<Pattern>)
    requires
        level < usize::MAX,
        forall|k: Seq<u32>|
            #[trigger] corpus_frequency(pid_corpus(match_logs@, level_patterns@), k) <= u32::MAX,
        forall|ng: Seq<(Seq<u32>, u32)>|
            frequent_ngram_list(
                pid_corpus(match_logs@, level_patterns@),
                level_min_freq(match_logs@.len() as int),
                ng,
            ) ==> *old(next_id) + #[trigger] next_level_shapes(ng, *old(next_id) as int, (level + 1) as u8).len()
                <= u32::MAX,
    ensures
        exists|ng: Seq<(Seq<u32>, u32)>|
            frequent_ngram_list(
                pid_corpus(match_logs@, level_patterns@),
                level_min_freq(match_logs@.len() as int),
                ng,
            ) && r@.map_values(|p: Pattern| shape(p)) == next_level_shapes(
                ng,
                *old(next_id) as int,
                (level + 1) as u8,
            ),
        *final(next_id) == *old(next_id) + r@.len(),
        forall|k: int| 0 <= k < r@.len() ==> (#[trigger] r@[k]).wf(),
{
    let ghost pc = pid_corpus(match_logs@, level_patterns@);
    let mut pid_seqs: Vec<Vec<u32>> = Vec::new();
    let n = match_logs.len();
    let mut i: usize = 0;
    while i < n
        invariant
            n == match_logs@.len(),
            pc == pid_corpus(match_logs@, level_patterns@),
            i <= n,
            seqs_view(pid_seqs@) == pc.take(i as int),
        decreases n - i,
    {
        let ids = pid_sequence(match_logs[i].as_slice(), level_patterns);
        assert(pc[i as int] == ids@);
        let ghost before = seqs_view(pid_seqs@);
        pid_seqs.push(ids);
        assert(seqs_view(pid_seqs@) =~= before.push(ids@));
        assert(seqs_view(pid_seqs@) =~= pc.take(i as int + 1));
        i = i + 1;
    }
    assert(pc.take(n as int) =~= pc);
    let half = n / 2;
    let min_freq = if half > 2 {
        half
    } else {
        2
    };
    assert(min_freq == level_min_freq(n as int));
    assert forall|k: Seq<u32>| #[trigger] key_frequency(pid_seqs@, k) <= u32::MAX by {
        assert(corpus_frequency(pc, k) <= u32::MAX);
    }
    let ngrams = extract_frequent_ngrams(pid_seqs.as_slice(), min_freq);
    let target = (level + 1) as u8;
    let r = patterns_from_ngrams(ngrams.as_slice(), next_id, target);
    r
}

// ── Candidates of the atom level ─────────────────────────────────────────────

/// A gap-encoded candidate `[a, GAP_MARKER, gap, b]`.
pub open spec fn is_gap_candidate(ng: Seq<u32>) -> bool {
    ng.len() == 4 && ng[1] == GAP_MARKER
}

/// The atoms a candidate matches: the two flanking atoms of a gap candidate,
/// else the candidate itself.
pub open spec fn candidate_atom_ids(ng: Seq<u32>) -> Seq<u32> {
    if is_gap_candidate(ng) {
        seq![ng[0], ng[3]]
    } else {
        ng
    }
}

/// The atoms a candidate matches (see `candidate_atom_ids`).
pub fn candidate_atoms(ngram: &[u32]) -> (r: Vec<u32>)
    ensures
        r@ == candidate_atom_ids(ngram@),
{
    let mut r: Vec<u32> = Vec::new();
    if ngram.len() == 4 && ngram[1] == GAP_MARKER {
        r.push(ngram[0]);
        r.push(ngram[3]);
        assert(r@ =~= seq![ngram@[0], ngram@[3]]);
    } else {
        let mut i: usize = 0;
        while i < ngram.len()
            invariant
                i <= ngram@.len(),
                r@ == ngram@.take(i as int),
            decreases ngram@.len() - i,
        {
            r.push(ngram[i]);
            assert(r@ =~= ngram@.take(i as int + 1));
            i = i + 1;
        }
        assert(r@ =~= ngram@);
    }
    r
}

/// A list of ids seen as atom references.
pub open spec fn atom_refs(ids: Seq<u32>) -> Seq<SymbolRef> {
    ids.map_values(|id: u32| SymbolRef::Atom(id))
}

/// The level-0 pattern a candidate becomes: a two-atom gap pattern allowing
/// up to `gap` skipped positions for a gap candidate, else a contiguous
/// pattern over its atoms; its frequency is the candidate's count.
pub open spec fn candidate_shape(ng: Seq<u32>, id: u32, freq: u32) -> PatternShape {
    if is_gap_candidate(ng) {
        (id, seq![SymbolRef::Atom(ng[0]), SymbolRef::Atom(ng[3])], seq![GapConstraint { min: 0, max: ng[2] as usize }], freq, 0u8)
    } else {
        (id, atom_refs(ng), Seq::empty(), freq, 0u8)
    }
}

/// The level-0 pattern a candidate becomes (see `candidate_shape`).
pub fn pattern_from_candidate(ngram: &[u32], id: u32, freq: u32) -> (r: Pattern)
    ensures
        shape(r) == candidate_shape(ngram@, id, freq),
        r.wf(),
{
    if ngram.len() == 4 && ngram[1] == GAP_MARKER {
        let mut symbols: Vec<SymbolRef> = Vec::new();
        symbols.push(SymbolRef::Atom(ngram[0]));
        symbols.push(SymbolRef::Atom(ngram[3]));
        let mut gaps: Vec<GapConstraint> = Vec::new();
        gaps.push(GapConstraint::up_to(ngram[2] as usize));
        let mut p = Pattern::new_with_gaps(id, symbols, gaps, 0);
        p.frequency = freq;
        assert(p.symbols@ =~= seq![SymbolRef::Atom(ngram@[0]), SymbolRef::Atom(ngram@[3])]);
        assert(p.gaps@ =~= seq![GapConstraint { min: 0, max: ngram@[2] as usize }]);
        p
    } else {
        let mut symbols: Vec<SymbolRef> = Vec::new();
        let mut i: usize = 0;
        while i < ngram.len()
            invariant
                i <= ngram@.len(),
                symbols@ == atom_refs(ngram@.take(i as int)),
            decreases ngram@.len() - i,
        {
            symbols.push(SymbolRef::Atom(ngram[i]));
            assert(symbols@ =~= atom_refs(ngram@.take(i as int + 1)));
            i = i + 1;
        }
        assert(ngram@.take(ngram@.len() as int) =~= ngram@);
        let mut p = Pattern::new_contiguous(id, symbols, 0);
        p.frequency = freq;
        p
    }
}

/// The first id not used by any pattern of the grammar: one past the
/// largest id, or 0 for an empty grammar.
pub fn next_pattern_id(levels: &[GrammarLevel]) -> (r: u32)
    requires
        forall|l: int, p: int|
            0 <= l < levels@.len() && 0 <= p < levels@[l].patterns@.len() ==> (#[trigger] levels@[l].patterns@[p]).id
                < u32::MAX,
    ensures
        forall|l: int, p: int|
            0 <= l < levels@.len() && 0 <= p < levels@[l].patterns@.len() ==> (#[trigger] levels@[l].patterns@[p]).id
                < r,
        r == 0 || exists|l: int, p: int|
            0 <= l < levels@.len() && 0 <= p < levels@[l].patterns@.len()
                && #[trigger] levels@[l].patterns@[p].id + 1 == r,
{
    let mut best: u32 = 0;
    let nl = levels.len();
    let mut l: usize = 0;
    while l < nl
        invariant
            nl == levels@.len(),
            l <= nl,
            forall|a: int, p: int|
                0 <= a < levels@.len() && 0 <= p < levels@[a].patterns@.len() ==> (#[trigger] levels@[a].patterns@[p]).id
                    < u32::MAX,
            forall|a: int, p: int|
                0 <= a < l && 0 <= p < levels@[a].patterns@.len() ==> (#[trigger] levels@[a].patterns@[p]).id
                    < best,
            best == 0 || exists|a: int, p: int|
                0 <= a < levels@.len() && 0 <= p < levels@[a].patterns@.len()
                    && #[trigger] levels@[a].patterns@[p].id + 1 == best,
        decreases nl - l,
    {
        let pats = &levels[l].patterns;
        let np = pats.len();
        let mut p: usize = 0;
        while p < np
            invariant
                nl == levels@.len(),
                l < nl,
                pats@ == levels@[l as int].patterns@,
                np == pats@.len(),
                p <= np,
                forall|a: int, q: int|
                    0 <= a < levels@.len() && 0 <= q < levels@[a].patterns@.len() ==> (#[trigger] levels@[a].patterns@[q]).id
                        < u32::MAX,
                forall|a: int, q: int|
                    0 <= a < l && 0 <= q < levels@[a].patterns@.len() ==> (#[trigger] levels@[a].patterns@[q]).id
                        < best,
                forall|q: int| 0 <= q < p ==> (#[trigger] pats@[q]).id < best,
                best == 0 || exists|a: int, q: int|
                    0 <= a < levels@.len() && 0 <= q < levels@[a].patterns@.len()
                        && #[trigger] levels@[a].patterns@[q].id + 1 == best,
            decreases np - p,
        {
            let id = pats[p].id;
            assert(levels@[l as int].patterns@[p as int].id == id);
            if id + 1 > best {
                best = id + 1;
            }
            p = p + 1;
        }
        assert forall|a: int, q: int|
            0 <= a < l + 1 && 0 <= q < levels@[a].patterns@.len() implies (#[trigger] levels@[a].patterns@[q]).id
                < best by {
            if a == l as int {
                assert(pats@[q] == levels@[a].patterns@[q]);
            }
        }
        l = l + 1;
    }
    best
}

} // verus!
