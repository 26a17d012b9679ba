use vstd::prelude::*;
use crate::levels::{by_position, ids_of, insert_stable, lemma_insert_stable_at};
use crate::symbols::Pattern;
use crate::tally::name_ids;

verus! {

// ── Span-tracking partial alignments of the symbol engine ────────────────────

/// How completely an alignment explains the sequence and its patterns.
#[derive(Clone, Copy, Debug, PartialEq, Eq, Structural)]
pub enum AlignmentType {
    /// The sequence is fully covered and every used pattern fully appears.
    FullA,
    /// Every used pattern fully appears, but the sequence is not covered.
    FullB,
    /// Some used pattern does not fully appear among the covered symbols.
    Partial,
}

/// The coverage and cursor state of one partial alignment: for each known
/// pattern the last position matched in it and in the sequence, the
/// furthest sequence position covered, and which positions are covered.
#[derive(Clone, Debug)]
pub struct SpanState {
    pub old_cursors: Vec<Option<usize>>,
    pub new_cursors: Vec<Option<usize>>,
    pub max_covered_new: usize,
    pub covered_new: Vec<bool>,
}

/// Whether pattern `oi` may match its position `old_pos` at sequence position
/// `new_pos`: a pattern not yet used must start with its first symbol at or
/// after the furthest covered position; advancing within a used pattern must
/// continue right after its last sequence position; otherwise a position at
/// or after the pattern's last one may be matched again.
pub open spec fn span_extendable(st: SpanState, oi: int, old_pos: int, new_pos: int) -> bool {
    match st.old_cursors@[oi] {
        Some(prev_old) => if old_pos > prev_old {
            match st.new_cursors@[oi] {
                Some(prev_new) => new_pos == prev_new + 1,
                None => true,
            }
        } else {
            old_pos >= prev_old
        },
        None => old_pos == 0 && new_pos >= st.max_covered_new,
    }
}

impl SpanState {
    /// The vectors agree in size: one cursor pair per pattern.
    pub open spec fn wf(&self) -> bool {
        self.old_cursors@.len() == self.new_cursors@.len()
    }

    /// No pattern used and nothing covered in a sequence of `new_len` symbols.
    pub fn new(new_len: usize, n_old: usize) -> (r: Self)
        ensures
            r.wf(),
            r.old_cursors@ == Seq::new(n_old as nat, |i: int| None::<usize>),
            r.new_cursors@ == Seq::new(n_old as nat, |i: int| None::<usize>),
            r.max_covered_new == 0,
            r.covered_new@ == Seq::new(new_len as nat, |i: int| false),
    {
        let mut old_cursors: Vec<Option<usize>> = Vec::new();
        let mut new_cursors: Vec<Option<usize>> = Vec::new();
        let mut k: usize = 0;
        while k < n_old
            invariant
                k <= n_old,
                old_cursors@ == Seq::new(k as nat, |i: int| None::<usize>),
                new_cursors@ == Seq::new(k as nat, |i: int| None::<usize>),
            decreases n_old - k,
        {
            old_cursors.push(None);
            new_cursors.push(None);
            k = k + 1;
            assert(old_cursors@ =~= Seq::new(k as nat, |i: int| None::<usize>));
            assert(new_cursors@ =~= Seq::new(k as nat, |i: int| None::<usize>));
        }
        let mut covered_new: Vec<bool> = Vec::new();
        let mut j: usize = 0;
        while j < new_len
            invariant
                j <= new_len,
                covered_new@ == Seq::new(j as nat, |i: int| false),
            decreases new_len - j,
        {
            covered_new.push(false);
            j = j + 1;
            assert(covered_new@ =~= Seq::new(j as nat, |i: int| false));
        }
        SpanState { old_cursors, new_cursors, max_covered_new: 0, covered_new }
    }

    /// See `span_extendable`.
    pub fn can_extend(&self, oi: usize, old_pos: usize, new_pos: usize) -> (r: bool)
        requires
            self.wf(),
            oi < self.old_cursors@.len(),
        ensures
            r == span_extendable(*self, oi as int, old_pos as int, new_pos as int),
    {
        match self.old_cursors[oi] {
            Some(prev_old) => {
                if old_pos > prev_old {
                    match self.new_cursors[oi] {
                        Some(prev_new) => prev_new < usize::MAX && new_pos == prev_new + 1,
                        None => true,
                    }
                } else {
                    old_pos >= prev_old
                }
            },
            None => old_pos == 0 && new_pos >= self.max_covered_new,
        }
    }

    /// Records that position `old_pos` of pattern `oi` covers sequence
    /// position `new_pos`.
    pub fn extend_match(&mut self, oi: usize, old_pos: usize, new_pos: usize)
        requires
            old(self).wf(),
            oi < old(self).old_cursors@.len(),
            new_pos < old(self).covered_new@.len(),
        ensures
            final(self).wf(),
            final(self).covered_new@ == old(self).covered_new@.update(new_pos as int, true),
            final(self).old_cursors@ == old(self).old_cursors@.update(oi as int, Some(old_pos)),
            final(self).new_cursors@ == old(self).new_cursors@.update(oi as int, Some(new_pos)),
            final(self).max_covered_new == if new_pos > old(self).max_covered_new {
                new_pos
            } else {
                old(self).max_covered_new
            },
    {
        self.covered_new.set(new_pos, true);
        self.old_cursors.set(oi, Some(old_pos));
        self.new_cursors.set(oi, Some(new_pos));
        if new_pos > self.max_covered_new {
            self.max_covered_new = new_pos;
        }
    }

    /// The patterns with a cursor, in increasing index order.
    pub fn used_patterns(&self) -> (r: Vec<usize>)
        ensures
            forall|i: int, j: int| 0 <= i < j < r@.len() ==> r@[i] < r@[j],
            forall|i: int| 0 <= i < r@.len() ==> (#[trigger] r@[i]) < self.old_cursors@.len() && self.old_cursors@[r@[i] as int] is Some,
            forall|k: int| 0 <= k < self.old_cursors@.len() && self.old_cursors@[k] is Some ==> r@.contains(k as usize),
    {
        let n = self.old_cursors.len();
        let mut r: Vec<usize> = Vec::new();
        let mut k: usize = 0;
        while k < n
            invariant
                n == self.old_cursors@.len(),
                k <= n,
                forall|i: int, j: int| 0 <= i < j < r@.len() ==> r@[i] < r@[j],
                forall|i: int| 0 <= i < r@.len() ==> (#[trigger] r@[i]) < k && self.old_cursors@[r@[i] as int] is Some,
                forall|x: int| 0 <= x < k && self.old_cursors@[x] is Some ==> r@.contains(x as usize),
            decreases n - k,
        {
            let ghost before = r@;
            if self.old_cursors[k].is_some() {
                r.push(k);
                assert(r@[r@.len() - 1] == k);
            }
            assert forall|x: int| 0 <= x < k + 1 && self.old_cursors@[x] is Some implies r@.contains(x as usize) by {
                if x == k {
                    assert(r@[r@.len() - 1] == k);
                } else {
                    assert(before.contains(x as usize));
                    let i = choose|i: int| 0 <= i < before.len() && before[i] == x as usize;
                    assert(r@[i] == before[i]);
                }
            }
            k = k + 1;
        }
        r
    }

    /// Classifies the alignment of `new` against the patterns `old` (see
    /// `alignment_type_of`).
    pub fn alignment_type(&self, new: &[u32], old: &[Vec<u32>]) -> (r: AlignmentType)
        requires
            self.wf(),
            self.old_cursors@.len() <= old@.len(),
            self.covered_new@.len() == new@.len(),
        ensures
            r == alignment_type_of(*self, new@, old@.map_values(|v: Vec<u32>| v@)),
    {
        let ghost ov = old@.map_values(|v: Vec<u32>| v@);
        let n = new.len();
        let mut fully: bool = true;
        let mut i: usize = 0;
        while i < n
            invariant
                n == new@.len(),
                n == self.covered_new@.len(),
                i <= n,
                fully == forall|k: int| 0 <= k < i ==> self.covered_new@[k],
            decreases n - i,
        {
            if !self.covered_new[i] {
                fully = false;
            }
            i = i + 1;
        }
        let used = self.used_patterns();
        let nc = self.old_cursors.len();
        let mut all_matched: bool = true;
        let nu = used.len();
        let mut u: usize = 0;
        while u < nu
            invariant
                nu == used@.len(),
                u <= nu,
                n == new@.len(),
                self.old_cursors@.len() <= old@.len(),
                self.covered_new@.len() == new@.len(),
                ov == old@.map_values(|v: Vec<u32>| v@),
                forall|a: int| 0 <= a < used@.len() ==> (#[trigger] used@[a]) < self.old_cursors@.len() && self.old_cursors@[used@[a] as int] is Some,
                forall|k: int| 0 <= k < self.old_cursors@.len() && self.old_cursors@[k] is Some ==> used@.contains(k as usize),
                all_matched == forall|a: int| 0 <= a < u ==> pattern_appears(*self, new@, #[trigger] ov[used@[a] as int]),
            decreases nu - u,
        {
            let oi = used[u];
            let pat = &old[oi];
            assert(ov[oi as int] == pat@);
            let mut all: bool = true;
            let mut q: usize = 0;
            while q < pat.len()
                invariant
                    q <= pat@.len(),
                    n == new@.len(),
                    self.covered_new@.len() == new@.len(),
                    all == forall|x: int| 0 <= x < q ==> covered_holds(*self, new@, #[trigger] pat@[x]),
                decreases pat@.len() - q,
            {
                let sym = pat[q];
                let mut found: bool = false;
                let mut p: usize = 0;
                while p < n
                    invariant
                        n == new@.len(),
                        n == self.covered_new@.len(),
                        p <= n,
                        found == exists|k: int| 0 <= k < p && self.covered_new@[k] && new@[k] == sym,
                    decreases n - p,
                {
                    if self.covered_new[p] && new[p] == sym {
                        found = true;
                    }
                    p = p + 1;
                }
                if !found {
                    all = false;
                }
                q = q + 1;
            }
            if !all {
                all_matched = false;
            }
            u = u + 1;
        }
        proof {
            assert(all_matched == forall|k: int|
                0 <= k < self.old_cursors@.len() && self.old_cursors@[k] is Some ==> pattern_appears(*self, new@, ov[k])) by {
                if all_matched {
                    assert forall|k: int| 0 <= k < self.old_cursors@.len() && self.old_cursors@[k] is Some implies pattern_appears(
                        *self,
                        new@,
                        ov[k],
                    ) by {
                        assert(k < nc);
                        assert(used@.contains(k as usize));
                        let a = choose|a: int| 0 <= a < used@.len() && used@[a] == k as usize;
                        assert(pattern_appears(*self, new@, ov[used@[a] as int]));
                        assert(used@[a] as int == k);
                    }
                } else {
                    let a = choose|a: int| 0 <= a < used@.len() && !pattern_appears(*self, new@, #[trigger] ov[used@[a] as int]);
                    assert(self.old_cursors@[used@[a] as int] is Some);
                }
            }
        }
        if fully && all_matched {
            AlignmentType::FullA
        } else if !fully && all_matched {
            AlignmentType::FullB
        } else {
            AlignmentType::Partial
        }
    }
}

/// Some covered position of the sequence holds `sym`.
pub open spec fn covered_holds(st: SpanState, new: Seq<u32>, sym: u32) -> bool {
    exists|k: int| 0 <= k < new.len() && st.covered_new@[k] && new[k] == sym
}

/// Every symbol of the pattern is held by some covered position.
pub open spec fn pattern_appears(st: SpanState, new: Seq<u32>, pat: Seq<u32>) -> bool {
    forall|x: int| 0 <= x < pat.len() ==> covered_holds(st, new, #[trigger] pat[x])
}

/// `FullA` if the sequence is fully covered and every used pattern appears
/// among the covered symbols, `FullB` if only the latter holds, else
/// `Partial`.
pub open spec fn alignment_type_of(st: SpanState, new: Seq<u32>, old: Seq<Seq<u32>>) -> AlignmentType {
    let fully = forall|k: int| 0 <= k < new.len() ==> st.covered_new@[k];
    let all_matched = forall|k: int|
        0 <= k < st.old_cursors@.len() && st.old_cursors@[k] is Some ==> pattern_appears(st, new, old[k]);
    if fully && all_matched {
        AlignmentType::FullA
    } else if !fully && all_matched {
        AlignmentType::FullB
    } else {
        AlignmentType::Partial
    }
}

// ── Pattern-id sequences of the symbol engine ────────────────────────────────

/// The first position from `i` on that is covered and holds a symbol of
/// `row`.
pub open spec fn first_cover(ids: Seq<u32>, covered: Seq<bool>, row: Seq<u32>, i: int) -> Option<usize>
    decreases ids.len() - i,
{
    if i < 0 || i >= ids.len() {
        None
    } else if covered[i] && row.contains(ids[i]) {
        Some(i as usize)
    } else {
        first_cover(ids, covered, row, i + 1)
    }
}

/// For each used pattern, in order, its id and the first covered position
/// holding one of its symbols (patterns with none are left out), ordered by
/// that position, equal positions in order of use.
pub open spec fn cover_starts(ids: Seq<u32>, covered: Seq<bool>, used: Seq<usize>, pats: Seq<Pattern>) -> Seq<(u32, usize)>
    decreases used.len(),
{
    if used.len() == 0 {
        Seq::empty()
    } else {
        let prior = cover_starts(ids, covered, used.drop_last(), pats);
        let oi = used.last() as int;
        match first_cover(ids, covered, name_ids(pats[oi]), 0) {
            Some(start) => insert_stable(prior, (pats[oi].pattern_id, start)),
            None => prior,
        }
    }
}

/// The first position from `from` on that is covered and holds a symbol of
/// `pat`.
fn find_first_cover(ids: &[u32], covered: &[bool], pat: &Pattern) -> (r: Option<usize>)
    requires
        covered@.len() >= ids@.len(),
    ensures
        r == first_cover(ids@, covered@, name_ids(*pat), 0),
{
    let ghost row = name_ids(*pat);
    let n = ids.len();
    let mut i: usize = 0;
    while i < n
        invariant
            n == ids@.len(),
            covered@.len() >= ids@.len(),
            row == name_ids(*pat),
            i <= n,
            first_cover(ids@, covered@, row, 0) == first_cover(ids@, covered@, row, i as int),
        decreases n - i,
    {
        if covered[i] {
            let sym = ids[i];
            let mut hit = false;
            let mut k: usize = 0;
            while k < pat.symbols.len()
                invariant
                    k <= pat.symbols@.len(),
                    row == name_ids(*pat),
                    hit == exists|x: int| 0 <= x < k && row[x] == sym,
                decreases pat.symbols@.len() - k,
            {
                assert(row[k as int] == pat.symbols@[k as int].name);
                if pat.symbols[k].name == sym {
                    hit = true;
                }
                k = k + 1;
            }
            assert(hit == row.contains(sym));
            if hit {
                return Some(i);
            }
        }
        i = i + 1;
    }
    None
}

/// The ids of the used patterns ordered by the first covered position that
/// holds one of their symbols (see `cover_starts`).
pub fn cover_pid_sequence(ids: &[u32], covered: &[bool], used: &[usize], old_pats: &[Pattern]) -> (r: Vec<u32>)
    requires
        covered@.len() >= ids@.len(),
        forall|u: int| 0 <= u < used@.len() ==> (#[trigger] used@[u]) < old_pats@.len(),
    ensures
        r@ == ids_of(cover_starts(ids@, covered@, used@, old_pats@)),
{
    let mut out: Vec<(u32, usize)> = Vec::new();
    let nu = used.len();
    let mut u: usize = 0;
    assert(used@.take(0) =~= Seq::<usize>::empty());
    while u < nu
        invariant
            nu == used@.len(),
            u <= nu,
            covered@.len() >= ids@.len(),
            forall|x: int| 0 <= x < used@.len() ==> (#[trigger] used@[x]) < old_pats@.len(),
            out@ == cover_starts(ids@, covered@, used@.take(u as int), old_pats@),
            by_position(out@),
        decreases nu - u,
    {
        let oi = used[u];
        let ghost prior = out@;
        assert(used@.take(u as int + 1).drop_last() =~= used@.take(u as int));
        assert(used@.take(u as int + 1).last() == oi);
        match find_first_cover(ids, covered, &old_pats[oi]) {
            Some(start) => {
                let x = (old_pats[oi].pattern_id, start);
                let mut p: usize = out.len();
                while p > 0 && out[p - 1].1 > start
                    invariant
                        p <= out@.len(),
                        by_position(out@),
                        forall|i: int| p <= i < out@.len() ==> (#[trigger] out@[i]).1 > start,
                    decreases p,
                {
                    p = p - 1;
                }
                proof {
                    assert forall|i: int| 0 <= i < p implies (#[trigger] out@[i]).1 <= x.1 by {
                        if p > 0 {
                            assert(out@[p - 1].1 <= x.1);
                        }
                    }
                    lemma_insert_stable_at(prior, x, p as int);
                }
                out.insert(p, x);
            },
            None => {},
        }
        u = u + 1;
    }
    assert(used@.take(nu as int) =~= used@);
    let mut r: Vec<u32> = Vec::new();
    let n = out.len();
    let mut i: usize = 0;
    while i < n
        invariant
            n == out@.len(),
            i <= n,
            r@ == ids_of(out@.take(i as int)),
        decreases n - i,
    {
        r.push(out[i].0);
        assert(r@ =~= ids_of(out@.take(i as int + 1)));
        i = i + 1;
    }
    assert(out@.take(n as int) =~= out@);
    r
}

} // verus!
