use vstd::prelude::*;
use crate::induce::sat_sub;
use crate::model::{GapConstraint, Pattern};

verus! {

// ── Match steps and their history ────────────────────────────────────────────

/// One matched symbol: position `old_pos` of pattern `old_idx` covers
/// position `new_pos` of the sequence being aligned.
#[derive(Clone, Copy, Debug, PartialEq, Eq, Structural)]
pub struct MatchStep {
    pub old_idx: usize,
    pub old_pos: usize,
    pub new_pos: usize,
}

/// The steps on the path ending at node `i`, from the root down to `i`.
pub open spec fn chain(nodes: Seq<(MatchStep, Option<u32>)>, i: int) -> Seq<MatchStep>
    decreases i + 1,
{
    if i < 0 || i >= nodes.len() {
        Seq::empty()
    } else {
        match nodes[i].1 {
            Some(p) => if (p as int) < i {
                chain(nodes, p as int).push(nodes[i].0)
            } else {
                seq![nodes[i].0]
            },
            None => seq![nodes[i].0],
        }
    }
}

/// The steps on the path ending at `tail` (none for `None`).
pub open spec fn history(nodes: Seq<(MatchStep, Option<u32>)>, tail: Option<u32>) -> Seq<MatchStep> {
    match tail {
        Some(i) => chain(nodes, i as int),
        None => Seq::empty(),
    }
}

proof fn lemma_chain_push(nodes: Seq<(MatchStep, Option<u32>)>, x: (MatchStep, Option<u32>), i: int)
    requires
        0 <= i < nodes.len(),
    ensures
        chain(nodes.push(x), i) == chain(nodes, i),
    decreases i + 1,
{
    let np = nodes.push(x);
    assert(np[i] == nodes[i]);
    match nodes[i].1 {
        Some(p) => {
            if (p as int) < i {
                lemma_chain_push(nodes, x, p as int);
            }
        },
        None => {},
    }
}

/// Adding a node to the arena leaves the history of every existing node as
/// it was, and the new node's history is its parent's followed by its step.
pub proof fn law_push_keeps_histories(
    nodes: Seq<(MatchStep, Option<u32>)>,
    step: MatchStep,
    parent: Option<u32>,
    i: int,
)
    requires
        nodes.len() < u32::MAX,
        match parent {
            Some(p) => p < nodes.len(),
            None => true,
        },
    ensures
        0 <= i < nodes.len() ==> chain(nodes.push((step, parent)), i) == chain(nodes, i),
        history(nodes.push((step, parent)), Some(nodes.len() as u32)) == history(nodes, parent).push(step),
{
    let np = nodes.push((step, parent));
    if 0 <= i < nodes.len() {
        lemma_chain_push(nodes, (step, parent), i);
    }
    assert(np[nodes.len() as int] == (step, parent));
    match parent {
        Some(p) => {
            lemma_chain_push(nodes, (step, parent), p as int);
        },
        None => {
            assert(history(nodes, parent) =~= Seq::<MatchStep>::empty());
            assert(seq![step] =~= Seq::<MatchStep>::empty().push(step));
        },
    }
}

/// Shared storage for the match histories of many partial alignments: each
/// node holds one step and a link to the node before it.
pub struct MatchArena {
    nodes: Vec<(MatchStep, Option<u32>)>,
}

impl View for MatchArena {
    type V = Seq<(MatchStep, Option<u32>)>;

    closed spec fn view(&self) -> Seq<(MatchStep, Option<u32>)> {
        self.nodes@
    }
}

impl MatchArena {
    #[verifier::type_invariant]
    spec fn inv(self) -> bool {
        &&& self.nodes@.len() <= u32::MAX
        &&& forall|i: int|
            0 <= i < self.nodes@.len() ==> match (#[trigger] self.nodes@[i]).1 {
                Some(p) => (p as int) < i,
                None => true,
            }
    }

    pub fn new() -> (r: Self)
        ensures
            r@ == Seq::<(MatchStep, Option<u32>)>::empty(),
    {
        MatchArena { nodes: Vec::new() }
    }

    /// The number of nodes.
    pub fn len(&self) -> (r: usize)
        ensures
            r == self@.len(),
            r <= u32::MAX,
    {
        proof {
            use_type_invariant(self);
        }
        self.nodes.len()
    }

    /// Appends a node holding `step` after `parent`; returns its index.
    pub fn push(&mut self, step: MatchStep, parent: Option<u32>) -> (idx: u32)
        requires
            old(self)@.len() < u32::MAX,
            match parent {
                Some(p) => p < old(self)@.len(),
                None => true,
            },
        ensures
            final(self)@ == old(self)@.push((step, parent)),
            idx == old(self)@.len(),
    {
        proof {
            use_type_invariant(&*self);
        }
        let idx = self.nodes.len() as u32;
        let mut nodes: Vec<(MatchStep, Option<u32>)> = Vec::new();
        std::mem::swap(&mut nodes, &mut self.nodes);
        nodes.push((step, parent));
        self.nodes = nodes;
        idx
    }

    /// The steps on the path ending at `tail`, first step first.
    pub fn collect(&self, tail: Option<u32>) -> (r: Vec<MatchStep>)
        requires
            match tail {
                Some(i) => i < self@.len(),
                None => true,
            },
        ensures
            r@ == history(self@, tail),
    {
        proof {
            use_type_invariant(self);
        }
        let mut rev: Vec<MatchStep> = Vec::new();
        let mut cur = tail;
        while cur.is_some()
            invariant
                forall|i: int|
                    0 <= i < self.nodes@.len() ==> match (#[trigger] self.nodes@[i]).1 {
                        Some(p) => (p as int) < i,
                        None => true,
                    },
                match cur {
                    Some(i) => i < self@.len(),
                    None => true,
                },
                history(self@, tail) == history(self@, cur).add(rev@.reverse()),
            decreases match cur {
                Some(i) => i as int + 1,
                None => 0,
            },
        {
            let i = cur.unwrap();
            let node = self.nodes[i as usize];
            let ghost old_rev = rev@;
            rev.push(node.0);
            assert(rev@.reverse() =~= seq![node.0].add(old_rev.reverse()));
            assert(history(self@, cur) =~= history(self@, node.1).push(node.0));
            assert(history(self@, cur).add(old_rev.reverse()) =~= history(self@, node.1).add(
                rev@.reverse(),
            ));
            cur = node.1;
        }
        let mut out: Vec<MatchStep> = Vec::new();
        let n = rev.len();
        let mut k: usize = 0;
        while k < n
            invariant
                n == rev@.len(),
                k <= n,
                out@ == rev@.reverse().take(k as int),
            decreases n - k,
        {
            out.push(rev[n - 1 - k]);
            assert(out@ =~= rev@.reverse().take(k as int + 1));
            k = k + 1;
        }
        assert(out@ =~= rev@.reverse());
        assert(history(self@, None) =~= Seq::<MatchStep>::empty());
        assert(history(self@, tail) =~= rev@.reverse());
        out
    }
}

// ── Coverage and cursors of a partial alignment ──────────────────────────────

/// The longest sequence a partial alignment can track.
pub const MAX_BITMASK_SYMBOLS: usize = 512;

/// Bit `b` of word `w`.
pub open spec fn bit_of(w: u64, b: u64) -> bool {
    (w >> b) & 1u64 == 1u64
}

/// Position `i` is marked in the bit words `words`.
pub open spec fn marked(words: Seq<u64>, i: int) -> bool {
    bit_of(words[i / 64], (i % 64) as u64)
}

/// The number of `true` entries.
pub open spec fn count_true(s: Seq<bool>) -> nat
    decreases s.len(),
{
    if s.len() == 0 {
        0
    } else {
        count_true(s.drop_last()) + if s.last() {
            1nat
        } else {
            0nat
        }
    }
}

proof fn lemma_bit_set(w: u64, b: u64, c: u64)
    requires
        b < 64,
        c < 64,
    ensures
        bit_of(w | (1u64 << b), c) == (c == b || bit_of(w, c)),
{
    assert(((w | (1u64 << b)) >> c) & 1u64 == 1u64 <==> (c == b || (w >> c) & 1u64 == 1u64))
        by (bit_vector)
        requires
            b < 64,
            c < 64,
    ;
}

proof fn lemma_bit_zero(c: u64)
    requires
        c < 64,
    ensures
        !bit_of(0u64, c),
{
    assert((0u64 >> c) & 1u64 != 1u64) by (bit_vector);
}

proof fn lemma_bit_test(w: u64, b: u64)
    requires
        b < 64,
    ensures
        (w & (1u64 << b) != 0) == bit_of(w, b),
{
    assert((w & (1u64 << b) != 0) == ((w >> b) & 1u64 == 1u64)) by (bit_vector)
        requires
            b < 64,
    ;
}

/// What a cursor entry means: `u16::MAX` marks a pattern not started yet.
pub open spec fn cursor_of(c: u16) -> Option<int> {
    if c == 0xffffu16 {
        None
    } else {
        Some(c as int)
    }
}

/// Whether position `old_pos` of `pat` (pattern `old_idx`) may cover
/// position `new_pos`, given the cursors and the highest covered position.
///
/// A pattern not yet started must start at its first symbol, at or after the
/// highest covered position. Restarting a started pattern obeys the same
/// rule. Advancing within a contiguous pattern must cover the very next
/// position; advancing within a gap pattern must skip a number of positions
/// allowed by the gap constraint.
pub open spec fn extendable(
    cursors: Seq<Option<int>>,
    max_covered: int,
    old_idx: int,
    old_pos: int,
    new_pos: int,
    pat: Pattern,
) -> bool {
    match cursors[old_idx] {
        None => old_pos == 0 && new_pos >= max_covered,
        Some(prev) => if old_pos == 0 {
            new_pos >= max_covered
        } else if pat.gaps@.len() == 0 {
            new_pos == prev + 1
        } else {
            let gap: GapConstraint = pat.gaps@[old_pos - 1];
            let skip = sat_sub(new_pos, prev + 1);
            gap.min <= skip && skip <= gap.max
        },
    }
}

/// A pattern starts, or starts again after it has matched, only at its first
/// symbol and only at or after the furthest covered position: a pattern that
/// has matched may match again from its first symbol anywhere from there on.
pub proof fn law_start_or_restart(cursors: Seq<Option<int>>, max_covered: int, oi: int, new_pos: int, pat: Pattern)
    requires
        0 <= oi < cursors.len(),
    ensures
        extendable(cursors, max_covered, oi, 0, new_pos, pat) <==> new_pos >= max_covered,
{
}

/// After a match of pattern `oi` at `p` is recorded (its cursor set to `p`
/// and the furthest covered position raised to `p` if needed), the pattern
/// may match again from its first symbol at every position from the new
/// furthest covered position on, and at no position before it.
pub proof fn law_restart_after_record(
    cursors: Seq<Option<int>>,
    max_covered: int,
    oi: int,
    p: int,
    q: int,
    pat: Pattern,
)
    requires
        0 <= oi < cursors.len(),
    ensures
        extendable(
            cursors.update(oi, Some(p)),
            if p > max_covered { p } else { max_covered },
            oi,
            0,
            q,
            pat,
        ) <==> (q >= p && q >= max_covered),
{
}

/// Within a started pattern, a later symbol of a contiguous pattern must come
/// right after the previous one, and a later symbol of a gap pattern must
/// skip a number of positions within its constraint.
pub proof fn law_advance(cursors: Seq<Option<int>>, max_covered: int, oi: int, old_pos: int, new_pos: int, pat: Pattern)
    requires
        0 <= oi < cursors.len(),
        cursors[oi] is Some,
        old_pos > 0,
    ensures
        pat.gaps@.len() == 0 ==> (extendable(cursors, max_covered, oi, old_pos, new_pos, pat) <==> new_pos
            == cursors[oi]->0 + 1),
        pat.gaps@.len() > 0 && new_pos > cursors[oi]->0 ==> (extendable(cursors, max_covered, oi, old_pos, new_pos, pat)
            <==> (pat.gaps@[old_pos - 1].min <= new_pos - cursors[oi]->0 - 1 <= pat.gaps@[old_pos - 1].max)),
{
}

/// Which positions of a sequence a partial alignment covers, how far each
/// pattern has advanced, and the highest covered position.
#[derive(Clone)]
pub struct MatchState {
    new_cursors: Vec<u16>,
    covered: Vec<u64>,
    new_len: usize,
    max_covered_new: usize,
}

impl MatchState {
    /// Internal consistency: eight coverage words with no bit set at or past
    /// the sequence length, and cursors inside the sequence.
    pub closed spec fn wf(&self) -> bool {
        &&& self.covered@.len() == 8
        &&& self.new_len <= MAX_BITMASK_SYMBOLS
        &&& forall|i: int| 0 <= i < 512 && #[trigger] marked(self.covered@, i) ==> i < self.new_len
        &&& forall|k: int|
            0 <= k < self.new_cursors@.len() ==> (#[trigger] self.new_cursors@[k] == 0xffffu16
                || (self.new_cursors@[k] as int) < self.new_len)
    }

    /// The length of the sequence being aligned.
    pub closed spec fn seq_len(&self) -> nat {
        self.new_len as nat
    }

    /// Which positions are covered.
    pub closed spec fn covered_view(&self) -> Seq<bool> {
        Seq::new(self.new_len as nat, |i: int| marked(self.covered@, i))
    }

    /// For each pattern, the last position it covered, if any.
    pub closed spec fn cursors(&self) -> Seq<Option<int>> {
        self.new_cursors@.map_values(|c: u16| cursor_of(c))
    }

    /// The highest covered position (0 when nothing is covered).
    pub closed spec fn max_covered(&self) -> int {
        self.max_covered_new as int
    }

    /// The coverage words.
    pub closed spec fn words(&self) -> Seq<u64> {
        self.covered@
    }

    /// Nothing covered, no pattern started.
    pub fn new(new_len: usize, n_pats: usize) -> (r: Self)
        requires
            new_len <= MAX_BITMASK_SYMBOLS,
        ensures
            r.wf(),
            r.seq_len() == new_len,
            r.covered_view() == Seq::new(new_len as nat, |i: int| false),
            r.cursors() == Seq::new(n_pats as nat, |i: int| None::<int>),
            r.max_covered() == 0,
    {
        let mut covered: Vec<u64> = Vec::new();
        let mut w: usize = 0;
        while w < 8
            invariant
                w <= 8,
                covered@.len() == w,
                forall|k: int| 0 <= k < w ==> covered@[k] == 0u64,
            decreases 8 - w,
        {
            covered.push(0u64);
            w = w + 1;
        }
        let mut new_cursors: Vec<u16> = Vec::new();
        let mut k: usize = 0;
        while k < n_pats
            invariant
                k <= n_pats,
                new_cursors@.len() == k,
                forall|j: int| 0 <= j < k ==> new_cursors@[j] == 0xffffu16,
            decreases n_pats - k,
        {
            new_cursors.push(0xffffu16);
            k = k + 1;
        }
        let r = MatchState { new_cursors, covered, new_len, max_covered_new: 0 };
        assert forall|i: int| 0 <= i < 512 implies !#[trigger] marked(r.covered@, i) by {
            lemma_bit_zero((i % 64) as u64);
        }
        assert(r.covered_view() =~= Seq::new(new_len as nat, |i: int| false));
        assert(r.cursors() =~= Seq::new(n_pats as nat, |i: int| None::<int>));
        r
    }

    /// The length of the sequence being aligned.
    pub fn seq_len_exec(&self) -> (r: usize)
        ensures
            r == self.seq_len(),
    {
        self.new_len
    }

    /// Whether `pattern` (number `old_idx`) may cover `new_pos` with its
    /// symbol at `old_pos`.
    pub fn can_extend(&self, old_idx: usize, old_pos: usize, new_pos: usize, pattern: &Pattern) -> (r:
        bool)
        requires
            self.wf(),
            old_idx < self.cursors().len(),
            self.cursors()[old_idx as int] is Some && old_pos != 0 && pattern.gaps@.len() != 0
                ==> old_pos - 1 < pattern.gaps@.len(),
        ensures
            r == extendable(
                self.cursors(),
                self.max_covered(),
                old_idx as int,
                old_pos as int,
                new_pos as int,
                *pattern,
            ),
    {
        let prev_raw = self.new_cursors[old_idx];
        assert(self.cursors()[old_idx as int] == cursor_of(prev_raw));
        if prev_raw == 0xffffu16 {
            old_pos == 0 && new_pos >= self.max_covered_new
        } else {
            let prev_new = prev_raw as usize;
            if old_pos == 0 {
                new_pos >= self.max_covered_new
            } else if pattern.gaps.len() == 0 {
                new_pos == prev_new + 1
            } else {
                let gap = pattern.gaps[old_pos - 1];
                let skip = if new_pos >= prev_new + 1 {
                    new_pos - (prev_new + 1)
                } else {
                    0
                };
                skip >= gap.min && skip <= gap.max
            }
        }
    }

    /// Records that pattern `old_idx` covered `new_pos`.
    pub fn record(&mut self, old_idx: usize, new_pos: usize)
        requires
            old(self).wf(),
            old_idx < old(self).cursors().len(),
            new_pos < old(self).seq_len(),
        ensures
            final(self).wf(),
            final(self).seq_len() == old(self).seq_len(),
            final(self).covered_view() == old(self).covered_view().update(new_pos as int, true),
            final(self).cursors() == old(self).cursors().update(old_idx as int, Some(new_pos as int)),
            final(self).max_covered() == if new_pos > old(self).max_covered() {
                new_pos as int
            } else {
                old(self).max_covered()
            },
    {
        let ghost before = self.covered@;
        let ghost cv = self.covered_view();
        let ghost cur = self.cursors();
        let w = new_pos / 64;
        let b = (new_pos % 64) as u64;
        let old_word = self.covered[w];
        self.covered[w] = old_word | (1u64 << b);
        proof {
            assert forall|i: int| 0 <= i < 512 implies #[trigger] marked(self.covered@, i) == (i
                == new_pos || marked(before, i)) by {
                if i / 64 == w as int {
                    lemma_bit_set(old_word, b, (i % 64) as u64);
                } else {
                    assert(self.covered@[i / 64] == before[i / 64]);
                }
            }
        }
        self.new_cursors[old_idx] = new_pos as u16;
        if new_pos > self.max_covered_new {
            self.max_covered_new = new_pos;
        }
        assert(self.covered_view() =~= cv.update(new_pos as int, true));
        assert(self.cursors() =~= cur.update(old_idx as int, Some(new_pos as int)));
    }

    /// Whether position `i` is covered.
    pub fn is_covered(&self, i: usize) -> (r: bool)
        requires
            self.wf(),
            i < self.seq_len(),
        ensures
            r == self.covered_view()[i as int],
    {
        let b = (i % 64) as u64;
        proof {
            lemma_bit_test(self.covered@[(i / 64) as int], b);
        }
        self.covered[i / 64] & (1u64 << b) != 0
    }

    /// Which positions are covered, as flags.
    pub fn covered_flags(&self) -> (r: Vec<bool>)
        requires
            self.wf(),
        ensures
            r@ == self.covered_view(),
    {
        let mut r: Vec<bool> = Vec::new();
        let n = self.new_len;
        let mut i: usize = 0;
        while i < n
            invariant
                self.wf(),
                n == self.seq_len(),
                i <= n,
                r@ == self.covered_view().take(i as int),
            decreases n - i,
        {
            let c = self.is_covered(i);
            r.push(c);
            assert(r@ =~= self.covered_view().take(i as int + 1));
            i = i + 1;
        }
        assert(r@ =~= self.covered_view());
        r
    }

    /// The number of covered positions.
    pub fn covered_count(&self) -> (r: usize)
        requires
            self.wf(),
        ensures
            r == count_true(self.covered_view()),
    {
        let n = self.new_len;
        let mut total: usize = 0;
        let mut i: usize = 0;
        while i < n
            invariant
                self.wf(),
                n == self.seq_len(),
                i <= n,
                total == count_true(self.covered_view().take(i as int)),
                total <= i,
            decreases n - i,
        {
            let c = self.is_covered(i);
            assert(self.covered_view().take(i as int + 1).drop_last() =~= self.covered_view().take(
                i as int,
            ));
            if c {
                total = total + 1;
            }
            i = i + 1;
        }
        assert(self.covered_view().take(n as int) =~= self.covered_view());
        total
    }

    /// The coverage as eight bit words: bit `i % 64` of word `i / 64` is set
    /// exactly when position `i` is covered.
    pub fn coverage_words(&self) -> (r: &[u64])
        requires
            self.wf(),
        ensures
            r@ == self.words(),
            r@.len() == 8,
            forall|i: int|
                0 <= i < 512 ==> #[trigger] marked(r@, i) == (i < self.seq_len()
                    && self.covered_view()[i]),
    {
        self.covered.as_slice()
    }
}

} // verus!
