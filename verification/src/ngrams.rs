use vstd::prelude::*;
use std::collections::HashMap;

verus! {

broadcast use vstd::std_specs::hash::group_hash_axioms;

/// Second element of a gap-encoded candidate `[a, GAP_MARKER, gap, b]`.
pub const GAP_MARKER: u32 = 4294967295u32;

/// Widest gap (in skipped positions) counted between two symbols.
pub const MAX_INDUCED_GAP: usize = 3;

// ── Which keys a sequence yields ─────────────────────────────────────────────

/// The contiguous windows of length `n`, left to right.
pub open spec fn windows(s: Seq<u32>, n: int) -> Seq<Seq<u32>> {
    Seq::new(
        if n > 0 && s.len() >= n {
            (s.len() - n + 1) as nat
        } else {
            0
        },
        |i: int| s.subrange(i, i + n),
    )
}

/// The last position paired with position `i` by a gap key.
pub open spec fn gap_limit(len: int, i: int) -> int {
    if i + MAX_INDUCED_GAP + 1 < len - 1 {
        i + MAX_INDUCED_GAP + 1
    } else {
        len - 1
    }
}

/// The gap key pairing positions `i < j`: `[s[i], GAP_MARKER, j - i - 1, s[j]]`.
pub open spec fn gap_key(s: Seq<u32>, i: int, j: int) -> Seq<u32> {
    seq![s[i], GAP_MARKER, (j - i - 1) as u32, s[j]]
}

/// The gap keys starting at position `i`: one for each `j` from `i + 2` up to
/// `gap_limit`.
pub open spec fn gaps_at(s: Seq<u32>, i: int) -> Seq<Seq<u32>> {
    let hi = gap_limit(s.len() as int, i);
    Seq::new(
        if hi >= i + 2 {
            (hi - i - 1) as nat
        } else {
            0
        },
        |k: int| gap_key(s, i, i + 2 + k),
    )
}

/// The gap keys starting before position `m`, by start then end.
pub open spec fn gap_keys_upto(s: Seq<u32>, m: int) -> Seq<Seq<u32>>
    decreases m,
{
    if m <= 0 {
        Seq::empty()
    } else {
        gap_keys_upto(s, m - 1).add(gaps_at(s, m - 1))
    }
}

/// Every key a sequence yields: its bigrams, its trigrams, then its gap keys.
pub open spec fn seq_keys(s: Seq<u32>) -> Seq<Seq<u32>> {
    windows(s, 2).add(windows(s, 3)).add(gap_keys_upto(s, s.len() as int))
}

/// Every key a corpus yields, sequence by sequence.
pub open spec fn corpus_keys(seqs: Seq<Seq<u32>>) -> Seq<Seq<u32>>
    decreases seqs.len(),
{
    if seqs.len() == 0 {
        Seq::empty()
    } else {
        corpus_keys(seqs.drop_last()).add(seq_keys(seqs.last()))
    }
}

/// How often `k` occurs in `keys`.
pub open spec fn count_of(keys: Seq<Seq<u32>>, k: Seq<u32>) -> nat
    decreases keys.len(),
{
    if keys.len() == 0 {
        0
    } else {
        count_of(keys.drop_last(), k) + if keys.last() == k {
            1nat
        } else {
            0nat
        }
    }
}

/// The sequences of a corpus as plain values.
pub open spec fn seqs_view(seqs: Seq<Vec<u32>>) -> Seq<Seq<u32>> {
    seqs.map_values(|v: Vec<u32>| v@)
}

/// How often key `k` occurs in the corpus.
pub open spec fn key_frequency(seqs: Seq<Vec<u32>>, k: Seq<u32>) -> nat {
    corpus_frequency(seqs_view(seqs), k)
}

/// How often key `k` occurs in the corpus of id sequences.
pub open spec fn corpus_frequency(v: Seq<Seq<u32>>, k: Seq<u32>) -> nat {
    count_of(corpus_keys(v), k)
}

/// `r` is the ranked list of keys of `v` seen at least `min_freq` times,
/// each with its count.
pub open spec fn frequent_ngram_list(v: Seq<Seq<u32>>, min_freq: usize, r: Seq<(Seq<u32>, u32)>) -> bool {
    &&& forall|i: int|
        0 <= i < r.len() ==> {
            &&& (#[trigger] r[i]).1 == corpus_frequency(v, r[i].0)
            &&& r[i].1 >= min_freq as u32
            &&& r[i].1 > 0
            &&& valid_key(r[i].0)
        }
    &&& forall|k: Seq<u32>|
        #[trigger] corpus_frequency(v, k) > 0 && corpus_frequency(v, k) >= min_freq as u32
            ==> exists|i: int| 0 <= i < r.len() && r[i].0 == k
    &&& forall|i: int, j: int| 0 <= i < j < r.len() ==> precedes(#[trigger] r[i], #[trigger] r[j])
}

// ── Gap pairs are counted ────────────────────────────────────────────────────

/// Positions `i < j` of `s` are a gap pair: between one and
/// `MAX_INDUCED_GAP` positions lie between them.
pub open spec fn gap_pair(s: Seq<u32>, i: int, j: int) -> bool {
    0 <= i && i + 2 <= j && j <= i + MAX_INDUCED_GAP + 1 && j < s.len()
}

/// `s` holds a gap pair whose key is `k`: first symbol, marker, number of
/// skipped positions, second symbol.
pub open spec fn holds_gap_pair(s: Seq<u32>, k: Seq<u32>) -> bool {
    exists|i: int, j: int| gap_pair(s, i, j) && k == seq![s[i], GAP_MARKER, (j - i - 1) as u32, s[j]]
}

/// How many sequences of the corpus hold a gap pair with key `k`.
pub open spec fn sequences_holding(v: Seq<Seq<u32>>, k: Seq<u32>) -> nat
    decreases v.len(),
{
    if v.len() == 0 {
        0
    } else {
        sequences_holding(v.drop_last(), k) + if holds_gap_pair(v.last(), k) {
            1nat
        } else {
            0nat
        }
    }
}

proof fn lemma_count_add(a: Seq<Seq<u32>>, b: Seq<Seq<u32>>, k: Seq<u32>)
    ensures
        count_of(a + b, k) == count_of(a, k) + count_of(b, k),
    decreases b.len(),
{
    if b.len() == 0 {
        assert(a + b =~= a);
    } else {
        lemma_count_add(a, b.drop_last(), k);
        assert((a + b).drop_last() =~= a + b.drop_last());
        assert((a + b).last() == b.last());
    }
}

proof fn lemma_count_contains(a: Seq<Seq<u32>>, k: Seq<u32>)
    requires
        a.contains(k),
    ensures
        count_of(a, k) >= 1,
    decreases a.len(),
{
    if a.last() != k {
        let x = choose|x: int| 0 <= x < a.len() && a[x] == k;
        assert(a.drop_last()[x] == k);
        lemma_count_contains(a.drop_last(), k);
    }
}

proof fn lemma_gap_keys_upto_contains(s: Seq<u32>, m: int, i: int, t: int)
    requires
        0 <= i < m,
        0 <= t < gaps_at(s, i).len(),
    ensures
        gap_keys_upto(s, m).contains(gaps_at(s, i)[t]),
    decreases m,
{
    let g = gap_keys_upto(s, m);
    assert(g == gap_keys_upto(s, m - 1).add(gaps_at(s, m - 1)));
    if i == m - 1 {
        assert(g[gap_keys_upto(s, m - 1).len() + t] == gaps_at(s, i)[t]);
    } else {
        lemma_gap_keys_upto_contains(s, m - 1, i, t);
        let prev = gap_keys_upto(s, m - 1);
        let key = gaps_at(s, i)[t];
        let x = choose|x: int| 0 <= x < prev.len() && prev[x] == key;
        assert(g[x] == key);
    }
}

/// Every gap pair of a sequence, skipping from one up to `MAX_INDUCED_GAP`
/// positions, yields a key of the sequence.
pub proof fn law_gap_pairs_are_keys(s: Seq<u32>, i: int, j: int)
    requires
        gap_pair(s, i, j),
    ensures
        seq_keys(s).contains(seq![s[i], GAP_MARKER, (j - i - 1) as u32, s[j]]),
        count_of(seq_keys(s), seq![s[i], GAP_MARKER, (j - i - 1) as u32, s[j]]) >= 1,
{
    let k = seq![s[i], GAP_MARKER, (j - i - 1) as u32, s[j]];
    let t = j - i - 2;
    assert(0 <= t < gaps_at(s, i).len());
    assert(gaps_at(s, i)[t] == k);
    lemma_gap_keys_upto_contains(s, s.len() as int, i, t);
    let g = gap_keys_upto(s, s.len() as int);
    let w = windows(s, 2).add(windows(s, 3));
    let x = choose|x: int| 0 <= x < g.len() && #[trigger] g[x] == k;
    assert(seq_keys(s) == w.add(g));
    assert(seq_keys(s)[w.len() + x] == k);
    lemma_count_contains(seq_keys(s), k);
}

/// A gap key is counted at least once for each sequence that holds its gap
/// pair.
pub proof fn law_gap_pair_frequency(v: Seq<Seq<u32>>, k: Seq<u32>)
    ensures
        corpus_frequency(v, k) >= sequences_holding(v, k),
    decreases v.len(),
{
    if v.len() > 0 {
        law_gap_pair_frequency(v.drop_last(), k);
        lemma_count_add(corpus_keys(v.drop_last()), seq_keys(v.last()), k);
        if holds_gap_pair(v.last(), k) {
            let (i, j) = choose|i: int, j: int| gap_pair(v.last(), i, j) && k == seq![v.last()[i], GAP_MARKER, (j - i - 1) as u32, v.last()[j]];
            law_gap_pairs_are_keys(v.last(), i, j);
        }
    }
}

/// A gap key whose pair is held by at least `min_freq` sequences is among
/// the frequent candidates, with at least that count.
pub proof fn law_held_gap_pairs_are_frequent(v: Seq<Seq<u32>>, min_freq: usize, r: Seq<(Seq<u32>, u32)>, k: Seq<u32>)
    requires
        frequent_ngram_list(v, min_freq, r),
        sequences_holding(v, k) > 0,
        sequences_holding(v, k) >= min_freq as u32,
    ensures
        exists|x: int| 0 <= x < r.len() && r[x].0 == k && r[x].1 >= sequences_holding(v, k),
{
    law_gap_pair_frequency(v, k);
    assert(corpus_frequency(v, k) > 0 && corpus_frequency(v, k) >= min_freq as u32);
    let x = choose|x: int| 0 <= x < r.len() && r[x].0 == k;
    assert(r[x].1 == corpus_frequency(v, r[x].0));
}

// ── Ranking of candidates ────────────────────────────────────────────────────

/// Lexicographic order on id sequences (a proper prefix comes first).
pub open spec fn lex_lt(a: Seq<u32>, b: Seq<u32>) -> bool
    decreases a.len(),
{
    if a.len() == 0 {
        b.len() > 0
    } else if b.len() == 0 {
        false
    } else if a[0] != b[0] {
        a[0] < b[0]
    } else {
        lex_lt(a.drop_first(), b.drop_first())
    }
}

/// Frequency times length: the bits a candidate may save.
pub open spec fn score(c: (Seq<u32>, u32)) -> int {
    c.1 as int * c.0.len()
}

/// `a` ranks before `b`: higher score first, ties broken by key order.
pub open spec fn precedes(a: (Seq<u32>, u32), b: (Seq<u32>, u32)) -> bool {
    score(a) > score(b) || (score(a) == score(b) && lex_lt(a.0, b.0))
}

proof fn lemma_ranked_same_elements(a: Seq<(Seq<u32>, u32)>, b: Seq<(Seq<u32>, u32)>)
    requires
        forall|i: int, j: int| 0 <= i < j < a.len() ==> precedes(#[trigger] a[i], #[trigger] a[j]),
        forall|i: int, j: int| 0 <= i < j < b.len() ==> precedes(#[trigger] b[i], #[trigger] b[j]),
        forall|x: (Seq<u32>, u32)| a.contains(x) <==> b.contains(x),
    ensures
        a == b,
    decreases a.len(),
{
    if a.len() == 0 {
        if b.len() > 0 {
            assert(b.contains(b[0]));
        }
        assert(a =~= b);
    } else {
        assert(a.contains(a[0]));
        assert(b.len() > 0);
        assert(b.contains(b[0]));
        if a[0] != b[0] {
            let j = choose|j: int| 0 <= j < b.len() && b[j] == a[0];
            let i = choose|i: int| 0 <= i < a.len() && a[i] == b[0];
            assert(j > 0 && i > 0);
            assert(precedes(b[0], b[j]));
            assert(precedes(a[0], a[i]));
            lemma_precedes_order(a[0], b[0], a[0]);
        }
        let ta = a.drop_first();
        let tb = b.drop_first();
        assert forall|x: (Seq<u32>, u32)| ta.contains(x) <==> tb.contains(x) by {
            if ta.contains(x) {
                let i = choose|i: int| 0 <= i < ta.len() && ta[i] == x;
                assert(a[i + 1] == x);
                assert(precedes(a[0], a[i + 1]));
                lemma_precedes_order(a[0], a[0], a[0]);
                assert(b.contains(x));
                let j = choose|j: int| 0 <= j < b.len() && b[j] == x;
                assert(j != 0);
                assert(tb[j - 1] == x);
            }
            if tb.contains(x) {
                let j = choose|j: int| 0 <= j < tb.len() && tb[j] == x;
                assert(b[j + 1] == x);
                assert(precedes(b[0], b[j + 1]));
                lemma_precedes_order(b[0], b[0], b[0]);
                assert(a.contains(x));
                let i = choose|i: int| 0 <= i < a.len() && a[i] == x;
                assert(i != 0);
                assert(ta[i - 1] == x);
            }
        }
        assert forall|i: int, j: int| 0 <= i < j < ta.len() implies precedes(#[trigger] ta[i], #[trigger] ta[j]) by {
            assert(ta[i] == a[i + 1]);
            assert(ta[j] == a[j + 1]);
        }
        assert forall|i: int, j: int| 0 <= i < j < tb.len() implies precedes(#[trigger] tb[i], #[trigger] tb[j]) by {
            assert(tb[i] == b[i + 1]);
            assert(tb[j] == b[j + 1]);
        }
        lemma_ranked_same_elements(ta, tb);
        assert(a =~= seq![a[0]].add(ta));
        assert(b =~= seq![b[0]].add(tb));
    }
}

/// The ranked list of frequent keys is determined by the corpus and the
/// threshold: two lists that both meet `frequent_ngram_list` are equal.
pub proof fn law_frequent_list_unique(
    v: Seq<Seq<u32>>,
    min_freq: usize,
    r1: Seq<(Seq<u32>, u32)>,
    r2: Seq<(Seq<u32>, u32)>,
)
    requires
        frequent_ngram_list(v, min_freq, r1),
        frequent_ngram_list(v, min_freq, r2),
    ensures
        r1 == r2,
{
    assert forall|x: (Seq<u32>, u32)| r1.contains(x) <==> r2.contains(x) by {
        if r1.contains(x) {
            let i = choose|i: int| 0 <= i < r1.len() && r1[i] == x;
            assert(r1[i].1 == corpus_frequency(v, r1[i].0));
            let j = choose|j: int| 0 <= j < r2.len() && r2[j].0 == x.0;
            assert(r2[j].1 == corpus_frequency(v, r2[j].0));
            assert(r2[j] == x);
        }
        if r2.contains(x) {
            let j = choose|j: int| 0 <= j < r2.len() && r2[j] == x;
            assert(r2[j].1 == corpus_frequency(v, r2[j].0));
            let i = choose|i: int| 0 <= i < r1.len() && r1[i].0 == x.0;
            assert(r1[i].1 == corpus_frequency(v, r1[i].0));
            assert(r1[i] == x);
        }
    }
    lemma_ranked_same_elements(r1, r2);
}

/// A candidate as plain values.
pub open spec fn cand_view(c: (Vec<u32>, u32)) -> (Seq<u32>, u32) {
    (c.0@, c.1)
}

/// A list of candidates as plain values.
pub open spec fn cands_view(v: Seq<(Vec<u32>, u32)>) -> Seq<(Seq<u32>, u32)> {
    v.map_values(|c: (Vec<u32>, u32)| cand_view(c))
}

/// Lexicographic order never relates a sequence to itself.
pub proof fn lemma_lex_irreflexive(a: Seq<u32>)
    ensures
        !lex_lt(a, a),
    decreases a.len(),
{
    if a.len() > 0 {
        lemma_lex_irreflexive(a.drop_first());
    }
}

/// Lexicographic order is total on distinct sequences.
pub proof fn lemma_lex_total(a: Seq<u32>, b: Seq<u32>)
    requires
        a != b,
    ensures
        lex_lt(a, b) || lex_lt(b, a),
    decreases a.len(),
{
    if a.len() > 0 && b.len() > 0 && a[0] == b[0] {
        if a.drop_first() == b.drop_first() {
            assert(a =~= seq![a[0]].add(a.drop_first()));
            assert(b =~= seq![b[0]].add(b.drop_first()));
        }
        lemma_lex_total(a.drop_first(), b.drop_first());
    } else if a.len() == 0 && b.len() == 0 {
        assert(a =~= b);
    }
}

/// Lexicographic order is transitive.
pub proof fn lemma_lex_transitive(a: Seq<u32>, b: Seq<u32>, c: Seq<u32>)
    requires
        lex_lt(a, b),
        lex_lt(b, c),
    ensures
        lex_lt(a, c),
    decreases a.len(),
{
    if a.len() > 0 && b.len() > 0 && c.len() > 0 && a[0] == b[0] && b[0] == c[0] {
        lemma_lex_transitive(a.drop_first(), b.drop_first(), c.drop_first());
    }
}

/// Ranking is asymmetric and transitive, and total on distinct keys.
pub proof fn lemma_precedes_order(a: (Seq<u32>, u32), b: (Seq<u32>, u32), c: (Seq<u32>, u32))
    ensures
        !precedes(a, a),
        a.0 != b.0 ==> precedes(a, b) || precedes(b, a),
        precedes(a, b) && precedes(b, c) ==> precedes(a, c),
        precedes(a, b) ==> !precedes(b, a),
{
    lemma_lex_irreflexive(a.0);
    if a.0 != b.0 {
        lemma_lex_total(a.0, b.0);
    }
    if precedes(a, b) && precedes(b, c) && lex_lt(a.0, b.0) && lex_lt(b.0, c.0) {
        lemma_lex_transitive(a.0, b.0, c.0);
    }
    if precedes(a, b) && precedes(b, a) {
        if lex_lt(a.0, b.0) && lex_lt(b.0, a.0) {
            lemma_lex_transitive(a.0, b.0, a.0);
        }
    }
}

pub(crate) fn lex_less(a: &Vec<u32>, b: &Vec<u32>) -> (r: bool)
    ensures
        r == lex_lt(a@, b@),
{
    let mut i: usize = 0;
    assert(a@.skip(0) =~= a@);
    assert(b@.skip(0) =~= b@);
    while i < a.len() && i < b.len()
        invariant
            i <= a@.len(),
            i <= b@.len(),
            lex_lt(a@, b@) == lex_lt(a@.skip(i as int), b@.skip(i as int)),
        decreases a@.len() - i,
    {
        if a[i] != b[i] {
            return a[i] < b[i];
        }
        assert(a@.skip(i as int).drop_first() =~= a@.skip(i as int + 1));
        assert(b@.skip(i as int).drop_first() =~= b@.skip(i as int + 1));
        i = i + 1;
    }
    i == a.len() && i < b.len()
}

fn ranks_before(a: &(Vec<u32>, u32), b: &(Vec<u32>, u32)) -> (r: bool)
    requires
        a.0@.len() <= 4,
        b.0@.len() <= 4,
    ensures
        r == precedes(cand_view(*a), cand_view(*b)),
{
    let ca = a.1 as u64;
    let la = a.0.len() as u64;
    let cb = b.1 as u64;
    let lb = b.0.len() as u64;
    assert(ca * la <= 0xffff_ffffu64 * 4) by (nonlinear_arith)
        requires
            ca <= 0xffff_ffffu64,
            la <= 4,
    ;
    assert(cb * lb <= 0xffff_ffffu64 * 4) by (nonlinear_arith)
        requires
            cb <= 0xffff_ffffu64,
            lb <= 4,
    ;
    let sa: u64 = ca * la;
    let sb: u64 = cb * lb;
    if sa != sb {
        sa > sb
    } else {
        lex_less(&a.0, &b.0)
    }
}

// ── Counting keys ────────────────────────────────────────────────────────────

/// The keys a corpus can yield: bigrams, trigrams, and gap keys.
pub open spec fn valid_key(k: Seq<u32>) -> bool {
    k.len() == 2 || k.len() == 3 || (k.len() == 4 && k[1] == GAP_MARKER)
}

/// A number that identifies a valid key.
pub open spec fn key_code(k: Seq<u32>) -> u128 {
    if k.len() == 2 {
        (1u128 << 126u128) | ((k[0] as u128) << 32u128) | (k[1] as u128)
    } else if k.len() == 3 {
        (2u128 << 126u128) | ((k[0] as u128) << 64u128) | ((k[1] as u128) << 32u128) | (k[2] as u128)
    } else {
        (3u128 << 126u128) | ((k[0] as u128) << 64u128) | ((k[2] as u128) << 32u128) | (k[3] as u128)
    }
}

proof fn lemma_code_fields(a: u32, b: u32, c: u32, x: u32, y: u32, z: u32)
    by (bit_vector)
    ensures
        ((1u128 << 126u128) | ((a as u128) << 32u128) | (b as u128)) == ((1u128 << 126u128) | ((x
            as u128) << 32u128) | (y as u128)) ==> a == x && b == y,
        ((2u128 << 126u128) | ((a as u128) << 64u128) | ((b as u128) << 32u128) | (c as u128)) == ((2u128
            << 126u128) | ((x as u128) << 64u128) | ((y as u128) << 32u128) | (z as u128)) ==> a == x
            && b == y && c == z,
        ((3u128 << 126u128) | ((a as u128) << 64u128) | ((b as u128) << 32u128) | (c as u128)) == ((3u128
            << 126u128) | ((x as u128) << 64u128) | ((y as u128) << 32u128) | (z as u128)) ==> a == x
            && b == y && c == z,
        ((1u128 << 126u128) | ((a as u128) << 32u128) | (b as u128)) != ((2u128 << 126u128) | ((x
            as u128) << 64u128) | ((y as u128) << 32u128) | (z as u128)),
        ((1u128 << 126u128) | ((a as u128) << 32u128) | (b as u128)) != ((3u128 << 126u128) | ((x
            as u128) << 64u128) | ((y as u128) << 32u128) | (z as u128)),
        ((2u128 << 126u128) | ((a as u128) << 64u128) | ((b as u128) << 32u128) | (c as u128)) != ((3u128
            << 126u128) | ((x as u128) << 64u128) | ((y as u128) << 32u128) | (z as u128)),
{
}

/// Distinct valid keys have distinct codes.
pub proof fn lemma_key_code_injective(k1: Seq<u32>, k2: Seq<u32>)
    requires
        valid_key(k1),
        valid_key(k2),
        key_code(k1) == key_code(k2),
    ensures
        k1 == k2,
{
    if k1.len() == 2 {
        if k2.len() == 2 {
            lemma_code_fields(k1[0], k1[1], 0, k2[0], k2[1], 0);
        } else if k2.len() == 3 {
            lemma_code_fields(k1[0], k1[1], 0, k2[0], k2[1], k2[2]);
        } else {
            lemma_code_fields(k1[0], k1[1], 0, k2[0], k2[2], k2[3]);
        }
    } else if k1.len() == 3 {
        if k2.len() == 2 {
            lemma_code_fields(k2[0], k2[1], 0, k1[0], k1[1], k1[2]);
        } else if k2.len() == 3 {
            lemma_code_fields(k1[0], k1[1], k1[2], k2[0], k2[1], k2[2]);
        } else {
            lemma_code_fields(k1[0], k1[1], k1[2], k2[0], k2[2], k2[3]);
        }
    } else {
        if k2.len() == 2 {
            lemma_code_fields(k2[0], k2[1], 0, k1[0], k1[2], k1[3]);
        } else if k2.len() == 3 {
            lemma_code_fields(k2[0], k2[1], k2[2], k1[0], k1[2], k1[3]);
        } else {
            lemma_code_fields(k1[0], k1[2], k1[3], k2[0], k2[2], k2[3]);
        }
    }
    assert(k1 =~= k2);
}

fn code_of(k: &Vec<u32>) -> (r: u128)
    requires
        valid_key(k@),
    ensures
        r == key_code(k@),
{
    if k.len() == 2 {
        (1u128 << 126u128) | ((k[0] as u128) << 32u128) | (k[1] as u128)
    } else if k.len() == 3 {
        (2u128 << 126u128) | ((k[0] as u128) << 64u128) | ((k[1] as u128) << 32u128) | (k[2] as u128)
    } else {
        (3u128 << 126u128) | ((k[0] as u128) << 64u128) | ((k[2] as u128) << 32u128) | (k[3] as u128)
    }
}

/// The table of counted keys agrees with the keys processed so far.
spec fn table_ok(ev: Seq<(Seq<u32>, u32)>, idx: Map<u128, usize>, processed: Seq<Seq<u32>>) -> bool {
    &&& forall|i: int|
        0 <= i < ev.len() ==> {
            &&& valid_key(#[trigger] ev[i].0)
            &&& ev[i].1 == count_of(processed, ev[i].0)
            &&& ev[i].1 > 0
            &&& idx.contains_key(key_code(ev[i].0))
            &&& idx[key_code(ev[i].0)] == i
        }
    &&& forall|c: u128|
        #[trigger] idx.contains_key(c) ==> idx[c] < ev.len() && key_code(ev[idx[c] as int].0) == c
    &&& forall|k: Seq<u32>|
        #[trigger] count_of(processed, k) > 0 ==> exists|i: int| 0 <= i < ev.len() && ev[i].0 == k
}

pub proof fn lemma_count_push(p: Seq<Seq<u32>>, x: Seq<u32>, k: Seq<u32>)
    ensures
        count_of(p.push(x), k) == count_of(p, k) + if x == k {
            1nat
        } else {
            0nat
        },
{
    assert(p.push(x).drop_last() =~= p);
}

/// A prefix holds each key at most as often as the whole.
pub proof fn lemma_count_prefix(p: Seq<Seq<u32>>, q: Seq<Seq<u32>>, k: Seq<u32>)
    requires
        p.is_prefix_of(q),
    ensures
        count_of(p, k) <= count_of(q, k),
    decreases q.len(),
{
    if p.len() == q.len() {
        assert(p =~= q);
    } else {
        assert(p.is_prefix_of(q.drop_last()));
        lemma_count_prefix(p, q.drop_last(), k);
    }
}

proof fn lemma_prefix_trans(a: Seq<Seq<u32>>, b: Seq<Seq<u32>>, c: Seq<Seq<u32>>)
    requires
        a.is_prefix_of(b),
        b.is_prefix_of(c),
    ensures
        a.is_prefix_of(c),
{
    assert forall|i: int| 0 <= i < a.len() implies a[i] == c[i] by {
        assert(a[i] == b[i]);
    }
}

/// The keys of the first `a` sequences come first among the keys of all.
proof fn lemma_corpus_prefix(v: Seq<Seq<u32>>, a: int)
    requires
        0 <= a <= v.len(),
    ensures
        corpus_keys(v.take(a)).is_prefix_of(corpus_keys(v)),
    decreases v.len(),
{
    if a == v.len() {
        assert(v.take(a) =~= v);
    } else {
        let d = v.drop_last();
        assert(d.take(a) =~= v.take(a));
        lemma_corpus_prefix(d, a);
        assert(corpus_keys(d).is_prefix_of(corpus_keys(v)));
        lemma_prefix_trans(corpus_keys(v.take(a)), corpus_keys(d), corpus_keys(v));
    }
}

proof fn lemma_gap_keys_prefix(s: Seq<u32>, a: int, b: int)
    requires
        0 <= a <= b,
    ensures
        gap_keys_upto(s, a).is_prefix_of(gap_keys_upto(s, b)),
    decreases b - a,
{
    if a < b {
        lemma_gap_keys_prefix(s, a, b - 1);
        lemma_prefix_trans(gap_keys_upto(s, a), gap_keys_upto(s, b - 1), gap_keys_upto(s, b));
    }
}

/// Adds one occurrence of `key` to the table.
fn bump(
    entries: &mut Vec<(Vec<u32>, u32)>,
    index: &mut HashMap<u128, usize>,
    key: Vec<u32>,
    Ghost(processed): Ghost<Seq<Seq<u32>>>,
)
    requires
        table_ok(cands_view(old(entries)@), old(index)@, processed),
        valid_key(key@),
        count_of(processed.push(key@), key@) <= u32::MAX,
    ensures
        table_ok(
            cands_view(final(entries)@),
            final(index)@,
            processed.push(key@),
        ),
{
    let ghost ev = cands_view(entries@);
    let ghost np = processed.push(key@);
    proof {
        lemma_count_push(processed, key@, key@);
        assert forall|k: Seq<u32>| k != key@ implies count_of(np, k) == count_of(processed, k) by {
            lemma_count_push(processed, key@, k);
        }
    }
    let code = code_of(&key);
    match index.get(&code) {
        Some(ir) => {
            let i = *ir;
            proof {
                lemma_key_code_injective(ev[i as int].0, key@);
            }
            let c = entries[i].1;
            entries[i].1 = c + 1;
            let ghost nv = cands_view(entries@);
            assert(nv =~= ev.update(i as int, (key@, (c + 1) as u32)));
            assert forall|j: int| 0 <= j < nv.len() implies {
                &&& valid_key(#[trigger] nv[j].0)
                &&& nv[j].1 == count_of(np, nv[j].0)
                &&& nv[j].1 > 0
                &&& index@.contains_key(key_code(nv[j].0))
                &&& index@[key_code(nv[j].0)] == j
            } by {
                if j != i as int {
                    assert(nv[j] == ev[j]);
                    if ev[j].0 == key@ {
                        assert(index@[key_code(ev[j].0)] == j);
                    }
                }
            }
            assert forall|k: Seq<u32>| #[trigger] count_of(np, k) > 0 implies exists|j: int|
                0 <= j < nv.len() && nv[j].0 == k by {
                if k == key@ {
                    assert(nv[i as int].0 == k);
                } else {
                    let j = choose|j: int| 0 <= j < ev.len() && ev[j].0 == k;
                    assert(nv[j].0 == k);
                }
            }
        },
        None => {
            let n = entries.len();
            proof {
                assert forall|j: int| 0 <= j < ev.len() implies ev[j].0 != key@ by {
                    if ev[j].0 == key@ {
                        assert(index@.contains_key(key_code(ev[j].0)));
                    }
                }
            }
            entries.push((key, 1));
            index.insert(code, n);
            let ghost nv = cands_view(entries@);
            assert(nv =~= ev.push((key@, 1u32)));
            assert forall|j: int| 0 <= j < nv.len() implies {
                &&& valid_key(#[trigger] nv[j].0)
                &&& nv[j].1 == count_of(np, nv[j].0)
                &&& nv[j].1 > 0
                &&& index@.contains_key(key_code(nv[j].0))
                &&& index@[key_code(nv[j].0)] == j
            } by {
                if j < n {
                    assert(nv[j] == ev[j]);
                    assert(key_code(ev[j].0) != code) by {
                        if key_code(ev[j].0) == code {
                            lemma_key_code_injective(ev[j].0, key@);
                        }
                    }
                }
            }
            assert forall|c: u128| #[trigger] index@.contains_key(c) implies index@[c] < nv.len()
                && key_code(nv[index@[c] as int].0) == c by {
                if c != code {
                    assert(nv[index@[c] as int] == ev[index@[c] as int]);
                }
            }
            assert forall|k: Seq<u32>| #[trigger] count_of(np, k) > 0 implies exists|j: int|
                0 <= j < nv.len() && nv[j].0 == k by {
                if k == key@ {
                    assert(nv[n as int].0 == k);
                } else {
                    let j = choose|j: int| 0 <= j < ev.len() && ev[j].0 == k;
                    assert(nv[j].0 == k);
                }
            }
        },
    }
}

/// Each candidate ranks strictly before every later one.
pub open spec fn ranked(cs: Seq<(Seq<u32>, u32)>) -> bool {
    &&& forall|i: int| 0 <= i < cs.len() ==> valid_key(#[trigger] cs[i].0)
    &&& forall|i: int, j: int| 0 <= i < j < cs.len() ==> precedes(#[trigger] cs[i], #[trigger] cs[j])
}

proof fn lemma_table_distinct(ev: Seq<(Seq<u32>, u32)>, idx: Map<u128, usize>, processed: Seq<Seq<u32>>)
    requires
        table_ok(ev, idx, processed),
    ensures
        forall|i: int| 0 <= i < ev.len() ==> #[trigger] valid_key(ev[i].0),
        forall|i: int, j: int| 0 <= i < j < ev.len() ==> (#[trigger] ev[i]).0 != (#[trigger] ev[j]).0,
{
    assert forall|i: int, j: int| 0 <= i < j < ev.len() implies (#[trigger] ev[i]).0 != (
    #[trigger] ev[j]).0 by {
        assert(valid_key(ev[i].0));
        assert(valid_key(ev[j].0));
    }
}

/// Inserts `item` at its rank.
fn insert_ranked(sorted: &mut Vec<(Vec<u32>, u32)>, item: (Vec<u32>, u32))
    requires
        ranked(cands_view(old(sorted)@)),
        valid_key(item.0@),
        forall|i: int| 0 <= i < old(sorted)@.len() ==> (#[trigger] old(sorted)@[i]).0@ != item.0@,
    ensures
        ranked(cands_view(final(sorted)@)),
        forall|c: (Seq<u32>, u32)|
            #[trigger] cands_view(final(sorted)@).contains(c) <==> (cands_view(old(sorted)@).contains(c) || c == cand_view(item)),
{
    let ghost sv = cands_view(sorted@);
    let mut p: usize = 0;
    assert forall|i: int| 0 <= i < sorted@.len() implies (#[trigger] sorted@[i]).0@.len() <= 4 by {
        assert(sv[i] == cand_view(sorted@[i]));
        assert(valid_key(sv[i].0));
    }
    while p < sorted.len() && !ranks_before(&item, &sorted[p])
        invariant
            forall|i: int| 0 <= i < sorted@.len() ==> (#[trigger] sorted@[i]).0@.len() <= 4,
            p <= sorted@.len(),
            sv == cands_view(sorted@),
            ranked(sv),
            valid_key(item.0@),
            forall|i: int| 0 <= i < sorted@.len() ==> (#[trigger] sorted@[i]).0@ != item.0@,
            forall|q: int| 0 <= q < p ==> precedes(#[trigger] sv[q], cand_view(item)),
        decreases sorted@.len() - p,
    {
        proof {
            assert(sv[p as int] == cand_view(sorted@[p as int]));
            assert(valid_key(sv[p as int].0));
            lemma_precedes_order(cand_view(item), sv[p as int], cand_view(item));
        }
        p = p + 1;
    }
    proof {
        if p < sorted@.len() {
            assert(sv[p as int] == cand_view(sorted@[p as int]));
        }
    }
    sorted.insert(p, item);
    let ghost nv = cands_view(sorted@);
    assert(nv =~= sv.insert(p as int, cand_view(item)));
    assert forall|i: int, j: int| 0 <= i < j < nv.len() implies precedes(
        #[trigger] nv[i],
        #[trigger] nv[j],
    ) by {
        if j < p {
        } else if j == p {
        } else if i == p {
            assert(nv[j] == sv[j - 1]);
            if j - 1 > p {
                lemma_precedes_order(cand_view(item), sv[p as int], sv[j - 1]);
            }
        } else if i < p {
            assert(nv[j] == sv[j - 1]);
        } else {
            assert(nv[i] == sv[i - 1]);
            assert(nv[j] == sv[j - 1]);
        }
    }
    assert forall|i: int| 0 <= i < nv.len() implies valid_key(#[trigger] nv[i].0) by {
        if i > p {
            assert(nv[i] == sv[i - 1]);
        }
    }
    assert forall|c: (Seq<u32>, u32)| #[trigger] nv.contains(c) <==> (sv.contains(c) || c == cand_view(
        item,
    )) by {
        if nv.contains(c) {
            let i = choose|i: int| 0 <= i < nv.len() && nv[i] == c;
            if i < p {
                assert(sv[i] == c);
            } else if i > p {
                assert(sv[i - 1] == c);
            }
        }
        if sv.contains(c) {
            let i = choose|i: int| 0 <= i < sv.len() && sv[i] == c;
            if i < p {
                assert(nv[i] == c);
            } else {
                assert(nv[i + 1] == c);
            }
        }
        if c == cand_view(item) {
            assert(nv[p as int] == c);
        }
    }
}

/// The keys of a sequence that come before the gap keys starting at `i`,
/// followed by the first `t` of those.
spec fn keys_through(s: Seq<u32>, i: int, t: int) -> Seq<Seq<u32>> {
    windows(s, 2).add(windows(s, 3)).add(gap_keys_upto(s, i)).add(gaps_at(s, i).take(t))
}

proof fn lemma_keys_through_prefix(s: Seq<u32>, i: int, t: int)
    requires
        0 <= i < s.len(),
        0 <= t <= gaps_at(s, i).len(),
    ensures
        keys_through(s, i, t).is_prefix_of(seq_keys(s)),
{
    let w = windows(s, 2).add(windows(s, 3));
    lemma_gap_keys_prefix(s, i + 1, s.len() as int);
    let g1 = gap_keys_upto(s, i + 1);
    let g = gap_keys_upto(s, s.len() as int);
    assert(g1 == gap_keys_upto(s, i).add(gaps_at(s, i)));
    let kt = keys_through(s, i, t);
    assert forall|x: int| 0 <= x < kt.len() implies kt[x] == seq_keys(s)[x] by {
        if x >= w.len() {
            assert(kt[x] == g1[x - w.len()]);
            assert(g1[x - w.len()] == g[x - w.len()]);
        }
    }
}

/// Counts every bigram, trigram and gap key of the corpus and returns those
/// seen at least `min_freq` times with their counts.
///
/// A gap key `[a, GAP_MARKER, g, b]` records `a` followed by `b` after
/// skipping `g` positions, for `1 <= g <= MAX_INDUCED_GAP`. The result is
/// ordered by frequency times key length, highest first, ties by key order.
pub fn extract_frequent_ngrams(seqs: &[Vec<u32>], min_freq: usize) -> (result: Vec<(Vec<u32>, u32)>)
    requires
        forall|k: Seq<u32>| #[trigger] key_frequency(seqs@, k) <= u32::MAX,
    ensures
        forall|i: int|
            0 <= i < result@.len() ==> {
                &&& (#[trigger] result@[i]).1 == key_frequency(seqs@, result@[i].0@)
                &&& result@[i].1 >= min_freq as u32
                &&& result@[i].1 > 0
                &&& valid_key(result@[i].0@)
            },
        forall|k: Seq<u32>|
            #[trigger] key_frequency(seqs@, k) > 0 && key_frequency(seqs@, k) >= min_freq as u32
                ==> exists|i: int| 0 <= i < result@.len() && result@[i].0@ == k,
        forall|i: int, j: int|
            0 <= i < j < result@.len() ==> precedes(
                cand_view(#[trigger] result@[i]),
                cand_view(#[trigger] result@[j]),
            ),
        frequent_ngram_list(seqs_view(seqs@), min_freq, cands_view(result@)),
{
    let ghost v = seqs_view(seqs@);
    let ghost all = corpus_keys(v);
    assert forall|k: Seq<u32>| #[trigger] count_of(all, k) <= u32::MAX by {
        assert(key_frequency(seqs@, k) <= u32::MAX);
    }
    let mut entries: Vec<(Vec<u32>, u32)> = Vec::new();
    let mut index: HashMap<u128, usize> = HashMap::new();
    let ghost mut processed: Seq<Seq<u32>> = Seq::empty();
    assert(cands_view(entries@) =~= Seq::<(Seq<u32>, u32)>::empty());
    assert(v.take(0) =~= Seq::<Seq<u32>>::empty());
    let ns = seqs.len();
    let mut si: usize = 0;
    while si < ns
        invariant
            ns == seqs@.len(),
            v == seqs_view(seqs@),
            all == corpus_keys(v),
            forall|k: Seq<u32>| #[trigger] count_of(all, k) <= u32::MAX,
            si <= ns,
            processed == corpus_keys(v.take(si as int)),
            table_ok(cands_view(entries@), index@, processed),
        decreases ns - si,
    {
        let s = &seqs[si];
        let ghost sv = s@;
        let ghost base = processed;
        let len = s.len();
        proof {
            assert(v[si as int] == sv);
            let t = v.take(si as int + 1);
            assert(t.drop_last() =~= v.take(si as int));
            assert(corpus_keys(t) == base.add(seq_keys(sv)));
            lemma_corpus_prefix(v, si as int + 1);
        }
        // Bigrams.
        if len >= 2 {
            let mut i: usize = 0;
            while i < len - 1
                invariant
                    len == sv.len(),
                    len >= 2,
                    sv == s@,
                    i <= len - 1,
                    base.add(seq_keys(sv)).is_prefix_of(all),
                    forall|k: Seq<u32>| #[trigger] count_of(all, k) <= u32::MAX,
                    processed == base.add(windows(sv, 2).take(i as int)),
                    table_ok(cands_view(entries@), index@, processed),
                decreases len - 1 - i,
            {
                let mut key: Vec<u32> = Vec::new();
                key.push(s[i]);
                key.push(s[i + 1]);
                proof {
                    assert(key@ =~= windows(sv, 2)[i as int]);
                    let np = processed.push(key@);
                    assert(np =~= base.add(windows(sv, 2).take(i as int + 1)));
                    assert(np.is_prefix_of(base.add(seq_keys(sv)))) by {
                        assert forall|x: int| 0 <= x < np.len() implies np[x] == base.add(
                            seq_keys(sv),
                        )[x] by {}
                    }
                    lemma_prefix_trans(np, base.add(seq_keys(sv)), all);
                    lemma_count_prefix(np, all, key@);
                }
                bump(&mut entries, &mut index, key, Ghost(processed));
                proof {
                    processed = processed.push(key@);
                }
                i = i + 1;
            }
            assert(windows(sv, 2).take(len - 1) =~= windows(sv, 2));
        } else {
            assert(processed =~= base.add(windows(sv, 2)));
        }
        // Trigrams.
        let ghost base2 = processed;
        if len >= 3 {
            let mut i: usize = 0;
            while i < len - 2
                invariant
                    len == sv.len(),
                    len >= 3,
                    sv == s@,
                    i <= len - 2,
                    base2 == base.add(windows(sv, 2)),
                    base.add(seq_keys(sv)).is_prefix_of(all),
                    forall|k: Seq<u32>| #[trigger] count_of(all, k) <= u32::MAX,
                    processed == base2.add(windows(sv, 3).take(i as int)),
                    table_ok(cands_view(entries@), index@, processed),
                decreases len - 2 - i,
            {
                let mut key: Vec<u32> = Vec::new();
                key.push(s[i]);
                key.push(s[i + 1]);
                key.push(s[i + 2]);
                proof {
                    assert(key@ =~= windows(sv, 3)[i as int]);
                    let np = processed.push(key@);
                    assert(np =~= base2.add(windows(sv, 3).take(i as int + 1)));
                    assert(np.is_prefix_of(base.add(seq_keys(sv)))) by {
                        assert forall|x: int| 0 <= x < np.len() implies np[x] == base.add(
                            seq_keys(sv),
                        )[x] by {}
                    }
                    lemma_prefix_trans(np, base.add(seq_keys(sv)), all);
                    lemma_count_prefix(np, all, key@);
                }
                bump(&mut entries, &mut index, key, Ghost(processed));
                proof {
                    processed = processed.push(key@);
                }
                i = i + 1;
            }
            assert(windows(sv, 3).take(len - 2) =~= windows(sv, 3));
        } else {
            assert(processed =~= base2.add(windows(sv, 3)));
        }
        // Gap keys.
        let ghost base3 = processed;
        assert(gap_keys_upto(sv, 0) =~= Seq::<Seq<u32>>::empty());
        assert(processed =~= base3.add(gap_keys_upto(sv, 0)));
        let mut i: usize = 0;
        while i < len
            invariant
                len == sv.len(),
                sv == s@,
                i <= len,
                base3 == base.add(windows(sv, 2)).add(windows(sv, 3)),
                base.add(seq_keys(sv)).is_prefix_of(all),
                forall|k: Seq<u32>| #[trigger] count_of(all, k) <= u32::MAX,
                processed == base3.add(gap_keys_upto(sv, i as int)),
                table_ok(cands_view(entries@), index@, processed),
            decreases len - i,
        {
            let hi = if len - 1 - i > MAX_INDUCED_GAP + 1 {
                i + MAX_INDUCED_GAP + 1
            } else {
                len - 1
            };
            let ghost ga = gaps_at(sv, i as int);
            assert(hi as int == gap_limit(len as int, i as int));
            let count: usize = if hi - i > 1 {
                hi - i - 1
            } else {
                0
            };
            assert(count == ga.len());
            let mut t: usize = 0;
            while t < count
                invariant
                    len == sv.len(),
                    sv == s@,
                    i < len,
                    hi as int == gap_limit(len as int, i as int),
                    ga == gaps_at(sv, i as int),
                    count == ga.len(),
                    t <= count,
                    base3 == base.add(windows(sv, 2)).add(windows(sv, 3)),
                    base.add(seq_keys(sv)).is_prefix_of(all),
                    forall|k: Seq<u32>| #[trigger] count_of(all, k) <= u32::MAX,
                    processed == base3.add(gap_keys_upto(sv, i as int)).add(ga.take(t as int)),
                    table_ok(cands_view(entries@), index@, processed),
                decreases count - t,
            {
                let j = i + 2 + t;
                let mut key: Vec<u32> = Vec::new();
                key.push(s[i]);
                key.push(GAP_MARKER);
                key.push((t + 1) as u32);
                key.push(s[j]);
                proof {
                    let t = t as int;
                    assert(key@ =~= ga[t]);
                    let np = processed.push(key@);
                    assert(np =~= base3.add(gap_keys_upto(sv, i as int)).add(ga.take(t + 1)));
                    lemma_keys_through_prefix(sv, i as int, t + 1);
                    assert(np =~= base.add(keys_through(sv, i as int, t + 1)));
                    assert(np.is_prefix_of(base.add(seq_keys(sv)))) by {
                        assert forall|x: int| 0 <= x < np.len() implies np[x] == base.add(
                            seq_keys(sv),
                        )[x] by {
                            if x >= base.len() {
                                assert(np[x] == keys_through(sv, i as int, t + 1)[x - base.len()]);
                            }
                        }
                    }
                    lemma_prefix_trans(np, base.add(seq_keys(sv)), all);
                    lemma_count_prefix(np, all, key@);
                }
                bump(&mut entries, &mut index, key, Ghost(processed));
                proof {
                    processed = processed.push(key@);
                }
                t = t + 1;
            }
            assert(ga.take(ga.len() as int) =~= ga);
            assert(processed =~= base3.add(gap_keys_upto(sv, i as int + 1)));
            i = i + 1;
        }
        proof {
            assert(processed =~= base.add(seq_keys(sv)));
        }
        si = si + 1;
    }
    assert(v.take(ns as int) =~= v);
    // Keep the frequent keys, ranked.
    let threshold = min_freq as u32;
    let ghost ev = cands_view(entries@);
    proof {
        lemma_table_distinct(ev, index@, all);
    }
    let mut sorted: Vec<(Vec<u32>, u32)> = Vec::new();
    while entries.len() > 0
        invariant
            forall|i: int| 0 <= i < ev.len() ==> #[trigger] valid_key(ev[i].0),
            forall|i: int, j: int| 0 <= i < j < ev.len() ==> (#[trigger] ev[i]).0 != (#[trigger] ev[j]).0,
            entries@.len() <= ev.len(),
            forall|i: int| 0 <= i < entries@.len() ==> cand_view(#[trigger] entries@[i]) == ev[i],
            forall|c: (Seq<u32>, u32)|
                #[trigger] cands_view(sorted@).contains(c) <==> exists|e: int|
                    entries@.len() <= e < ev.len() && ev[e] == c && c.1 >= threshold,
            ranked(cands_view(sorted@)),
        decreases entries@.len(),
    {
        let ghost old_len = entries@.len() as int;
        let item = entries.pop().unwrap();
        let ghost e = entries@.len() as int;
        let ghost sv = cands_view(sorted@);
        assert(cand_view(item) == ev[e]);
        if item.1 >= threshold {
            assert(valid_key(ev[e].0));
            assert forall|i: int| 0 <= i < sorted@.len() implies (#[trigger] sorted@[i]).0@ != item.0@ by {
                assert(sv[i] == cand_view(sorted@[i]));
                assert(sv.contains(sv[i]));
                let x = choose|x: int| old_len <= x < ev.len() && ev[x] == sv[i] && sv[i].1 >= threshold;
                assert(ev[x].0 != ev[e].0);
            }
            insert_ranked(&mut sorted, item);
        }
        let ghost nv = cands_view(sorted@);
        assert forall|c: (Seq<u32>, u32)| #[trigger] nv.contains(c) <==> exists|x: int|
            entries@.len() <= x < ev.len() && ev[x] == c && c.1 >= threshold by {
            if nv.contains(c) && c != ev[e] {
                assert(sv.contains(c));
            }
            if exists|x: int| entries@.len() <= x < ev.len() && ev[x] == c && c.1 >= threshold {
                let x = choose|x: int| entries@.len() <= x < ev.len() && ev[x] == c && c.1 >= threshold;
                if x != e {
                    assert(sv.contains(c));
                }
            }
        }
    }
    let ghost fv = cands_view(sorted@);
    assert forall|i: int| 0 <= i < sorted@.len() implies {
        &&& (#[trigger] sorted@[i]).1 == key_frequency(seqs@, sorted@[i].0@)
        &&& sorted@[i].1 >= min_freq as u32
        &&& sorted@[i].1 > 0
        &&& valid_key(sorted@[i].0@)
    } by {
        assert(fv[i] == cand_view(sorted@[i]));
        assert(fv.contains(fv[i]));
        let x = choose|x: int| 0 <= x < ev.len() && ev[x] == fv[i] && fv[i].1 >= threshold;
        assert(ev[x].1 == count_of(all, ev[x].0));
    }
    assert forall|k: Seq<u32>| #[trigger] key_frequency(seqs@, k) > 0 && key_frequency(seqs@, k)
        >= min_freq as u32 implies exists|i: int| 0 <= i < sorted@.len() && sorted@[i].0@ == k by {
        assert(count_of(all, k) > 0);
        let e = choose|e: int| 0 <= e < ev.len() && ev[e].0 == k;
        assert(ev[e].1 == count_of(all, k));
        assert(fv.contains(ev[e]));
        let i = choose|i: int| 0 <= i < fv.len() && fv[i] == ev[e];
        assert(sorted@[i].0@ == k);
    }
    assert forall|i: int, j: int| 0 <= i < j < sorted@.len() implies precedes(
        cand_view(#[trigger] sorted@[i]),
        cand_view(#[trigger] sorted@[j]),
    ) by {
        assert(fv[i] == cand_view(sorted@[i]));
        assert(fv[j] == cand_view(sorted@[j]));
    }
    assert forall|k: Seq<u32>| #[trigger] corpus_frequency(v, k) > 0 && corpus_frequency(v, k)
        >= min_freq as u32 implies exists|i: int| 0 <= i < fv.len() && fv[i].0 == k by {
        assert(key_frequency(seqs@, k) > 0);
        let i = choose|i: int| 0 <= i < sorted@.len() && sorted@[i].0@ == k;
        assert(fv[i] == cand_view(sorted@[i]));
    }
    assert forall|i: int| 0 <= i < fv.len() implies {
        &&& (#[trigger] fv[i]).1 == corpus_frequency(v, fv[i].0)
        &&& fv[i].1 >= min_freq as u32
        &&& fv[i].1 > 0
        &&& valid_key(fv[i].0)
    } by {
        assert(fv[i] == cand_view(sorted@[i]));
    }
    sorted
}

} // verus!
