use vstd::prelude::*;
use crate::ngrams::{
    count_of, lex_lt, lex_less, lemma_lex_irreflexive, lemma_lex_total, lemma_lex_transitive,
    lemma_count_push, lemma_count_prefix, cand_view, cands_view, windows, seqs_view,
};
use crate::symbols::Pattern;

verus! {

// ── Counting keys in key order ───────────────────────────────────────────────

/// `t` lists, in increasing key order, every key of `keys` with how often it
/// occurs there.
pub open spec fn tally_of(keys: Seq<Seq<u32>>, t: Seq<(Seq<u32>, u32)>) -> bool {
    &&& forall|i: int, j: int| 0 <= i < j < t.len() ==> lex_lt((#[trigger] t[i]).0, (#[trigger] t[j]).0)
    &&& forall|i: int| 0 <= i < t.len() ==> (#[trigger] t[i]).1 == count_of(keys, t[i].0) && t[i].1 > 0
    &&& forall|k: Seq<u32>| #[trigger] count_of(keys, k) > 0 ==> exists|i: int| 0 <= i < t.len() && t[i].0 == k
}

/// Counts one more occurrence of `key`.
fn tally_add(table: &mut Vec<(Vec<u32>, u32)>, key: Vec<u32>, Ghost(processed): Ghost<Seq<Seq<u32>>>)
    requires
        tally_of(processed, cands_view(old(table)@)),
        count_of(processed.push(key@), key@) <= u32::MAX,
    ensures
        tally_of(processed.push(key@), cands_view(final(table)@)),
{
    let ghost tv = cands_view(table@);
    let ghost np = processed.push(key@);
    proof {
        lemma_count_push(processed, key@, key@);
        assert forall|k: Seq<u32>| k != key@ implies count_of(np, k) == count_of(processed, k) by {
            lemma_count_push(processed, key@, k);
        }
    }
    let n = table.len();
    let mut p: usize = 0;
    while p < n && lex_less(&table[p].0, &key)
        invariant
            n == table@.len(),
            tv == cands_view(table@),
            p <= n,
            forall|q: int| 0 <= q < p ==> lex_lt((#[trigger] tv[q]).0, key@),
        decreases n - p,
    {
        assert(tv[p as int] == cand_view(table@[p as int]));
        p = p + 1;
    }
    // Every entry from `p` on is not below `key`.
    proof {
        if p < n {
            assert(tv[p as int] == cand_view(table@[p as int]));
            assert forall|q: int| p < q < n implies !lex_lt((#[trigger] tv[q]).0, key@) by {
                if lex_lt(tv[q].0, key@) {
                    lemma_lex_transitive(tv[p as int].0, tv[q].0, key@);
                }
            }
        }
    }
    let equal = p < n && !lex_less(&key, &table[p].0);
    if equal {
        proof {
            assert(tv[p as int] == cand_view(table@[p as int]));
            if tv[p as int].0 != key@ {
                lemma_lex_total(tv[p as int].0, key@);
            }
        }
        let c = table[p].1;
        table[p].1 = c + 1;
        let ghost nv = cands_view(table@);
        assert(nv =~= tv.update(p as int, (key@, (c + 1) as u32)));
        assert forall|k: Seq<u32>| #[trigger] count_of(np, k) > 0 implies exists|i: int|
            0 <= i < nv.len() && nv[i].0 == k by {
            if k == key@ {
                assert(nv[p as int].0 == k);
            } else {
                let i = choose|i: int| 0 <= i < tv.len() && tv[i].0 == k;
                assert(nv[i].0 == k);
            }
        }
        assert forall|i: int| 0 <= i < nv.len() implies (#[trigger] nv[i]).1 == count_of(np, nv[i].0) && nv[i].1 > 0 by {
            if i != p {
                assert(nv[i] == tv[i]);
                assert(tv[i].0 != key@) by {
                    if i < p {
                        lemma_lex_irreflexive(key@);
                    } else {
                        lemma_lex_irreflexive(key@);
                    }
                }
            }
        }
    } else {
        proof {
            assert forall|i: int| 0 <= i < tv.len() implies (#[trigger] tv[i]).0 != key@ by {
                if i < p {
                    lemma_lex_irreflexive(key@);
                } else if i == p {
                    assert(tv[p as int] == cand_view(table@[p as int]));
                    lemma_lex_irreflexive(key@);
                } else {
                    assert(tv[p as int] == cand_view(table@[p as int]));
                    if tv[i].0 == key@ {
                        lemma_lex_transitive(key@, tv[p as int].0, key@);
                        lemma_lex_irreflexive(key@);
                    }
                }
            }
            if p < n {
                assert(tv[p as int] == cand_view(table@[p as int]));
                lemma_lex_total(tv[p as int].0, key@);
            }
        }
        table.insert(p, (key, 1));
        let ghost nv = cands_view(table@);
        assert(nv =~= tv.insert(p as int, (key@, 1u32)));
        assert forall|i: int, j: int| 0 <= i < j < nv.len() implies lex_lt((#[trigger] nv[i]).0, (#[trigger] nv[j]).0) by {
            if j < p {
            } else if j == p {
            } else if i == p {
                assert(nv[j] == tv[j - 1]);
                if j - 1 > p {
                    lemma_lex_transitive(key@, tv[p as int].0, tv[j - 1].0);
                }
            } else if i < p {
                assert(nv[j] == tv[j - 1]);
            } else {
                assert(nv[i] == tv[i - 1]);
                assert(nv[j] == tv[j - 1]);
            }
        }
        assert forall|i: int| 0 <= i < nv.len() implies (#[trigger] nv[i]).1 == count_of(np, nv[i].0) && nv[i].1 > 0 by {
            if i < p {
                assert(nv[i] == tv[i]);
            } else if i > p {
                assert(nv[i] == tv[i - 1]);
            }
        }
        assert forall|k: Seq<u32>| #[trigger] count_of(np, k) > 0 implies exists|i: int|
            0 <= i < nv.len() && nv[i].0 == k by {
            if k == key@ {
                assert(nv[p as int].0 == k);
            } else {
                let i = choose|i: int| 0 <= i < tv.len() && tv[i].0 == k;
                if i < p {
                    assert(nv[i].0 == k);
                } else {
                    assert(nv[i + 1].0 == k);
                }
            }
        }
    }
}

/// The keys in increasing order, each with how often it occurs.
pub fn count_keys(keys: &[Vec<u32>]) -> (r: Vec<(Vec<u32>, u32)>)
    requires
        forall|k: Seq<u32>| #[trigger] count_of(seqs_view(keys@), k) <= u32::MAX,
    ensures
        tally_of(seqs_view(keys@), cands_view(r@)),
{
    let ghost all = seqs_view(keys@);
    let mut table: Vec<(Vec<u32>, u32)> = Vec::new();
    let n = keys.len();
    let mut i: usize = 0;
    assert(all.take(0) =~= Seq::<Seq<u32>>::empty());
    assert(cands_view(table@) =~= Seq::<(Seq<u32>, u32)>::empty());
    while i < n
        invariant
            n == keys@.len(),
            all == seqs_view(keys@),
            i <= n,
            forall|k: Seq<u32>| #[trigger] count_of(all, k) <= u32::MAX,
            tally_of(all.take(i as int), cands_view(table@)),
        decreases n - i,
    {
        let key = keys[i].clone();
        proof {
            assert(all.take(i as int + 1) =~= all.take(i as int).push(key@));
            assert(all.take(i as int + 1).is_prefix_of(all));
            lemma_count_prefix(all.take(i as int + 1), all, key@);
        }
        tally_add(&mut table, key, Ghost(all.take(i as int)));
        i = i + 1;
    }
    assert(all.take(n as int) =~= all);
    table
}

proof fn lemma_key_sorted_same_elements(a: Seq<(Seq<u32>, u32)>, b: Seq<(Seq<u32>, u32)>)
    requires
        forall|i: int, j: int| 0 <= i < j < a.len() ==> lex_lt((#[trigger] a[i]).0, (#[trigger] a[j]).0),
        forall|i: int, j: int| 0 <= i < j < b.len() ==> lex_lt((#[trigger] b[i]).0, (#[trigger] b[j]).0),
        forall|x: (Seq<u32>, u32)| a.contains(x) <==> b.contains(x),
    ensures
        a == b,
    decreases a.len(),
{
    if a.len() == 0 {
        if b.len() > 0 {
            assert(b.contains(b[0]));
        }
        assert(a =~= b);
    } else {
        assert(a.contains(a[0]));
        assert(b.contains(b[0]));
        if a[0] != b[0] {
            let j = choose|j: int| 0 <= j < b.len() && b[j] == a[0];
            let i = choose|i: int| 0 <= i < a.len() && a[i] == b[0];
            assert(lex_lt(b[0].0, b[j].0));
            assert(lex_lt(a[0].0, a[i].0));
            lemma_lex_transitive(a[0].0, b[0].0, a[0].0);
            lemma_lex_irreflexive(a[0].0);
        }
        let ta = a.drop_first();
        let tb = b.drop_first();
        assert forall|x: (Seq<u32>, u32)| ta.contains(x) <==> tb.contains(x) by {
            if ta.contains(x) {
                let i = choose|i: int| 0 <= i < ta.len() && ta[i] == x;
                assert(a[i + 1] == x);
                assert(lex_lt(a[0].0, a[i + 1].0));
                lemma_lex_irreflexive(a[0].0);
                assert(b.contains(x));
                let j = choose|j: int| 0 <= j < b.len() && b[j] == x;
                assert(j != 0);
                assert(tb[j - 1] == x);
            }
            if tb.contains(x) {
                let j = choose|j: int| 0 <= j < tb.len() && tb[j] == x;
                assert(b[j + 1] == x);
                assert(lex_lt(b[0].0, b[j + 1].0));
                lemma_lex_irreflexive(b[0].0);
                assert(a.contains(x));
                let i = choose|i: int| 0 <= i < a.len() && a[i] == x;
                assert(i != 0);
                assert(ta[i - 1] == x);
            }
        }
        assert forall|i: int, j: int| 0 <= i < j < ta.len() implies lex_lt((#[trigger] ta[i]).0, (#[trigger] ta[j]).0) by {
            assert(ta[i] == a[i + 1]);
            assert(ta[j] == a[j + 1]);
        }
        assert forall|i: int, j: int| 0 <= i < j < tb.len() implies lex_lt((#[trigger] tb[i]).0, (#[trigger] tb[j]).0) by {
            assert(tb[i] == b[i + 1]);
            assert(tb[j] == b[j + 1]);
        }
        lemma_key_sorted_same_elements(ta, tb);
        assert(a =~= seq![a[0]].add(ta));
        assert(b =~= seq![b[0]].add(tb));
    }
}

/// A key count table is determined by the keys: two tables that both meet
/// `frequent_tally` for the same keys and threshold are equal (and so are
/// two that meet `tally_of`, the threshold-free case).
pub proof fn law_tally_unique(keys: Seq<Seq<u32>>, min_freq: u32, t1: Seq<(Seq<u32>, u32)>, t2: Seq<(Seq<u32>, u32)>)
    requires
        frequent_tally(keys, min_freq, t1),
        frequent_tally(keys, min_freq, t2),
    ensures
        t1 == t2,
{
    assert forall|x: (Seq<u32>, u32)| t1.contains(x) <==> t2.contains(x) by {
        if t1.contains(x) {
            let i = choose|i: int| 0 <= i < t1.len() && t1[i] == x;
            assert(t1[i].1 == count_of(keys, t1[i].0));
            let j = choose|j: int| 0 <= j < t2.len() && t2[j].0 == x.0;
            assert(t2[j].1 == count_of(keys, t2[j].0));
            assert(t2[j] == x);
        }
        if t2.contains(x) {
            let j = choose|j: int| 0 <= j < t2.len() && t2[j] == x;
            assert(t2[j].1 == count_of(keys, t2[j].0));
            let i = choose|i: int| 0 <= i < t1.len() && t1[i].0 == x.0;
            assert(t1[i].1 == count_of(keys, t1[i].0));
            assert(t1[i] == x);
        }
    }
    lemma_key_sorted_same_elements(t1, t2);
}

/// A table that meets `tally_of` meets `frequent_tally` with threshold 0.
pub proof fn law_tally_is_frequent_tally(keys: Seq<Seq<u32>>, t: Seq<(Seq<u32>, u32)>)
    requires
        tally_of(keys, t),
    ensures
        frequent_tally(keys, 0, t),
{
}

// ── Contiguous n-grams of symbol patterns ────────────────────────────────────

/// The ids of a pattern's symbols.
pub open spec fn name_ids(p: Pattern) -> Seq<u32> {
    p.symbols@.map_values(|s: crate::symbols::Symbol| s.name)
}

/// The windows of `s` of each length from `lo` to `hi`, shortest first.
pub open spec fn windows_upto(s: Seq<u32>, lo: int, hi: int) -> Seq<Seq<u32>>
    decreases hi - lo + 1,
{
    if hi < lo {
        Seq::empty()
    } else {
        windows_upto(s, lo, hi - 1) + windows(s, hi)
    }
}

/// The n-grams of length 2 to `max_n` of each pattern, pattern by pattern.
pub open spec fn ngram_keys(pats: Seq<Pattern>, max_n: int) -> Seq<Seq<u32>>
    decreases pats.len(),
{
    if pats.len() == 0 {
        Seq::empty()
    } else {
        ngram_keys(pats.drop_last(), max_n) + windows_upto(name_ids(pats.last()), 2, max_n)
    }
}

/// The n-grams of `keys` seen at least `min_freq` times, in increasing key
/// order, each with its count.
pub open spec fn frequent_tally(keys: Seq<Seq<u32>>, min_freq: u32, t: Seq<(Seq<u32>, u32)>) -> bool {
    &&& forall|i: int, j: int| 0 <= i < j < t.len() ==> lex_lt((#[trigger] t[i]).0, (#[trigger] t[j]).0)
    &&& forall|i: int| 0 <= i < t.len() ==> (#[trigger] t[i]).1 == count_of(keys, t[i].0) && t[i].1 > 0 && t[i].1 >= min_freq
    &&& forall|k: Seq<u32>| #[trigger] count_of(keys, k) > 0 && count_of(keys, k) >= min_freq ==> exists|i: int|
        0 <= i < t.len() && t[i].0 == k
}

/// Counts the contiguous n-grams of length 2 to `max_n` of the patterns'
/// symbol ids and keeps those seen at least `min_freq` times, in key order.
pub fn ngram_counts(patterns: &[Pattern], max_n: usize, min_freq: u32) -> (r: Vec<(Vec<u32>, u32)>)
    requires
        max_n < usize::MAX,
        forall|k: Seq<u32>| #[trigger] count_of(ngram_keys(patterns@, max_n as int), k) <= u32::MAX,
    ensures
        frequent_tally(ngram_keys(patterns@, max_n as int), min_freq, cands_view(r@)),
{
    let ghost all = ngram_keys(patterns@, max_n as int);
    let mut keys: Vec<Vec<u32>> = Vec::new();
    let np = patterns.len();
    let mut p: usize = 0;
    assert(patterns@.take(0) =~= Seq::<Pattern>::empty());
    assert(seqs_view(keys@) =~= Seq::<Seq<u32>>::empty());
    while p < np
        invariant
            np == patterns@.len(),
            p <= np,
            max_n < usize::MAX,
            seqs_view(keys@) == ngram_keys(patterns@.take(p as int), max_n as int),
        decreases np - p,
    {
        let ghost before = seqs_view(keys@);
        let syms = &patterns[p].symbols;
        let len = syms.len();
        let ghost ids = name_ids(patterns@[p as int]);
        assert(patterns@.take(p as int + 1).drop_last() =~= patterns@.take(p as int));
        let mut n: usize = 2;
        assert(windows_upto(ids, 2, 1) =~= Seq::<Seq<u32>>::empty());
        assert(before + windows_upto(ids, 2, 1) =~= before);
        while n <= max_n
            invariant
                2 <= n,
                n <= max_n + 1 || n == 2,
                max_n < usize::MAX,
                syms@ == patterns@[p as int].symbols@,
                len == syms@.len(),
                ids == name_ids(patterns@[p as int]),
                seqs_view(keys@) == before + windows_upto(ids, 2, n as int - 1),
            decreases max_n + 1 - n,
        {
            let ghost mid = seqs_view(keys@);
            if len >= n {
                let count = len - n + 1;
                let mut i: usize = 0;
                while i < count
                    invariant
                        count == len - n + 1,
                        len >= n,
                        n >= 2,
                        i <= count,
                        syms@ == patterns@[p as int].symbols@,
                        len == syms@.len(),
                        ids == name_ids(patterns@[p as int]),
                        seqs_view(keys@) == mid + windows(ids, n as int).take(i as int),
                    decreases count - i,
                {
                    let mut key: Vec<u32> = Vec::new();
                    let mut t: usize = 0;
                    while t < n
                        invariant
                            t <= n,
                            i + n <= len,
                            syms@ == patterns@[p as int].symbols@,
                            len == syms@.len(),
                            ids == name_ids(patterns@[p as int]),
                            key@ == ids.subrange(i as int, i + t),
                        decreases n - t,
                    {
                        key.push(syms[i + t].name);
                        assert(key@ =~= ids.subrange(i as int, i + t + 1));
                        t = t + 1;
                    }
                    let ghost kb = seqs_view(keys@);
                    keys.push(key);
                    assert(seqs_view(keys@) =~= kb.push(ids.subrange(i as int, i + n)));
                    assert(windows(ids, n as int).take(i as int + 1) =~= windows(ids, n as int).take(i as int).push(
                        ids.subrange(i as int, i + n),
                    ));
                    assert(seqs_view(keys@) =~= mid + windows(ids, n as int).take(i as int + 1));
                    i = i + 1;
                }
                assert(windows(ids, n as int).take(count as int) =~= windows(ids, n as int));
            } else {
                assert(windows(ids, n as int) =~= Seq::<Seq<u32>>::empty());
                assert(seqs_view(keys@) =~= mid + windows(ids, n as int));
            }
            assert(windows_upto(ids, 2, n as int) == windows_upto(ids, 2, n as int - 1) + windows(ids, n as int));
            assert(seqs_view(keys@) =~= before + windows_upto(ids, 2, n as int));
            n = n + 1;
        }
        if max_n < 2 {
            assert(windows_upto(ids, 2, max_n as int) =~= Seq::<Seq<u32>>::empty());
        }
        assert(ngram_keys(patterns@.take(p as int + 1), max_n as int) == ngram_keys(patterns@.take(p as int), max_n as int)
            + windows_upto(ids, 2, max_n as int));
        p = p + 1;
    }
    assert(patterns@.take(np as int) =~= patterns@);
    let table = count_keys(keys.as_slice());
    let ghost tv = cands_view(table@);
    let mut r: Vec<(Vec<u32>, u32)> = Vec::new();
    let nt = table.len();
    let mut i: usize = 0;
    assert(cands_view(r@) =~= keep_frequent(tv.take(0), min_freq));
    while i < nt
        invariant
            nt == table@.len(),
            tv == cands_view(table@),
            i <= nt,
            cands_view(r@) == keep_frequent(tv.take(i as int), min_freq),
        decreases nt - i,
    {
        let ghost rb = cands_view(r@);
        assert(tv[i as int] == cand_view(table@[i as int]));
        assert(tv.take(i as int + 1).drop_last() =~= tv.take(i as int));
        if table[i].1 >= min_freq {
            let item = (table[i].0.clone(), table[i].1);
            r.push(item);
            assert(cands_view(r@) =~= rb.push(tv[i as int]));
        } else {
            assert(cands_view(r@) =~= rb);
        }
        i = i + 1;
    }
    assert(tv.take(nt as int) =~= tv);
    proof {
        lemma_keep_frequent(tv, min_freq);
    }
    r
}

/// The entries of `t` seen at least `min_freq` times, in order.
pub open spec fn keep_frequent(t: Seq<(Seq<u32>, u32)>, min_freq: u32) -> Seq<(Seq<u32>, u32)>
    decreases t.len(),
{
    if t.len() == 0 {
        Seq::empty()
    } else {
        keep_frequent(t.drop_last(), min_freq) + if t.last().1 >= min_freq {
            seq![t.last()]
        } else {
            Seq::empty()
        }
    }
}

proof fn lemma_keep_frequent(t: Seq<(Seq<u32>, u32)>, min_freq: u32)
    ensures
        forall|a: int| 0 <= a < keep_frequent(t, min_freq).len() ==> exists|b: int|
            0 <= b < t.len() && t[b] == #[trigger] keep_frequent(t, min_freq)[a] && t[b].1 >= min_freq,
        forall|b: int| 0 <= b < t.len() && (#[trigger] t[b]).1 >= min_freq ==> keep_frequent(t, min_freq).contains(t[b]),
        (forall|i: int, j: int| 0 <= i < j < t.len() ==> lex_lt((#[trigger] t[i]).0, (#[trigger] t[j]).0)) ==> (forall|
            i: int,
            j: int,
        | 0 <= i < j < keep_frequent(t, min_freq).len() ==> lex_lt(
            (#[trigger] keep_frequent(t, min_freq)[i]).0,
            (#[trigger] keep_frequent(t, min_freq)[j]).0,
        )),
    decreases t.len(),
{
    if t.len() > 0 {
        let d = t.drop_last();
        lemma_keep_frequent(d, min_freq);
        let kd = keep_frequent(d, min_freq);
        let k = keep_frequent(t, min_freq);
        assert forall|a: int| 0 <= a < k.len() implies exists|b: int|
            0 <= b < t.len() && t[b] == #[trigger] k[a] && t[b].1 >= min_freq by {
            if a < kd.len() {
                assert(k[a] == kd[a]);
                let b = choose|b: int| 0 <= b < d.len() && d[b] == #[trigger] kd[a] && d[b].1 >= min_freq;
                assert(t[b] == d[b]);
            } else {
                assert(k[a] == t.last());
                assert(t[t.len() - 1] == t.last());
            }
        }
        assert forall|b: int| 0 <= b < t.len() && (#[trigger] t[b]).1 >= min_freq implies k.contains(t[b]) by {
            if b < t.len() - 1 {
                assert(d[b] == t[b]);
                assert(kd.contains(d[b]));
                let a = choose|a: int| 0 <= a < kd.len() && kd[a] == d[b];
                assert(k[a] == kd[a]);
            } else {
                assert(k[k.len() - 1] == t.last());
            }
        }
        if forall|i: int, j: int| 0 <= i < j < t.len() ==> lex_lt((#[trigger] t[i]).0, (#[trigger] t[j]).0) {
            assert forall|i: int, j: int| 0 <= i < j < d.len() implies lex_lt((#[trigger] d[i]).0, (#[trigger] d[j]).0) by {
                assert(d[i] == t[i]);
                assert(d[j] == t[j]);
            }
            assert forall|i: int, j: int| 0 <= i < j < k.len() implies lex_lt((#[trigger] k[i]).0, (#[trigger] k[j]).0) by {
                if j < kd.len() {
                    assert(k[i] == kd[i]);
                    assert(k[j] == kd[j]);
                } else {
                    assert(k[i] == kd[i]);
                    assert(k[j] == t.last());
                    let b = choose|b: int| 0 <= b < d.len() && d[b] == #[trigger] kd[i] && d[b].1 >= min_freq;
                    assert(t[b] == d[b]);
                    assert(t[t.len() - 1] == t.last());
                }
            }
        }
    }
}

} // verus!
