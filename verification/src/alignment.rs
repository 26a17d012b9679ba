use vstd::prelude::*;
use crate::beam::MatchStep;
use crate::model::Pattern;

verus! {

// ── Layout of an alignment table ─────────────────────────────────────────────

/// One cell of an alignment row.
///
/// A content cell shows step `step` of the match history: position
/// `old_pos` of the row's pattern covering position `new_pos`. A gap cell
/// stands for the `gap_span` positions skipped after step `step`, starting
/// at `new_pos`.
#[derive(Clone, Copy, Debug, PartialEq, Eq, Structural)]
pub struct CellLayout {
    pub old_pos: usize,
    pub new_pos: usize,
    pub is_gap: bool,
    pub gap_span: usize,
    pub step: usize,
}

/// The cells of the pattern with index `old_idx` in an alignment table.
#[derive(Clone, Debug)]
pub struct RowLayout {
    pub old_idx: usize,
    pub cells: Vec<CellLayout>,
    /// Every symbol of the pattern was matched.
    pub fully_matched: bool,
}

/// `(step, position)` entries whose positions never decrease.
pub open spec fn by_new_pos(s: Seq<(usize, usize)>) -> bool {
    forall|i: int, j: int| 0 <= i < j < s.len() ==> (#[trigger] s[i]).1 <= (#[trigger] s[j]).1
}

/// `x` placed after every entry whose position is at most its own.
pub open spec fn place_after(s: Seq<(usize, usize)>, x: (usize, usize)) -> Seq<(usize, usize)>
    decreases s.len(),
{
    if s.len() == 0 {
        seq![x]
    } else if s.last().1 <= x.1 {
        s.push(x)
    } else {
        place_after(s.drop_last(), x).push(s.last())
    }
}

/// The `(step, position)` of the steps among the first `upto` of `log` that
/// match pattern `o`, ordered by position, equal positions in history order.
pub open spec fn row_entries(log: Seq<MatchStep>, o: usize, upto: int) -> Seq<(usize, usize)>
    decreases upto,
{
    if upto <= 0 {
        Seq::empty()
    } else {
        let prior = row_entries(log, o, upto - 1);
        if log[upto - 1].old_idx == o {
            place_after(prior, ((upto - 1) as usize, log[upto - 1].new_pos))
        } else {
            prior
        }
    }
}

/// The content cell of step `j`.
pub open spec fn content_cell(log: Seq<MatchStep>, j: usize) -> CellLayout {
    CellLayout { old_pos: log[j as int].old_pos, new_pos: log[j as int].new_pos, is_gap: false, gap_span: 0, step: j }
}

/// The gap cell between steps `a` and `b`, if the pattern has gap
/// constraints and `b` does not directly follow `a`.
pub open spec fn gap_cells(log: Seq<MatchStep>, a: usize, b: usize, gapped: bool) -> Seq<CellLayout> {
    let pa = log[a as int].new_pos;
    let pb = log[b as int].new_pos;
    if gapped && pb > pa + 1 {
        seq![CellLayout { old_pos: log[a as int].old_pos, new_pos: (pa + 1) as usize, is_gap: true, gap_span: (pb - pa - 1) as usize, step: a }]
    } else {
        Seq::empty()
    }
}

/// The cells of a row whose steps are `e` (in order): a content cell per
/// step, with a gap cell between two steps whose positions are not adjacent
/// when the pattern has gap constraints.
pub open spec fn row_cells(log: Seq<MatchStep>, e: Seq<(usize, usize)>, gapped: bool) -> Seq<CellLayout>
    decreases e.len(),
{
    if e.len() == 0 {
        Seq::empty()
    } else if e.len() == 1 {
        seq![content_cell(log, e[0].0)]
    } else {
        row_cells(log, e.drop_last(), gapped) + gap_cells(log, e[e.len() - 2].0, e.last().0, gapped) + seq![
            content_cell(log, e.last().0),
        ]
    }
}

/// The cells of a row, between two content cells: a gap cell stands right
/// after the content cell before it and spans exactly the positions up to
/// the content cell after it (so its span is the number of positions
/// strictly between the two steps it separates); a gap cell appears between
/// two content cells exactly when the pattern has gap constraints and their
/// positions are not adjacent; the row starts and ends with content cells.
pub proof fn law_gap_cells_span_skips(log: Seq<MatchStep>, e: Seq<(usize, usize)>, gapped: bool)
    requires
        forall|i: int| 0 <= i < e.len() ==> (#[trigger] e[i]).0 < log.len() && log[e[i].0 as int].new_pos == e[i].1,
    ensures
        ({
            let c = row_cells(log, e, gapped);
            &&& e.len() > 0 ==> c.len() > 0 && c.last() == content_cell(log, e.last().0) && !c[0].is_gap
            &&& forall|x: int|
                0 <= x < c.len() && (#[trigger] c[x]).is_gap ==> {
                    &&& 0 < x < c.len() - 1
                    &&& gapped
                    &&& !c[x - 1].is_gap
                    &&& !c[x + 1].is_gap
                    &&& c[x].new_pos == c[x - 1].new_pos + 1
                    &&& c[x].new_pos + c[x].gap_span == c[x + 1].new_pos
                    &&& c[x].gap_span >= 1
                }
            &&& forall|x: int|
                0 <= x < c.len() - 1 && !(#[trigger] c[x]).is_gap && !c[x + 1].is_gap ==> !(gapped && c[x + 1].new_pos
                    > c[x].new_pos + 1)
        }),
    decreases e.len(),
{
    let c = row_cells(log, e, gapped);
    if e.len() == 1 {
        assert(c == seq![content_cell(log, e[0].0)]);
    } else if e.len() >= 2 {
        let d = e.drop_last();
        assert forall|i: int| 0 <= i < d.len() implies (#[trigger] d[i]).0 < log.len() && log[d[i].0 as int].new_pos
            == d[i].1 by {
            assert(d[i] == e[i]);
        }
        law_gap_cells_span_skips(log, d, gapped);
        let cd = row_cells(log, d, gapped);
        let a = e[e.len() - 2].0;
        let b = e.last().0;
        assert(d.last() == e[e.len() - 2]);
        assert(e[e.len() - 1] == e.last());
        let mid = gap_cells(log, a, b, gapped);
        let cl = content_cell(log, b);
        assert(c == cd + mid + seq![cl]);
        let pa = log[a as int].new_pos;
        let pb = log[b as int].new_pos;
        assert(cd.last().new_pos == pa);
        let n = cd.len();
        assert(c[n - 1] == cd.last());
        assert(c[c.len() - 1] == cl);
        assert(c[0] == cd[0]);
        assert forall|x: int| 0 <= x < c.len() && (#[trigger] c[x]).is_gap implies {
            &&& 0 < x < c.len() - 1
            &&& gapped
            &&& !c[x - 1].is_gap
            &&& !c[x + 1].is_gap
            &&& c[x].new_pos == c[x - 1].new_pos + 1
            &&& c[x].new_pos + c[x].gap_span == c[x + 1].new_pos
            &&& c[x].gap_span >= 1
        } by {
            if x < n {
                assert(c[x] == cd[x]);
                assert(cd[x].is_gap);
                assert(x < n - 1);
                assert(c[x - 1] == cd[x - 1]);
                assert(c[x + 1] == cd[x + 1]);
            } else if x < n + mid.len() {
                assert(mid.len() == 1);
                assert(c[x] == mid[0]);
                assert(gapped && pb > pa + 1);
                assert(c[x + 1] == cl);
            } else {
                assert(c[x] == cl);
            }
        }
        assert forall|x: int| 0 <= x < c.len() - 1 && !(#[trigger] c[x]).is_gap && !c[x + 1].is_gap implies !(gapped
            && c[x + 1].new_pos > c[x].new_pos + 1) by {
            if x < n - 1 {
                assert(c[x] == cd[x]);
                assert(c[x + 1] == cd[x + 1]);
            } else if x == n - 1 {
                if mid.len() == 0 {
                    assert(c[x + 1] == cl);
                    assert(!(gapped && pb > pa + 1));
                } else {
                    assert(c[x + 1] == mid[0]);
                }
            } else {
                assert(mid.len() == 1);
                assert(c[x] == mid[0]);
            }
        }
    }
}

/// In every laid-out row (see `alignment_rows`), each gap cell follows a
/// content cell, starts right after it, and spans exactly the positions up
/// to the next content cell.
pub proof fn law_row_gap_spans(log: Seq<MatchStep>, pats: Seq<Pattern>, r: RowLayout)
    requires
        row_fits(log, pats, r),
        log.len() <= usize::MAX,
    ensures
        forall|x: int|
            0 <= x < r.cells@.len() && (#[trigger] r.cells@[x]).is_gap ==> {
                &&& 0 < x < r.cells@.len() - 1
                &&& !r.cells@[x - 1].is_gap
                &&& !r.cells@[x + 1].is_gap
                &&& r.cells@[x].new_pos == r.cells@[x - 1].new_pos + 1
                &&& r.cells@[x].new_pos + r.cells@[x].gap_span == r.cells@[x + 1].new_pos
                &&& r.cells@[x].gap_span >= 1
            },
{
    let e = row_entries(log, r.old_idx, log.len() as int);
    lemma_row_entries(log, r.old_idx, log.len() as int);
    law_gap_cells_span_skips(log, e, pats[r.old_idx as int].gaps@.len() > 0);
}

/// Some step of the history matches pattern `o`.
pub open spec fn matched(log: Seq<MatchStep>, o: int) -> bool {
    exists|j: int| 0 <= j < log.len() && (#[trigger] log[j]).old_idx == o
}

/// The position the row of pattern `o` starts at.
pub open spec fn first_pos(log: Seq<MatchStep>, o: usize) -> usize {
    row_entries(log, o, log.len() as int)[0].1
}

/// Rows come by level, then by the position they start at, then by pattern
/// index.
pub open spec fn row_before(log: Seq<MatchStep>, pats: Seq<Pattern>, a: usize, b: usize) -> bool {
    let la = pats[a as int].level;
    let lb = pats[b as int].level;
    let fa = first_pos(log, a);
    let fb = first_pos(log, b);
    la < lb || (la == lb && (fa < fb || (fa == fb && a < b)))
}

/// The row of pattern `o` is laid out from the history.
pub open spec fn row_fits(log: Seq<MatchStep>, pats: Seq<Pattern>, r: RowLayout) -> bool {
    let e = row_entries(log, r.old_idx, log.len() as int);
    &&& r.cells@ == row_cells(log, e, pats[r.old_idx as int].gaps@.len() > 0)
    &&& r.fully_matched == (e.len() == pats[r.old_idx as int].symbols@.len())
}

proof fn lemma_place_after_at(s: Seq<(usize, usize)>, x: (usize, usize), p: int)
    requires
        by_new_pos(s),
        0 <= p <= s.len(),
        forall|i: int| 0 <= i < p ==> (#[trigger] s[i]).1 <= x.1,
        forall|i: int| p <= i < s.len() ==> (#[trigger] s[i]).1 > x.1,
    ensures
        place_after(s, x) == s.insert(p, x),
        by_new_pos(place_after(s, x)),
    decreases s.len(),
{
    if s.len() == 0 {
        assert(s.insert(p, x) =~= seq![x]);
    } else if s.last().1 <= x.1 {
        assert(p == s.len());
        assert(s.insert(p, x) =~= s.push(x));
    } else {
        let d = s.drop_last();
        lemma_place_after_at(d, x, p);
        assert(place_after(s, x) =~= d.insert(p, x).push(s.last()));
        assert(s.insert(p, x) =~= d.insert(p, x).push(s.last()));
    }
    let r = s.insert(p, x);
    assert forall|i: int, j: int| 0 <= i < j < r.len() implies (#[trigger] r[i]).1 <= (#[trigger] r[j]).1 by {
        if i < p && j < p {
        } else if i < p && j == p {
        } else if i < p {
            assert(r[j] == s[j - 1]);
        } else if i == p {
            assert(r[j] == s[j - 1]);
        } else {
            assert(r[i] == s[i - 1]);
            assert(r[j] == s[j - 1]);
        }
    }
}

proof fn lemma_place_after_len(s: Seq<(usize, usize)>, x: (usize, usize))
    ensures
        place_after(s, x).len() == s.len() + 1,
        forall|i: int| 0 <= i < place_after(s, x).len() ==> #[trigger] place_after(s, x)[i] == x || s.contains(place_after(s, x)[i]),
    decreases s.len(),
{
    if s.len() > 0 && s.last().1 > x.1 {
        let d = s.drop_last();
        lemma_place_after_len(d, x);
        let r = place_after(s, x);
        assert forall|i: int| 0 <= i < r.len() implies #[trigger] r[i] == x || s.contains(r[i]) by {
            if i < r.len() - 1 {
                if place_after(d, x)[i] != x {
                    let k = choose|k: int| 0 <= k < d.len() && d[k] == place_after(d, x)[i];
                    assert(s[k] == d[k]);
                }
            } else {
                assert(s[s.len() - 1] == s.last());
            }
        }
    } else if s.len() > 0 {
        let r = place_after(s, x);
        assert forall|i: int| 0 <= i < r.len() implies #[trigger] r[i] == x || s.contains(r[i]) by {
            if i < s.len() {
                assert(r[i] == s[i]);
            }
        }
    }
}

/// The entries of a row are steps of the history that match its pattern,
/// and a matched pattern has at least one.
proof fn lemma_row_entries(log: Seq<MatchStep>, o: usize, upto: int)
    requires
        0 <= upto <= log.len(),
        log.len() <= usize::MAX,
    ensures
        forall|i: int|
            0 <= i < row_entries(log, o, upto).len() ==> {
                &&& (#[trigger] row_entries(log, o, upto)[i]).0 < upto
                &&& log[row_entries(log, o, upto)[i].0 as int].old_idx == o
                &&& log[row_entries(log, o, upto)[i].0 as int].new_pos == row_entries(log, o, upto)[i].1
            },
        (exists|j: int| 0 <= j < upto && (#[trigger] log[j]).old_idx == o) ==> row_entries(log, o, upto).len() > 0,
    decreases upto,
{
    if upto > 0 {
        lemma_row_entries(log, o, upto - 1);
        let prior = row_entries(log, o, upto - 1);
        if log[upto - 1].old_idx == o {
            let x = ((upto - 1) as usize, log[upto - 1].new_pos);
            lemma_place_after_len(prior, x);
            let r = row_entries(log, o, upto);
            assert forall|i: int| 0 <= i < r.len() implies {
                &&& (#[trigger] r[i]).0 < upto
                &&& log[r[i].0 as int].old_idx == o
                &&& log[r[i].0 as int].new_pos == r[i].1
            } by {
                if r[i] != x {
                    let k = choose|k: int| 0 <= k < prior.len() && prior[k] == r[i];
                    assert(prior[k].0 < upto - 1);
                }
            }
        } else {
            if exists|j: int| 0 <= j < upto && (#[trigger] log[j]).old_idx == o {
                let j = choose|j: int| 0 <= j < upto && (#[trigger] log[j]).old_idx == o;
                assert(j < upto - 1);
            }
        }
    }
}

/// The entries of the row of pattern `o`, ordered by position.
fn collect_row_entries(log: &[MatchStep], o: usize) -> (r: Vec<(usize, usize)>)
    ensures
        r@ == row_entries(log@, o, log@.len() as int),
        by_new_pos(r@),
{
    let mut out: Vec<(usize, usize)> = Vec::new();
    let n = log.len();
    let mut j: usize = 0;
    while j < n
        invariant
            n == log@.len(),
            j <= n,
            out@ == row_entries(log@, o, j as int),
            by_new_pos(out@),
        decreases n - j,
    {
        let st = log[j];
        if st.old_idx == o {
            let x = (j, st.new_pos);
            let ghost prior = out@;
            let mut p: usize = out.len();
            while p > 0 && out[p - 1].1 > st.new_pos
                invariant
                    p <= out@.len(),
                    by_new_pos(out@),
                    forall|i: int| p <= i < out@.len() ==> (#[trigger] out@[i]).1 > st.new_pos,
                decreases p,
            {
                p = p - 1;
            }
            proof {
                assert forall|i: int| 0 <= i < p implies (#[trigger] out@[i]).1 <= x.1 by {
                    if p > 0 {
                        assert(out@[p - 1].1 <= x.1);
                    }
                }
                lemma_place_after_at(prior, x, p as int);
            }
            out.insert(p, x);
        }
        j = j + 1;
    }
    out
}

/// Extending the entries by one adds the gap cell before the new step, if
/// any, and the new step's content cell.
proof fn lemma_row_cells_step(log: Seq<MatchStep>, e: Seq<(usize, usize)>, i: int, gapped: bool)
    requires
        0 <= i < e.len(),
    ensures
        i == 0 ==> row_cells(log, e.take(1), gapped) == seq![content_cell(log, e[0].0)],
        i > 0 ==> row_cells(log, e.take(i + 1), gapped) == row_cells(log, e.take(i), gapped) + gap_cells(
            log,
            e[i - 1].0,
            e[i].0,
            gapped,
        ) + seq![content_cell(log, e[i].0)],
{
    let t = e.take(i + 1);
    assert(t.drop_last() =~= e.take(i));
    assert(t.last() == e[i]);
    if i > 0 {
        assert(t[t.len() - 2] == e[i - 1]);
    } else {
        assert(t.len() == 1);
        assert(t[0] == e[0]);
    }
}

/// The cells of a row with entries `e` (see `row_cells`).
fn build_cells(log: &[MatchStep], e: &Vec<(usize, usize)>, gapped: bool) -> (r: Vec<CellLayout>)
    requires
        forall|i: int| 0 <= i < e@.len() ==> {
            &&& (#[trigger] e@[i]).0 < log@.len()
            &&& log@[e@[i].0 as int].new_pos == e@[i].1
        },
    ensures
        r@ == row_cells(log@, e@, gapped),
{
    let mut cells: Vec<CellLayout> = Vec::new();
    let n = e.len();
    let mut i: usize = 0;
    assert(row_cells(log@, e@.take(0), gapped) =~= Seq::<CellLayout>::empty());
    while i < n
        invariant
            n == e@.len(),
            i <= n,
            forall|k: int| 0 <= k < e@.len() ==> (#[trigger] e@[k]).0 < log@.len(),
            cells@ == row_cells(log@, e@.take(i as int), gapped),
        decreases n - i,
    {
        proof {
            lemma_row_cells_step(log@, e@, i as int, gapped);
        }
        let ghost before = cells@;
        let j = e[i].0;
        let st = log[j];
        let mut mid: Vec<CellLayout> = Vec::new();
        if i > 0 {
            let a = e[i - 1].0;
            let prev = log[a];
            if gapped && st.new_pos > prev.new_pos && st.new_pos - prev.new_pos > 1 {
                mid.push(CellLayout {
                    old_pos: prev.old_pos,
                    new_pos: prev.new_pos + 1,
                    is_gap: true,
                    gap_span: st.new_pos - prev.new_pos - 1,
                    step: a,
                });
            }
            assert(mid@ =~= gap_cells(log@, a, j, gapped));
        }
        cells.append(&mut mid);
        cells.push(CellLayout { old_pos: st.old_pos, new_pos: st.new_pos, is_gap: false, gap_span: 0, step: j });
        proof {
            if i == 0 {
                assert(cells@ =~= seq![content_cell(log@, j)]);
            } else {
                assert(cells@ =~= before + gap_cells(log@, e@[i - 1].0, j, gapped) + seq![content_cell(log@, j)]);
            }
        }
        i = i + 1;
    }
    assert(e@.take(n as int) =~= e@);
    cells
}

/// The row of pattern `o`.
fn build_row(log: &[MatchStep], patterns: &[Pattern], o: usize) -> (r: RowLayout)
    requires
        o < patterns@.len(),
    ensures
        r.old_idx == o,
        row_fits(log@, patterns@, r),
{
    let e = collect_row_entries(log, o);
    let n = log.len();
    proof {
        lemma_row_entries(log@, o, n as int);
    }
    let gapped = patterns[o].gaps.len() > 0;
    let cells = build_cells(log, &e, gapped);
    let fully_matched = e.len() == patterns[o].symbols.len();
    RowLayout { old_idx: o, cells, fully_matched }
}

/// True if the row of `a` comes before the row of `b`.
fn row_precedes(log: &[MatchStep], patterns: &[Pattern], a: &RowLayout, fa: usize, b: &RowLayout, fb: usize) -> (r: bool)
    requires
        a.old_idx < patterns@.len(),
        b.old_idx < patterns@.len(),
        fa == first_pos(log@, a.old_idx),
        fb == first_pos(log@, b.old_idx),
    ensures
        r == row_before(log@, patterns@, a.old_idx, b.old_idx),
{
    let la = patterns[a.old_idx].level;
    let lb = patterns[b.old_idx].level;
    la < lb || (la == lb && (fa < fb || (fa == fb && a.old_idx < b.old_idx)))
}

proof fn lemma_row_before_order(log: Seq<MatchStep>, pats: Seq<Pattern>, a: usize, b: usize, c: usize)
    ensures
        !row_before(log, pats, a, a),
        row_before(log, pats, a, b) && row_before(log, pats, b, c) ==> row_before(log, pats, a, c),
        a != b ==> (row_before(log, pats, a, b) || row_before(log, pats, b, a)),
{
}

/// Lays out the alignment table of a match history over `patterns`: one row
/// per pattern the history matches, the rows ordered by the pattern's level,
/// then by the position the row starts at, then by pattern index.
///
/// Each row's content cells are the pattern's steps ordered by position
/// (equal positions in history order); for a pattern with gap constraints a
/// gap cell marks each run of skipped positions between two steps.
pub fn alignment_rows(log: &[MatchStep], patterns: &[Pattern]) -> (rows: Vec<RowLayout>)
    requires
        forall|j: int| 0 <= j < log@.len() ==> (#[trigger] log@[j]).old_idx < patterns@.len(),
    ensures
        forall|i: int|
            0 <= i < rows@.len() ==> matched(log@, (#[trigger] rows@[i]).old_idx as int) && row_fits(
                log@,
                patterns@,
                rows@[i],
            ),
        forall|o: int| 0 <= o < patterns@.len() && matched(log@, o) ==> exists|i: int|
            0 <= i < rows@.len() && (#[trigger] rows@[i]).old_idx == o,
        forall|i: int, j: int|
            0 <= i < j < rows@.len() ==> row_before(log@, patterns@, (#[trigger] rows@[i]).old_idx, (#[trigger] rows@[j]).old_idx),
{
    let mut rows: Vec<RowLayout> = Vec::new();
    let mut firsts: Vec<usize> = Vec::new();
    let n = log.len();
    let mut j: usize = 0;
    while j < n
        invariant
            n == log@.len(),
            j <= n,
            forall|x: int| 0 <= x < log@.len() ==> (#[trigger] log@[x]).old_idx < patterns@.len(),
            firsts@.len() == rows@.len(),
            forall|i: int| 0 <= i < rows@.len() ==> {
                &&& matched(log@, (#[trigger] rows@[i]).old_idx as int)
                &&& row_fits(log@, patterns@, rows@[i])
                &&& rows@[i].old_idx < patterns@.len()
                &&& firsts@[i] == first_pos(log@, rows@[i].old_idx)
            },
            forall|x: int| 0 <= x < j ==> exists|i: int|
                0 <= i < rows@.len() && (#[trigger] rows@[i]).old_idx == (#[trigger] log@[x]).old_idx,
            forall|a: int, b: int|
                0 <= a < b < rows@.len() ==> row_before(log@, patterns@, (#[trigger] rows@[a]).old_idx, (#[trigger] rows@[b]).old_idx),
        decreases n - j,
    {
        let o = log[j].old_idx;
        let mut found = false;
        let mut k: usize = 0;
        while k < rows.len()
            invariant
                k <= rows@.len(),
                found ==> exists|i: int| 0 <= i < rows@.len() && (#[trigger] rows@[i]).old_idx == o,
                !found ==> forall|i: int| 0 <= i < k ==> (#[trigger] rows@[i]).old_idx != o,
            decreases rows@.len() - k,
        {
            if rows[k].old_idx == o {
                found = true;
            }
            k = k + 1;
        }
        if !found {
            let ghost before = rows@;
            let ghost before_f = firsts@;
            let row = build_row(log, patterns, o);
            proof {
                assert(matched(log@, o as int)) by {
                    assert(log@[j as int].old_idx == o);
                }
                lemma_row_entries(log@, o, log@.len() as int);
                assert(log@[j as int].old_idx == o);
            }
            let e0 = row.cells[0].new_pos;
            proof {
                let e = row_entries(log@, o, log@.len() as int);
                assert(row.cells@ == row_cells(log@, e, patterns@[o as int].gaps@.len() > 0));
                lemma_row_cells_first(log@, e, patterns@[o as int].gaps@.len() > 0);
            }
            let mut p: usize = 0;
            while p < rows.len() && !row_precedes(log, patterns, &row, e0, &rows[p], firsts[p])
                invariant
                    p <= rows@.len(),
                    rows@ == before,
                    firsts@ == before_f,
                    firsts@.len() == rows@.len(),
                    row.old_idx == o,
                    o < patterns@.len(),
                    e0 == first_pos(log@, o),
                    forall|i: int| 0 <= i < rows@.len() ==> {
                        &&& (#[trigger] rows@[i]).old_idx < patterns@.len()
                        &&& firsts@[i] == first_pos(log@, rows@[i].old_idx)
                        &&& rows@[i].old_idx != o
                    },
                    forall|q: int| 0 <= q < p ==> row_before(log@, patterns@, (#[trigger] rows@[q]).old_idx, o),
                decreases rows@.len() - p,
            {
                proof {
                    lemma_row_before_order(log@, patterns@, o, rows@[p as int].old_idx, o);
                }
                p = p + 1;
            }
            rows.insert(p, row);
            firsts.insert(p, e0);
            proof {
                let nr = rows@;
                assert forall|a: int, b: int| 0 <= a < b < nr.len() implies row_before(
                    log@,
                    patterns@,
                    (#[trigger] nr[a]).old_idx,
                    (#[trigger] nr[b]).old_idx,
                ) by {
                    if b < p {
                    } else if b == p {
                    } else if a == p {
                        assert(nr[b] == before[b - 1]);
                        if b - 1 > p {
                            lemma_row_before_order(log@, patterns@, o, before[p as int].old_idx, before[b - 1].old_idx);
                        }
                        if b - 1 == p {
                            lemma_row_before_order(log@, patterns@, o, before[p as int].old_idx, o);
                        }
                    } else if a < p {
                        assert(nr[b] == before[b - 1]);
                    } else {
                        assert(nr[a] == before[a - 1]);
                        assert(nr[b] == before[b - 1]);
                    }
                }
                assert forall|i: int| 0 <= i < nr.len() implies {
                    &&& matched(log@, (#[trigger] nr[i]).old_idx as int)
                    &&& row_fits(log@, patterns@, nr[i])
                    &&& nr[i].old_idx < patterns@.len()
                    &&& firsts@[i] == first_pos(log@, nr[i].old_idx)
                } by {
                    if i > p {
                        assert(nr[i] == before[i - 1]);
                    } else if i < p {
                        assert(nr[i] == before[i]);
                    }
                }
                assert forall|x: int| 0 <= x < j + 1 implies exists|i: int|
                    0 <= i < nr.len() && (#[trigger] nr[i]).old_idx == (#[trigger] log@[x]).old_idx by {
                    if x == j {
                        assert(nr[p as int].old_idx == o);
                    } else {
                        let i = choose|i: int| 0 <= i < before.len() && (#[trigger] before[i]).old_idx == log@[x].old_idx;
                        if i < p {
                            assert(nr[i] == before[i]);
                        } else {
                            assert(nr[i + 1] == before[i]);
                        }
                    }
                }
            }
        }
        j = j + 1;
    }
    assert forall|o: int| 0 <= o < patterns@.len() && matched(log@, o) implies exists|i: int|
        0 <= i < rows@.len() && (#[trigger] rows@[i]).old_idx == o by {
        let x = choose|x: int| 0 <= x < log@.len() && (#[trigger] log@[x]).old_idx == o;
        assert(exists|i: int| 0 <= i < rows@.len() && (#[trigger] rows@[i]).old_idx == log@[x].old_idx);
    }
    rows
}

/// A non-empty row starts with the content cell of its first step.
proof fn lemma_row_cells_first(log: Seq<MatchStep>, e: Seq<(usize, usize)>, gapped: bool)
    requires
        e.len() > 0,
    ensures
        row_cells(log, e, gapped).len() > 0,
        row_cells(log, e, gapped)[0] == content_cell(log, e[0].0),
    decreases e.len(),
{
    if e.len() > 1 {
        lemma_row_cells_first(log, e.drop_last(), gapped);
    }
}

/// The positions of `covered` that are not covered, in increasing order.
pub fn uncovered_positions(covered: &[bool]) -> (r: Vec<usize>)
    ensures
        forall|i: int, j: int| 0 <= i < j < r@.len() ==> r@[i] < r@[j],
        forall|i: int| 0 <= i < r@.len() ==> (#[trigger] r@[i]) < covered@.len() && !covered@[r@[i] as int],
        forall|p: int| 0 <= p < covered@.len() && !covered@[p] ==> r@.contains(p as usize),
{
    let n = covered.len();
    let mut r: Vec<usize> = Vec::new();
    let mut i: usize = 0;
    while i < n
        invariant
            n == covered@.len(),
            i <= n,
            forall|x: int, y: int| 0 <= x < y < r@.len() ==> r@[x] < r@[y],
            forall|x: int| 0 <= x < r@.len() ==> (#[trigger] r@[x]) < i && !covered@[r@[x] as int],
            forall|p: int| 0 <= p < i && !covered@[p] ==> r@.contains(p as usize),
        decreases n - i,
    {
        let ghost before = r@;
        if !covered[i] {
            r.push(i);
            assert(r@[r@.len() - 1] == i);
        }
        assert forall|p: int| 0 <= p < i + 1 && !covered@[p] implies r@.contains(p as usize) by {
            if p == i {
                assert(r@[r@.len() - 1] == i);
            } else {
                assert(before.contains(p as usize));
                let k = choose|k: int| 0 <= k < before.len() && before[k] == p as usize;
                assert(r@[k] == before[k]);
            }
        }
        i = i + 1;
    }
    r
}

} // verus!
