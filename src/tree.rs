use vstd::arithmetic::div_mod::{lemma_fundamental_div_mod, lemma_mod_pos_bound};
use vstd::arithmetic::mul::lemma_mul_inequality;
use vstd::prelude::*;

use crate::interval::Interval;
use crate::rule::{matches_spec, Rule};
use crate::{HiCutsError, MinMax};

verus! {

/// The largest number of equal-width pieces that one node cuts its range into.
pub const MAX_CUTS: u64 = 16;

/// The numbers of pieces a node may try: the powers of two from 2 to `MAX_CUTS`.
pub open spec fn is_cut_count(k: int) -> bool {
    k == 2 || k == 4 || k == 8 || k == 16
}

/// Piece `j` of `iv` cut into `k` pieces of width `width / k`; the last piece
/// also takes the remainder, so that the pieces tile `iv` exactly.
pub open spec fn piece(iv: Interval, k: int, j: int) -> Interval {
    let c = iv.spec_width() / k;
    Interval {
        begin: (iv.begin + j * c) as u64,
        end: if j == k - 1 {
            iv.end
        } else {
            (iv.begin + (j + 1) * c) as u64
        },
    }
}

/// The elements of `ids` that satisfy `p`, in their order.
pub open spec fn pick(ids: Seq<usize>, p: spec_fn(usize) -> bool) -> Seq<usize>
    decreases ids.len(),
{
    if ids.len() == 0 {
        Seq::empty()
    } else {
        let rest = pick(ids.drop_last(), p);
        if p(ids.last()) {
            rest.push(ids.last())
        } else {
            rest
        }
    }
}

/// Holds of the rule indices whose interval in dimension `d` overlaps `iv`.
pub open spec fn overlaps_in(rules: Seq<Rule>, d: int, iv: Interval) -> spec_fn(usize) -> bool {
    |i: usize| rules[i as int].intervals@[d].spec_overlaps(iv)
}

/// Holds of the rule indices whose rule matches `fields`.
pub open spec fn matching(rules: Seq<Rule>, fields: Seq<u64>) -> spec_fn(usize) -> bool {
    |i: usize| matches_spec(rules[i as int], fields)
}

/// The rules of `ids` that land in piece `j` when dimension `d` of `iv` is cut
/// into `k` pieces.
pub open spec fn part(rules: Seq<Rule>, ids: Seq<usize>, iv: Interval, d: int, k: int, j: int) -> Seq<usize> {
    pick(ids, overlaps_in(rules, d, piece(iv, k, j)))
}

/// Every index names a rule with `dims` intervals.
pub open spec fn ids_ok(rules: Seq<Rule>, ids: Seq<usize>, dims: int) -> bool {
    forall|i: int|
        0 <= i < ids.len() ==> (#[trigger] ids[i] as int) < rules.len() && rules[ids[i] as int].intervals@.len()
            == dims
}

/// Every interval of the box is valid.
pub open spec fn box_ok(bx: Seq<Interval>) -> bool {
    forall|d: int| 0 <= d < bx.len() ==> (#[trigger] bx[d]).wf()
}

/// Whether the point lies in the box.
pub open spec fn in_box(bx: Seq<Interval>, fields: Seq<u64>) -> bool {
    &&& fields.len() == bx.len()
    &&& forall|d: int| 0 <= d < bx.len() ==> #[trigger] bx[d].spec_contains(fields[d])
}

/// A filtered sequence is no longer than its source, and holds only
/// elements of the source that meet the predicate.
proof fn lemma_pick_len(ids: Seq<usize>, p: spec_fn(usize) -> bool)
    ensures
        pick(ids, p).len() <= ids.len(),
        forall|i: int|
            0 <= i < pick(ids, p).len() ==> p(#[trigger] pick(ids, p)[i]) && ids.contains(pick(ids, p)[i]),
    decreases ids.len(),
{
    if ids.len() > 0 {
        lemma_pick_len(ids.drop_last(), p);
        let rest = pick(ids.drop_last(), p);
        assert forall|i: int| 0 <= i < pick(ids, p).len() implies p(#[trigger] pick(ids, p)[i]) && ids.contains(
            pick(ids, p)[i],
        ) by {
            if i < rest.len() {
                let x = rest[i];
                assert(pick(ids, p)[i] == rest[i]);
                assert(p(rest[i]) && ids.drop_last().contains(x));
                let w = choose|w: int| 0 <= w < ids.drop_last().len() && ids.drop_last()[w] == x;
                assert(ids[w] == x);
            } else {
                assert(ids[ids.len() - 1] == ids.last());
            }
        }
    }
}

/// A subsequence of valid indices holds valid indices.
proof fn lemma_pick_ids_ok(rules: Seq<Rule>, ids: Seq<usize>, dims: int, p: spec_fn(usize) -> bool)
    requires
        ids_ok(rules, ids, dims),
    ensures
        ids_ok(rules, pick(ids, p), dims),
{
    lemma_pick_len(ids, p);
    assert forall|i: int| 0 <= i < pick(ids, p).len() implies (#[trigger] pick(ids, p)[i] as int) < rules.len()
        && rules[pick(ids, p)[i] as int].intervals@.len() == dims by {
        let x = pick(ids, p)[i];
        assert(p(pick(ids, p)[i]));
        assert(ids.contains(x));
        let w = choose|w: int| 0 <= w < ids.len() && ids[w] == x;
        assert((ids[w] as int) < rules.len());
    }
}

/// Filtering first by a weaker predicate changes nothing.
proof fn lemma_pick_pick(ids: Seq<usize>, p: spec_fn(usize) -> bool, q: spec_fn(usize) -> bool)
    requires
        forall|i: int| 0 <= i < ids.len() ==> p(#[trigger] ids[i]) ==> q(ids[i]),
    ensures
        pick(pick(ids, q), p) == pick(ids, p),
    decreases ids.len(),
{
    if ids.len() > 0 {
        let s = ids.drop_last();
        assert forall|i: int| 0 <= i < s.len() && p(#[trigger] s[i]) implies q(s[i]) by {
            assert(s[i] == ids[i]);
        }
        lemma_pick_pick(s, p, q);
        assert(p(ids.last()) ==> q(ids[ids.len() - 1]));
        if q(ids.last()) {
            assert(pick(ids, q).drop_last() == pick(s, q));
        }
    }
}

/// Filtering by a predicate that nothing meets leaves nothing.
proof fn lemma_pick_none(ids: Seq<usize>, p: spec_fn(usize) -> bool)
    requires
        forall|i: int| 0 <= i < ids.len() ==> !p(#[trigger] ids[i]),
    ensures
        pick(ids, p) == Seq::<usize>::empty(),
    decreases ids.len(),
{
    if ids.len() > 0 {
        let s = ids.drop_last();
        assert forall|i: int| 0 <= i < s.len() implies !p(#[trigger] s[i]) by {
            assert(s[i] == ids[i]);
        }
        lemma_pick_none(s, p);
        assert(!p(ids[ids.len() - 1]));
    }
}

/// Facts on `c = w / k` when `1 <= k <= w`.
proof fn lemma_step(w: int, k: int)
    requires
        1 <= k <= w,
    ensures
        1 <= w / k,
        k * (w / k) <= w,
        forall|j: int| 0 <= j <= k ==> #[trigger] (j * (w / k)) <= k * (w / k),
{
    lemma_fundamental_div_mod(w, k);
    lemma_mod_pos_bound(w, k);
    if w / k <= 0 {
        assert(k * (w / k) <= 0) by (nonlinear_arith)
            requires
                k >= 1,
                w / k <= 0,
        ;
    }
    assert forall|j: int| 0 <= j <= k implies #[trigger] (j * (w / k)) <= k * (w / k) by {
        lemma_mul_inequality(j, k, w / k);
    }
}

/// The pieces of a valid interval are valid, non-empty, contiguous, and run
/// from its begin to its end.
pub proof fn lemma_pieces_tile(iv: Interval, k: int)
    requires
        iv.wf(),
        1 <= k <= iv.spec_width(),
    ensures
        piece(iv, k, 0).begin == iv.begin,
        piece(iv, k, k - 1).end == iv.end,
        forall|j: int| 0 <= j < k ==> (#[trigger] piece(iv, k, j)).begin < piece(iv, k, j).end,
        forall|j: int| 0 <= j < k - 1 ==> (#[trigger] piece(iv, k, j)).end == piece(iv, k, j + 1).begin,
        k >= 2 ==> forall|j: int| 0 <= j < k ==> (#[trigger] piece(iv, k, j)).spec_width() < iv.spec_width(),
        forall|j: int| 0 <= j < k ==> iv.begin <= (#[trigger] piece(iv, k, j)).begin && piece(iv, k, j).end <= iv.end,
{
    let w = iv.spec_width();
    let c = w / k;
    lemma_step(w, k);
    assert(0 * c == 0);
    assert forall|j: int| 0 <= j < k implies (#[trigger] piece(iv, k, j)).begin < piece(iv, k, j).end by {
        assert(j * c <= k * c);
        assert((j + 1) * c <= k * c);
        assert((j + 1) * c == j * c + c) by (nonlinear_arith);
        if j == k - 1 {
            assert(j * c == k * c - c) by (nonlinear_arith)
                requires
                    j == k - 1,
            ;
        }
    }
    assert forall|j: int| 0 <= j < k - 1 implies (#[trigger] piece(iv, k, j)).end == piece(iv, k, j + 1).begin by {
        assert((j + 1) * c <= k * c);
    }
    assert forall|j: int| 0 <= j < k implies iv.begin <= (#[trigger] piece(iv, k, j)).begin && piece(iv, k, j).end
        <= iv.end by {
        assert(j * c <= k * c);
        assert((j + 1) * c <= k * c);
        assert(j * c >= 0) by (nonlinear_arith)
            requires
                j >= 0,
                c >= 1,
        ;
    }
    if k >= 2 {
        assert forall|j: int| 0 <= j < k implies (#[trigger] piece(iv, k, j)).spec_width() < iv.spec_width() by {
            assert(j * c <= k * c);
            assert((j + 1) * c <= k * c);
            assert((j + 1) * c == j * c + c) by (nonlinear_arith);
            assert(k * c >= 2 * c) by (nonlinear_arith)
                requires
                    k >= 2,
                    c >= 1,
            ;
            if j == k - 1 {
                assert(j * c == k * c - c) by (nonlinear_arith)
                    requires
                        j == k - 1,
                ;
                assert(j * c >= c) by (nonlinear_arith)
                    requires
                        j >= 1,
                        c >= 1,
                ;
            }
        }
    }
}

/// Piece `j` of `iv` cut into `k` pieces.
pub fn piece_of(iv: Interval, k: u64, j: u64) -> (r: Interval)
    requires
        iv.wf(),
        1 <= k <= iv.spec_width(),
        j < k,
    ensures
        r == piece(iv, k as int, j as int),
{
    let ghost w = iv.spec_width();
    let c = (iv.end - iv.begin) / k;
    proof {
        lemma_step(w, k as int);
        assert(j * c <= k * c);
        assert((j + 1) * c <= k * c);
    }
    let b = iv.begin + j * c;
    let e = if j == k - 1 {
        iv.end
    } else {
        iv.begin + (j + 1) * c
    };
    Interval { begin: b, end: e }
}

/// Which of the `k` pieces of `iv` holds `v`.
pub open spec fn slot(iv: Interval, k: int, v: u64) -> int {
    let q = (v - iv.begin) / (iv.spec_width() / k);
    if q >= k {
        k - 1
    } else {
        q
    }
}

/// The piece that `slot` names exists and holds the value.
proof fn lemma_slot(iv: Interval, k: int, v: u64)
    requires
        iv.wf(),
        1 <= k <= iv.spec_width(),
        iv.spec_contains(v),
    ensures
        0 <= slot(iv, k, v) < k,
        piece(iv, k, slot(iv, k, v)).spec_contains(v),
{
    let w = iv.spec_width();
    let c = w / k;
    let x = v - iv.begin;
    let q = x / c;
    lemma_step(w, k);
    lemma_fundamental_div_mod(x, c);
    lemma_mod_pos_bound(x, c);
    assert(c * q <= x < c * q + c);
    assert(q * c == c * q) by (nonlinear_arith);
    assert((q + 1) * c == q * c + c) by (nonlinear_arith);
    assert(q >= 0) by (nonlinear_arith)
        requires
            x >= 0,
            c >= 1,
            q == x / c,
    ;
    if q >= k {
        lemma_mul_inequality(k - 1, k, c);
        lemma_mul_inequality(k, q, c);
    }
}

/// The piece of `iv`, cut into `k` pieces, that holds `v`.
pub fn piece_index(iv: Interval, k: u64, v: u64) -> (j: u64)
    requires
        iv.wf(),
        1 <= k <= iv.spec_width(),
        iv.spec_contains(v),
    ensures
        j == slot(iv, k as int, v),
        j < k,
        piece(iv, k as int, j as int).spec_contains(v),
{
    proof {
        lemma_slot(iv, k as int, v);
        lemma_step(iv.spec_width(), k as int);
    }
    let c = (iv.end - iv.begin) / k;
    let q = (v - iv.begin) / c;
    if q >= k {
        k - 1
    } else {
        q
    }
}

/// Every index names a rule that has an interval in dimension `d`.
pub open spec fn ids_reach(rules: Seq<Rule>, ids: Seq<usize>, d: int) -> bool {
    forall|i: int|
        0 <= i < ids.len() ==> (#[trigger] ids[i] as int) < rules.len() && d < rules[ids[i] as int].intervals@.len()
}

/// Cutting dimension `d` into `k` pieces leaves every rule in every piece.
pub open spec fn no_progress(rules: Seq<Rule>, bx: Seq<Interval>, ids: Seq<usize>, d: int, k: int) -> bool {
    forall|j: int| 0 <= j < k ==> #[trigger] part(rules, ids, bx[d], d, k, j).len() == ids.len()
}

/// The sum of the widths of a box's intervals.
pub open spec fn width_sum(bx: Seq<Interval>) -> int
    decreases bx.len(),
{
    if bx.len() == 0 {
        0
    } else {
        width_sum(bx.drop_last()) + bx.last().spec_width()
    }
}

/// A valid box has a non-negative width sum.
proof fn lemma_width_sum_nonneg(bx: Seq<Interval>)
    requires
        box_ok(bx),
    ensures
        width_sum(bx) >= 0,
    decreases bx.len(),
{
    if bx.len() > 0 {
        let s = bx.drop_last();
        assert forall|d: int| 0 <= d < s.len() implies (#[trigger] s[d]).wf() by {
            assert(s[d] == bx[d]);
        }
        lemma_width_sum_nonneg(s);
        assert(bx[bx.len() - 1].wf());
    }
}

/// Replacing one interval changes the width sum by the difference of widths.
proof fn lemma_width_sum_update(bx: Seq<Interval>, d: int, x: Interval)
    requires
        0 <= d < bx.len(),
    ensures
        width_sum(bx.update(d, x)) == width_sum(bx) - bx[d].spec_width() + x.spec_width(),
    decreases bx.len(),
{
    if d == bx.len() - 1 {
        assert(bx.update(d, x).drop_last() == bx.drop_last());
    } else {
        lemma_width_sum_update(bx.drop_last(), d, x);
        assert(bx.update(d, x).drop_last() == bx.drop_last().update(d, x));
    }
}

/// No cut that a node may try separates any of the rules.
pub open spec fn stuck(rules: Seq<Rule>, bx: Seq<Interval>, ids: Seq<usize>) -> bool {
    forall|d: int, k: int|
        0 <= d < bx.len() && is_cut_count(k) && k <= bx[d].spec_width() ==> #[trigger] no_progress(
            rules,
            bx,
            ids,
            d,
            k,
        )
}

/// A sub-range of one dimension together with the rules that overlap it.
#[derive(Debug)]
pub struct Partition {
    pub interval: Interval,
    pub rules: Vec<usize>,
}

impl Partition {
    pub fn new(interval: Interval, rules: Vec<usize>) -> (r: Partition)
        ensures
            r.interval == interval,
            r.rules@ == rules@,
    {
        Partition { interval, rules }
    }

    /// The rules of `ids`, in order, whose interval in dimension `d` overlaps
    /// `interval`.
    pub fn collect(rules: &Vec<Rule>, ids: &Vec<usize>, d: usize, interval: Interval) -> (r: Partition)
        requires
            ids_reach(rules@, ids@, d as int),
        ensures
            r.interval == interval,
            r.rules@ == pick(ids@, overlaps_in(rules@, d as int, interval)),
    {
        let ghost p = overlaps_in(rules@, d as int, interval);
        let mut out: Vec<usize> = Vec::new();
        let mut i: usize = 0;
        while i < ids.len()
            invariant
                ids_reach(rules@, ids@, d as int),
                p == overlaps_in(rules@, d as int, interval),
                0 <= i <= ids@.len(),
                out@ == pick(ids@.take(i as int), p),
            decreases ids@.len() - i,
        {
            let id = ids[i];
            assert(ids@.take(i as int + 1).drop_last() == ids@.take(i as int));
            assert(ids@.take(i as int + 1).last() == id);
            let keep = rules[id].intervals[d].overlaps(&interval);
            assert(keep == p(id));
            if keep {
                out.push(id);
            }
            i += 1;
        }
        assert(ids@.take(ids@.len() as int) == ids@);
        Partition { interval, rules: out }
    }
}

/// The number of rules in piece `j`.
pub open spec fn part_len(rules: Seq<Rule>, ids: Seq<usize>, iv: Interval, d: int, k: int, j: int) -> int {
    part(rules, ids, iv, d, k, j).len() as int
}

/// The size of the largest of pieces `0 .. m`.
pub open spec fn max_part(rules: Seq<Rule>, ids: Seq<usize>, iv: Interval, d: int, k: int, m: int) -> int
    decreases m,
{
    if m <= 1 {
        part_len(rules, ids, iv, d, k, 0)
    } else {
        let a = max_part(rules, ids, iv, d, k, m - 1);
        let b = part_len(rules, ids, iv, d, k, m - 1);
        if b > a {
            b
        } else {
            a
        }
    }
}

/// The size of the smallest of pieces `0 .. m`.
pub open spec fn min_part(rules: Seq<Rule>, ids: Seq<usize>, iv: Interval, d: int, k: int, m: int) -> int
    decreases m,
{
    if m <= 1 {
        part_len(rules, ids, iv, d, k, 0)
    } else {
        let a = min_part(rules, ids, iv, d, k, m - 1);
        let b = part_len(rules, ids, iv, d, k, m - 1);
        if b < a {
            b
        } else {
            a
        }
    }
}

/// The number of entries over pieces `0 .. m`.
pub open spec fn total_part(rules: Seq<Rule>, ids: Seq<usize>, iv: Interval, d: int, k: int, m: int) -> int
    decreases m,
{
    if m <= 0 {
        0
    } else {
        total_part(rules, ids, iv, d, k, m - 1) + part_len(rules, ids, iv, d, k, m - 1)
    }
}

/// The best cut found so far while the candidates are tried in order.
pub struct CutChoice {
    pub found: bool,
    pub d: int,
    pub k: int,
    pub cost: int,
    pub w: int,
}

/// The choice after cut `(d, k)` of `bx` is tried: a cut that leaves some
/// piece with fewer rules replaces the choice when its cost is lower, or
/// equal with a wider dimension.
pub open spec fn consider(
    c: CutChoice,
    rules: Seq<Rule>,
    bx: Seq<Interval>,
    ids: Seq<usize>,
    spfac: int,
    d: int,
    k: int,
) -> CutChoice {
    let iv = bx[d];
    let w = iv.spec_width();
    if min_part(rules, ids, iv, d, k, k) < ids.len() {
        let cost = spfac * max_part(rules, ids, iv, d, k, k) + 100 * (total_part(rules, ids, iv, d, k, k) + k);
        if !c.found || cost < c.cost || (cost == c.cost && w > c.w) {
            CutChoice { found: true, d, k, cost, w }
        } else {
            c
        }
    } else {
        c
    }
}

/// The choice after the cuts of dimension `d` into `k, 2k, ...` pieces, up
/// to `MAX_CUTS` and the dimension's width, are tried from `c`.
pub open spec fn scan_cuts(
    c: CutChoice,
    rules: Seq<Rule>,
    bx: Seq<Interval>,
    ids: Seq<usize>,
    spfac: int,
    d: int,
    k: int,
) -> CutChoice
    decreases 32 - k,
{
    if 2 <= k <= 16 && k <= bx[d].spec_width() {
        scan_cuts(consider(c, rules, bx, ids, spfac, d, k), rules, bx, ids, spfac, d, 2 * k)
    } else {
        c
    }
}

/// The choice after the cuts of dimensions `0 .. d` are tried.
pub open spec fn scan_dims(rules: Seq<Rule>, bx: Seq<Interval>, ids: Seq<usize>, spfac: int, d: int) -> CutChoice
    decreases d,
{
    if d <= 0 {
        CutChoice { found: false, d: 0, k: 0, cost: 0, w: 0 }
    } else {
        scan_cuts(scan_dims(rules, bx, ids, spfac, d - 1), rules, bx, ids, spfac, d - 1, 2)
    }
}

/// The cut that a node over `bx` holding `ids` takes, if any.
pub open spec fn best_cut(rules: Seq<Rule>, bx: Seq<Interval>, ids: Seq<usize>, spfac: int) -> CutChoice {
    scan_dims(rules, bx, ids, spfac, bx.len() as int)
}

/// Cut `(d, k)` may be tried at a node over `bx`.
pub open spec fn allowed(bx: Seq<Interval>, d: int, k: int) -> bool {
    0 <= d < bx.len() && is_cut_count(k) && k <= bx[d].spec_width()
}

/// Cut `(d, k)` leaves some piece with fewer rules than the node.
pub open spec fn progresses(rules: Seq<Rule>, bx: Seq<Interval>, ids: Seq<usize>, d: int, k: int) -> bool {
    min_part(rules, ids, bx[d], d, k, k) < ids.len()
}

/// The cost of cut `(d, k)`, as `cut_cost` computes it.
pub open spec fn cost_of(rules: Seq<Rule>, bx: Seq<Interval>, ids: Seq<usize>, spfac: int, d: int, k: int) -> int {
    spfac * max_part(rules, ids, bx[d], d, k, k) + 100 * (total_part(rules, ids, bx[d], d, k, k) + k)
}

/// The choice `c` is at least as good as cut `(d, k)`: of lower cost, or of
/// equal cost and a wider dimension, or equal in both and earlier in the
/// order of dimensions and then of piece counts.
pub open spec fn preferred(c: CutChoice, rules: Seq<Rule>, bx: Seq<Interval>, ids: Seq<usize>, spfac: int, d: int, k: int) -> bool {
    let cost = cost_of(rules, bx, ids, spfac, d, k);
    let w = bx[d].spec_width();
    c.cost < cost || (c.cost == cost && (c.w > w || (c.w == w && (c.d < d || (c.d == d && c.k <= k)))))
}

/// Cut `(d, k)` comes before `(dl, kl)` in the order of trial.
pub open spec fn tried_before(d: int, k: int, dl: int, kl: int) -> bool {
    d < dl || (d == dl && k < kl)
}

/// `c` is the preferred progressing cut among those tried before `(dl, kl)`,
/// and is found exactly when one of them progresses.
pub open spec fn best_among(
    c: CutChoice,
    rules: Seq<Rule>,
    bx: Seq<Interval>,
    ids: Seq<usize>,
    spfac: int,
    dl: int,
    kl: int,
) -> bool {
    &&& c.found ==> allowed(bx, c.d, c.k) && progresses(rules, bx, ids, c.d, c.k) && tried_before(c.d, c.k, dl, kl)
        && c.cost == cost_of(rules, bx, ids, spfac, c.d, c.k) && c.w == bx[c.d].spec_width()
    &&& forall|d: int, k: int|
        allowed(bx, d, k) && #[trigger] progresses(rules, bx, ids, d, k) && tried_before(d, k, dl, kl) ==> c.found
            && preferred(c, rules, bx, ids, spfac, d, k)
}

proof fn lemma_scan_cuts(c: CutChoice, rules: Seq<Rule>, bx: Seq<Interval>, ids: Seq<usize>, spfac: int, d: int, k: int)
    requires
        0 <= d < bx.len(),
        k == 2 || k == 4 || k == 8 || k == 16 || k == 32,
        best_among(c, rules, bx, ids, spfac, d, k),
    ensures
        best_among(scan_cuts(c, rules, bx, ids, spfac, d, k), rules, bx, ids, spfac, d + 1, 0),
    decreases 32 - k,
{
    if 2 <= k <= 16 && k <= bx[d].spec_width() {
        let c2 = consider(c, rules, bx, ids, spfac, d, k);
        assert(best_among(c2, rules, bx, ids, spfac, d, 2 * k)) by {
            assert forall|d2: int, k2: int|
                allowed(bx, d2, k2) && #[trigger] progresses(rules, bx, ids, d2, k2) && tried_before(d2, k2, d, 2 * k) implies c2.found
                && preferred(c2, rules, bx, ids, spfac, d2, k2) by {
                if tried_before(d2, k2, d, k) {
                    assert(preferred(c, rules, bx, ids, spfac, d2, k2));
                } else {
                    assert(d2 == d && k2 == k);
                }
            }
        }
        lemma_scan_cuts(c2, rules, bx, ids, spfac, d, 2 * k);
    } else {
        assert forall|d2: int, k2: int|
            allowed(bx, d2, k2) && #[trigger] progresses(rules, bx, ids, d2, k2) && tried_before(d2, k2, d + 1, 0) implies c.found
            && preferred(c, rules, bx, ids, spfac, d2, k2) by {
            assert(tried_before(d2, k2, d, k));
        }
    }
}

proof fn lemma_scan_dims(rules: Seq<Rule>, bx: Seq<Interval>, ids: Seq<usize>, spfac: int, d: int)
    requires
        0 <= d <= bx.len(),
    ensures
        best_among(scan_dims(rules, bx, ids, spfac, d), rules, bx, ids, spfac, d, 0),
    decreases d,
{
    if d > 0 {
        let c = scan_dims(rules, bx, ids, spfac, d - 1);
        lemma_scan_dims(rules, bx, ids, spfac, d - 1);
        assert(best_among(c, rules, bx, ids, spfac, d - 1, 2)) by {
            assert forall|d2: int, k2: int|
                allowed(bx, d2, k2) && #[trigger] progresses(rules, bx, ids, d2, k2) && tried_before(d2, k2, d - 1, 2) implies c.found
                && preferred(c, rules, bx, ids, spfac, d2, k2) by {
                assert(tried_before(d2, k2, d - 1, 0));
            }
        }
        lemma_scan_cuts(c, rules, bx, ids, spfac, d - 1, 2);
    }
}

/// The cut a node takes is found exactly when some allowed cut leaves a
/// piece with fewer rules; it is then such a cut, and no other such cut has
/// a lower cost, nor an equal cost with a wider dimension, nor equal cost
/// and width and an earlier dimension, or the same dimension and fewer
/// pieces.
pub proof fn lemma_best_cut(rules: Seq<Rule>, bx: Seq<Interval>, ids: Seq<usize>, spfac: int)
    ensures
        ({
            let c = best_cut(rules, bx, ids, spfac);
            &&& c.found ==> allowed(bx, c.d, c.k) && progresses(rules, bx, ids, c.d, c.k) && c.cost == cost_of(
                rules,
                bx,
                ids,
                spfac,
                c.d,
                c.k,
            ) && c.w == bx[c.d].spec_width()
            &&& forall|d: int, k: int|
                allowed(bx, d, k) && #[trigger] progresses(rules, bx, ids, d, k) ==> c.found && preferred(
                    c,
                    rules,
                    bx,
                    ids,
                    spfac,
                    d,
                    k,
                )
        }),
{
    let c = best_cut(rules, bx, ids, spfac);
    lemma_scan_dims(rules, bx, ids, spfac, bx.len() as int);
    assert forall|d: int, k: int| allowed(bx, d, k) && #[trigger] progresses(rules, bx, ids, d, k) implies c.found
        && preferred(c, rules, bx, ids, spfac, d, k) by {
        assert(tried_before(d, k, bx.len() as int, 0));
    }
}

/// The sizes of the largest and of the smallest piece, and the number of
/// entries over all pieces, when dimension `d` of `iv` is cut into `k` pieces.
fn measure(rules: &Vec<Rule>, ids: &Vec<usize>, iv: Interval, d: usize, k: u64) -> (r: (usize, usize, u128))
    requires
        iv.wf(),
        1 <= k <= iv.spec_width(),
        k <= MAX_CUTS,
        ids_reach(rules@, ids@, d as int),
    ensures
        r.0 == max_part(rules@, ids@, iv, d as int, k as int, k as int),
        r.1 == min_part(rules@, ids@, iv, d as int, k as int, k as int),
        r.2 == total_part(rules@, ids@, iv, d as int, k as int, k as int),
        r.0 <= ids@.len(),
        r.2 <= k * ids@.len(),
        forall|j: int| 0 <= j < k ==> #[trigger] part(rules@, ids@, iv, d as int, k as int, j).len() <= r.0,
        forall|j: int| 0 <= j < k ==> #[trigger] part(rules@, ids@, iv, d as int, k as int, j).len() >= r.1,
        forall|j: int| 0 <= j < k ==> #[trigger] part(rules@, ids@, iv, d as int, k as int, j).len() <= ids@.len(),
{
    let mut maxp: usize = 0;
    let mut minp: usize = 0;
    let mut total: u128 = 0;
    let mut j: u64 = 0;
    let n = ids.len();
    while j < k
        invariant
            n == ids@.len(),
            iv.wf(),
            1 <= k <= iv.spec_width(),
            k <= MAX_CUTS,
            ids_reach(rules@, ids@, d as int),
            j <= k,
            maxp <= ids@.len(),
            total <= j * ids@.len(),
            j > 0 ==> maxp == max_part(rules@, ids@, iv, d as int, k as int, j as int),
            j > 0 ==> minp == min_part(rules@, ids@, iv, d as int, k as int, j as int),
            total == total_part(rules@, ids@, iv, d as int, k as int, j as int),
            forall|j2: int| 0 <= j2 < j ==> #[trigger] part(rules@, ids@, iv, d as int, k as int, j2).len() <= maxp,
            forall|j2: int| 0 <= j2 < j ==> #[trigger] part(rules@, ids@, iv, d as int, k as int, j2).len() >= minp,
            forall|j2: int| 0 <= j2 < j ==> #[trigger] part(rules@, ids@, iv, d as int, k as int, j2).len() <= ids@.len(),
        decreases k - j,
    {
        let p = Partition::collect(rules, ids, d, piece_of(iv, k, j));
        proof {
            lemma_pick_len(ids@, overlaps_in(rules@, d as int, piece(iv, k as int, j as int)));
        }
        let len = p.rules.len();
        if j == 0 || len > maxp {
            maxp = len;
        }
        if j == 0 || len < minp {
            minp = len;
        }
        proof {
            assert((j + 1) * ids@.len() == j * ids@.len() + ids@.len()) by (nonlinear_arith);
            assert(j * ids@.len() <= 16 * ids@.len()) by (nonlinear_arith)
                requires
                    j <= 16,
            ;
            assert(usize::MAX <= u64::MAX);
        }
        total = total + len as u128;
        j += 1;
    }
    (maxp, minp, total)
}

/// A node of the decision tree; rules are named by their index in the tree's
/// rule list.
#[derive(Debug, PartialEq, Eq)]
pub enum Node {
    /// A bucket of rules that is scanned linearly.
    Leaf(Vec<usize>),
    Internal(Internal),
}

/// A node that cuts dimension `d` of its box `intervals` into equal-width
/// pieces, one child per piece, in order.
#[derive(Debug, PartialEq, Eq)]
pub struct Internal {
    pub intervals: Vec<Interval>,
    pub d: usize,
    pub children: Vec<Node>,
}

impl Internal {
    /// A node cutting dimension `d` of the box `intervals`, with no children
    /// yet.
    pub fn new(d: usize, intervals: Vec<Interval>) -> (r: Internal)
        ensures
            r.d == d,
            r.intervals@ == intervals@,
            r.children@.len() == 0,
    {
        Internal { intervals, d, children: Vec::new() }
    }
}

/// `node` is the tree that is cut from the rules `ids` over the box `bx` with
/// leaf threshold `binth` and space factor `spfac`: each node takes
/// `best_cut`, or is a leaf when it holds at most `binth` rules or no cut
/// is found; each leaf holds exactly the rules that reached it,
/// and at most `binth` of them unless no allowed cut separates them; each
/// internal node cuts one dimension of its box into `k` pieces, and its `j`-th
/// child is cut over piece `j` from the rules that overlap that piece.
pub open spec fn built_from(
    node: Node,
    rules: Seq<Rule>,
    bx: Seq<Interval>,
    ids: Seq<usize>,
    binth: int,
    spfac: int,
) -> bool
    decreases node,
{
    match node {
        Node::Leaf(v) => v@ == ids && (ids.len() <= binth || (!best_cut(rules, bx, ids, spfac).found && stuck(
            rules,
            bx,
            ids,
        ))),
        Node::Internal(n) => {
            let d = n.d as int;
            let k = n.children@.len() as int;
            &&& ids.len() > binth
            &&& best_cut(rules, bx, ids, spfac).found
            &&& best_cut(rules, bx, ids, spfac).d == d
            &&& best_cut(rules, bx, ids, spfac).k == k
            &&& n.intervals@ == bx
            &&& d < bx.len()
            &&& 1 <= k <= bx[d].spec_width()
            &&& forall|j: int|
                0 <= j < k ==> built_from(
                    #[trigger] n.children@[j],
                    rules,
                    bx.update(d, piece(bx[d], k, j)),
                    part(rules, ids, bx[d], d, k, j),
                    binth,
                    spfac,
                )
        },
    }
}

/// A copy of a box.
fn copy_box(bx: &Vec<Interval>) -> (r: Vec<Interval>)
    ensures
        r@ == bx@,
{
    let mut out: Vec<Interval> = Vec::new();
    let mut i: usize = 0;
    while i < bx.len()
        invariant
            0 <= i <= bx@.len(),
            out@ == bx@.take(i as int),
        decreases bx@.len() - i,
    {
        out.push(bx[i]);
        i += 1;
    }
    assert(bx@.take(bx@.len() as int) == bx@);
    out
}

/// The cost of a cut: `spfac` hundredths per rule of the largest piece
/// (which bounds the depth below), plus one hundred per entry over all
/// pieces and per child (the space the cut takes).
fn cut_cost(spfac: u32, maxp: usize, total: u128, k: u64) -> (r: u128)
    requires
        total <= 16 * usize::MAX,
        k <= MAX_CUTS,
    ensures
        r == spfac * maxp + 100 * (total + k),
{
    proof {
        assert(spfac * maxp <= u32::MAX * usize::MAX) by (nonlinear_arith)
            requires
                spfac <= u32::MAX,
                maxp <= usize::MAX,
        ;
        assert(u32::MAX * usize::MAX <= u32::MAX * u64::MAX) by (nonlinear_arith)
            requires
                usize::MAX <= u64::MAX,
        ;
    }
    spfac as u128 * maxp as u128 + 100 * (total + k as u128)
}

/// Builds the subtree for the rules `ids` over the box `domain`.
///
/// A set of at most `binth` rules becomes a leaf. Otherwise every dimension
/// and every allowed number of pieces (a power of two from 2 to `MAX_CUTS`,
/// no more than the dimension's width) is measured; among the cuts that
/// leave some piece with fewer rules than the node, the one of least
/// `cut_cost` is taken, ties going to the wider dimension and then to the
/// lower dimension and fewer pieces. When every such cut leaves every rule in
/// every piece, the rules stay together in a leaf of any size. Each cut
/// narrows the box, so the recursion ends. An empty rule set gives an empty
/// leaf.
pub fn cut(binth: usize, spfac: u32, domain: &Vec<Interval>, rules: &Vec<Rule>, ids: Vec<usize>) -> (r: Node)
    requires
        box_ok(domain@),
        ids_ok(rules@, ids@, domain@.len() as int),
    ensures
        built_from(r, rules@, domain@, ids@, binth as int, spfac as int),
    decreases width_sum(domain@),
{
    let n = ids.len();
    if n <= binth {
        return Node::Leaf(ids);
    }
    let dims = domain.len();
    let mut found = false;
    let mut best_d: usize = 0;
    let mut best_k: u64 = 0;
    let mut best_cost: u128 = 0;
    let mut best_w: u64 = 0;
    let mut d: usize = 0;
    while d < dims
        invariant
            box_ok(domain@),
            ids_ok(rules@, ids@, dims as int),
            n == ids@.len(),
            dims == domain@.len(),
            d <= dims,
            found ==> best_d < dims && is_cut_count(best_k as int) && best_k <= domain@[best_d as int].spec_width(),
            (CutChoice { found, d: best_d as int, k: best_k as int, cost: best_cost as int, w: best_w as int }) == scan_dims(rules@, domain@, ids@, spfac as int, d as int),
            !found ==> forall|d2: int, k2: int|
                0 <= d2 < d && is_cut_count(k2) && k2 <= domain@[d2].spec_width() ==> #[trigger] no_progress(
                    rules@,
                    domain@,
                    ids@,
                    d2,
                    k2,
                ),
        decreases dims - d,
    {
        let iv = domain[d];
        let w = iv.width();
        proof {
            assert forall|i: int| 0 <= i < ids@.len() implies (#[trigger] ids@[i] as int) < rules@.len() && (d as int)
                < rules@[ids@[i] as int].intervals@.len() by {}
        }
        let mut k: u64 = 2;
        while k <= MAX_CUTS && k <= w
            invariant
                box_ok(domain@),
                ids_ok(rules@, ids@, dims as int),
                ids_reach(rules@, ids@, d as int),
                n == ids@.len(),
                dims == domain@.len(),
                d < dims,
                iv == domain@[d as int],
                w == iv.spec_width(),
                k == 2 || k == 4 || k == 8 || k == 16 || k == 32,
                scan_cuts(
                    (CutChoice { found, d: best_d as int, k: best_k as int, cost: best_cost as int, w: best_w as int }),
                    rules@,
                    domain@,
                    ids@,
                    spfac as int,
                    d as int,
                    k as int,
                ) == scan_dims(rules@, domain@, ids@, spfac as int, d as int + 1),
                found ==> best_d < dims && is_cut_count(best_k as int) && best_k <= domain@[best_d as int].spec_width(),
                !found ==> forall|d2: int, k2: int|
                    0 <= d2 < d && is_cut_count(k2) && k2 <= domain@[d2].spec_width() ==> #[trigger] no_progress(
                        rules@,
                        domain@,
                        ids@,
                        d2,
                        k2,
                    ),
                !found ==> forall|k2: int|
                    is_cut_count(k2) && k2 < k && k2 <= w ==> #[trigger] no_progress(
                        rules@,
                        domain@,
                        ids@,
                        d as int,
                        k2,
                    ),
            decreases 32 - k,
        {
            let (maxp, minp, total) = measure(rules, &ids, iv, d, k);
            if minp < n {
                let cost = cut_cost(spfac, maxp, total, k);
                if !found || cost < best_cost || (cost == best_cost && w > best_w) {
                    found = true;
                    best_d = d;
                    best_k = k;
                    best_cost = cost;
                    best_w = w;
                }
            } else {
                assert(no_progress(rules@, domain@, ids@, d as int, k as int));
            }
            k = k * 2;
        }
        d += 1;
    }
    if !found {
        return Node::Leaf(ids);
    }
    let iv = domain[best_d];
    proof {
        lemma_pieces_tile(iv, best_k as int);
    }
    let mut children: Vec<Node> = Vec::new();
    let mut j: u64 = 0;
    while j < best_k
        invariant
            box_ok(domain@),
            ids_ok(rules@, ids@, dims as int),
            n == ids@.len(),
            dims == domain@.len(),
            best_d < dims,
            iv == domain@[best_d as int],
            is_cut_count(best_k as int),
            best_k <= iv.spec_width(),
            forall|j2: int| 0 <= j2 < best_k ==> (#[trigger] piece(iv, best_k as int, j2)).spec_width() < iv.spec_width(),
            forall|j2: int| 0 <= j2 < best_k ==> (#[trigger] piece(iv, best_k as int, j2)).begin < piece(iv, best_k as int, j2).end,
            j <= best_k,
            children@.len() == j,
            forall|j2: int|
                0 <= j2 < j ==> built_from(
                    #[trigger] children@[j2],
                    rules@,
                    domain@.update(best_d as int, piece(iv, best_k as int, j2)),
                    part(rules@, ids@, iv, best_d as int, best_k as int, j2),
                    binth as int,
                    spfac as int,
                ),
        decreases best_k - j,
    {
        proof {
            assert forall|i: int| 0 <= i < ids@.len() implies (#[trigger] ids@[i] as int) < rules@.len() && (
            best_d as int) < rules@[ids@[i] as int].intervals@.len() by {}
        }
        let p = Partition::collect(rules, &ids, best_d, piece_of(iv, best_k, j));
        let mut sub = copy_box(domain);
        sub.set(best_d, p.interval);
        proof {
            let ghost q = piece(iv, best_k as int, j as int);
            assert(q.begin < q.end);
            assert(q.spec_width() < iv.spec_width());
            lemma_width_sum_update(domain@, best_d as int, q);
            assert(sub@ == domain@.update(best_d as int, q));
            lemma_pick_ids_ok(rules@, ids@, dims as int, overlaps_in(rules@, best_d as int, q));
            assert forall|e: int| 0 <= e < sub@.len() implies (#[trigger] sub@[e]).wf() by {
                if e != best_d {
                    assert(sub@[e] == domain@[e]);
                }
            }
            lemma_width_sum_nonneg(sub@);
        }
        let child = cut(binth, spfac, &sub, rules, p.rules);
        children.push(child);
        j += 1;
    }
    let mut inner = Internal::new(best_d, copy_box(domain));
    inner.children = children;
    assert(inner.children@.len() == best_k);
    Node::Internal(inner)
}

/// The rules of `ids`, in order, that match `fields`.
fn scan(rules: &Vec<Rule>, ids: &Vec<usize>, fields: &Vec<u64>) -> (r: Vec<usize>)
    requires
        forall|i: int| 0 <= i < ids@.len() ==> (#[trigger] ids@[i] as int) < rules@.len(),
    ensures
        r@ == pick(ids@, matching(rules@, fields@)),
{
    let ghost m = matching(rules@, fields@);
    let mut out: Vec<usize> = Vec::new();
    let mut i: usize = 0;
    while i < ids.len()
        invariant
            forall|i: int| 0 <= i < ids@.len() ==> (#[trigger] ids@[i] as int) < rules@.len(),
            m == matching(rules@, fields@),
            0 <= i <= ids@.len(),
            out@ == pick(ids@.take(i as int), m),
        decreases ids@.len() - i,
    {
        let id = ids[i];
        assert(ids@.take(i as int + 1).drop_last() == ids@.take(i as int));
        assert(ids@.take(i as int + 1).last() == id);
        let keep = rules[id].matches(fields);
        assert(keep == m(id));
        if keep {
            out.push(id);
        }
        i += 1;
    }
    assert(ids@.take(ids@.len() as int) == ids@);
    out
}

/// Walks from `node` down to the one leaf whose box holds `fields` and
/// returns the rules there that match.
fn query_node(
    node: &Node,
    rules: &Vec<Rule>,
    fields: &Vec<u64>,
    Ghost(bx): Ghost<Seq<Interval>>,
    Ghost(ids): Ghost<Seq<usize>>,
    Ghost(binth): Ghost<int>,
    Ghost(spfac): Ghost<int>,
) -> (r: Vec<usize>)
    requires
        built_from(*node, rules@, bx, ids, binth, spfac),
        box_ok(bx),
        ids_ok(rules@, ids, bx.len() as int),
        in_box(bx, fields@),
    ensures
        r@ == pick(ids, matching(rules@, fields@)),
    decreases node,
{
    match node {
        Node::Leaf(v) => scan(rules, v, fields),
        Node::Internal(n) => {
            let d = n.d;
            let k = n.children.len() as u64;
            let iv = n.intervals[d];
            let j = piece_index(iv, k, fields[d]);
            let ghost q = piece(iv, k as int, j as int);
            let ghost ov = overlaps_in(rules@, d as int, q);
            let ghost m = matching(rules@, fields@);
            let ghost sub = bx.update(d as int, q);
            proof {
                lemma_pieces_tile(iv, k as int);
                assert(q.begin < q.end);
                lemma_pick_ids_ok(rules@, ids, bx.len() as int, ov);
                lemma_child_box(bx, d as int, q, fields@);
                assert forall|i: int| 0 <= i < ids.len() && m(#[trigger] ids[i]) implies ov(ids[i]) by {
                    let rl = rules@[ids[i] as int];
                    assert(rl.intervals@[d as int].spec_contains(fields@[d as int]));
                }
                lemma_pick_pick(ids, m, ov);
                assert(built_from(n.children@[j as int], rules@, sub, pick(ids, ov), binth, spfac));
            }
            query_node(&n.children[j as usize], rules, fields, Ghost(sub), Ghost(pick(ids, ov)), Ghost(binth), Ghost(spfac))
        },
    }
}

/// The children of an internal node of a built tree tile its range in the cut
/// dimension: child `j` covers piece `j`, every piece is non-empty, each
/// piece ends where the next begins, and together they run from the node's
/// begin to its end.
pub proof fn lemma_children_tile(
    node: Node,
    rules: Seq<Rule>,
    bx: Seq<Interval>,
    ids: Seq<usize>,
    binth: int,
    spfac: int,
)
    requires
        built_from(node, rules, bx, ids, binth, spfac),
        box_ok(bx),
        node is Internal,
    ensures
        ({
            let n = node->Internal_0;
            let iv = n.intervals@[n.d as int];
            let k = n.children@.len() as int;
            &&& iv == bx[n.d as int]
            &&& piece(iv, k, 0).begin == iv.begin
            &&& piece(iv, k, k - 1).end == iv.end
            &&& forall|j: int| 0 <= j < k ==> (#[trigger] piece(iv, k, j)).begin < piece(iv, k, j).end
            &&& forall|j: int| 0 <= j < k - 1 ==> (#[trigger] piece(iv, k, j)).end == piece(iv, k, j + 1).begin
        }),
{
    let n = node->Internal_0;
    lemma_pieces_tile(bx[n.d as int], n.children@.len() as int);
}

/// The indices, in increasing order, of the rules that match `fields`, found
/// by testing every rule.
pub fn linear_match(rules: &Vec<Rule>, fields: &Vec<u64>) -> (r: Vec<usize>)
    ensures
        r@ == pick(all_ids(rules@.len()), matching(rules@, fields@)),
{
    let mut ids: Vec<usize> = Vec::new();
    let mut j: usize = 0;
    while j < rules.len()
        invariant
            0 <= j <= rules@.len(),
            ids@ == all_ids(j as nat),
        decreases rules@.len() - j,
    {
        ids.push(j);
        j += 1;
        assert(ids@ =~= all_ids(j as nat));
    }
    scan(rules, &ids, fields)
}

/// Narrowing dimension `d` of a box to a valid interval that holds the
/// point's field keeps the box valid and the point inside.
proof fn lemma_child_box(bx: Seq<Interval>, d: int, q: Interval, fields: Seq<u64>)
    requires
        box_ok(bx),
        in_box(bx, fields),
        0 <= d < bx.len(),
        q.wf(),
        q.spec_contains(fields[d]),
    ensures
        box_ok(bx.update(d, q)),
        in_box(bx.update(d, q), fields),
{
    let sub = bx.update(d, q);
    assert forall|e: int| 0 <= e < sub.len() implies (#[trigger] sub[e]).wf() by {
        if e != d {
            assert(sub[e] == bx[e]);
        }
    }
    assert forall|e: int| 0 <= e < sub.len() implies #[trigger] sub[e].spec_contains(fields[e]) by {
        if e != d {
            assert(sub[e] == bx[e]);
        }
    }
}

/// The rules held by the leaf where the walk for `fields` from `node` ends.
pub open spec fn leaf_reached(node: Node, fields: Seq<u64>) -> Seq<usize>
    decreases node,
{
    match node {
        Node::Leaf(v) => v@,
        Node::Internal(n) => {
            let j = slot(n.intervals@[n.d as int], n.children@.len() as int, fields[n.d as int]);
            if 0 <= j < n.children@.len() {
                leaf_reached(n.children@[j], fields)
            } else {
                Seq::empty()
            }
        },
    }
}

/// The box of the leaf where the walk for `fields` from `node`, whose box is
/// `bx`, ends.
pub open spec fn box_reached(node: Node, bx: Seq<Interval>, fields: Seq<u64>) -> Seq<Interval>
    decreases node,
{
    match node {
        Node::Leaf(_) => bx,
        Node::Internal(n) => {
            let d = n.d as int;
            let k = n.children@.len() as int;
            let j = slot(bx[d], k, fields[d]);
            if 0 <= j < k {
                box_reached(n.children@[j], bx.update(d, piece(bx[d], k, j)), fields)
            } else {
                bx
            }
        },
    }
}

/// In a built tree, the leaf that any point of the box reaches holds at most
/// `binth` rules, or else no allowed cut of that leaf's box separates any of
/// its rules.
pub proof fn lemma_leaf_bound(
    node: Node,
    rules: Seq<Rule>,
    bx: Seq<Interval>,
    ids: Seq<usize>,
    binth: int,
    spfac: int,
    fields: Seq<u64>,
)
    requires
        built_from(node, rules, bx, ids, binth, spfac),
        box_ok(bx),
        in_box(bx, fields),
    ensures
        leaf_reached(node, fields).len() <= binth || stuck(
            rules,
            box_reached(node, bx, fields),
            leaf_reached(node, fields),
        ),
    decreases node,
{
    if let Node::Internal(n) = node {
        let d = n.d as int;
        let k = n.children@.len() as int;
        let iv = bx[d];
        lemma_slot(iv, k, fields[d]);
        let j = slot(iv, k, fields[d]);
        let q = piece(iv, k, j);
        lemma_pieces_tile(iv, k);
        lemma_child_box(bx, d, q, fields);
        lemma_leaf_bound(n.children@[j], rules, bx.update(d, q), part(rules, ids, iv, d, k, j), binth, spfac, fields);
    }
}

/// Two trees have the same cuts, boxes and leaf contents.
pub open spec fn same_tree(a: Node, b: Node) -> bool
    decreases a,
{
    match a {
        Node::Leaf(v) => b matches Node::Leaf(u) && v@ == u@,
        Node::Internal(n) => b matches Node::Internal(m) && n.intervals@ == m.intervals@ && n.d == m.d
            && n.children@.len() == m.children@.len() && forall|j: int|
            0 <= j < n.children@.len() ==> same_tree(#[trigger] n.children@[j], m.children@[j]),
    }
}

/// The tree cut from a rule set is determined by the rules, the box, the
/// leaf threshold and the space factor: two builds from the same inputs
/// have the same cuts and the same leaves.
pub proof fn lemma_deterministic(
    a: Node,
    b: Node,
    rules: Seq<Rule>,
    bx: Seq<Interval>,
    ids: Seq<usize>,
    binth: int,
    spfac: int,
)
    requires
        built_from(a, rules, bx, ids, binth, spfac),
        built_from(b, rules, bx, ids, binth, spfac),
    ensures
        same_tree(a, b),
    decreases a,
{
    if let Node::Internal(n) = a {
        if let Node::Internal(m) = b {
            let d = n.d as int;
            let k = n.children@.len() as int;
            assert forall|j: int| 0 <= j < k implies same_tree(#[trigger] n.children@[j], m.children@[j]) by {
                lemma_deterministic(
                    n.children@[j],
                    m.children@[j],
                    rules,
                    bx.update(d, piece(bx[d], k, j)),
                    part(rules, ids, bx[d], d, k, j),
                    binth,
                    spfac,
                );
            }
        }
    }
}

/// Rule `x` covers the whole box.
pub open spec fn spans(rules: Seq<Rule>, x: usize, bx: Seq<Interval>) -> bool {
    forall|d: int|
        0 <= d < bx.len() ==> (#[trigger] rules[x as int].intervals@[d]).begin <= bx[d].begin && bx[d].end
            <= rules[x as int].intervals@[d].end
}

/// Filtering by a predicate that every element meets changes nothing.
proof fn lemma_pick_all(ids: Seq<usize>, p: spec_fn(usize) -> bool)
    requires
        forall|i: int| 0 <= i < ids.len() ==> p(#[trigger] ids[i]),
    ensures
        pick(ids, p) == ids,
    decreases ids.len(),
{
    if ids.len() > 0 {
        let s = ids.drop_last();
        assert forall|i: int| 0 <= i < s.len() implies p(#[trigger] s[i]) by {
            assert(s[i] == ids[i]);
        }
        lemma_pick_all(s, p);
        assert(p(ids[ids.len() - 1]));
        assert(s.push(ids.last()) =~= ids);
    }
}

/// Filtering keeps an element that meets the predicate.
proof fn lemma_pick_keeps(ids: Seq<usize>, p: spec_fn(usize) -> bool, x: usize)
    requires
        ids.contains(x),
        p(x),
    ensures
        pick(ids, p).contains(x),
    decreases ids.len(),
{
    let s = ids.drop_last();
    if ids.last() == x {
        assert(pick(ids, p).last() == x);
    } else {
        let w = choose|w: int| 0 <= w < ids.len() && ids[w] == x;
        assert(w < ids.len() - 1);
        assert(s[w] == x);
        lemma_pick_keeps(s, p, x);
        let rest = pick(s, p);
        let v = choose|v: int| 0 <= v < rest.len() && rest[v] == x;
        if p(ids.last()) {
            assert(pick(ids, p)[v] == x);
        }
    }
}

/// When every piece holds every rule, so does the smallest.
proof fn lemma_min_part_full(rules: Seq<Rule>, ids: Seq<usize>, iv: Interval, d: int, k: int, m: int)
    requires
        1 <= m,
        forall|j: int| 0 <= j < m ==> #[trigger] part_len(rules, ids, iv, d, k, j) == ids.len(),
    ensures
        min_part(rules, ids, iv, d, k, m) == ids.len(),
    decreases m,
{
    if m > 1 {
        lemma_min_part_full(rules, ids, iv, d, k, m - 1);
        assert(part_len(rules, ids, iv, d, k, m - 1) == ids.len());
    } else {
        assert(part_len(rules, ids, iv, d, k, 0) == ids.len());
    }
}

/// A rule that spans a valid box overlaps every piece of every allowed cut
/// of it, and spans the piece's box.
proof fn lemma_span_piece(rules: Seq<Rule>, x: usize, bx: Seq<Interval>, d: int, k: int, j: int)
    requires
        box_ok(bx),
        spans(rules, x, bx),
        0 <= d < bx.len(),
        d < rules[x as int].intervals@.len(),
        1 <= k <= bx[d].spec_width(),
        0 <= j < k,
    ensures
        overlaps_in(rules, d, piece(bx[d], k, j))(x),
        spans(rules, x, bx.update(d, piece(bx[d], k, j))),
{
    lemma_pieces_tile(bx[d], k);
    let q = piece(bx[d], k, j);
    assert(rules[x as int].intervals@[d].begin <= bx[d].begin);
    let sub = bx.update(d, q);
    assert forall|e: int| 0 <= e < sub.len() implies (#[trigger] rules[x as int].intervals@[e]).begin <= sub[e].begin
        && sub[e].end <= rules[x as int].intervals@[e].end by {
        assert(rules[x as int].intervals@[e].begin <= bx[e].begin);
    }
}

/// A node whose rules all span its box is a leaf holding all of them: no
/// cut separates rules that each cover the whole box.
pub proof fn lemma_spanning_rules_stay_together(
    node: Node,
    rules: Seq<Rule>,
    bx: Seq<Interval>,
    ids: Seq<usize>,
    binth: int,
    spfac: int,
)
    requires
        built_from(node, rules, bx, ids, binth, spfac),
        box_ok(bx),
        ids_ok(rules, ids, bx.len() as int),
        forall|i: int| 0 <= i < ids.len() ==> spans(rules, #[trigger] ids[i], bx),
    ensures
        node matches Node::Leaf(v) && v@ == ids,
{
    let c = best_cut(rules, bx, ids, spfac);
    lemma_best_cut(rules, bx, ids, spfac);
    if c.found {
        let d = c.d;
        let k = c.k;
        assert forall|j: int| 0 <= j < k implies #[trigger] part_len(rules, ids, bx[d], d, k, j) == ids.len() by {
            let p = overlaps_in(rules, d, piece(bx[d], k, j));
            assert forall|i: int| 0 <= i < ids.len() implies p(#[trigger] ids[i]) by {
                lemma_span_piece(rules, ids[i], bx, d, k, j);
            }
            lemma_pick_all(ids, p);
        }
        lemma_min_part_full(rules, ids, bx[d], d, k, k);
        assert(progresses(rules, bx, ids, d, k));
    }
}

/// A node holding more than `binth` rules, of which some allowed cut leaves
/// a piece with fewer, is cut: it is internal, with at least two children.
pub proof fn lemma_separable_is_cut(
    node: Node,
    rules: Seq<Rule>,
    bx: Seq<Interval>,
    ids: Seq<usize>,
    binth: int,
    spfac: int,
    d: int,
    k: int,
)
    requires
        built_from(node, rules, bx, ids, binth, spfac),
        ids.len() > binth,
        allowed(bx, d, k),
        progresses(rules, bx, ids, d, k),
    ensures
        node matches Node::Internal(n) && n.children@.len() >= 2,
{
    lemma_best_cut(rules, bx, ids, spfac);
    assert(best_cut(rules, bx, ids, spfac).found);
}

/// A rule that spans a node's box is in the leaf that every point of the
/// box reaches: it is replicated into every piece it covers.
pub proof fn lemma_spanning_rule_in_every_leaf(
    node: Node,
    rules: Seq<Rule>,
    bx: Seq<Interval>,
    ids: Seq<usize>,
    binth: int,
    spfac: int,
    x: usize,
    fields: Seq<u64>,
)
    requires
        built_from(node, rules, bx, ids, binth, spfac),
        box_ok(bx),
        ids_ok(rules, ids, bx.len() as int),
        in_box(bx, fields),
        ids.contains(x),
        spans(rules, x, bx),
    ensures
        leaf_reached(node, fields).contains(x),
    decreases node,
{
    if let Node::Internal(n) = node {
        let d = n.d as int;
        let k = n.children@.len() as int;
        let iv = bx[d];
        lemma_slot(iv, k, fields[d]);
        let j = slot(iv, k, fields[d]);
        let q = piece(iv, k, j);
        lemma_pieces_tile(iv, k);
        lemma_child_box(bx, d, q, fields);
        let w = choose|w: int| 0 <= w < ids.len() && ids[w] == x;
        assert((ids[w] as int) < rules.len() && rules[ids[w] as int].intervals@.len() == bx.len());
        lemma_span_piece(rules, x, bx, d, k, j);
        lemma_pick_keeps(ids, overlaps_in(rules, d, q), x);
        lemma_pick_ids_ok(rules, ids, bx.len() as int, overlaps_in(rules, d, q));
        lemma_spanning_rule_in_every_leaf(
            n.children@[j],
            rules,
            bx.update(d, q),
            part(rules, ids, iv, d, k, j),
            binth,
            spfac,
            x,
            fields,
        );
    }
}

/// Filtering a sequence without duplicates gives one without duplicates.
proof fn lemma_pick_no_duplicates(ids: Seq<usize>, p: spec_fn(usize) -> bool)
    requires
        ids.no_duplicates(),
    ensures
        pick(ids, p).no_duplicates(),
    decreases ids.len(),
{
    if ids.len() > 0 {
        let s = ids.drop_last();
        assert(s.no_duplicates()) by {
            assert forall|a: int, b: int| 0 <= a < s.len() && 0 <= b < s.len() && a != b implies s[a] != s[b] by {
                assert(s[a] == ids[a] && s[b] == ids[b]);
            }
        }
        lemma_pick_no_duplicates(s, p);
        lemma_pick_len(s, p);
        let rest = pick(s, p);
        if p(ids.last()) {
            let r = rest.push(ids.last());
            assert forall|a: int, b: int| 0 <= a < r.len() && 0 <= b < r.len() && a != b implies r[a] != r[b] by {
                if a == rest.len() || b == rest.len() {
                    let o = if a == rest.len() {
                        b
                    } else {
                        a
                    };
                    assert(s.contains(rest[o]));
                    let w = choose|w: int| 0 <= w < s.len() && s[w] == rest[o];
                    assert(ids[w] == rest[o]);
                    assert(ids[ids.len() - 1] == ids.last());
                }
            }
        }
    }
}

/// A built tree over rules without duplicates has leaves without duplicates:
/// the leaf that a point reaches holds each of its rules once.
pub proof fn lemma_leaf_no_duplicates(
    node: Node,
    rules: Seq<Rule>,
    bx: Seq<Interval>,
    ids: Seq<usize>,
    binth: int,
    spfac: int,
    fields: Seq<u64>,
)
    requires
        built_from(node, rules, bx, ids, binth, spfac),
        box_ok(bx),
        in_box(bx, fields),
        ids.no_duplicates(),
    ensures
        leaf_reached(node, fields).no_duplicates(),
    decreases node,
{
    if let Node::Internal(n) = node {
        let d = n.d as int;
        let k = n.children@.len() as int;
        let iv = bx[d];
        lemma_slot(iv, k, fields[d]);
        let j = slot(iv, k, fields[d]);
        let q = piece(iv, k, j);
        lemma_pieces_tile(iv, k);
        lemma_child_box(bx, d, q, fields);
        lemma_pick_no_duplicates(ids, overlaps_in(rules, d, q));
        lemma_leaf_no_duplicates(n.children@[j], rules, bx.update(d, q), part(rules, ids, iv, d, k, j), binth, spfac, fields);
    }
}

/// The indices `0, 1, ..., n - 1`.
pub open spec fn all_ids(n: nat) -> Seq<usize> {
    Seq::new(n, |i: int| i as usize)
}

/// The indices `0 .. n` are distinct, and index `i` is `i`.
pub proof fn lemma_all_ids(n: nat)
    requires
        n <= usize::MAX,
    ensures
        all_ids(n).no_duplicates(),
        forall|i: int| 0 <= i < n ==> #[trigger] all_ids(n)[i] == i,
{
}

/// The whole domain of a field: `[0, u64::MAX)`.
pub open spec fn full_range() -> Interval {
    Interval { begin: 0, end: u64::MAX }
}

/// A HiCuts decision tree over a fixed list of rules, each with one interval
/// per field.
pub struct DecisionTree {
    binth: usize,
    spfac: u32,
    dims: usize,
    rules: Vec<Rule>,
    domain: Vec<Interval>,
    root: Node,
}

impl DecisionTree {
    #[verifier::type_invariant]
    spec fn inv(self) -> bool {
        &&& self.domain@.len() == self.dims
        &&& self.rules@.len() <= usize::MAX
        &&& forall|d: int| 0 <= d < self.dims ==> #[trigger] self.domain@[d] == full_range()
        &&& box_ok(self.domain@)
        &&& ids_ok(self.rules@, all_ids(self.rules@.len()), self.dims as int)
        &&& built_from(
            self.root,
            self.rules@,
            self.domain@,
            all_ids(self.rules@.len()),
            self.binth as int,
            self.spfac as int,
        )
    }

    pub closed spec fn spec_rules(self) -> Seq<Rule> {
        self.rules@
    }

    pub closed spec fn spec_dims(self) -> nat {
        self.dims as nat
    }

    pub closed spec fn spec_binth(self) -> nat {
        self.binth as nat
    }

    pub closed spec fn spec_spfac(self) -> nat {
        self.spfac as nat
    }

    /// The box the tree covers: one interval per field.
    pub closed spec fn spec_domain(self) -> Seq<Interval> {
        self.domain@
    }

    /// A well-formed tree covers `[0, u64::MAX)` in every field, and its root
    /// is the tree that `cut` builds from all of its rules over that box.
    pub proof fn lemma_root_built(t: DecisionTree)
        requires
            t.wf(),
        ensures
            t.spec_domain() == Seq::new(t.spec_dims(), |i: int| full_range()),
            t.spec_rules().len() <= usize::MAX,
            box_ok(t.spec_domain()),
            ids_ok(t.spec_rules(), all_ids(t.spec_rules().len()), t.spec_dims() as int),
            built_from(
                t.spec_root(),
                t.spec_rules(),
                t.spec_domain(),
                all_ids(t.spec_rules().len()),
                t.spec_binth() as int,
                t.spec_spfac() as int,
            ),
    {
        assert(t.domain@ =~= Seq::new(t.dims as nat, |i: int| full_range()));
    }

    pub closed spec fn spec_root(self) -> Node {
        self.root
    }

    /// The tree was cut from all of its rules over the whole domain of each
    /// field.
    pub closed spec fn wf(self) -> bool {
        self.inv()
    }

    /// Builds the tree of `rules`, each of which must have `dims` intervals,
    /// over the domain `[0, u64::MAX)` of every field; `binth` is the leaf
    /// threshold and `spfac` the space factor in hundredths (200 for 2.0).
    pub fn new(binth: usize, spfac: u32, dims: usize, rules: Vec<Rule>) -> (r: Result<DecisionTree, HiCutsError>)
        ensures
            r is Err <==> exists|i: int| 0 <= i < rules@.len() && (#[trigger] rules@[i]).intervals@.len() != dims,
            r is Err ==> r->Err_0 == HiCutsError::DimensionMismatch,
            r is Ok ==> r->Ok_0.spec_rules() == rules@ && r->Ok_0.spec_dims() == dims && r->Ok_0.spec_binth()
                == binth && r->Ok_0.spec_spfac() == spfac && r->Ok_0.wf(),
            r is Ok ==> r->Ok_0.spec_domain() == Seq::new(dims as nat, |i: int| full_range()),
            r is Ok ==> built_from(
                r->Ok_0.spec_root(),
                rules@,
                Seq::new(dims as nat, |i: int| full_range()),
                all_ids(rules@.len()),
                binth as int,
                spfac as int,
            ),
    {
        let mut i: usize = 0;
        while i < rules.len()
            invariant
                0 <= i <= rules@.len(),
                forall|e: int| 0 <= e < i ==> (#[trigger] rules@[e]).intervals@.len() == dims,
            decreases rules@.len() - i,
        {
            if rules[i].intervals.len() != dims {
                return Err(HiCutsError::DimensionMismatch);
            }
            i += 1;
        }
        let mut domain: Vec<Interval> = Vec::new();
        let mut d: usize = 0;
        while d < dims
            invariant
                0 <= d <= dims,
                domain@.len() == d,
                forall|e: int| 0 <= e < d ==> #[trigger] domain@[e] == full_range(),
            decreases dims - d,
        {
            domain.push(Interval { begin: <u64 as MinMax>::min(), end: <u64 as MinMax>::max() });
            d += 1;
        }
        let mut ids: Vec<usize> = Vec::new();
        let mut j: usize = 0;
        while j < rules.len()
            invariant
                0 <= j <= rules@.len(),
                ids@ == all_ids(j as nat),
            decreases rules@.len() - j,
        {
            ids.push(j);
            j += 1;
            assert(ids@ =~= all_ids(j as nat));
        }
        proof {
            assert forall|e: int| 0 <= e < ids@.len() implies (#[trigger] ids@[e] as int) < rules@.len()
                && rules@[ids@[e] as int].intervals@.len() == dims by {
                assert(rules@[e].intervals@.len() == dims);
            }
        }
        let root = cut(binth, spfac, &domain, &rules, ids);
        assert(domain@ =~= Seq::new(dims as nat, |i: int| full_range()));
        Ok(DecisionTree { binth, spfac, dims, rules, domain, root })
    }

    /// The indices, in increasing order, of the rules that match `fields`:
    /// exactly those a linear scan of the rule list would give.
    pub fn query(&self, fields: &Vec<u64>) -> (r: Vec<usize>)
        ensures
            r@ == pick(all_ids(self.spec_rules().len()), matching(self.spec_rules(), fields@)),
    {
        proof {
            use_type_invariant(self);
        }
        let ghost ids = all_ids(self.rules@.len());
        let ghost m = matching(self.rules@, fields@);
        if fields.len() != self.dims {
            proof {
                assert forall|i: int| 0 <= i < ids.len() implies !m(#[trigger] ids[i]) by {
                    assert(self.rules@[ids[i] as int].intervals@.len() == self.dims);
                }
                lemma_pick_none(ids, m);
            }
            return Vec::new();
        }
        let mut d: usize = 0;
        while d < fields.len()
            invariant
                ids == all_ids(self.rules@.len()),
                m == matching(self.rules@, fields@),
                ids_ok(self.rules@, ids, self.dims as int),
                fields@.len() == self.dims,
                self.domain@.len() == self.dims,
                forall|e: int| 0 <= e < self.dims ==> #[trigger] self.domain@[e] == full_range(),
                0 <= d <= fields@.len(),
                forall|e: int| 0 <= e < d ==> #[trigger] self.domain@[e].spec_contains(fields@[e]),
            decreases fields@.len() - d,
        {
            if fields[d] == u64::MAX {
                proof {
                    assert forall|i: int| 0 <= i < ids.len() implies !m(#[trigger] ids[i]) by {
                        let rl = self.rules@[ids[i] as int];
                        if m(ids[i]) {
                            assert(rl.intervals@[d as int].spec_contains(fields@[d as int]));
                        }
                    }
                    lemma_pick_none(ids, m);
                }
                return Vec::new();
            }
            assert(self.domain@[d as int] == full_range());
            d += 1;
        }
        query_node(&self.root, &self.rules, fields, Ghost(self.domain@), Ghost(ids), Ghost(self.binth as int), Ghost(self.spfac as int))
    }

    /// Two trees built from the same rules with the same dimension count,
    /// leaf threshold and space factor have the same cuts and leaves.
    pub proof fn lemma_same_build(t1: DecisionTree, t2: DecisionTree)
        requires
            t1.wf(),
            t2.wf(),
            t1.spec_rules() == t2.spec_rules(),
            t1.spec_dims() == t2.spec_dims(),
            t1.spec_binth() == t2.spec_binth(),
            t1.spec_spfac() == t2.spec_spfac(),
        ensures
            same_tree(t1.spec_root(), t2.spec_root()),
    {
        assert(t1.domain@ =~= t2.domain@) by {
            assert forall|d: int| 0 <= d < t1.domain@.len() implies t1.domain@[d] == t2.domain@[d] by {
                assert(t1.domain@[d] == full_range());
                assert(t2.domain@[d] == full_range());
            }
        }
        lemma_deterministic(
            t1.root,
            t2.root,
            t1.rules@,
            t1.domain@,
            all_ids(t1.rules@.len()),
            t1.binth as int,
            t1.spfac as int,
        );
    }

    pub fn binth(&self) -> (r: usize)
        ensures
            r == self.spec_binth(),
    {
        self.binth
    }

    /// The space factor, in hundredths.
    pub fn spfac(&self) -> (r: u32)
        ensures
            r == self.spec_spfac(),
    {
        self.spfac
    }

    pub fn dims(&self) -> (r: usize)
        ensures
            r == self.spec_dims(),
    {
        self.dims
    }

    pub fn rules(&self) -> (r: &Vec<Rule>)
        ensures
            r@ == self.spec_rules(),
    {
        &self.rules
    }

    pub fn root(&self) -> (r: &Node)
        ensures
            *r == self.spec_root(),
    {
        &self.root
    }
}

} // verus!
