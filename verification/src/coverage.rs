//! Scoring of one denomination vector: the length of the longest run of
//! consecutive integers, starting at 0, that are all representable as a
//! signed weighted sum whose usage cost stays within the budget.
//!
//! The evaluator drives the coefficient enumerator over the whole admissible
//! ball, marks every sum it can reach in a bounded table, and reads off the
//! first gap. The enumerator's completeness contract is what turns the table
//! into the truth about [`reachable`].

use vstd::prelude::*;
use vstd::arithmetic::power::pow;
use vstd::arithmetic::mul::lemma_mul_inequality;
use vstd::arithmetic::mul::lemma_mul_is_distributive_add;
use crate::coeffs::abs1;
use crate::coeffs::l1;
use crate::coeffs::zd;
use crate::coeffs::zz_lt;
use crate::coeffs::coeff_ok;
use crate::coeffs::zeros;
use crate::coeffs::ints_of;
use crate::coeffs::CoefficientState;
use crate::coeffs::lemma_l1_nonneg;
use crate::coeffs::lemma_l1_split;
use crate::coeffs::lemma_l1_zeros;
use crate::coeffs::lemma_l1_element;
use crate::coeffs::lemma_digits_of_bounded;
use crate::weights::ints_of_u;
use crate::weights::inc;
use crate::weights::lemma_weights_min;
use crate::weights::lemma_inc_gap;
use crate::order::drank;
use crate::order::lemma_dlt_trans;
use crate::order::lemma_dlt_drank;
use crate::order::lemma_drank_bound;

verus! {

/// Signed dot product of a denomination vector and a coefficient vector.
pub open spec fn dot(ws: Seq<int>, cs: Seq<int>) -> int
    decreases ws.len(),
{
    if ws.len() == 0 || cs.len() == 0 {
        0
    } else {
        dot(ws.drop_last(), cs.drop_last()) + ws.last() * cs.last()
    }
}

/// A sorted denomination vector of positive integers.
pub open spec fn weights_sorted(ws: Seq<int>) -> bool {
    &&& ws.len() >= 1
    &&& inc(ws)
    &&& ws[0] >= 1
}

/// The sum `s` is representable from `ws` within budget `omega`.
pub open spec fn reachable(ws: Seq<int>, omega: int, s: int) -> bool {
    exists|c: Seq<int>| coeff_ok(c, ws.len(), omega) && #[trigger] dot(ws, c) == s
}

/// `ell` is the coverage length of `ws` under budget `omega`: every sum in
/// `[0, ell]` is representable and `ell + 1` is not.
pub open spec fn is_coverage(ws: Seq<int>, omega: int, ell: int) -> bool {
    &&& 0 <= ell
    &&& forall|j: int| 0 <= j <= ell ==> reachable(ws, omega, j)
    &&& !reachable(ws, omega, ell + 1)
}

/// Some admissible vector strictly below state `st` reaches the sum `k`.
pub open spec fn hit_before(ws: Seq<int>, omega: int, st: Seq<int>, k: int) -> bool {
    exists|c: Seq<int>|
        coeff_ok(c, ws.len(), omega) && zz_lt(c, st) && #[trigger] dot(ws, c) == k
}

/// The all-zero coefficient vector reaches the sum 0.
pub proof fn lemma_dot_zeros(ws: Seq<int>, cs: Seq<int>)
    requires
        ws.len() == cs.len(),
        forall|j: int| 0 <= j < cs.len() ==> cs[j] == 0,
    ensures
        dot(ws, cs) == 0,
    decreases ws.len(),
{
    if ws.len() > 0 {
        lemma_dot_zeros(ws.drop_last(), cs.drop_last());
        assert(cs.last() == 0);
    }
}

/// Sum 0 is reachable under any nonnegative budget.
pub proof fn lemma_reachable_zero(ws: Seq<int>, omega: int)
    requires
        omega >= 0,
    ensures
        reachable(ws, omega, 0),
{
    let c = zeros(ws.len());
    lemma_l1_zeros(c);
    lemma_dot_zeros(ws, c);
    assert(coeff_ok(c, ws.len(), omega) && dot(ws, c) == 0);
}

/// Extending a dot product by one coordinate.
pub proof fn lemma_dot_take_step(ws: Seq<int>, cs: Seq<int>, i: int)
    requires
        ws.len() == cs.len(),
        0 <= i < ws.len(),
    ensures
        dot(ws.take(i + 1), cs.take(i + 1)) == dot(ws.take(i), cs.take(i)) + ws[i] * cs[i],
{
    assert(ws.take(i + 1).drop_last() =~= ws.take(i));
    assert(cs.take(i + 1).drop_last() =~= cs.take(i));
    assert(ws.take(i + 1).last() == ws[i]);
    assert(cs.take(i + 1).last() == cs[i]);
}

/// A dot product is bounded by the largest weight times the L1 norm.
pub proof fn lemma_dot_bound(ws: Seq<int>, cs: Seq<int>, m: int)
    requires
        ws.len() == cs.len(),
        m >= 0,
        forall|i: int| 0 <= i < ws.len() ==> 0 <= #[trigger] ws[i] <= m,
    ensures
        abs1(dot(ws, cs)) <= m * l1(cs),
    decreases ws.len(),
{
    if ws.len() == 0 {
    } else {
        assert forall|i: int| 0 <= i < ws.drop_last().len() implies 0 <= #[trigger] ws.drop_last()[
            i
        ] <= m by {
            assert(ws[i] == ws.drop_last()[i]);
        }
        lemma_dot_bound(ws.drop_last(), cs.drop_last(), m);
        let a = ws.last();
        let b = cs.last();
        assert(abs1(a * b) == a * abs1(b)) by (nonlinear_arith)
            requires
                a >= 0,
        ;
        lemma_mul_inequality(a, m, abs1(b));
        lemma_mul_is_distributive_add(m, l1(cs.drop_last()), abs1(b));
        lemma_l1_nonneg(cs.drop_last());
    }
}

/// The coverage length of a vector under a budget is unique.
pub proof fn lemma_coverage_unique(ws: Seq<int>, omega: int, e1: int, e2: int)
    requires
        is_coverage(ws, omega, e1),
        is_coverage(ws, omega, e2),
    ensures
        e1 == e2,
{
    if e1 < e2 {
        assert(reachable(ws, omega, e1 + 1));
        assert(false);
    }
    if e2 < e1 {
        assert(reachable(ws, omega, e2 + 1));
        assert(false);
    }
}

/// Coverage is monotonic in the budget: a larger budget never shortens the
/// covered range.
pub proof fn lemma_coverage_monotonic(ws: Seq<int>, omega1: int, omega2: int, e1: int, e2: int)
    requires
        omega1 <= omega2,
        is_coverage(ws, omega1, e1),
        is_coverage(ws, omega2, e2),
    ensures
        e1 <= e2,
{
    if e1 > e2 {
        assert(reachable(ws, omega1, e2 + 1));
        let c = choose|c: Seq<int>|
            coeff_ok(c, ws.len(), omega1) && #[trigger] dot(ws, c) == e2 + 1;
        assert(coeff_ok(c, ws.len(), omega2) && dot(ws, c) == e2 + 1);
        assert(false);
    }
}

/// No reachable sum is larger in magnitude than the largest weight times
/// the budget.
pub proof fn lemma_reach_bound(wv: Seq<int>, om: int, s: int)
    requires
        weights_sorted(wv),
        om >= 1,
        reachable(wv, om, s),
    ensures
        abs1(s) <= wv[wv.len() - 1] * om,
{
    let w = wv.len() as int;
    let ml = wv[w - 1];
    lemma_weights_min(wv);
    assert forall|i: int| 0 <= i < wv.len() implies 0 <= #[trigger] wv[i] <= ml by {
        lemma_inc_gap(wv, i, w - 1);
    }
    let c = choose|c: Seq<int>| coeff_ok(c, wv.len(), om) && #[trigger] dot(wv, c) == s;
    lemma_dot_bound(wv, c, ml);
    assert(ml * l1(c) <= ml * om) by (nonlinear_arith)
        requires
            l1(c) <= om,
            ml >= 0,
    ;
}

/// The signed dot product of the weights with one admissible coefficient
/// vector; the bound on the weights keeps all arithmetic in range.
#[verifier::loop_isolation(false)]
fn dot_product(weights: &Vec<usize>, cs: &Vec<isize>, omega: usize) -> (acc: isize)
    requires
        weights@.len() >= 1,
        cs@.len() == weights@.len(),
        1 <= omega,
        weights_sorted(ints_of_u(weights@)),
        l1(ints_of(cs@)) <= omega as int,
        ints_of_u(weights@)[weights@.len() - 1] * omega as int + 2 <= isize::MAX as int,
    ensures
        acc as int == dot(ints_of_u(weights@), ints_of(cs@)),
{
    let w = weights.len();
    let ghost wv = ints_of_u(weights@);
    let ghost cv = ints_of(cs@);
    let ghost om = omega as int;
    let ghost ml = wv[w - 1];
    proof {
        lemma_weights_min(wv);
        assert forall|i: int| 0 <= i < wv.len() implies 0 <= #[trigger] wv[i] <= ml by {
            lemma_inc_gap(wv, i, w - 1);
        }
    }
    let mut acc: isize = 0;
    let mut idx: usize = 0;
    while idx < w
        invariant
            idx <= w,
            acc as int == dot(wv.take(idx as int), cv.take(idx as int)),
        decreases w - idx,
    {
        let wi = weights[idx];
        let ci = cs[idx];
        proof {
            lemma_l1_element(cv, idx as int);
            assert(wv[idx as int] == wi as int);
            assert(cv[idx as int] == ci as int);
            assert(ml >= 1);
            assert(ml <= ml * om) by (nonlinear_arith)
                requires
                    ml >= 1,
                    om >= 1,
            ;
            assert(wi as int <= isize::MAX as int);
            assert(abs1((wi as int) * (ci as int)) <= ml * om) by (nonlinear_arith)
                requires
                    0 <= wi as int <= ml,
                    abs1(ci as int) <= om,
                    om >= 1,
            ;
            lemma_dot_take_step(wv, cv, idx as int);
            assert forall|i: int| 0 <= i < idx + 1 implies 0 <= #[trigger] wv.take(
                idx as int + 1,
            )[i] <= ml by {
                assert(wv.take(idx as int + 1)[i] == wv[i]);
            }
            lemma_dot_bound(wv.take(idx as int + 1), cv.take(idx as int + 1), ml);
            lemma_l1_split(cv, idx as int + 1);
            lemma_l1_nonneg(cv.skip(idx as int + 1));
            assert(l1(cv.take(idx as int + 1)) <= om);
            assert(ml * l1(cv.take(idx as int + 1)) <= ml * om) by (nonlinear_arith)
                requires
                    l1(cv.take(idx as int + 1)) <= om,
                    ml >= 0,
            ;
        }
        acc = acc + (wi as isize) * ci;
        idx += 1;
    }
    proof {
        assert(wv.take(w as int) =~= wv);
        assert(cv.take(w as int) =~= cv);
    }
    acc
}

/// One emission updates the table from "hits below the old state" to "hits
/// below the new state": the emitted vector itself is recorded, everything
/// else carries over, and the no-skip property of the step keeps the table
/// exact.
proof fn lemma_marks_step(
    wv: Seq<int>,
    om: int,
    before: Seq<int>,
    after: Seq<int>,
    oldmarks: Seq<bool>,
    newmarks: Seq<bool>,
    acc: int,
)
    requires
        coeff_ok(before, wv.len(), om),
        zz_lt(before, after),
        forall|u: Seq<int>|
            coeff_ok(u, wv.len(), om) && zz_lt(u, after) ==> zz_lt(u, before) || u == before,
        dot(wv, before) == acc,
        newmarks.len() == oldmarks.len(),
        forall|j: int|
            0 <= j < oldmarks.len() ==> (oldmarks[j] <==> hit_before(wv, om, before, j)),
        0 <= acc < oldmarks.len() ==> newmarks == oldmarks.update(acc, true),
        !(0 <= acc < oldmarks.len()) ==> newmarks == oldmarks,
    ensures
        forall|j: int|
            0 <= j < newmarks.len() ==> (newmarks[j] <==> hit_before(wv, om, after, j)),
{
    let nn = oldmarks.len() as int;
    assert forall|j: int| 0 <= j < nn implies (newmarks[j] <==> hit_before(wv, om, after, j)) by {
        if newmarks[j] {
            if oldmarks[j] {
                let c = choose|c: Seq<int>|
                    coeff_ok(c, wv.len(), om) && zz_lt(c, before) && #[trigger] dot(wv, c) == j;
                lemma_dlt_trans(zd(c), zd(before), zd(after));
                assert(coeff_ok(c, wv.len(), om) && zz_lt(c, after) && dot(wv, c) == j);
                assert(hit_before(wv, om, after, j));
            } else {
                assert(j == acc);
                assert(coeff_ok(before, wv.len(), om) && zz_lt(before, after) && dot(wv, before)
                    == j);
                assert(hit_before(wv, om, after, j));
            }
        }
        if hit_before(wv, om, after, j) {
            let c = choose|c: Seq<int>|
                coeff_ok(c, wv.len(), om) && zz_lt(c, after) && #[trigger] dot(wv, c) == j;
            if c == before {
                assert(j == acc);
                assert(newmarks[j]);
            } else {
                assert(zz_lt(c, before));
                assert(hit_before(wv, om, before, j));
                assert(oldmarks[j]);
                assert(newmarks[j]);
            }
        }
    }
}

/// Once the enumeration is done, the table answers reachability exactly.
proof fn lemma_marks_done(wv: Seq<int>, om: int, stc: Seq<int>, marks: Seq<bool>)
    requires
        forall|j: int| 0 <= j < marks.len() ==> (marks[j] <==> hit_before(wv, om, stc, j)),
        forall|u: Seq<int>| coeff_ok(u, wv.len(), om) ==> zz_lt(u, stc),
    ensures
        forall|j: int| 0 <= j < marks.len() ==> (marks[j] <==> reachable(wv, om, j)),
{
    assert forall|j: int| 0 <= j < marks.len() implies (marks[j] <==> reachable(wv, om, j)) by {
        if marks[j] {
            let c = choose|c: Seq<int>|
                coeff_ok(c, wv.len(), om) && zz_lt(c, stc) && #[trigger] dot(wv, c) == j;
            assert(reachable(wv, om, j));
        }
        if reachable(wv, om, j) {
            let c = choose|c: Seq<int>| coeff_ok(c, wv.len(), om) && #[trigger] dot(wv, c) == j;
            assert(coeff_ok(c, wv.len(), om) && zz_lt(c, stc) && dot(wv, c) == j);
            assert(hit_before(wv, om, stc, j));
        }
    }
}

/// The coverage length of one denomination vector under budget `omega`.
///
/// Marks every sum the admissible coefficient vectors reach in a table of
/// `ws.last() * omega + 2` slots, then returns one less than the index of the
/// first unmarked slot. The table is long enough that a gap is always found:
/// no reachable sum exceeds `ws.last() * omega`.
#[verifier::loop_isolation(false)]
pub fn coverage_length(weights: &Vec<usize>, omega: usize) -> (ell: usize)
    requires
        weights@.len() >= 1,
        1 <= omega,
        weights_sorted(ints_of_u(weights@)),
        ints_of_u(weights@)[weights@.len() - 1] * omega as int + 2 <= isize::MAX as int,
    ensures
        is_coverage(ints_of_u(weights@), omega as int, ell as int),
{
    let w = weights.len();
    let ghost wv = ints_of_u(weights@);
    let ghost om = omega as int;
    let wlast = weights[w - 1];
    let ghost ml = wlast as int;
    proof {
        lemma_weights_min(wv);
        assert(wv[w - 1] == wlast as int);
        assert(om <= ml * om) by (nonlinear_arith)
            requires
                ml >= 1,
                om >= 1,
        ;
    }
    let n = wlast * omega + 2;
    let ghost nn = n as int;

    let mut marks: Vec<bool> = Vec::new();
    let mut k: usize = 0;
    while k < n
        invariant
            k <= n,
            marks@.len() == k,
            forall|j: int| 0 <= j < k ==> !marks@[j],
        decreases n - k,
    {
        marks.push(false);
        k += 1;
    }

    let mut st = CoefficientState::new(w, omega);
    let ghost base = 2 * (om + 1) + 1;
    proof {
        assert forall|j: int| 0 <= j < nn implies (marks@[j] <==> hit_before(
            wv,
            om,
            st.cur(),
            j,
        )) by {
            if hit_before(wv, om, st.cur(), j) {
                let c = choose|c: Seq<int>|
                    coeff_ok(c, wv.len(), om) && zz_lt(c, st.cur()) && #[trigger] dot(wv, c) == j;
                assert(!zz_lt(c, st.cur()));
            }
        }
    }
    let mut more = true;
    while more
        invariant
            st.wf(),
            st.omega == omega,
            st.values@.len() == w,
            marks@.len() == nn,
            more ==> forall|j: int| 0 <= j < nn ==> (marks@[j] <==> hit_before(
                wv,
                om,
                st.cur(),
                j,
            )),
            !more ==> forall|j: int| 0 <= j < nn ==> (marks@[j] <==> reachable(wv, om, j)),
        decreases (if more { 1int } else { 0int }), pow(base, w as nat) - drank(zd(st.cur()), base),
    {
        let ghost before = st.cur();
        let ghost oldmarks = marks@;
        let r = st.next();
        match r {
            None => {
                more = false;
                proof {
                    lemma_marks_done(wv, om, before, marks@);
                }
            },
            Some(cs) => {
                proof {
                    assert(ints_of(cs@) == before);
                }
                let acc = dot_product(weights, &cs, omega);
                if acc >= 0 {
                    let a = acc as usize;
                    if a < n {
                        marks.set(a, true);
                    }
                }
                proof {
                    if 0 <= (acc as int) && (acc as int) < nn {
                        assert(marks@ == oldmarks.update(acc as int, true));
                    } else {
                        assert(marks@ == oldmarks);
                    }
                    lemma_marks_step(wv, om, before, st.cur(), oldmarks, marks@, acc as int);
                    st.lemma_wf_l1();
                    lemma_digits_of_bounded(before, om + 1);
                    lemma_digits_of_bounded(st.cur(), om + 1);
                    lemma_dlt_drank(zd(before), zd(st.cur()), base);
                    lemma_drank_bound(zd(st.cur()), base);
                    lemma_drank_bound(zd(before), base);
                }
            },
        }
    }

    // Read off the first gap; slot `ml * om + 1` is never reachable, so the
    // scan stops inside the table.
    let mut f: usize = 0;
    proof {
        lemma_reachable_zero(wv, om);
    }
    while marks[f]
        invariant
            0 <= f < n,
            forall|j: int| 0 <= j < f ==> marks@[j],
        decreases n - f,
    {
        f += 1;
        proof {
            if f == n {
                assert(marks@[nn - 1]);
                assert(reachable(wv, om, nn - 1));
                lemma_reach_bound(wv, om, nn - 1);
                assert(false);
            }
        }
    }
    proof {
        assert(marks@[0]);
        assert(f >= 1);
        assert(!marks@[f as int]);
        assert forall|j: int| 0 <= j <= f - 1 implies reachable(wv, om, j) by {
            assert(marks@[j]);
        }
        assert(!reachable(wv, om, f as int));
    }
    f - 1
}

} // verus!
