//! Enumeration of coefficient vectors: every integer vector of a given
//! length whose L1 norm stays within the budget, visited exactly once.
//!
//! The enumerator is a balanced-signed counter. Each coordinate runs through
//! the zig-zag sequence 0, -1, 1, -2, 2, ... and a step either advances the
//! lowest coordinate (while the budget is not yet met) or, once the budget is
//! met exactly, flips or carries at the lowest nonzero coordinate. Mapping
//! each coordinate through [`zig`] turns a step into a strict increase of the
//! digit order [`crate::order::dlt`], read with the highest index as the most
//! significant digit; that order underlies all uniqueness and completeness
//! claims below.

use vstd::prelude::*;
use crate::order::dlt;
use crate::order::digits_ok;
use crate::order::lemma_dlt_first_diff;
use crate::order::lemma_diff_dlt;
use crate::order::lemma_dlt_total;

verus! {

/// Absolute value.
pub open spec fn abs1(x: int) -> int {
    if x < 0 { -x } else { x }
}

/// Sum of absolute values.
pub open spec fn l1(s: Seq<int>) -> int
    decreases s.len(),
{
    if s.len() == 0 {
        0
    } else {
        l1(s.drop_last()) + abs1(s.last())
    }
}

/// The zig-zag code of an integer: 0, -1, 1, -2, 2, ... map to 0, 1, 2, 3, 4, ...
pub open spec fn zig(x: int) -> int {
    if x < 0 { -2 * x - 1 } else { 2 * x }
}

/// A vector of integers read as zig-zag digits.
pub open spec fn zd(s: Seq<int>) -> Seq<int> {
    s.map_values(|x: int| zig(x))
}

/// The order in which coefficient vectors are emitted.
pub open spec fn zz_lt(a: Seq<int>, b: Seq<int>) -> bool {
    dlt(zd(a), zd(b))
}

/// An admissible coefficient vector: length `w`, L1 norm within `omega`.
pub open spec fn coeff_ok(c: Seq<int>, w: nat, omega: int) -> bool {
    &&& c.len() == w
    &&& l1(c) <= omega
}

/// The all-zero vector of length `n`.
pub open spec fn zeros(n: nat) -> Seq<int> {
    Seq::new(n, |i: int| 0)
}

/// The state the enumerator rests in once every admissible vector is out:
/// all zeros but for the top coordinate, which exceeds the budget by one.
pub open spec fn ex_state(w: nat, omega: int) -> Seq<int> {
    zeros((w - 1) as nat).push(omega + 1)
}

pub proof fn lemma_l1_nonneg(s: Seq<int>)
    ensures
        0 <= l1(s),
    decreases s.len(),
{
    if s.len() > 0 {
        lemma_l1_nonneg(s.drop_last());
    }
}

/// Splitting a vector splits its L1 norm.
pub proof fn lemma_l1_split(s: Seq<int>, i: int)
    requires
        0 <= i <= s.len(),
    ensures
        l1(s) == l1(s.take(i)) + l1(s.skip(i)),
    decreases s.len(),
{
    if i == s.len() {
        assert(s.take(i) =~= s);
        assert(l1(s.skip(i)) == 0);
    } else {
        lemma_l1_split(s.drop_last(), i);
        assert(s.drop_last().take(i) =~= s.take(i));
        assert(s.drop_last().skip(i) =~= s.skip(i).drop_last());
        assert(s.skip(i).last() == s.last());
    }
}

/// The L1 norm of a vector, singling out coordinate `i`.
pub proof fn lemma_l1_mid(s: Seq<int>, i: int)
    requires
        0 <= i < s.len(),
    ensures
        l1(s) == l1(s.take(i)) + abs1(s[i]) + l1(s.skip(i + 1)),
{
    lemma_l1_split(s, i + 1);
    assert(s.take(i + 1).drop_last() =~= s.take(i));
    assert(s.take(i + 1).last() == s[i]);
}

/// Each coordinate is bounded by the L1 norm.
pub proof fn lemma_l1_element(s: Seq<int>, i: int)
    requires
        0 <= i < s.len(),
    ensures
        abs1(s[i]) <= l1(s),
{
    lemma_l1_mid(s, i);
    lemma_l1_nonneg(s.take(i));
    lemma_l1_nonneg(s.skip(i + 1));
}

/// How one updated coordinate changes the L1 norm.
pub proof fn lemma_l1_update(s: Seq<int>, i: int, x: int)
    requires
        0 <= i < s.len(),
    ensures
        l1(s.update(i, x)) == l1(s) - abs1(s[i]) + abs1(x),
{
    lemma_l1_mid(s, i);
    lemma_l1_mid(s.update(i, x), i);
    assert(s.update(i, x).take(i) =~= s.take(i));
    assert(s.update(i, x).skip(i + 1) =~= s.skip(i + 1));
}

/// A vector of zeros has L1 norm zero.
pub proof fn lemma_l1_zeros(s: Seq<int>)
    requires
        forall|j: int| 0 <= j < s.len() ==> s[j] == 0,
    ensures
        l1(s) == 0,
    decreases s.len(),
{
    if s.len() > 0 {
        lemma_l1_zeros(s.drop_last());
    }
}

/// The zig-zag code is injective.
pub proof fn lemma_zig_inj(x: int, y: int)
    requires
        zig(x) == zig(y),
    ensures
        x == y,
{
}

/// Equal digit vectors come from equal vectors.
pub proof fn lemma_zd_eq(a: Seq<int>, b: Seq<int>)
    requires
        a.len() == b.len(),
        zd(a) == zd(b),
    ensures
        a == b,
{
    assert forall|k: int| 0 <= k < a.len() implies a[k] == b[k] by {
        assert(zd(a)[k] == zig(a[k]));
        assert(zd(b)[k] == zig(b[k]));
        lemma_zig_inj(a[k], b[k]);
    }
    assert(a =~= b);
}

/// Distinct vectors of equal length have distinct digit vectors.
pub proof fn lemma_zd_eq_contra(a: Seq<int>, b: Seq<int>)
    requires
        a.len() == b.len(),
        a != b,
    ensures
        zd(a) != zd(b),
{
    if zd(a) == zd(b) {
        lemma_zd_eq(a, b);
    }
}

/// The emission order never relates a vector to itself: together with each
/// step moving strictly up in `zz_lt`, no vector is ever emitted twice.
pub proof fn lemma_zz_lt_irrefl(a: Seq<int>)
    ensures
        !zz_lt(a, a),
{
    if zz_lt(a, a) {
        crate::order::lemma_dlt_asym(zd(a), zd(a));
    }
}

/// The emission order is transitive: every earlier emission stays strictly
/// below all later states.
pub proof fn lemma_zz_lt_trans(a: Seq<int>, b: Seq<int>, c: Seq<int>)
    requires
        zz_lt(a, b),
        zz_lt(b, c),
    ensures
        zz_lt(a, c),
{
    crate::order::lemma_dlt_trans(zd(a), zd(b), zd(c));
}

/// The L1 norm of the exhausted state is one over the budget.
pub proof fn lemma_l1_ex(w: nat, omega: int)
    requires
        w >= 1,
        omega >= 0,
    ensures
        ex_state(w, omega).len() == w,
        l1(ex_state(w, omega)) == omega + 1,
        ex_state(w, omega).last() == omega + 1,
        forall|j: int| 0 <= j < w - 1 ==> ex_state(w, omega)[j] == 0,
{
    let e = ex_state(w, omega);
    assert(e.drop_last() =~= zeros((w - 1) as nat));
    lemma_l1_zeros(e.drop_last());
    assert(e.last() == omega + 1);
    assert(abs1(omega + 1) == omega + 1);
}

/// Every admissible vector lies strictly below the exhausted state.
pub proof fn lemma_ex_top(w: nat, omega: int)
    requires
        w >= 1,
        omega >= 1,
    ensures
        forall|u: Seq<int>| coeff_ok(u, w, omega) ==> zz_lt(u, ex_state(w, omega)),
{
    let e = ex_state(w, omega);
    lemma_l1_ex(w, omega);
    assert forall|u: Seq<int>| coeff_ok(u, w, omega) implies zz_lt(u, e) by {
        lemma_l1_element(u, w - 1);
        assert(zd(u)[w - 1] == zig(u[w - 1]));
        assert(zd(e)[w - 1] == zig(omega + 1));
        assert(zig(u[w - 1]) <= 2 * abs1(u[w - 1]));
        lemma_diff_dlt(zd(u), zd(e), w - 1);
    }
}

/// No vector lies below the all-zero vector.
pub proof fn lemma_zeros_bottom(w: nat)
    requires
        w >= 1,
    ensures
        forall|u: Seq<int>| u.len() == w ==> !zz_lt(u, zeros(w)),
{
    assert forall|u: Seq<int>| u.len() == w implies !zz_lt(u, zeros(w)) by {
        if zz_lt(u, zeros(w)) {
            let p = lemma_dlt_first_diff(zd(u), zd(zeros(w)));
            assert(zd(zeros(w))[p] == zig(0));
            assert(zd(u)[p] == zig(u[p]));
        }
    }
}

/// The digits of a vector whose L1 norm is at most `m` fit below `2 * m + 1`.
pub proof fn lemma_digits_of_bounded(s: Seq<int>, m: int)
    requires
        l1(s) <= m,
    ensures
        digits_ok(zd(s), 2 * m + 1),
{
    assert forall|i: int| 0 <= i < zd(s).len() implies 0 <= #[trigger] zd(s)[i] < 2 * m + 1 by {
        lemma_l1_element(s, i);
        assert(zd(s)[i] == zig(s[i]));
    }
}

/// A step below budget: the lowest coordinate moves one digit up. The new
/// state follows the old one with nothing in between.
proof fn lemma_step_low(ov: Seq<int>, nv: Seq<int>, w: nat, om: int)
    requires
        ov.len() == w,
        nv.len() == w,
        w >= 1,
        nv == ov.update(0, nv[0]),
        zig(nv[0]) == zig(ov[0]) + 1,
    ensures
        zz_lt(ov, nv),
        forall|u: Seq<int>|
            u.len() == w && zz_lt(u, nv) ==> zz_lt(u, ov) || u == ov,
{
    assert(zd(nv)[0] == zig(nv[0]));
    assert(zd(ov)[0] == zig(ov[0]));
    assert forall|j: int| 0 < j < w implies zd(ov)[j] == zd(nv)[j] by {
        assert(nv[j] == ov[j]);
    }
    lemma_diff_dlt(zd(ov), zd(nv), 0);
    assert forall|u: Seq<int>| u.len() == w && zz_lt(u, nv) implies zz_lt(u, ov) || u == ov by {
        let p = lemma_dlt_first_diff(zd(u), zd(nv));
        assert forall|j: int| p < j < w implies u[j] == nv[j] by {
            assert(zd(u)[j] == zd(nv)[j]);
            assert(zd(u)[j] == zig(u[j]));
            assert(zd(nv)[j] == zig(nv[j]));
            lemma_zig_inj(u[j], nv[j]);
        }
        assert(zd(u)[p] == zig(u[p]));
        if p > 0 {
            assert(zd(u)[p] < zd(ov)[p]);
            lemma_diff_dlt(zd(u), zd(ov), p);
        } else {
            assert(zig(u[0]) < zig(ov[0]) + 1);
            if zig(u[0]) == zig(ov[0]) {
                lemma_zig_inj(u[0], ov[0]);
                assert(u =~= ov);
            } else {
                lemma_diff_dlt(zd(u), zd(ov), 0);
            }
        }
    }
}

/// A step at exact budget that flips the lowest nonzero coordinate from
/// negative to positive. Nothing admissible lies between the two states.
proof fn lemma_step_flip(ov: Seq<int>, nv: Seq<int>, w: nat, om: int, ii: int)
    requires
        ov.len() == w,
        nv.len() == w,
        0 <= ii < w,
        l1(ov) == om,
        forall|j: int| 0 <= j < ii ==> ov[j] == 0,
        nv == ov.update(ii, nv[ii]),
        zig(nv[ii]) == zig(ov[ii]) + 1,
    ensures
        zz_lt(ov, nv),
        forall|u: Seq<int>|
            coeff_ok(u, w, om) && zz_lt(u, nv) ==> zz_lt(u, ov) || u == ov,
{
    assert(zd(nv)[ii] == zig(nv[ii]));
    assert(zd(ov)[ii] == zig(ov[ii]));
    assert forall|j: int| ii < j < w implies zd(ov)[j] == zd(nv)[j] by {
        assert(nv[j] == ov[j]);
    }
    lemma_diff_dlt(zd(ov), zd(nv), ii);
    assert forall|u: Seq<int>|
        coeff_ok(u, w, om) && zz_lt(u, nv) implies zz_lt(u, ov) || u == ov by {
        let p = lemma_dlt_first_diff(zd(u), zd(nv));
        assert forall|j: int| p < j < w implies u[j] == nv[j] by {
            assert(zd(u)[j] == zd(nv)[j]);
            assert(zd(u)[j] == zig(u[j]));
            assert(zd(nv)[j] == zig(nv[j]));
            lemma_zig_inj(u[j], nv[j]);
        }
        assert(zd(u)[p] == zig(u[p]));
        if p > ii {
            assert(zd(u)[p] < zd(ov)[p]);
            assert forall|j: int| p < j < w implies u[j] == ov[j] by {
                assert(nv[j] == ov[j]);
            }
            lemma_diff_dlt(zd(u), zd(ov), p);
        } else if p == ii {
            if zig(u[ii]) < zig(ov[ii]) {
                lemma_diff_dlt(zd(u), zd(ov), ii);
            } else {
                assert(zig(u[ii]) == zig(ov[ii]));
                lemma_zig_inj(u[ii], ov[ii]);
                if forall|j: int| 0 <= j < ii ==> u[j] == 0 {
                    assert(u =~= ov);
                } else {
                    let q = choose|q: int| 0 <= q < ii && u[q] != 0;
                    lemma_l1_split(u, ii);
                    assert(u.skip(ii) =~= ov.skip(ii));
                    lemma_l1_split(ov, ii);
                    lemma_l1_zeros(ov.take(ii));
                    lemma_l1_element(u.take(ii), q);
                    assert(u.take(ii)[q] == u[q]);
                    assert(abs1(u[q]) >= 1);
                    assert(l1(u) >= om + 1);
                    assert(false);
                }
            }
        } else {
            assert(zd(u)[p] < zd(nv)[p]);
            assert(nv[p] == ov[p]);
            assert(nv[p] == 0);
            assert(zd(nv)[p] == zig(nv[p]));
            assert(false);
        }
    }
}

/// The final step: the top coordinate alone carries the whole budget and
/// moves past it. Every admissible vector lies at or below the old state.
proof fn lemma_step_last(ov: Seq<int>, nv: Seq<int>, w: nat, om: int)
    requires
        ov.len() == w,
        nv.len() == w,
        w >= 1,
        om >= 1,
        l1(ov) == om,
        forall|j: int| 0 <= j < w - 1 ==> ov[j] == 0,
        ov[w - 1] == om,
        nv == ov.update(w - 1, om + 1),
    ensures
        zz_lt(ov, nv),
        forall|u: Seq<int>|
            coeff_ok(u, w, om) && zz_lt(u, nv) ==> zz_lt(u, ov) || u == ov,
{
    assert(zd(nv)[w - 1] == zig(om + 1));
    assert(zd(ov)[w - 1] == zig(om));
    assert forall|j: int| w - 1 < j < w implies zd(ov)[j] == zd(nv)[j] by {}
    lemma_diff_dlt(zd(ov), zd(nv), w - 1);
    assert forall|u: Seq<int>|
        coeff_ok(u, w, om) && zz_lt(u, nv) implies zz_lt(u, ov) || u == ov by {
        if u != ov {
            lemma_zd_eq_contra(u, ov);
            lemma_dlt_total(zd(u), zd(ov));
            if dlt(zd(ov), zd(u)) {
                let q = lemma_dlt_first_diff(zd(ov), zd(u));
                assert forall|j: int| q < j < w implies ov[j] == u[j] by {
                    assert(zd(ov)[j] == zd(u)[j]);
                    assert(zd(ov)[j] == zig(ov[j]));
                    assert(zd(u)[j] == zig(u[j]));
                    lemma_zig_inj(ov[j], u[j]);
                }
                assert(zd(ov)[q] == zig(ov[q]));
                assert(zd(u)[q] == zig(u[q]));
                if q == w - 1 {
                    assert(zig(u[q]) > zig(om));
                    assert(abs1(u[q]) >= om + 1);
                    lemma_l1_element(u, q);
                    assert(false);
                } else {
                    assert(ov[q] == 0);
                    assert(zig(u[q]) > zig(0));
                    assert(abs1(u[q]) >= 1);
                    lemma_l1_mid(u, q);
                    assert(u.skip(q + 1) =~= ov.skip(q + 1));
                    lemma_l1_mid(ov, q);
                    lemma_l1_zeros(ov.take(q));
                    lemma_l1_nonneg(u.take(q));
                    assert(l1(u) >= om + 1);
                    assert(false);
                }
            }
        }
    }
}

/// A carry step at exact budget: the lowest nonzero coordinate, positive,
/// returns to zero, and the next coordinate moves one digit up. Nothing
/// admissible lies between the two states.
proof fn lemma_step_carry(ov: Seq<int>, nv: Seq<int>, w: nat, om: int, ii: int)
    requires
        ov.len() == w,
        nv.len() == w,
        0 <= ii < w - 1,
        l1(ov) == om,
        forall|j: int| 0 <= j < ii ==> ov[j] == 0,
        ov[ii] > 0,
        nv == ov.update(ii, 0).update(ii + 1, nv[ii + 1]),
        zig(nv[ii + 1]) == zig(ov[ii + 1]) + 1,
    ensures
        zz_lt(ov, nv),
        forall|u: Seq<int>|
            coeff_ok(u, w, om) && zz_lt(u, nv) ==> zz_lt(u, ov) || u == ov,
{
    assert(zd(nv)[ii + 1] == zig(nv[ii + 1]));
    assert(zd(ov)[ii + 1] == zig(ov[ii + 1]));
    assert forall|j: int| ii + 1 < j < w implies zd(ov)[j] == zd(nv)[j] by {
        assert(nv[j] == ov[j]);
    }
    lemma_diff_dlt(zd(ov), zd(nv), ii + 1);
    assert forall|u: Seq<int>|
        coeff_ok(u, w, om) && zz_lt(u, nv) implies zz_lt(u, ov) || u == ov by {
        let p = lemma_dlt_first_diff(zd(u), zd(nv));
        assert forall|j: int| p < j < w implies u[j] == nv[j] by {
            assert(zd(u)[j] == zd(nv)[j]);
            assert(zd(u)[j] == zig(u[j]));
            assert(zd(nv)[j] == zig(nv[j]));
            lemma_zig_inj(u[j], nv[j]);
        }
        assert(zd(u)[p] == zig(u[p]));
        if p > ii + 1 {
            assert(zd(u)[p] < zd(ov)[p]);
            assert forall|j: int| p < j < w implies u[j] == ov[j] by {
                assert(nv[j] == ov[j]);
            }
            lemma_diff_dlt(zd(u), zd(ov), p);
        } else if p == ii + 1 {
            if zig(u[ii + 1]) < zig(ov[ii + 1]) {
                assert forall|j: int| ii + 1 < j < w implies u[j] == ov[j] by {
                    assert(nv[j] == ov[j]);
                }
                lemma_diff_dlt(zd(u), zd(ov), ii + 1);
            } else {
                assert(zig(u[ii + 1]) == zig(ov[ii + 1]));
                lemma_zig_inj(u[ii + 1], ov[ii + 1]);
                if u != ov {
                    lemma_zd_eq_contra(u, ov);
                    lemma_dlt_total(zd(u), zd(ov));
                    if dlt(zd(ov), zd(u)) {
                        let q = lemma_dlt_first_diff(zd(ov), zd(u));
                        assert forall|j: int| q < j < w implies ov[j] == u[j] by {
                            assert(zd(ov)[j] == zd(u)[j]);
                            assert(zd(ov)[j] == zig(ov[j]));
                            assert(zd(u)[j] == zig(u[j]));
                            lemma_zig_inj(ov[j], u[j]);
                        }
                        assert(zd(ov)[q] == zig(ov[q]));
                        assert(zd(u)[q] == zig(u[q]));
                        assert(q <= ii);
                        lemma_l1_mid(u, q);
                        assert(u.skip(q + 1) =~= ov.skip(q + 1));
                        lemma_l1_mid(ov, q);
                        lemma_l1_nonneg(u.take(q));
                        lemma_l1_zeros(ov.take(q));
                        if q == ii {
                            assert(zig(u[ii]) > zig(ov[ii]));
                            assert(abs1(u[ii]) >= ov[ii] + 1);
                            assert(l1(u) >= om + 1);
                            assert(false);
                        } else {
                            assert(ov[q] == 0);
                            assert(zig(u[q]) > zig(0));
                            assert(abs1(u[q]) >= 1);
                            assert(l1(u) >= om + 1);
                            assert(false);
                        }
                    }
                }
            }
        } else {
            assert(zd(u)[p] < zd(nv)[p]);
            assert(nv[p] == 0);
            assert(zd(nv)[p] == zig(nv[p]));
            assert(false);
        }
    }
}

/// The stepping state of the coefficient enumerator.
pub struct CoefficientState {
    pub values: Vec<isize>,
    pub omega: usize,
}

/// A vector of machine integers, read mathematically.
pub open spec fn ints_of(s: Seq<isize>) -> Seq<int> {
    s.map_values(|x: isize| x as int)
}

impl CoefficientState {
    /// The state as a mathematical vector.
    pub open spec fn cur(self) -> Seq<int> {
        ints_of(self.values@)
    }

    /// The state is either still within budget, or the exhausted state.
    pub open spec fn wf(self) -> bool {
        &&& self.values@.len() >= 1
        &&& 1 <= self.omega
        &&& self.omega as int + 1 <= isize::MAX as int
        &&& (l1(self.cur()) <= self.omega as int || self.cur() == ex_state(
            self.values@.len() as nat,
            self.omega as int,
        ))
    }

    /// The L1 norm of a state never exceeds the budget by more than one.
    pub proof fn lemma_wf_l1(self)
        requires
            self.wf(),
        ensures
            l1(self.cur()) <= self.omega as int + 1,
    {
        if l1(self.cur()) > self.omega as int {
            lemma_l1_ex(self.values@.len() as nat, self.omega as int);
        }
    }

    /// Start of the enumeration: the all-zero vector, which is emitted first.
    pub fn new(w: usize, omega: usize) -> (st: CoefficientState)
        requires
            1 <= w,
            1 <= omega,
            omega as int + 1 <= isize::MAX as int,
        ensures
            st.wf(),
            st.values@.len() == w,
            st.omega == omega,
            st.cur() == zeros(w as nat),
            l1(st.cur()) == 0,
            forall|u: Seq<int>| u.len() == w ==> !zz_lt(u, st.cur()),
    {
        let mut values: Vec<isize> = Vec::new();
        let mut k: usize = 0;
        while k < w
            invariant
                k <= w,
                values@.len() == k,
                forall|j: int| 0 <= j < k ==> values@[j] == 0isize,
            decreases w - k,
        {
            values.push(0isize);
            k += 1;
        }
        let st = CoefficientState { values, omega };
        proof {
            assert(st.cur() =~= zeros(w as nat));
            lemma_l1_zeros(st.cur());
            lemma_zeros_bottom(w as nat);
        }
        st
    }

    /// Emit the current vector and step the counter.
    ///
    /// The emitted vectors are exactly the admissible ones, each once: every
    /// emission is admissible and strictly above the one before in `zz_lt`,
    /// and no admissible vector is skipped over by a step. Once the budget is
    /// exceeded the enumeration has passed every admissible vector and `None`
    /// is returned forever.
    #[verifier::loop_isolation(false)]
    pub fn next(&mut self) -> (r: Option<Vec<isize>>)
        requires
            old(self).wf(),
        ensures
            final(self).wf(),
            final(self).omega == old(self).omega,
            final(self).values@.len() == old(self).values@.len(),
            r is Some <==> l1(old(self).cur()) <= old(self).omega as int,
            r is Some ==> (r->0)@ == old(self).values@,
            r is Some ==> coeff_ok(
                old(self).cur(),
                old(self).values@.len() as nat,
                old(self).omega as int,
            ),
            r is Some ==> zz_lt(old(self).cur(), final(self).cur()),
            r is Some ==> forall|u: Seq<int>|
                coeff_ok(u, old(self).values@.len() as nat, old(self).omega as int) && zz_lt(
                    u,
                    final(self).cur(),
                ) ==> zz_lt(u, old(self).cur()) || u == old(self).cur(),
            r is None ==> *final(self) == *old(self),
            r is None ==> forall|u: Seq<int>|
                coeff_ok(u, old(self).values@.len() as nat, old(self).omega as int) ==> zz_lt(
                    u,
                    old(self).cur(),
                ),
    {
        let w = self.values.len();
        let ghost ov = self.cur();
        let ghost om = self.omega as int;
        proof {
            if l1(ov) > om {
                lemma_l1_ex(w as nat, om);
            }
            assert(l1(ov) <= om + 1);
        }

        // Sum of absolute values of the current state.
        let mut total: isize = 0;
        let mut k: usize = 0;
        while k < w
            invariant
                k <= w,
                total as int == l1(ov.take(k as int)),
                0 <= total as int <= om + 1,
            decreases w - k,
        {
            let x = self.values[k];
            proof {
                lemma_l1_element(ov, k as int);
                lemma_l1_split(ov, k + 1);
                lemma_l1_nonneg(ov.skip(k + 1));
                assert(ov.take(k + 1).drop_last() =~= ov.take(k as int));
                assert(ov.take(k + 1).last() == ov[k as int]);
            }
            let ax = if x < 0 { -x } else { x };
            total = total + ax;
            k += 1;
        }
        proof {
            assert(ov.take(w as int) =~= ov);
        }

        let omi = self.omega as isize;
        if total > omi {
            proof {
                lemma_ex_top(w as nat, om);
            }
            return None;
        }

        // Snapshot to emit; the state then steps past it.
        let mut emitted: Vec<isize> = Vec::new();
        let mut k2: usize = 0;
        while k2 < w
            invariant
                k2 <= w,
                emitted@.len() == k2,
                forall|j: int| 0 <= j < k2 ==> emitted@[j] == self.values@[j],
            decreases w - k2,
        {
            let x = self.values[k2];
            emitted.push(x);
            k2 += 1;
        }
        proof {
            assert(emitted@ =~= self.values@);
        }

        if total < omi {
            // Budget not met: advance the lowest coordinate one zig-zag step.
            let x0 = self.values[0];
            proof {
                lemma_l1_element(ov, 0);
            }
            let nx = if x0 < 0 { -x0 } else { -1 - x0 };
            self.values.set(0, nx);
            proof {
                let nv = self.cur();
                assert(nv =~= ov.update(0, nx as int));
                lemma_l1_update(ov, 0, nx as int);
                assert(zig(nx as int) == zig(ov[0]) + 1);
                lemma_step_low(ov, nv, w as nat, om);
            }
            return Some(emitted);
        }

        // Budget met exactly: find the lowest nonzero coordinate.
        let mut i: usize = 0;
        while self.values[i] == 0
            invariant
                0 <= i < w,
                forall|j: int| 0 <= j < i ==> ov[j] == 0,
            decreases w - i,
        {
            proof {
                if i + 1 == w {
                    lemma_l1_zeros(ov.take(w as int - 1));
                    lemma_l1_mid(ov, w as int - 1);
                    assert(ov[w as int - 1] == 0);
                    assert(l1(ov.skip(w as int)) == 0);
                    assert(false);
                }
            }
            i += 1;
        }
        let ghost ii = i as int;
        proof {
            lemma_l1_zeros(ov.take(ii));
            lemma_l1_mid(ov, ii);
            lemma_l1_nonneg(ov.skip(ii + 1));
            assert(abs1(ov[ii]) + l1(ov.skip(ii + 1)) == om);
        }

        let x = self.values[i];
        if x < 0 {
            // Flip the sign: same magnitude, one digit up, still on budget.
            self.values.set(i, -x);
            proof {
                let nv = self.cur();
                assert(nv =~= ov.update(ii, -(x as int)));
                lemma_l1_update(ov, ii, -(x as int));
                assert(zig(nv[ii]) == zig(ov[ii]) + 1);
                lemma_step_flip(ov, nv, w as nat, om, ii);
            }
            return Some(emitted);
        }

        if i == w - 1 {
            // Carry out of the top coordinate: the enumeration is complete.
            self.values.set(i, x + 1);
            proof {
                let nv = self.cur();
                assert(ov.skip(ii + 1) =~= Seq::<int>::empty());
                assert(x as int == om);
                assert(nv =~= ov.update(ii, om + 1));
                lemma_l1_ex(w as nat, om);
                assert(nv =~= ex_state(w as nat, om));
                lemma_step_last(ov, nv, w as nat, om);
            }
            return Some(emitted);
        }

        // Carry: zero this coordinate, step the next one up a digit.
        proof {
            lemma_l1_element(ov, ii + 1);
        }
        self.values.set(i, 0);
        let y = self.values[i + 1];
        let ny = if y < 0 { -y } else { -1 - y };
        self.values.set(i + 1, ny);
        proof {
            let nv = self.cur();
            let mid = ov.update(ii, 0);
            assert(nv =~= mid.update(ii + 1, ny as int));
            assert(y as int == ov[ii + 1]);
            lemma_l1_update(ov, ii, 0);
            lemma_l1_update(mid, ii + 1, ny as int);
            assert(mid[ii + 1] == ov[ii + 1]);
            assert(abs1(ny as int) <= abs1(ov[ii + 1]) + 1);
            assert(abs1(ov[ii]) >= 1);
            assert(l1(nv) <= om);
            assert(zig(ny as int) == zig(ov[ii + 1]) + 1);
            assert(nv == ov.update(ii, 0).update(ii + 1, nv[ii + 1]));
            lemma_step_carry(ov, nv, w as nat, om, ii);
        }
        Some(emitted)
    }
}

} // verus!
