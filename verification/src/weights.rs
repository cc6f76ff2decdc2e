//! Enumeration of denomination vectors: every strictly increasing vector of
//! positive integers of a given length whose largest entry stays below a cap,
//! visited exactly once in the order of [`crate::order::dlt`].
//!
//! A step finds the lowest coordinate that can move up by one without
//! touching the next coordinate (or the top coordinate), moves it, and
//! resets every lower coordinate to its least possible value. This is the
//! standard successor rule for combinations.

use vstd::prelude::*;
use crate::order::dlt;
use crate::order::digits_ok;
use crate::order::lemma_dlt_first_diff;
use crate::order::lemma_diff_dlt;

verus! {

/// A vector of machine integers, read mathematically.
pub open spec fn ints_of_u(s: Seq<usize>) -> Seq<int> {
    s.map_values(|x: usize| x as int)
}

/// Strictly increasing.
pub open spec fn inc(s: Seq<int>) -> bool {
    forall|j: int| 0 <= j < s.len() - 1 ==> #[trigger] s[j] < s[j + 1]
}

/// An admissible denomination vector: length `w`, strictly increasing,
/// positive, largest entry below `cap`.
pub open spec fn weights_ok(u: Seq<int>, w: nat, cap: int) -> bool {
    &&& u.len() == w
    &&& w >= 1
    &&& inc(u)
    &&& u[0] >= 1
    &&& u[w - 1] < cap
}

/// The least admissible vector: 1, 2, ..., w.
pub open spec fn first_weights(w: nat) -> Seq<int> {
    Seq::new(w, |i: int| i + 1)
}

/// A strictly increasing positive vector has `u[j] >= j + 1` everywhere.
pub proof fn lemma_weights_min(u: Seq<int>)
    requires
        inc(u),
        u.len() >= 1,
        u[0] >= 1,
    ensures
        forall|j: int| 0 <= j < u.len() ==> u[j] >= j + 1,
{
    assert forall|j: int| 0 <= j < u.len() implies u[j] >= j + 1 by {
        lemma_weights_min_at(u, j);
    }
}

proof fn lemma_weights_min_at(u: Seq<int>, j: int)
    requires
        inc(u),
        u.len() >= 1,
        u[0] >= 1,
        0 <= j < u.len(),
    ensures
        u[j] >= j + 1,
    decreases j,
{
    if j > 0 {
        lemma_weights_min_at(u, j - 1);
        assert(u[j - 1] < u[j]);
    }
}

/// In a strictly increasing integer vector, entries grow at least by one
/// per index.
pub proof fn lemma_inc_gap(u: Seq<int>, j: int, k: int)
    requires
        inc(u),
        0 <= j <= k < u.len(),
    ensures
        u[j] <= u[k] - (k - j),
    decreases k - j,
{
    if j < k {
        lemma_inc_gap(u, j, k - 1);
        assert(u[k - 1] < u[k]);
    }
}

/// A consecutive run pins every entry from the top one.
proof fn lemma_consec(u: Seq<int>, ii: int, j: int)
    requires
        0 <= j <= ii < u.len(),
        forall|k: int| 0 <= k < ii ==> u[k + 1] == #[trigger] u[k] + 1,
    ensures
        u[j] == u[ii] - (ii - j),
    decreases ii - j,
{
    if j < ii {
        lemma_consec(u, ii, j + 1);
        assert(u[j + 1] == u[j] + 1);
    }
}

/// Pointwise dominated vectors are equal or ordered.
pub proof fn lemma_pointwise_le(a: Seq<int>, b: Seq<int>)
    requires
        a.len() == b.len(),
        forall|j: int| 0 <= j < a.len() ==> a[j] <= b[j],
    ensures
        a == b || dlt(a, b),
    decreases a.len(),
{
    if a.len() == 0 {
        assert(a =~= b);
    } else if a.last() < b.last() {
    } else {
        assert forall|j: int| 0 <= j < a.drop_last().len() implies a.drop_last()[j]
            <= b.drop_last()[j] by {
            assert(a[j] <= b[j]);
        }
        lemma_pointwise_le(a.drop_last(), b.drop_last());
        if a.drop_last() == b.drop_last() {
            assert forall|k: int| 0 <= k < a.len() implies a[k] == b[k] by {
                if k < a.len() - 1 {
                    assert(a.drop_last()[k] == b.drop_last()[k]);
                }
            }
            assert(a =~= b);
        }
    }
}

/// The successor step of the denomination enumerator: coordinate `ii` moves
/// up by one, all lower coordinates reset to least values. The new state
/// follows the old one with no admissible vector in between.
proof fn lemma_step_weights(ov: Seq<int>, nv: Seq<int>, w: nat, cap: int, ii: int)
    requires
        ov.len() == w,
        nv.len() == w,
        0 <= ii < w,
        weights_ok(ov, w, cap),
        forall|j: int| 0 <= j < ii ==> ov[j + 1] == #[trigger] ov[j] + 1,
        ii < w - 1 ==> ov[ii + 1] > ov[ii] + 1,
        nv[ii] == ov[ii] + 1,
        forall|j: int| 0 <= j < ii ==> nv[j] == j + 1,
        forall|j: int| ii < j < w ==> nv[j] == ov[j],
    ensures
        dlt(ov, nv),
        inc(nv),
        nv[0] >= 1,
        nv[w - 1] <= ov[w - 1] + 1,
        forall|u: Seq<int>|
            weights_ok(u, w, cap) && dlt(u, nv) ==> dlt(u, ov) || u == ov,
{
    lemma_weights_min(ov);
    lemma_diff_dlt(ov, nv, ii);
    assert forall|j: int| 0 <= j < nv.len() - 1 implies #[trigger] nv[j] < nv[j + 1] by {
        if j + 1 < ii {
        } else if j + 1 == ii {
            assert(nv[j] == j + 1);
            assert(ov[ii] >= ii + 1);
        } else if j == ii {
            assert(ov[j] < ov[j + 1]);
        } else {
            assert(ov[j] < ov[j + 1]);
        }
    }
    assert forall|u: Seq<int>|
        weights_ok(u, w, cap) && dlt(u, nv) implies dlt(u, ov) || u == ov by {
        lemma_weights_min(u);
        let p = lemma_dlt_first_diff(u, nv);
        if p > ii {
            assert forall|j: int| p < j < w implies u[j] == ov[j] by {
                assert(nv[j] == ov[j]);
            }
            assert(u[p] < ov[p]);
            lemma_diff_dlt(u, ov, p);
        } else if p == ii {
            assert(u[ii] < ov[ii] + 1);
            if u[ii] < ov[ii] {
                assert forall|j: int| ii < j < w implies u[j] == ov[j] by {
                    assert(nv[j] == ov[j]);
                }
                lemma_diff_dlt(u, ov, ii);
            } else {
                assert(u[ii] == ov[ii]);
                assert forall|j: int| 0 <= j < w implies u[j] <= ov[j] by {
                    if j < ii {
                        lemma_inc_gap(u, j, ii);
                        lemma_consec(ov, ii, j);
                    } else if j > ii {
                        assert(u[j] == nv[j]);
                    }
                }
                lemma_pointwise_le(u, ov);
            }
        } else {
            assert(u[p] < nv[p]);
            assert(nv[p] == p + 1);
            assert(u[p] >= p + 1);
            assert(false);
        }
    }
}

/// The stepping state of the denomination enumerator.
pub struct WeightState {
    pub values: Vec<usize>,
    pub cap: usize,
}

impl WeightState {
    /// The state as a mathematical vector.
    pub open spec fn cur(self) -> Seq<int> {
        ints_of_u(self.values@)
    }

    /// The largest value any coordinate of a state can hold.
    pub open spec fn wmax(self) -> int {
        if self.cap as int > self.values@.len() as int {
            self.cap as int
        } else {
            self.values@.len() as int
        }
    }

    pub open spec fn wf(self) -> bool {
        &&& self.values@.len() >= 1
        &&& inc(self.cur())
        &&& self.cur()[0] >= 1
        &&& self.cur()[self.values@.len() - 1] <= self.wmax()
    }

    /// Every coordinate of a well-formed state is a digit below `wmax + 1`.
    pub proof fn lemma_wf_digits(self)
        requires
            self.wf(),
        ensures
            digits_ok(self.cur(), self.wmax() + 1),
    {
        let s = self.cur();
        let n = self.values@.len() as int;
        lemma_weights_min(s);
        assert forall|i: int| 0 <= i < s.len() implies 0 <= #[trigger] s[i] < self.wmax() + 1 by {
            lemma_inc_gap(s, i, n - 1);
        }
    }

    /// Start of the enumeration: the vector 1, 2, ..., w, which is the least
    /// admissible vector and is emitted first (if it is admissible at all).
    pub fn new(w: usize, cap: usize) -> (st: WeightState)
        requires
            1 <= w,
        ensures
            st.wf(),
            st.values@.len() == w,
            st.cap == cap,
            st.cur() == first_weights(w as nat),
            forall|u: Seq<int>| weights_ok(u, w as nat, cap as int) ==> !dlt(u, st.cur()),
    {
        let mut values: Vec<usize> = Vec::new();
        let mut k: usize = 0;
        while k < w
            invariant
                k <= w,
                values@.len() == k,
                forall|j: int| 0 <= j < k ==> values@[j] as int == j + 1,
            decreases w - k,
        {
            values.push(k + 1);
            k += 1;
        }
        let st = WeightState { values, cap };
        proof {
            assert(st.cur() =~= first_weights(w as nat));
            assert forall|u: Seq<int>|
                weights_ok(u, w as nat, cap as int) && dlt(u, st.cur()) implies false by {
                lemma_weights_min(u);
                let p = lemma_dlt_first_diff(u, st.cur());
                assert(st.cur()[p] == p + 1);
                assert(u[p] >= p + 1);
            }
        }
        st
    }

    /// Emit the current vector and step to its successor.
    ///
    /// Each emission is admissible and strictly above the one before in the
    /// order `dlt`, and no admissible vector is skipped over by a step; once
    /// the top coordinate reaches the cap, every admissible vector has been
    /// emitted and `None` is returned forever.
    #[verifier::loop_isolation(false)]
    #[verifier::rlimit(80)]
    pub fn next(&mut self) -> (r: Option<Vec<usize>>)
        requires
            old(self).wf(),
        ensures
            final(self).wf(),
            final(self).cap == old(self).cap,
            final(self).values@.len() == old(self).values@.len(),
            r is Some <==> old(self).cur()[old(self).values@.len() - 1] < old(self).cap as int,
            r is Some ==> (r->0)@ == old(self).values@,
            r is Some ==> weights_ok(
                old(self).cur(),
                old(self).values@.len() as nat,
                old(self).cap as int,
            ),
            r is Some ==> dlt(old(self).cur(), final(self).cur()),
            r is Some ==> forall|u: Seq<int>|
                weights_ok(u, old(self).values@.len() as nat, old(self).cap as int) && dlt(
                    u,
                    final(self).cur(),
                ) ==> dlt(u, old(self).cur()) || u == old(self).cur(),
            r is None ==> *final(self) == *old(self),
            r is None ==> forall|u: Seq<int>|
                weights_ok(u, old(self).values@.len() as nat, old(self).cap as int) ==> dlt(
                    u,
                    old(self).cur(),
                ),
    {
        let w = self.values.len();
        let ghost ov = self.cur();
        if self.values[w - 1] >= self.cap {
            proof {
                assert forall|u: Seq<int>|
                    weights_ok(u, w as nat, self.cap as int) implies dlt(u, ov) by {
                    assert(u[w - 1] < self.cap as int <= ov[w - 1]);
                    lemma_diff_dlt(u, ov, w as int - 1);
                }
            }
            return None;
        }
        proof {
            assert(ov[w - 1] == self.values@[w - 1] as int);
            assert(ov[w - 1] < self.cap as int);
        }

        // Snapshot to emit; the state then steps past it.
        let mut emitted: Vec<usize> = Vec::new();
        let mut k2: usize = 0;
        while k2 < w
            invariant
                k2 <= w,
                emitted@.len() == k2,
                forall|j: int| 0 <= j < k2 ==> emitted@[j] == self.values@[j],
            decreases w - k2,
        {
            let x = self.values[k2];
            emitted.push(x);
            k2 += 1;
        }
        proof {
            assert(emitted@ =~= self.values@);
        }

        // Find the lowest coordinate that can move without displacing the
        // next one: the first with a gap of more than one above it, or the
        // top coordinate.
        proof {
            assert forall|j: int| 0 <= j < w - 1 implies #[trigger] self.values@[j]
                < self.values@[j + 1] by {
                assert(self.cur()[j] < self.cur()[j + 1]);
                assert(self.cur()[j] == self.values@[j] as int);
                assert(self.cur()[j + 1] == self.values@[j + 1] as int);
            }
        }
        let mut i: usize = 0;
        while i < w - 1 && self.values[i + 1] - self.values[i] == 1
            invariant
                0 <= i < w,
                forall|j: int| 0 <= j < w - 1 ==> #[trigger] self.values@[j] < self.values@[j
                    + 1],
                forall|j: int| 0 <= j < i ==> ov[j + 1] == #[trigger] ov[j] + 1,
            decreases w - i,
        {
            i += 1;
        }
        let ghost ii = i as int;
        proof {
            if i < w - 1 {
                assert(self.values@[ii] < self.values@[ii + 1]);
            }
        }

        let vi = self.values[i];
        self.values.set(i, vi + 1);
        proof {
            assert(self.cur() =~= ov.update(ii, vi as int + 1));
        }
        let mut j: usize = 0;
        while j < i
            invariant
                0 <= j <= i,
                self.cap == old(self).cap,
                self.values@.len() == w,
                forall|k: int| 0 <= k < j ==> self.cur()[k] == k + 1,
                self.cur()[ii] == ov[ii] + 1,
                forall|k: int| j <= k < w && k != ii ==> self.cur()[k] == ov[k],
            decreases i - j,
        {
            let ghost prev = self.cur();
            self.values.set(j, j + 1);
            proof {
                assert(self.cur() =~= prev.update(j as int, j + 1));
            }
            j += 1;
        }
        proof {
            let nv = self.cur();
            assert(ov[w - 1] < self.cap as int);
            lemma_step_weights(ov, nv, w as nat, self.cap as int, ii);
        }
        Some(emitted)
    }
}

} // verus!
