//! The outer search: score every admissible denomination vector and keep the
//! best. Results merge through [`combine`], whose tie rule keeps every
//! co-optimal vector; the merge is associative and commutative on the
//! (length, set of vectors) reading, so partial results may be folded in any
//! grouping or order — which is what licenses splitting the candidate stream
//! across parallel workers.

use vstd::prelude::*;
use vstd::arithmetic::power::pow;
use vstd::arithmetic::power::lemma_pow_positive;
use vstd::arithmetic::power::lemma_pow_increases;
use crate::order::dlt;
use crate::order::drank;
use crate::order::lemma_dlt_trans;
use crate::order::lemma_dlt_asym;
use crate::order::lemma_dlt_drank;
use crate::order::lemma_drank_bound;
use crate::weights::ints_of_u;
use crate::weights::weights_ok;
use crate::weights::first_weights;
use crate::weights::WeightState;
use crate::coverage::is_coverage;
use crate::coverage::weights_sorted;
use crate::coverage::coverage_length;
use crate::coverage::lemma_coverage_unique;

verus! {

/// The search bound on denominations for a given width and budget: no
/// denomination at or above `2 * (omega + 1)^(w - 1)` can improve the result.
pub open spec fn search_cap(w: nat, omega: int) -> int {
    2 * pow(omega + 1, (w - 1) as nat)
}

/// The vector `v` appears among the collected denomination vectors.
pub open spec fn holds_vec(ws: Seq<Vec<usize>>, v: Seq<int>) -> bool {
    exists|k: int| 0 <= k < ws.len() && ints_of_u(#[trigger] ws[k]@) == v
}

/// The collected denomination vectors, as a set.
pub open spec fn wset(ws: Seq<Vec<usize>>) -> Set<Seq<int>> {
    Set::new(|v: Seq<int>| holds_vec(ws, v))
}

/// No denomination vector is collected twice.
pub open spec fn distinct(ws: Seq<Vec<usize>>) -> bool {
    forall|k1: int, k2: int|
        0 <= k1 < k2 < ws.len() ==> ints_of_u(#[trigger] ws[k1]@) != ints_of_u(#[trigger] ws[k2]@)
}

/// The length a merge of two results reports: the better of the two.
pub open spec fn combine_length(la: int, lb: int) -> int {
    if la >= lb {
        la
    } else {
        lb
    }
}

/// The set of vectors a merge of two results keeps: the winner's set, or the
/// union on a tie.
pub open spec fn combine_set(la: int, sa: Set<Seq<int>>, lb: int, sb: Set<Seq<int>>) -> Set<
    Seq<int>,
> {
    if la > lb {
        sa
    } else if lb > la {
        sb
    } else {
        sa.union(sb)
    }
}

/// Merging results is commutative on the (length, set) reading.
pub proof fn lemma_combine_commutative(la: int, sa: Set<Seq<int>>, lb: int, sb: Set<Seq<int>>)
    ensures
        combine_length(la, lb) == combine_length(lb, la),
        combine_set(la, sa, lb, sb) == combine_set(lb, sb, la, sa),
{
    if la == lb {
        assert(sa.union(sb) =~= sb.union(sa));
    }
}

/// Merging results is associative on the (length, set) reading.
pub proof fn lemma_combine_associative(
    la: int,
    sa: Set<Seq<int>>,
    lb: int,
    sb: Set<Seq<int>>,
    lc: int,
    sc: Set<Seq<int>>,
)
    ensures
        combine_length(combine_length(la, lb), lc) == combine_length(la, combine_length(lb, lc)),
        combine_set(combine_length(la, lb), combine_set(la, sa, lb, sb), lc, sc) == combine_set(
            la,
            sa,
            combine_length(lb, lc),
            combine_set(lb, sb, lc, sc),
        ),
{
    assert(sa.union(sb).union(sc) =~= sa.union(sb.union(sc)));
}

/// Splitting a concatenation: a vector appears in `aw + bw` exactly when it
/// appears in one of the parts.
pub proof fn lemma_holds_concat(aw: Seq<Vec<usize>>, bw: Seq<Vec<usize>>, v: Seq<int>)
    ensures
        holds_vec(aw + bw, v) <==> holds_vec(aw, v) || holds_vec(bw, v),
{
    if holds_vec(aw + bw, v) {
        let k = choose|k: int| 0 <= k < (aw + bw).len() && ints_of_u(#[trigger] (aw + bw)[k]@)
            == v;
        if k < aw.len() {
            assert(ints_of_u(aw[k]@) == v);
        } else {
            assert(ints_of_u(bw[k - aw.len()]@) == v);
        }
    }
    if holds_vec(aw, v) {
        let k = choose|k: int| 0 <= k < aw.len() && ints_of_u(#[trigger] aw[k]@) == v;
        assert(ints_of_u((aw + bw)[k]@) == v);
    }
    if holds_vec(bw, v) {
        let k = choose|k: int| 0 <= k < bw.len() && ints_of_u(#[trigger] bw[k]@) == v;
        assert(ints_of_u((aw + bw)[k + aw.len()]@) == v);
    }
}

/// One search result: the best coverage length seen and every denomination
/// vector that achieved it.
#[derive(Debug)]
pub struct Results {
    pub length: usize,
    pub weights: Vec<Vec<usize>>,
}

impl Results {
    /// The empty accumulator a fold starts from.
    pub fn empty() -> (r: Results)
        ensures
            r.length == 0,
            r.weights@.len() == 0,
    {
        Results { length: 0, weights: Vec::new() }
    }
}

/// Merge two partial results: the strictly better length wins outright; on a
/// tie both denomination sets are kept.
pub fn combine(a: Results, b: Results) -> (r: Results)
    ensures
        r.length as int == combine_length(a.length as int, b.length as int),
        a.length > b.length ==> r.weights@ == a.weights@,
        b.length > a.length ==> r.weights@ == b.weights@,
        a.length == b.length ==> r.weights@ == a.weights@ + b.weights@,
        wset(r.weights@) == combine_set(
            a.length as int,
            wset(a.weights@),
            b.length as int,
            wset(b.weights@),
        ),
{
    let mut a = a;
    let mut b = b;
    if a.length < b.length {
        proof {
            assert(wset(b.weights@) =~= combine_set(
                a.length as int,
                wset(a.weights@),
                b.length as int,
                wset(b.weights@),
            ));
        }
        b
    } else if b.length < a.length {
        proof {
            assert(wset(a.weights@) =~= combine_set(
                a.length as int,
                wset(a.weights@),
                b.length as int,
                wset(b.weights@),
            ));
        }
        a
    } else {
        let ghost aw = a.weights@;
        let ghost bw = b.weights@;
        a.weights.append(&mut b.weights);
        proof {
            assert forall|v: Seq<int>|
                holds_vec(aw + bw, v) <==> holds_vec(aw, v) || holds_vec(bw, v) by {
                lemma_holds_concat(aw, bw, v);
            }
            assert(wset(aw + bw) =~= wset(aw).union(wset(bw)));
        }
        a
    }
}

/// The search bound exceeds the width: the least candidate `1, ..., w` is
/// always inside the search space.
proof fn lemma_cap_exceeds(a: int, k: nat)
    requires
        a >= 2,
    ensures
        2 * pow(a, k) >= k + 2,
    decreases k,
{
    vstd::arithmetic::power::lemma_pow0(a);
    if k > 0 {
        lemma_cap_exceeds(a, (k - 1) as nat);
        lemma_pow_positive(a, (k - 1) as nat);
        assert(pow(a, k) == a * pow(a, (k - 1) as nat)) by {
            vstd::arithmetic::power::lemma_pow1(a);
            vstd::arithmetic::power::lemma_pow_adds(a, 1, (k - 1) as nat);
        }
        assert(2 * (a * pow(a, (k - 1) as nat)) >= a * (k + 1)) by (nonlinear_arith)
            requires
                a >= 2,
                2 * pow(a, (k - 1) as nat) >= k + 1,
                pow(a, (k - 1) as nat) >= 1,
        ;
        assert(a * (k + 1) >= k + 2) by (nonlinear_arith)
            requires
                a >= 2,
                k >= 1,
        ;
    }
}

/// One scored candidate folds into the accumulator: the fold invariants
/// carry from "all candidates below the old state" to "all candidates below
/// the new state".
proof fn lemma_search_step(
    w: nat,
    capi: int,
    om: int,
    before: Seq<int>,
    after: Seq<int>,
    oldlen: int,
    oldws: Seq<Vec<usize>>,
    newlen: int,
    newws: Seq<Vec<usize>>,
    ell: int,
)
    requires
        weights_ok(before, w, capi),
        dlt(before, after),
        forall|u: Seq<int>|
            weights_ok(u, w, capi) && dlt(u, after) ==> dlt(u, before) || u == before,
        is_coverage(before, om, ell),
        oldlen >= 0,
        forall|v: Seq<int>, e: int|
            weights_ok(v, w, capi) && dlt(v, before) && is_coverage(v, om, e) ==> e <= oldlen,
        forall|v: Seq<int>|
            holds_vec(oldws, v) <==> (weights_ok(v, w, capi) && dlt(v, before) && is_coverage(
                v,
                om,
                oldlen,
            )),
        distinct(oldws),
        oldws.len() == 0 ==> oldlen == 0,
        ell > oldlen ==> (newlen == ell && newws.len() == 1 && ints_of_u(newws[0]@) == before),
        ell == oldlen ==> (newlen == oldlen && newws.len() == oldws.len() + 1 && ints_of_u(
            newws[newws.len() - 1]@,
        ) == before && forall|k: int| 0 <= k < oldws.len() ==> newws[k] == oldws[k]),
        ell < oldlen ==> (newlen == oldlen && newws == oldws),
    ensures
        newlen >= 0,
        forall|v: Seq<int>, e: int|
            weights_ok(v, w, capi) && dlt(v, after) && is_coverage(v, om, e) ==> e <= newlen,
        forall|v: Seq<int>|
            holds_vec(newws, v) <==> (weights_ok(v, w, capi) && dlt(v, after) && is_coverage(
                v,
                om,
                newlen,
            )),
        distinct(newws),
        newws.len() > 0,
{
    assert forall|v: Seq<int>, e: int|
        weights_ok(v, w, capi) && dlt(v, after) && is_coverage(v, om, e) implies e <= newlen by {
        if v == before {
            lemma_coverage_unique(before, om, e, ell);
        } else {
            assert(dlt(v, before));
        }
    }
    assert forall|v: Seq<int>|
        holds_vec(newws, v) <==> (weights_ok(v, w, capi) && dlt(v, after) && is_coverage(
            v,
            om,
            newlen,
        )) by {
        if holds_vec(newws, v) {
            let k = choose|k: int| 0 <= k < newws.len() && ints_of_u(#[trigger] newws[k]@) == v;
            if ell > oldlen {
                assert(v == before);
            } else if ell == oldlen {
                if k < oldws.len() {
                    assert(ints_of_u(oldws[k]@) == v);
                    assert(holds_vec(oldws, v));
                    lemma_dlt_trans(v, before, after);
                } else {
                    assert(v == before);
                }
            } else {
                assert(holds_vec(oldws, v));
                lemma_dlt_trans(v, before, after);
            }
        }
        if weights_ok(v, w, capi) && dlt(v, after) && is_coverage(v, om, newlen) {
            if v == before {
                lemma_coverage_unique(before, om, newlen, ell);
                if ell > oldlen {
                    assert(ints_of_u(newws[0]@) == v);
                } else {
                    assert(ell == oldlen);
                    assert(ints_of_u(newws[newws.len() - 1]@) == v);
                }
            } else {
                assert(dlt(v, before));
                assert(newlen == oldlen || newlen == ell);
                if newlen == ell && ell > oldlen {
                    assert(is_coverage(v, om, ell));
                    assert(false);
                } else {
                    assert(holds_vec(oldws, v));
                    let k = choose|k: int| 0 <= k < oldws.len() && ints_of_u(
                        #[trigger] oldws[k]@,
                    ) == v;
                    if ell == oldlen {
                        assert(ints_of_u(newws[k]@) == v);
                    }
                    assert(holds_vec(newws, v));
                }
            }
        }
    }
    if ell == oldlen {
        if holds_vec(oldws, before) {
            lemma_dlt_asym(before, before);
        }
        assert forall|k1: int, k2: int| 0 <= k1 < k2 < newws.len() implies ints_of_u(
            #[trigger] newws[k1]@,
        ) != ints_of_u(#[trigger] newws[k2]@) by {
            if k2 < oldws.len() {
                assert(ints_of_u(oldws[k1]@) != ints_of_u(oldws[k2]@));
            } else {
                if ints_of_u(newws[k1]@) == before {
                    assert(ints_of_u(oldws[k1]@) == before);
                    assert(holds_vec(oldws, before));
                    assert(false);
                }
            }
        }
    }
}

/// The search bound as a machine integer, by repeated multiplication; the
/// precondition keeps every step in range.
#[verifier::loop_isolation(false)]
fn compute_cap(w: usize, omega: usize) -> (cap: usize)
    requires
        1 <= w,
        1 <= omega,
        search_cap(w as nat, omega as int) * omega as int + 2 <= isize::MAX as int,
    ensures
        cap as int == search_cap(w as nat, omega as int),
{
    let ghost om = omega as int;
    let ghost capi = search_cap(w as nat, om);
    proof {
        lemma_pow_positive(om + 1, (w - 1) as nat);
        assert(capi <= capi * om) by (nonlinear_arith)
            requires
                capi >= 2,
                om >= 1,
        ;
        assert(om <= capi * om) by (nonlinear_arith)
            requires
                capi >= 2,
                om >= 1,
        ;
        vstd::arithmetic::power::lemma_pow0(om + 1);
    }
    let mut p: usize = 1;
    let mut e: usize = 0;
    while e < w - 1
        invariant
            e <= w - 1,
            p as int == pow(om + 1, e as nat),
        decreases w - 1 - e,
    {
        proof {
            lemma_pow_positive(om + 1, e as nat);
            lemma_pow_positive(om + 1, (e + 1) as nat);
            assert(pow(om + 1, (e + 1) as nat) == (om + 1) * pow(om + 1, e as nat)) by {
                vstd::arithmetic::power::lemma_pow1(om + 1);
                vstd::arithmetic::power::lemma_pow_adds(om + 1, 1, e as nat);
            }
            lemma_pow_increases((om + 1) as nat, (e + 1) as nat, (w - 1) as nat);
            assert(2 * pow(om + 1, (e + 1) as nat) <= capi);
            assert(pow(om + 1, (e + 1) as nat) <= capi);
            assert(p as int * (omega as int + 1) == pow(om + 1, (e + 1) as nat));
        }
        p = p * (omega + 1);
        e += 1;
    }
    2 * p
}

/// Once every admissible candidate has been folded in, the fold invariants
/// say exactly what the search contract promises; the least candidate
/// witnesses that the collected set cannot be empty.
proof fn lemma_search_done(
    w: nat,
    capi: int,
    om: int,
    cur: Seq<int>,
    len: int,
    ws: Seq<Vec<usize>>,
)
    requires
        w >= 1,
        capi >= w + 1,
        forall|u: Seq<int>| weights_ok(u, w, capi) ==> dlt(u, cur),
        forall|v: Seq<int>, e: int|
            weights_ok(v, w, capi) && dlt(v, cur) && is_coverage(v, om, e) ==> e <= len,
        forall|v: Seq<int>|
            holds_vec(ws, v) <==> (weights_ok(v, w, capi) && dlt(v, cur) && is_coverage(
                v,
                om,
                len,
            )),
        ws.len() == 0 ==> forall|v: Seq<int>| weights_ok(v, w, capi) ==> !dlt(v, cur),
    ensures
        forall|v: Seq<int>, e: int|
            weights_ok(v, w, capi) && is_coverage(v, om, e) ==> e <= len,
        forall|v: Seq<int>|
            holds_vec(ws, v) <==> (weights_ok(v, w, capi) && is_coverage(v, om, len)),
        ws.len() > 0,
        exists|v: Seq<int>| weights_ok(v, w, capi) && #[trigger] is_coverage(v, om, len),
{
    let fw = first_weights(w);
    assert forall|j: int| 0 <= j < fw.len() - 1 implies #[trigger] fw[j] < fw[j + 1] by {}
    assert(fw[0] == 1);
    assert(fw[w - 1] == w as int);
    assert(weights_ok(fw, w, capi));
    assert(dlt(fw, cur));
    assert(ws.len() > 0);
    let v0 = ints_of_u(ws[0]@);
    assert(holds_vec(ws, v0));
    assert(weights_ok(v0, w, capi) && is_coverage(v0, om, len));
}

/// The full search for one budget: score every admissible denomination
/// vector below the derived cap and fold the results.
///
/// The returned record holds the best coverage length any admissible vector
/// achieves, and exactly the admissible vectors achieving it, each once.
#[verifier::loop_isolation(false)]
#[verifier::rlimit(100)]
pub fn brute_force_gadgets(w: usize, omega: usize) -> (r: Results)
    requires
        1 <= w,
        1 <= omega,
        search_cap(w as nat, omega as int) * omega as int + 2 <= isize::MAX as int,
    ensures
        forall|v: Seq<int>, e: int|
            weights_ok(v, w as nat, search_cap(w as nat, omega as int)) && is_coverage(
                v,
                omega as int,
                e,
            ) ==> e <= r.length as int,
        forall|v: Seq<int>|
            holds_vec(r.weights@, v) <==> (weights_ok(v, w as nat, search_cap(w as nat, omega as int))
                && is_coverage(v, omega as int, r.length as int)),
        exists|v: Seq<int>|
            weights_ok(v, w as nat, search_cap(w as nat, omega as int)) && #[trigger] is_coverage(
                v,
                omega as int,
                r.length as int,
            ),
        distinct(r.weights@),
        r.weights@.len() > 0,
{
    let ghost om = omega as int;
    let ghost capi = search_cap(w as nat, om);
    proof {
        lemma_pow_positive(om + 1, (w - 1) as nat);
        lemma_cap_exceeds(om + 1, (w - 1) as nat);
        assert(capi >= w + 1);
        assert(capi <= capi * om) by (nonlinear_arith)
            requires
                capi >= 2,
                om >= 1,
        ;
    }
    let cap = compute_cap(w, omega);
    let mut st = WeightState::new(w, cap);
    let ghost base = st.wmax() + 1;
    let mut acc = Results::empty();
    let mut more = true;
    #[verifier::loop_isolation(true)]
    while more
        invariant
            1 <= w,
            1 <= omega,
            om == omega as int,
            capi == search_cap(w as nat, om),
            capi >= w + 1,
            capi * om + 2 <= isize::MAX as int,
            cap as int == capi,
            base == st.wmax() + 1,
            st.wf(),
            st.cap == cap,
            st.values@.len() == w,
            acc.length as int >= 0,
            more ==> {
                &&& forall|v: Seq<int>, e: int|
                    weights_ok(v, w as nat, capi) && dlt(v, st.cur()) && is_coverage(v, om, e)
                        ==> e <= acc.length as int
                &&& forall|v: Seq<int>|
                    holds_vec(acc.weights@, v) <==> (weights_ok(v, w as nat, capi) && dlt(
                        v,
                        st.cur(),
                    ) && is_coverage(v, om, acc.length as int))
                &&& distinct(acc.weights@)
                &&& (acc.weights@.len() == 0 ==> acc.length == 0 && forall|v: Seq<int>|
                    weights_ok(v, w as nat, capi) ==> !dlt(v, st.cur()))
            },
            !more ==> {
                &&& forall|v: Seq<int>, e: int|
                    weights_ok(v, w as nat, capi) && is_coverage(v, om, e) ==> e
                        <= acc.length as int
                &&& forall|v: Seq<int>|
                    holds_vec(acc.weights@, v) <==> (weights_ok(v, w as nat, capi) && is_coverage(
                        v,
                        om,
                        acc.length as int,
                    ))
                &&& distinct(acc.weights@)
                &&& acc.weights@.len() > 0
            },
        decreases (if more { 1int } else { 0int }), pow(base, w as nat) - drank(st.cur(), base),
    {
        let ghost st0 = st;
        let ghost before = st.cur();
        let ghost oldlen = acc.length as int;
        let ghost oldws = acc.weights@;
        let r = st.next();
        match r {
            None => {
                more = false;
                proof {
                    lemma_search_done(
                        w as nat,
                        capi,
                        om,
                        before,
                        acc.length as int,
                        acc.weights@,
                    );
                }
            },
            Some(wvec) => {
                proof {
                    assert(ints_of_u(wvec@) == before);
                    assert(weights_sorted(before));
                    assert(before[w - 1] < capi);
                    assert(before[w - 1] * om + 2 <= isize::MAX as int) by (nonlinear_arith)
                        requires
                            before[w - 1] < capi,
                            om >= 1,
                            capi * om + 2 <= isize::MAX as int,
                    ;
                }
                let ell = coverage_length(&wvec, omega);
                let mut single: Vec<Vec<usize>> = Vec::new();
                single.push(wvec);
                let cand = Results { length: ell, weights: single };
                let ghost candws = cand.weights@;
                acc = combine(acc, cand);
                proof {
                    if oldlen == ell as int {
                        assert(acc.weights@ == oldws + candws);
                        assert(acc.weights@ == oldws.push(candws[0]));
                    }
                    lemma_search_step(
                        w as nat,
                        capi,
                        om,
                        before,
                        st.cur(),
                        oldlen,
                        oldws,
                        acc.length as int,
                        acc.weights@,
                        ell as int,
                    );
                    st.lemma_wf_digits();
                    st0.lemma_wf_digits();
                    assert(st0.wmax() == st.wmax());
                    lemma_dlt_drank(before, st.cur(), base);
                    lemma_drank_bound(st.cur(), base);
                    lemma_drank_bound(before, base);
                }
            },
        }
    }
    proof {
        let v0 = ints_of_u(acc.weights@[0]@);
        assert(holds_vec(acc.weights@, v0));
        assert(weights_ok(v0, w as nat, capi) && is_coverage(v0, om, acc.length as int));
    }
    acc
}

/// Running the search twice for the same width and budget gives the same
/// answer: any two results that satisfy the search contract agree on the
/// best length and collect the same set of denomination vectors.
pub proof fn lemma_search_deterministic(
    w: nat,
    capi: int,
    om: int,
    la: int,
    sa: Seq<Vec<usize>>,
    lb: int,
    sb: Seq<Vec<usize>>,
)
    requires
        forall|v: Seq<int>, e: int|
            weights_ok(v, w, capi) && is_coverage(v, om, e) ==> e <= la,
        forall|v: Seq<int>|
            holds_vec(sa, v) <==> (weights_ok(v, w, capi) && is_coverage(v, om, la)),
        exists|v: Seq<int>| weights_ok(v, w, capi) && #[trigger] is_coverage(v, om, la),
        forall|v: Seq<int>, e: int|
            weights_ok(v, w, capi) && is_coverage(v, om, e) ==> e <= lb,
        forall|v: Seq<int>|
            holds_vec(sb, v) <==> (weights_ok(v, w, capi) && is_coverage(v, om, lb)),
        exists|v: Seq<int>| weights_ok(v, w, capi) && #[trigger] is_coverage(v, om, lb),
    ensures
        la == lb,
        wset(sa) == wset(sb),
{
    let va = choose|v: Seq<int>| weights_ok(v, w, capi) && #[trigger] is_coverage(v, om, la);
    let vb = choose|v: Seq<int>| weights_ok(v, w, capi) && #[trigger] is_coverage(v, om, lb);
    assert(la <= lb);
    assert(lb <= la);
    assert(wset(sa) =~= wset(sb));
}

} // verus!

