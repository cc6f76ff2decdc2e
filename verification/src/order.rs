//! A last-index-first lexicographic order on integer sequences, together with
//! a positional rank function. The two enumerators of this crate advance
//! strictly in this order, which is what makes their loops terminate and
//! their output free of duplicates.

use vstd::prelude::*;
use vstd::arithmetic::power::pow;
use vstd::arithmetic::power::lemma_pow_positive;
use vstd::arithmetic::mul::lemma_mul_inequality;

verus! {

/// `a` comes strictly before `b`: at the highest index where they differ,
/// `a` holds the smaller entry. Only sequences of equal positive length are
/// ever related.
pub open spec fn dlt(a: Seq<int>, b: Seq<int>) -> bool
    decreases a.len(),
{
    &&& a.len() == b.len()
    &&& a.len() > 0
    &&& (a.last() < b.last() || (a.last() == b.last() && dlt(a.drop_last(), b.drop_last())))
}

/// From `dlt(a, b)`, produce the highest index where the two differ.
pub proof fn lemma_dlt_first_diff(a: Seq<int>, b: Seq<int>) -> (i: int)
    requires
        dlt(a, b),
    ensures
        a.len() == b.len(),
        0 <= i < a.len(),
        a[i] < b[i],
        forall|j: int| i < j < a.len() ==> a[j] == b[j],
    decreases a.len(),
{
    if a.last() < b.last() {
        a.len() - 1
    } else {
        let i = lemma_dlt_first_diff(a.drop_last(), b.drop_last());
        assert forall|j: int| i < j < a.len() implies a[j] == b[j] by {
            if j < a.len() - 1 {
                assert(a.drop_last()[j] == b.drop_last()[j]);
            }
        }
        i
    }
}

/// A highest differing index with the smaller entry in `a` yields `dlt(a, b)`.
pub proof fn lemma_diff_dlt(a: Seq<int>, b: Seq<int>, i: int)
    requires
        a.len() == b.len(),
        0 <= i < a.len(),
        a[i] < b[i],
        forall|j: int| i < j < a.len() ==> a[j] == b[j],
    ensures
        dlt(a, b),
    decreases a.len(),
{
    if i == a.len() - 1 {
    } else {
        assert(a.last() == b.last());
        assert forall|j: int| i < j < a.drop_last().len() implies a.drop_last()[j]
            == b.drop_last()[j] by {
            assert(a[j] == b[j]);
        }
        lemma_diff_dlt(a.drop_last(), b.drop_last(), i);
    }
}

/// The order is asymmetric.
pub proof fn lemma_dlt_asym(a: Seq<int>, b: Seq<int>)
    requires
        dlt(a, b),
    ensures
        !dlt(b, a),
    decreases a.len(),
{
    if a.last() == b.last() {
        lemma_dlt_asym(a.drop_last(), b.drop_last());
    }
}

/// The order is total on distinct sequences of equal length.
pub proof fn lemma_dlt_total(a: Seq<int>, b: Seq<int>)
    requires
        a.len() == b.len(),
        a != b,
    ensures
        dlt(a, b) || dlt(b, a),
    decreases a.len(),
{
    if a.len() == 0 {
        assert(a =~= b);
    } else if a.last() == b.last() {
        if a.drop_last() == b.drop_last() {
            assert forall|k: int| 0 <= k < a.len() implies a[k] == b[k] by {
                if k < a.len() - 1 {
                    assert(a.drop_last()[k] == b.drop_last()[k]);
                }
            }
            assert(a =~= b);
        } else {
            lemma_dlt_total(a.drop_last(), b.drop_last());
        }
    }
}

/// The order is transitive.
pub proof fn lemma_dlt_trans(a: Seq<int>, b: Seq<int>, c: Seq<int>)
    requires
        dlt(a, b),
        dlt(b, c),
    ensures
        dlt(a, c),
    decreases a.len(),
{
    if a.last() == b.last() && b.last() == c.last() {
        lemma_dlt_trans(a.drop_last(), b.drop_last(), c.drop_last());
    }
}

/// Every entry of `d` lies in `[0, base)`.
pub open spec fn digits_ok(d: Seq<int>, base: int) -> bool {
    forall|i: int| 0 <= i < d.len() ==> 0 <= #[trigger] d[i] < base
}

/// The value of `d` read as a positional numeral with the given base, the
/// entry at the highest index being the most significant.
pub open spec fn drank(d: Seq<int>, base: int) -> int
    decreases d.len(),
{
    if d.len() == 0 {
        0
    } else {
        d.last() * pow(base, (d.len() - 1) as nat) + drank(d.drop_last(), base)
    }
}

/// With digits in `[0, base)`, the rank lies in `[0, base^len)`.
pub proof fn lemma_drank_bound(d: Seq<int>, base: int)
    requires
        base >= 1,
        digits_ok(d, base),
    ensures
        0 <= drank(d, base) < pow(base, d.len() as nat),
    decreases d.len(),
{
    reveal(pow);
    if d.len() == 0 {
    } else {
        let p = pow(base, (d.len() - 1) as nat);
        lemma_pow_positive(base, (d.len() - 1) as nat);
        assert(digits_ok(d.drop_last(), base));
        lemma_drank_bound(d.drop_last(), base);
        lemma_mul_inequality(0, d.last(), p);
        lemma_mul_inequality(d.last(), base - 1, p);
        assert((base - 1) * p + p == base * p) by (nonlinear_arith);
        assert(pow(base, d.len() as nat) == base * p);
    }
}

/// Advancing in the order strictly increases the rank.
pub proof fn lemma_dlt_drank(a: Seq<int>, b: Seq<int>, base: int)
    requires
        base >= 1,
        digits_ok(a, base),
        digits_ok(b, base),
        dlt(a, b),
    ensures
        drank(a, base) < drank(b, base),
    decreases a.len(),
{
    let p = pow(base, (a.len() - 1) as nat);
    lemma_pow_positive(base, (a.len() - 1) as nat);
    assert(digits_ok(a.drop_last(), base));
    assert(digits_ok(b.drop_last(), base));
    if a.last() < b.last() {
        lemma_drank_bound(a.drop_last(), base);
        lemma_drank_bound(b.drop_last(), base);
        assert((a.last() + 1) * p == a.last() * p + p) by (nonlinear_arith);
        lemma_mul_inequality(a.last() + 1, b.last(), p);
    } else {
        lemma_dlt_drank(a.drop_last(), b.drop_last(), base);
    }
}

} // verus!
