//! Mixed-radix numbers: the most significant position first, each position
//! with a radix of its own.

use vstd::prelude::*;

verus! {

/// The product of the radices: how many numbers the positions can hold.
pub open spec fn radix_product(r: Seq<nat>) -> nat
    decreases r.len(),
{
    if r.len() == 0 {
        1
    } else {
        r[0] * radix_product(r.drop_first())
    }
}

/// The number that the position values `v` denote under the radices `r`; the
/// last position weighs one.
pub open spec fn mixed_value(r: Seq<nat>, v: Seq<nat>) -> nat
    decreases r.len(),
{
    if r.len() == 0 {
        0
    } else {
        v[0] * radix_product(r.drop_first()) + mixed_value(r.drop_first(), v.drop_first())
    }
}

/// Each position value is below its radix.
pub open spec fn in_range(r: Seq<nat>, v: Seq<nat>) -> bool {
    &&& v.len() == r.len()
    &&& forall|i: int| 0 <= i < r.len() ==> #[trigger] v[i] < r[i]
}

/// Moving one position from the quotient into the digits keeps the number.
pub proof fn lemma_mixed_shift(r: Seq<nat>, q: nat, x: nat, v: Seq<nat>)
    requires
        r.len() >= 1,
    ensures
        (q * r[0] + x) * radix_product(r.drop_first()) + mixed_value(r.drop_first(), v) == q
            * radix_product(r) + mixed_value(r, seq![x] + v),
{
    let p = radix_product(r.drop_first());
    let w = seq![x] + v;
    assert(w.drop_first() =~= v);
    assert(w[0] == x);
    assert((q * r[0] + x) * p == q * (r[0] * p) + x * p) by (nonlinear_arith);
}

/// Position values in range keep the number below the product of the radices.
pub proof fn lemma_mixed_bound(r: Seq<nat>, v: Seq<nat>)
    requires
        in_range(r, v),
    ensures
        mixed_value(r, v) < radix_product(r),
    decreases r.len(),
{
    if r.len() > 0 {
        let r1 = r.drop_first();
        let v1 = v.drop_first();
        assert(in_range(r1, v1)) by {
            assert forall|i: int| 0 <= i < r1.len() implies #[trigger] v1[i] < r1[i] by {
                assert(v[i + 1] < r[i + 1]);
            }
        }
        lemma_mixed_bound(r1, v1);
        let p = radix_product(r1);
        assert(v[0] < r[0]);
        assert(v[0] * p + p <= r[0] * p) by (nonlinear_arith)
            requires
                v[0] < r[0],
        ;
    }
}

} // verus!
