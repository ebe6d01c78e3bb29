//! One table: a number below `n!` as factorial digits, and the permutation of
//! `n` values that it names.

use crate::bignum::{
    be_value, big_add, big_div, big_from_usize, big_lt, big_mul, big_rem, big_to_usize, canonical,
    fact, factorial,
};
use crate::perm::{
    byte_leq, digits_of_permutation, digits_value, identity, index_in, is_permutation,
    lemma_identity, lemma_index_in, lemma_perm_of_multiset, lemma_remove_no_duplicates,
    lemma_sorted_bytes, lemma_sorted_bytes_distinct, lemma_valid_digits_fit, lemma_weighted_push,
    perm_digits, perm_of, permutation_of, permuted, ranks, sorted_bytes, valid_digits, weighted,
};
use vstd::prelude::*;
use vstd::relations::sorted_by;

verus! {

broadcast use vstd::seq_lib::group_to_multiset_ensures;

/// Relies on `slice::sort`: the same bytes, in ascending order.
#[verifier::external_body]
pub(crate) fn sorted_copy(v: &Vec<u8>) -> (r: Vec<u8>)
    ensures
        sorted_by(r@, byte_leq()),
        r@.to_multiset() == v@.to_multiset(),
{
    let mut r = v.clone();
    r.sort();
    r
}

/// The `count` factorial digits of `value`.
pub(crate) fn factorial_digits(value: &Vec<u8>, count: usize) -> (r: Vec<usize>)
    requires
        be_value(value@) < fact(count as nat + 1),
    ensures
        r@.len() == count,
        valid_digits(r@),
        digits_value(r@) == be_value(value@),
{
    let mut rem = value.clone();
    let mut digits: Vec<usize> = Vec::new();
    let mut i: usize = 0;
    while i < count
        invariant
            i <= count,
            digits@.len() == i,
            forall|j: int| 0 <= j < i ==> #[trigger] digits@[j] <= count - j,
            be_value(value@) == weighted(digits@, count as nat) + be_value(rem@),
            be_value(rem@) < fact((count - i + 1) as nat),
        decreases count - i,
    {
        let base = factorial(count - i);
        let ghost f = fact((count - i) as nat);
        assert(fact((count - i + 1) as nat) == (count - i + 1) * f);
        assert(f > 0) by {
            lemma_fact_positive((count - i) as nat);
        }
        let q = big_div(&rem, &base);
        let r = big_rem(&rem, &base);
        let ghost rv = be_value(rem@);
        assert(rv == f * (rv / f) + rv % f) by {
            vstd::arithmetic::div_mod::lemma_fundamental_div_mod(rv as int, f as int);
        }
        assert(rv / f <= count - i) by {
            let c = (count - i) as int;
            let q0 = rv as int / f as int;
            vstd::arithmetic::div_mod::lemma_mod_pos_bound(rv as int, f as int);
            if q0 > c {
                vstd::arithmetic::mul::lemma_mul_inequality(c + 1, q0, f as int);
                assert(f * q0 == q0 * f) by (nonlinear_arith);
                assert((c + 1) * f == (count - i + 1) * f);
                assert(false);
            }
        }
        let digit = match big_to_usize(&q) {
            Some(x) => x,
            None => 0,
        };
        proof {
            lemma_weighted_push(digits@, digit, count as nat);
            assert(f * (rv / f) == (rv / f) * f) by (nonlinear_arith);
        }
        digits.push(digit);
        rem = r;
        i = i + 1;
    }
    proof {
        assert(fact(1) == 1) by {
            reveal_with_fuel(fact, 2);
        }
    }
    digits
}

pub proof fn lemma_fact_positive(n: nat)
    ensures
        fact(n) > 0,
    decreases n,
{
    if n > 0 {
        lemma_fact_positive((n - 1) as nat);
        vstd::arithmetic::mul::lemma_mul_strictly_positive(n as int, fact((n - 1) as nat) as int);
    }
}

/// The digits of one table's permutation: `digits.len() + 1` values are
/// ordered by them.
#[derive(Clone, Debug)]
pub struct NS0 {
    pub digits: Vec<usize>,
}

impl NS0 {
    /// The number these digits denote.
    pub open spec fn value(&self) -> nat {
        digits_value(self.digits@)
    }

    /// Digits in range, for a table small enough to index.
    pub open spec fn wf(&self) -> bool {
        valid_digits(self.digits@) && self.digits@.len() < usize::MAX
    }

    /// The digits of `value` for a table of `size` values; `None` when the
    /// value is not below `size!`.
    pub fn try_from_input(value: &Vec<u8>, size: usize) -> (r: Option<NS0>)
        ensures
            r.is_some() <==> be_value(value@) < fact(size as nat),
            r matches Some(ns) ==> {
                &&& ns.wf()
                &&& ns.digits@.len() == if size == 0 { 0 } else { size - 1 }
                &&& ns.value() == be_value(value@)
            },
    {
        let limit = factorial(size);
        if !big_lt(value, &limit) {
            return None;
        }
        let count: usize = if size == 0 { 0 } else { size - 1 };
        proof {
            if size == 0 {
                assert(fact(1) == 1) by {
                    reveal_with_fuel(fact, 2);
                }
            }
        }
        let digits = factorial_digits(value, count);
        Some(NS0 { digits })
    }

    /// The number as big-endian bytes, in shortest form.
    pub fn to_value(&self) -> (r: Vec<u8>)
        ensures
            be_value(r@) == self.value(),
            canonical(r@),
    {
        let k = self.digits.len();
        let mut acc = big_from_usize(0);
        let mut i: usize = 0;
        while i < k
            invariant
                i <= k,
                k == self.digits@.len(),
                be_value(acc@) == weighted(self.digits@.take(i as int), k as nat),
                canonical(acc@),
            decreases k - i,
        {
            let digit = big_from_usize(self.digits[i]);
            let place = factorial(k - i);
            let term = big_mul(&digit, &place);
            acc = big_add(&acc, &term);
            proof {
                lemma_weighted_push(self.digits@.take(i as int), self.digits@[i as int], k as nat);
                assert(self.digits@.take(i as int).push(self.digits@[i as int])
                    =~= self.digits@.take(i + 1));
            }
            i = i + 1;
        }
        assert(self.digits@.take(k as int) =~= self.digits@);
        acc
    }

    /// The permutation of `0..=digits.len()` that the digits name.
    pub fn to_permutation(&self) -> (r: Vec<usize>)
        requires
            self.wf(),
        ensures
            r@ == permutation_of(self.digits@),
    {
        let k = self.digits.len();
        let size = k + 1;
        let mut available: Vec<usize> = Vec::new();
        let mut j: usize = 0;
        while j < size
            invariant
                j <= size,
                size == k + 1,
                available@ =~= identity(j as nat),
            decreases size - j,
        {
            available.push(j);
            j = j + 1;
        }
        let ghost d = self.digits@;
        let mut permutation: Vec<usize> = Vec::new();
        proof {
            assert(d.skip(0) =~= d);
            assert(permutation@ + perm_of(d.skip(0), available@) =~= permutation_of(d));
        }
        let mut i: usize = 0;
        while i < k
            invariant
                i <= k,
                k == d.len(),
                d == self.digits@,
                valid_digits(d),
                available@.len() == k + 1 - i,
                permutation@ + perm_of(d.skip(i as int), available@) == permutation_of(d),
            decreases k - i,
        {
            let digit = self.digits[i];
            assert(d[i as int] <= k - i);
            let ghost before = available@;
            let x = available.remove(digit);
            proof {
                let s = d.skip(i as int);
                assert(s[0] == digit);
                assert(s.drop_first() =~= d.skip(i + 1));
                assert(perm_of(s, before) == seq![x] + perm_of(d.skip(i + 1), available@));
                assert(permutation@.push(x) + perm_of(d.skip(i + 1), available@)
                    =~= permutation@ + perm_of(s, before));
            }
            permutation.push(x);
            i = i + 1;
        }
        proof {
            assert(d.skip(k as int) =~= Seq::<usize>::empty());
        }
        let ghost last = available@;
        permutation.append(&mut available);
        assert(permutation@ =~= permutation_of(d));
        permutation
    }

    /// The digits that name the permutation `permutation` of `0..n`.
    pub fn from_permutation(permutation: Vec<usize>) -> (r: NS0)
        requires
            is_permutation(permutation@),
            permutation@.len() >= 1,
        ensures
            r.digits@ == digits_of_permutation(permutation@),
            r.digits@.len() == permutation@.len() - 1,
            r.wf(),
    {
        let n = permutation.len();
        let ghost p = permutation@;
        let mut available: Vec<usize> = Vec::new();
        let mut j: usize = 0;
        while j < n
            invariant
                j <= n,
                available@ =~= identity(j as nat),
            decreases n - j,
        {
            available.push(j);
            j = j + 1;
        }
        proof {
            lemma_identity(n as nat);
            assert(p.take(0) =~= Seq::<usize>::empty());
            assert(p.skip(0) =~= p);
        }
        let mut digits: Vec<usize> = Vec::new();
        let mut i: usize = 0;
        while i + 1 < n
            invariant
                i < n,
                n == p.len(),
                p == permutation@,
                is_permutation(p),
                digits@.len() == i,
                forall|j: int| 0 <= j < i ==> #[trigger] digits@[j] <= n - 1 - j,
                available@.len() == n - i,
                available@.no_duplicates(),
                forall|x: usize|
                    available@.contains(x) <==> (x < n && !p.take(i as int).contains(x)),
                digits@ + perm_digits(p.skip(i as int), available@) == digits_of_permutation(p),
            decreases n - i,
        {
            let target = permutation[i];
            assert(available@.contains(target)) by {
                if p.take(i as int).contains(target) {
                    let a = choose|a: int| 0 <= a < i && p.take(i as int)[a] == target;
                    assert(p[a] == p[i as int]);
                }
            }
            let mut index: usize = 0;
            while available[index] != target
                invariant
                    index < available@.len(),
                    available@.len() == n - i,
                    available@.contains(target),
                    forall|l: int| 0 <= l < index ==> available@[l] != target,
                decreases available@.len() - index,
            {
                index = index + 1;
                if index == available.len() {
                    proof {
                        let a = choose|a: int| 0 <= a < available@.len() && available@[a] == target;
                        assert(false);
                    }
                }
            }
            let ghost before = available@;
            proof {
                lemma_index_in(before, index as int);
                lemma_remove_no_duplicates(before, index as int);
                let s = p.skip(i as int);
                assert(s[0] == target);
                assert(s.drop_first() =~= p.skip(i + 1));
                assert(p.take(i + 1) =~= p.take(i as int).push(target));
                let t0 = p.take(i as int);
                let t1 = p.take(i + 1);
                assert forall|x: usize| t1.contains(x) <==> (t0.contains(x) || x == target) by {
                    if t1.contains(x) {
                        let a = choose|a: int| 0 <= a < t1.len() && t1[a] == x;
                        if a < i {
                            assert(t0[a] == x);
                        }
                    }
                    if t0.contains(x) {
                        let a = choose|a: int| 0 <= a < t0.len() && t0[a] == x;
                        assert(t1[a] == x);
                    }
                    if x == target {
                        assert(t1[i as int] == x);
                    }
                }
            }
            available.remove(index);
            let ghost next = p.take(i + 1);
            let ghost after = available@;
            proof {
                let t0 = p.take(i as int);
                let t1 = next;
                assert(before[index as int] == target);
                assert(after == before.remove(index as int));
                assert forall|x: usize| #[trigger] after.contains(x) <==> (x < n && !next.contains(x)) by {
                    assert(after.contains(x) <==> (before.contains(x) && x != target));
                    assert(before.contains(x) <==> (x < n && !t0.contains(x)));
                    assert(t1.contains(x) <==> (t0.contains(x) || x == target));
                }
                assert(digits@.push(index) + perm_digits(p.skip(i + 1), available@) =~= digits@
                    + perm_digits(p.skip(i as int), before));
            }
            digits.push(index);
            i = i + 1;
            assert(p.take(i as int) == next);
            assert(available@ == after);
        }
        proof {
            assert(p.skip(i as int).len() == 1);
            assert(digits@ + seq![] =~= digits@);
        }
        NS0 { digits }
    }

    /// Reorders `values` as the digits say: position `i` receives the value
    /// whose rank among them is the `i`-th element of the permutation.
    pub fn permute_values(&self, values: &mut Vec<u8>)
        requires
            self.wf(),
            old(values)@.len() == self.digits@.len() + 1,
        ensures
            final(values)@ == permuted(old(values)@, self.digits@),
    {
        let permutation = self.to_permutation();
        let old_values = sorted_copy(values);
        let ghost v = old(values)@;
        proof {
            lemma_sorted_bytes(v, old_values@);
            lemma_valid_digits_fit(self.digits@);
            lemma_identity((self.digits@.len() + 1) as nat);
            lemma_perm_of_multiset(self.digits@, identity((self.digits@.len() + 1) as nat), |x: usize| 0u8);
        }
        let n = values.len();
        proof {
            assert(old_values@.len() == v.len()) by {
                assert(old_values@.to_multiset().len() == v.to_multiset().len());
            }
            let id = identity(n as nat);
            assert forall|x: usize| permutation@.contains(x) <==> x < n by {
                assert(permutation@.contains(x) <==> id.contains(x));
            }
        }
        let mut i: usize = 0;
        while i < n
            invariant
                i <= n,
                n == v.len(),
                values@.len() == n,
                old_values@ == sorted_bytes(v),
                old_values@.len() == n,
                permutation@ == permutation_of(self.digits@),
                permutation@.len() == n,
                forall|x: usize| permutation@.contains(x) <==> x < n,
                forall|j: int| 0 <= j < i ==> values@[j] == #[trigger] permuted(v, self.digits@)[j],
            decreases n - i,
        {
            let p = permutation[i];
            assert(permutation@.contains(p));
            values.set(i, old_values[p]);
            i = i + 1;
        }
        assert(values@ =~= permuted(v, self.digits@));
    }

    /// The digits that the order of `values` names; the values must be
    /// distinct.
    pub fn read_values(values: &Vec<u8>) -> (r: NS0)
        requires
            values@.no_duplicates(),
            values@.len() >= 1,
        ensures
            r.digits@ == digits_of_permutation(ranks(values@)),
            r.digits@.len() == values@.len() - 1,
            r.wf(),
    {
        let sorted_values = sorted_copy(values);
        let ghost v = values@;
        proof {
            lemma_sorted_bytes(v, sorted_values@);
            lemma_sorted_bytes_distinct(v);
        }
        let n = values.len();
        let mut permutation: Vec<usize> = Vec::new();
        let mut i: usize = 0;
        while i < n
            invariant
                i <= n,
                n == v.len(),
                v == values@,
                sorted_values@ == sorted_bytes(v),
                sorted_values@.len() == n,
                sorted_values@.no_duplicates(),
                forall|j: int| 0 <= j < n ==> sorted_values@.contains(#[trigger] v[j]),
                permutation@.len() == i,
                forall|j: int| 0 <= j < i ==> permutation@[j] == #[trigger] ranks(v)[j],
            decreases n - i,
        {
            let value = values[i];
            assert(sorted_values@.contains(v[i as int]));
            let mut index: usize = 0;
            while sorted_values[index] != value
                invariant
                    index < n,
                    n == sorted_values@.len(),
                    sorted_values@.contains(value),
                    forall|l: int| 0 <= l < index ==> sorted_values@[l] != value,
                decreases n - index,
            {
                index = index + 1;
                if index == n {
                    proof {
                        let a = choose|a: int| 0 <= a < n && sorted_values@[a] == value;
                        assert(false);
                    }
                }
            }
            proof {
                lemma_index_in(sorted_values@, index as int);
            }
            permutation.push(index);
            i = i + 1;
        }
        proof {
            assert(permutation@ =~= ranks(v));
            assert forall|a: int, b: int| 0 <= a < b < n implies permutation@[a]
                != permutation@[b] by {
                assert(sorted_values@[permutation@[a] as int] == v[a]);
                assert(sorted_values@[permutation@[b] as int] == v[b]);
            }
            assert forall|a: int| 0 <= a < n implies #[trigger] permutation@[a] < n by {
                assert(sorted_values@[permutation@[a] as int] == v[a]);
            }
        }
        NS0::from_permutation(permutation)
    }
}

} // verus!
