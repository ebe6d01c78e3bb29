//! A number in the factorial number system with no leading zero digits, and
//! the permutations of any length that it names.

use crate::bignum::{be_value, big_lt, canonical, fact, factorial};
use crate::ns0::{factorial_digits, lemma_fact_positive, NS0};
use crate::perm::{
    digits_of_permutation, digits_value, is_permutation, lemma_leading_zero, permutation_of,
    permuted, ranks, valid_digits,
};
use vstd::prelude::*;

verus! {

/// No leading zero digit, unless it is the only digit.
pub open spec fn trimmed(d: Seq<usize>) -> bool {
    d.len() <= 1 || d[0] != 0
}

/// `d` without its leading zero digits, keeping at least one.
pub open spec fn trim_zeros(d: Seq<usize>) -> Seq<usize>
    decreases d.len(),
{
    if d.len() > 1 && d[0] == 0 {
        trim_zeros(d.drop_first())
    } else {
        d
    }
}

/// `d` with zero digits in front, to `m` digits.
pub open spec fn padded(d: Seq<usize>, m: nat) -> Seq<usize> {
    Seq::new((m - d.len()) as nat, |i: int| 0usize) + d
}

pub proof fn lemma_trim_zeros(d: Seq<usize>)
    requires
        valid_digits(d),
    ensures
        valid_digits(trim_zeros(d)),
        trimmed(trim_zeros(d)),
        digits_value(trim_zeros(d)) == digits_value(d),
        trim_zeros(d).len() <= d.len(),
        d.len() >= 1 ==> trim_zeros(d).len() >= 1,
    decreases d.len(),
{
    if d.len() > 1 && d[0] == 0 {
        let t = d.drop_first();
        assert(valid_digits(t)) by {
            assert forall|i: int| 0 <= i < t.len() implies #[trigger] t[i] <= t.len() - i by {
                assert(d[i + 1] <= d.len() - (i + 1));
            }
        }
        lemma_trim_zeros(t);
        assert(seq![0usize] + t =~= d);
        lemma_leading_zero(t, t.len());
    }
}

pub proof fn lemma_padded(d: Seq<usize>, m: nat)
    requires
        valid_digits(d),
        d.len() <= m,
    ensures
        valid_digits(padded(d, m)),
        padded(d, m).len() == m,
{
    let p = padded(d, m);
    let z = (m - d.len()) as int;
    assert forall|i: int| 0 <= i < p.len() implies #[trigger] p[i] <= p.len() - i by {
        if i >= z {
            assert(p[i] == d[i - z]);
        }
    }
}

pub proof fn lemma_fact_monotone(a: nat, b: nat)
    requires
        a <= b,
    ensures
        fact(a) <= fact(b),
    decreases b,
{
    if a < b {
        lemma_fact_monotone(a, (b - 1) as nat);
        lemma_fact_positive((b - 1) as nat);
        vstd::arithmetic::mul::lemma_mul_inequality(1, b as int, fact((b - 1) as nat) as int);
    }
}

/// A number as factorial digits, most significant first, without leading
/// zeros.
#[derive(Clone, Debug)]
pub struct FNS {
    pub digits: Vec<usize>,
}

impl FNS {
    /// Digits in range and trimmed.
    pub open spec fn wf(&self) -> bool {
        valid_digits(self.digits@) && trimmed(self.digits@)
    }

    /// The number these digits denote.
    pub open spec fn value(&self) -> nat {
        digits_value(self.digits@)
    }

    /// The digits of the big-endian number `bytes`.
    pub fn from_bytes(bytes: Vec<u8>) -> (r: FNS)
        requires
            be_value(bytes@) < fact((usize::MAX - 1) as nat),
        ensures
            r.wf(),
            r.digits@.len() >= 1,
            r.value() == be_value(bytes@),
            forall|n: nat| n >= 2 && be_value(bytes@) < fact(n) ==> r.digits@.len() < n,
    {
        let mut k: usize = 1;
        let mut limit = factorial(2);
        while !big_lt(&bytes, &limit)
            invariant
                1 <= k <= usize::MAX - 2,
                be_value(limit@) == fact(k as nat + 1),
                be_value(bytes@) < fact((usize::MAX - 1) as nat),
                k == 1 || fact(k as nat) <= be_value(bytes@),
            decreases usize::MAX - k,
        {
            proof {
                if k + 1 >= usize::MAX - 1 {
                    lemma_fact_monotone((usize::MAX - 1) as nat, k as nat + 1);
                }
            }
            k = k + 1;
            limit = factorial(k + 1);
        }
        let digits = factorial_digits(&bytes, k);
        let r = FNS::trimmed_from(digits);
        proof {
            assert forall|n: nat| n >= 2 && be_value(bytes@) < fact(n) implies r.digits@.len() < n by {
                if k >= n {
                    lemma_fact_monotone(n, k as nat);
                }
            }
        }
        r
    }

    /// Drops leading zero digits.
    fn trimmed_from(digits: Vec<usize>) -> (r: FNS)
        requires
            valid_digits(digits@),
        ensures
            r.digits@ == trim_zeros(digits@),
            r.wf(),
            r.value() == digits_value(digits@),
            r.digits@.len() <= digits@.len(),
            digits@.len() >= 1 ==> r.digits@.len() >= 1,
    {
        let mut digits = digits;
        let ghost untrimmed = digits@;
        proof {
            lemma_trim_zeros(untrimmed);
        }
        while digits.len() > 1 && digits[0] == 0
            invariant
                valid_digits(digits@),
                trim_zeros(digits@) == trim_zeros(untrimmed),
            decreases digits@.len(),
        {
            let ghost d = digits@;
            proof {
                lemma_trim_zeros(d);
                assert(valid_digits(d.drop_first())) by {
                    assert forall|i: int| 0 <= i < d.len() - 1 implies #[trigger] d.drop_first()[i]
                        <= d.len() - 1 - i by {
                        assert(d[i + 1] <= d.len() - (i + 1));
                    }
                }
            }
            digits.remove(0);
            assert(digits@ =~= d.drop_first());
        }
        FNS { digits }
    }

    /// The number as big-endian bytes, in shortest form.
    pub fn to_bytes(&self) -> (r: Vec<u8>)
        requires
            self.wf(),
            self.digits@.len() < usize::MAX,
        ensures
            be_value(r@) == self.value(),
            canonical(r@),
    {
        let ns = NS0 { digits: self.digits.clone() };
        ns.to_value()
    }

    /// Zero digits in front, to `count` digits.
    fn padded_digits(&self, count: usize) -> (r: Vec<usize>)
        requires
            self.digits@.len() <= count,
        ensures
            r@ == padded(self.digits@, count as nat),
    {
        let mut r: Vec<usize> = Vec::new();
        let zeros = count - self.digits.len();
        let mut i: usize = 0;
        while i < zeros
            invariant
                i <= zeros,
                r@ =~= Seq::new(i as nat, |j: int| 0usize),
            decreases zeros - i,
        {
            r.push(0);
            i = i + 1;
        }
        let mut j: usize = 0;
        while j < self.digits.len()
            invariant
                j <= self.digits@.len(),
                r@ =~= Seq::new(zeros as nat, |j: int| 0usize) + self.digits@.take(j as int),
            decreases self.digits@.len() - j,
        {
            r.push(self.digits[j]);
            j = j + 1;
        }
        assert(self.digits@.take(j as int) =~= self.digits@);
        r
    }

    /// The permutation of `0..size` that the digits name, zero digits in
    /// front making up the length.
    pub fn to_permutation(&self, size: usize) -> (r: Vec<usize>)
        requires
            self.wf(),
            self.digits@.len() < size,
        ensures
            r@ == permutation_of(padded(self.digits@, (size - 1) as nat)),
    {
        let digits = self.padded_digits(size - 1);
        proof {
            lemma_padded(self.digits@, (size - 1) as nat);
        }
        let ns = NS0 { digits };
        ns.to_permutation()
    }

    /// The digits, trimmed, that name the permutation `permutation`.
    pub fn from_permutation(permutation: Vec<usize>) -> (r: FNS)
        requires
            is_permutation(permutation@),
            permutation@.len() >= 1,
        ensures
            r.digits@ == trim_zeros(digits_of_permutation(permutation@)),
            r.wf(),
    {
        let ns = NS0::from_permutation(permutation);
        FNS::trimmed_from(ns.digits)
    }

    /// Reorders `values` as the digits say, zero digits in front making up
    /// the length.
    pub fn permute_values(&self, values: &mut Vec<u8>)
        requires
            self.wf(),
            self.digits@.len() < old(values)@.len(),
        ensures
            final(values)@ == permuted(
                old(values)@,
                padded(self.digits@, (old(values)@.len() - 1) as nat),
            ),
    {
        let digits = self.padded_digits(values.len() - 1);
        proof {
            lemma_padded(self.digits@, (old(values)@.len() - 1) as nat);
        }
        let ns = NS0 { digits };
        ns.permute_values(values);
    }

    /// The digits, trimmed, that the order of the distinct `values` names.
    pub fn read_values(values: &Vec<u8>) -> (r: FNS)
        requires
            values@.no_duplicates(),
            values@.len() >= 1,
        ensures
            r.digits@ == trim_zeros(digits_of_permutation(ranks(values@))),
            r.wf(),
    {
        let ns = NS0::read_values(values);
        FNS::trimmed_from(ns.digits)
    }
}

} // verus!
