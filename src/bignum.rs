//! Arbitrary-precision natural numbers, held as big-endian byte strings.
//!
//! The arithmetic itself is done by `num_bigint`; the functions here state
//! what each operation returns in terms of [`be_value`].

use num_bigint::BigUint;
use num_traits::ToPrimitive;
use vstd::prelude::*;

verus! {

/// The natural number that a big-endian byte string denotes.
pub open spec fn be_value(s: Seq<u8>) -> nat
    decreases s.len(),
{
    if s.len() == 0 {
        0
    } else {
        be_value(s.drop_last()) * 256 + s.last() as nat
    }
}

/// The shortest big-endian form: at least one byte, and no leading zero byte
/// unless the number is zero.
pub open spec fn canonical(s: Seq<u8>) -> bool {
    s.len() >= 1 && (s.len() > 1 ==> s[0] != 0)
}

/// `n!`, with `0! == 1`.
pub open spec fn fact(n: nat) -> nat
    decreases n,
{
    if n == 0 {
        1
    } else {
        n * fact((n - 1) as nat)
    }
}

/// Relies on `BigUint::from` and `BigUint::to_bytes_be`: the bytes of `n`.
#[verifier::external_body]
pub(crate) fn big_from_usize(n: usize) -> (r: Vec<u8>)
    ensures
        be_value(r@) == n as nat,
        canonical(r@),
{
    BigUint::from(n).to_bytes_be()
}

/// Relies on `BigUint`'s `Mul`: the exact product.
#[verifier::external_body]
pub(crate) fn big_mul(a: &Vec<u8>, b: &Vec<u8>) -> (r: Vec<u8>)
    ensures
        be_value(r@) == be_value(a@) * be_value(b@),
        canonical(r@),
{
    (BigUint::from_bytes_be(a) * BigUint::from_bytes_be(b)).to_bytes_be()
}

/// Relies on `BigUint`'s `Add`: the exact sum.
#[verifier::external_body]
pub(crate) fn big_add(a: &Vec<u8>, b: &Vec<u8>) -> (r: Vec<u8>)
    ensures
        be_value(r@) == be_value(a@) + be_value(b@),
        canonical(r@),
{
    (BigUint::from_bytes_be(a) + BigUint::from_bytes_be(b)).to_bytes_be()
}

/// Relies on `BigUint`'s `Div`: the truncated quotient. It panics on a zero
/// divisor, which is left out.
#[verifier::external_body]
pub(crate) fn big_div(a: &Vec<u8>, b: &Vec<u8>) -> (r: Vec<u8>)
    requires
        be_value(b@) > 0,
    ensures
        be_value(r@) == be_value(a@) / be_value(b@),
        canonical(r@),
{
    (BigUint::from_bytes_be(a) / BigUint::from_bytes_be(b)).to_bytes_be()
}

/// Relies on `BigUint`'s `Rem`: the remainder of the division. It panics on
/// a zero divisor, which is left out.
#[verifier::external_body]
pub(crate) fn big_rem(a: &Vec<u8>, b: &Vec<u8>) -> (r: Vec<u8>)
    requires
        be_value(b@) > 0,
    ensures
        be_value(r@) == be_value(a@) % be_value(b@),
        canonical(r@),
{
    (BigUint::from_bytes_be(a) % BigUint::from_bytes_be(b)).to_bytes_be()
}

/// Relies on `BigUint`'s `PartialOrd`: whether `a` is below `b`.
#[verifier::external_body]
pub(crate) fn big_lt(a: &Vec<u8>, b: &Vec<u8>) -> (r: bool)
    ensures
        r == (be_value(a@) < be_value(b@)),
{
    BigUint::from_bytes_be(a) < BigUint::from_bytes_be(b)
}

/// Relies on `ToPrimitive::to_usize` for `BigUint`: the value when it fits.
#[verifier::external_body]
pub(crate) fn big_to_usize(a: &Vec<u8>) -> (r: Option<usize>)
    ensures
        r.is_some() <==> be_value(a@) <= usize::MAX,
        r.is_some() ==> r.unwrap() as nat == be_value(a@),
{
    BigUint::from_bytes_be(a).to_usize()
}

/// `n!` as a big number.
pub fn factorial(n: usize) -> (r: Vec<u8>)
    ensures
        be_value(r@) == fact(n as nat),
        canonical(r@),
{
    let mut result = big_from_usize(1);
    let mut k: usize = 1;
    assert(fact(1) == 1) by {
        reveal_with_fuel(fact, 2);
    }
    while k < n
        invariant
            1 <= k,
            k <= n || k == 1,
            be_value(result@) == fact(k as nat),
            canonical(result@),
        decreases n - k,
    {
        k = k + 1;
        let factor = big_from_usize(k);
        let ghost prev = be_value(result@);
        result = big_mul(&result, &factor);
        assert(fact(k as nat) == k * fact((k - 1) as nat));
        assert(be_value(result@) == prev * k);
        assert(prev * k == k * prev) by (nonlinear_arith);
    }
    assert(fact(0) == 1);
    result
}

/// `256^n`.
pub open spec fn pow256(n: nat) -> nat
    decreases n,
{
    if n == 0 {
        1
    } else {
        256 * pow256((n - 1) as nat)
    }
}

pub proof fn lemma_pow256_monotone(a: nat, b: nat)
    requires
        a <= b,
    ensures
        1 <= pow256(a) <= pow256(b),
    decreases b,
{
    if b > 0 {
        if a < b {
            lemma_pow256_monotone(a, (b - 1) as nat);
        } else {
            lemma_pow256_monotone((a - 1) as nat, (b - 1) as nat);
        }
    }
}

pub proof fn lemma_be_value_upper(s: Seq<u8>)
    ensures
        be_value(s) < pow256(s.len()),
    decreases s.len(),
{
    if s.len() > 0 {
        lemma_be_value_upper(s.drop_last());
    }
}

pub proof fn lemma_be_value_lower(s: Seq<u8>)
    requires
        s.len() >= 1,
        s[0] != 0,
    ensures
        be_value(s) >= pow256((s.len() - 1) as nat),
    decreases s.len(),
{
    if s.len() > 1 {
        lemma_be_value_lower(s.drop_last());
    }
}

/// Byte strings of one length with one value are the same.
pub proof fn lemma_same_length_unique(a: Seq<u8>, b: Seq<u8>)
    requires
        a.len() == b.len(),
        be_value(a) == be_value(b),
    ensures
        a == b,
    decreases a.len(),
{
    if a.len() > 0 {
        let x = be_value(a.drop_last());
        let y = be_value(b.drop_last());
        assert(x * 256 + a.last() == y * 256 + b.last());
        assert(x == y && a.last() == b.last()) by (nonlinear_arith)
            requires
                x * 256 + a.last() == y * 256 + b.last(),
                a.last() < 256,
                b.last() < 256,
        ;
        lemma_same_length_unique(a.drop_last(), b.drop_last());
        assert(a =~= a.drop_last().push(a.last()));
        assert(b =~= b.drop_last().push(b.last()));
    }
}

/// A number has one shortest form.
pub proof fn lemma_canonical_unique(a: Seq<u8>, b: Seq<u8>)
    requires
        canonical(a),
        canonical(b),
        be_value(a) == be_value(b),
    ensures
        a == b,
{
    if a.len() < b.len() {
        lemma_canonical_shorter(a, b);
    } else if b.len() < a.len() {
        lemma_canonical_shorter(b, a);
    } else {
        lemma_same_length_unique(a, b);
    }
}

pub proof fn lemma_canonical_shorter(a: Seq<u8>, b: Seq<u8>)
    requires
        canonical(a),
        canonical(b),
        a.len() < b.len(),
    ensures
        be_value(a) != be_value(b),
{
    lemma_be_value_upper(a);
    lemma_be_value_lower(b);
    lemma_pow256_monotone(a.len(), (b.len() - 1) as nat);
}

} // verus!
