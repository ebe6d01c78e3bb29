//! Permutations in the factorial number system, as mathematical objects:
//! digit strings, the permutations they name, and the laws that tie the two.

use crate::bignum::fact;
use vstd::multiset::Multiset;
use vstd::prelude::*;
use vstd::relations::{sorted_by, total_ordering};
use vstd::seq_lib::lemma_sorted_unique;

verus! {

broadcast use vstd::seq_lib::group_to_multiset_ensures;

/// Factorial digits, most significant first: in a string of length `k`,
/// digit `i` has radix `k + 1 - i`.
pub open spec fn valid_digits(d: Seq<usize>) -> bool {
    forall|i: int| 0 <= i < d.len() ==> #[trigger] d[i] <= d.len() - i
}

/// The sum of `d[i] * (k - i)!` over the digits of `d`.
pub open spec fn weighted(d: Seq<usize>, k: nat) -> nat
    decreases d.len(),
{
    if d.len() == 0 {
        0
    } else {
        weighted(d.drop_last(), k) + d.last() as nat * fact((k - d.len() + 1) as nat)
    }
}

/// The number that a factorial digit string denotes.
pub open spec fn digits_value(d: Seq<usize>) -> nat {
    weighted(d, d.len())
}

/// `0, 1, ..., n - 1`.
pub open spec fn identity(n: nat) -> Seq<usize> {
    Seq::new(n, |i: int| i as usize)
}

/// Picks, digit by digit, the element at that index out of what is left of
/// `avail`; what remains at the end follows in order.
pub open spec fn perm_of(d: Seq<usize>, avail: Seq<usize>) -> Seq<usize>
    decreases d.len(),
{
    if d.len() == 0 {
        avail
    } else {
        seq![avail[d[0] as int]] + perm_of(d.drop_first(), avail.remove(d[0] as int))
    }
}

/// Where `x` stands in `s`.
pub open spec fn index_in<T>(s: Seq<T>, x: T) -> int {
    choose|i: int| 0 <= i < s.len() && s[i] == x
}

/// The inverse of [`perm_of`]: for each element but the last, its index among
/// what is left of `avail`.
pub open spec fn perm_digits(p: Seq<usize>, avail: Seq<usize>) -> Seq<usize>
    decreases p.len(),
{
    if p.len() <= 1 {
        seq![]
    } else {
        let i = index_in(avail, p[0]);
        seq![i as usize] + perm_digits(p.drop_first(), avail.remove(i))
    }
}

/// The permutation of `0..=d.len()` that the digits `d` name.
pub open spec fn permutation_of(d: Seq<usize>) -> Seq<usize> {
    perm_of(d, identity(d.len() + 1))
}

/// The digits that name the permutation `p`.
pub open spec fn digits_of_permutation(p: Seq<usize>) -> Seq<usize> {
    perm_digits(p, identity(p.len()))
}

/// `p` orders `0..p.len()`.
pub open spec fn is_permutation(p: Seq<usize>) -> bool {
    &&& p.no_duplicates()
    &&& forall|i: int| 0 <= i < p.len() ==> #[trigger] p[i] < p.len()
}

/// Byte order.
pub open spec fn byte_leq() -> spec_fn(u8, u8) -> bool {
    |a: u8, b: u8| a <= b
}

/// The bytes of `v` in ascending order.
pub open spec fn sorted_bytes(v: Seq<u8>) -> Seq<u8> {
    v.sort_by(byte_leq())
}

/// Each byte's index in the ascending order of the bytes.
pub open spec fn ranks(v: Seq<u8>) -> Seq<usize> {
    Seq::new(v.len(), |i: int| index_in(sorted_bytes(v), v[i]) as usize)
}

/// The bytes of `v` placed as the digits `d` say: position `i` receives the
/// byte whose rank is the `i`-th element of the permutation.
pub open spec fn permuted(v: Seq<u8>, d: Seq<usize>) -> Seq<u8> {
    Seq::new(v.len(), |i: int| sorted_bytes(v)[permutation_of(d)[i] as int])
}

pub proof fn lemma_byte_leq_total()
    ensures
        total_ordering(byte_leq()),
{
}

/// Any ascending arrangement of the bytes of `v` is [`sorted_bytes`]`(v)`.
pub proof fn lemma_sorted_bytes(v: Seq<u8>, s: Seq<u8>)
    requires
        sorted_by(s, byte_leq()),
        s.to_multiset() == v.to_multiset(),
    ensures
        s == sorted_bytes(v),
        v.to_multiset() == sorted_bytes(v).to_multiset(),
        sorted_by(sorted_bytes(v), byte_leq()),
{
    lemma_byte_leq_total();
    v.lemma_sort_by_ensures(byte_leq());
    lemma_sorted_unique(s, sorted_bytes(v), byte_leq());
}

/// Sorting keeps a byte string free of duplicates.
pub proof fn lemma_sorted_bytes_distinct(v: Seq<u8>)
    requires
        v.no_duplicates(),
    ensures
        sorted_bytes(v).no_duplicates(),
        sorted_bytes(v).len() == v.len(),
        forall|i: int| 0 <= i < v.len() ==> sorted_bytes(v).contains(#[trigger] v[i]),
{
    lemma_byte_leq_total();
    v.lemma_sort_by_ensures(byte_leq());
    let s = sorted_bytes(v);
    v.lemma_multiset_has_no_duplicates();
    assert(s.len() == v.len()) by {
        assert(s.to_multiset().len() == v.to_multiset().len());
    }
    s.lemma_multiset_has_no_duplicates_conv();
    assert forall|i: int| 0 <= i < v.len() implies s.contains(#[trigger] v[i]) by {
        assert(v.contains(v[i]));
        assert(v.to_multiset().count(v[i]) > 0);
    }
}

pub proof fn lemma_index_in<T>(s: Seq<T>, i: int)
    requires
        s.no_duplicates(),
        0 <= i < s.len(),
    ensures
        index_in(s, s[i]) == i,
{
    let j = index_in(s, s[i]);
    assert(0 <= j < s.len() && s[j] == s[i]);
}

pub proof fn lemma_remove_no_duplicates(s: Seq<usize>, i: int)
    requires
        s.no_duplicates(),
        0 <= i < s.len(),
    ensures
        s.remove(i).no_duplicates(),
        forall|x: usize| s.remove(i).contains(x) <==> (s.contains(x) && x != s[i]),
{
    let r = s.remove(i);
    assert forall|a: int, b: int| 0 <= a < b < r.len() implies r[a] != r[b] by {
        let a2 = if a < i { a } else { a + 1 };
        let b2 = if b < i { b } else { b + 1 };
        assert(r[a] == s[a2] && r[b] == s[b2]);
    }
    assert forall|x: usize| r.contains(x) <==> (s.contains(x) && x != s[i]) by {
        if r.contains(x) {
            let a = choose|a: int| 0 <= a < r.len() && r[a] == x;
            let a2 = if a < i { a } else { a + 1 };
            assert(s[a2] == x);
        }
        if s.contains(x) && x != s[i] {
            let a = choose|a: int| 0 <= a < s.len() && s[a] == x;
            if a < i {
                assert(r[a] == x);
            } else {
                assert(r[a - 1] == x);
            }
        }
    }
}

pub proof fn lemma_identity(n: nat)
    requires
        n <= usize::MAX,
    ensures
        identity(n).no_duplicates(),
        forall|x: usize| identity(n).contains(x) <==> x < n,
{
    assert forall|x: usize| identity(n).contains(x) <==> x < n by {
        if x < n {
            assert(identity(n)[x as int] == x);
        }
    }
    assert forall|a: int, b: int| 0 <= a < b < n implies identity(n)[a] != identity(n)[b] by {
        assert(identity(n)[a] == a as usize);
    }
}

/// Digits in range for picking out of `avail`.
pub open spec fn digits_fit(d: Seq<usize>, n: nat) -> bool {
    &&& d.len() < n
    &&& forall|i: int| 0 <= i < d.len() ==> #[trigger] d[i] < n - i
}

pub proof fn lemma_digits_fit_rest(d: Seq<usize>, n: nat)
    requires
        digits_fit(d, n),
        d.len() > 0,
    ensures
        digits_fit(d.drop_first(), (n - 1) as nat),
{
    assert forall|i: int| 0 <= i < d.len() - 1 implies #[trigger] d.drop_first()[i] < n - 1 - i by {
        assert(d[i + 1] < n - (i + 1));
    }
}

pub proof fn lemma_valid_digits_fit(d: Seq<usize>)
    requires
        valid_digits(d),
    ensures
        digits_fit(d, d.len() + 1),
{
}

/// [`perm_of`] rearranges `avail`: the same elements, mapped through `f`.
pub proof fn lemma_perm_of_multiset(d: Seq<usize>, avail: Seq<usize>, f: spec_fn(usize) -> u8)
    requires
        digits_fit(d, avail.len()),
    ensures
        perm_of(d, avail).len() == avail.len(),
        perm_of(d, avail).map_values(f).to_multiset() == avail.map_values(f).to_multiset(),
        forall|x: usize| perm_of(d, avail).contains(x) <==> avail.contains(x),
    decreases d.len(),
{
    if d.len() > 0 {
        let k = d[0] as int;
        let rest = avail.remove(k);
        lemma_digits_fit_rest(d, avail.len());
        lemma_perm_of_multiset(d.drop_first(), rest, f);
        let tail = perm_of(d.drop_first(), rest);
        let p = perm_of(d, avail);
        assert(p == seq![avail[k]] + tail);
        assert(p.map_values(f) =~= seq![f(avail[k])] + tail.map_values(f));
        assert(rest.map_values(f) =~= avail.map_values(f).remove(k));
        assert(avail.map_values(f)[k] == f(avail[k]));
        vstd::seq_lib::lemma_multiset_commutative(seq![f(avail[k])], tail.map_values(f));
        assert(seq![f(avail[k])].to_multiset() =~= Multiset::empty().insert(f(avail[k]))) by {
            assert(seq![f(avail[k])] =~= Seq::<u8>::empty().push(f(avail[k])));
        }
        assert(avail.map_values(f).to_multiset().contains(f(avail[k]))) by {
            assert(avail.map_values(f).contains(f(avail[k])));
        }
        assert(p.map_values(f).to_multiset() =~= avail.map_values(f).to_multiset());
        assert forall|x: usize| p.contains(x) <==> avail.contains(x) by {
            if p.contains(x) {
                let j = choose|j: int| 0 <= j < p.len() && p[j] == x;
                if j > 0 {
                    assert(tail[j - 1] == x);
                    assert(rest.contains(x));
                    let a = choose|a: int| 0 <= a < rest.len() && rest[a] == x;
                    if a < k {
                        assert(avail[a] == x);
                    } else {
                        assert(avail[a + 1] == x);
                    }
                }
            }
            if avail.contains(x) {
                let a = choose|a: int| 0 <= a < avail.len() && avail[a] == x;
                if a == k {
                    assert(p[0] == x);
                } else {
                    let a2 = if a < k { a } else { a - 1 };
                    assert(rest[a2] == x);
                    assert(rest.contains(x));
                    assert(tail.contains(x));
                    let j = choose|j: int| 0 <= j < tail.len() && tail[j] == x;
                    assert(p[j + 1] == x);
                }
            }
        }
    }
}

/// [`perm_digits`] undoes [`perm_of`] over any list of distinct elements.
pub proof fn lemma_perm_round_trip(d: Seq<usize>, avail: Seq<usize>)
    requires
        avail.no_duplicates(),
        avail.len() == d.len() + 1,
        valid_digits(d),
    ensures
        perm_digits(perm_of(d, avail), avail) == d,
    decreases d.len(),
{
    lemma_perm_of_multiset(d, avail, |x: usize| 0u8);
    if d.len() > 0 {
        let k = d[0] as int;
        let rest = avail.remove(k);
        let p = perm_of(d, avail);
        lemma_remove_no_duplicates(avail, k);
        assert(valid_digits(d.drop_first())) by {
            assert forall|i: int| 0 <= i < d.len() - 1 implies #[trigger] d.drop_first()[i]
                <= d.len() - 1 - i by {
                assert(d[i + 1] <= d.len() - (i + 1));
            }
        }
        lemma_perm_round_trip(d.drop_first(), rest);
        lemma_index_in(avail, k);
        assert(p[0] == avail[k]);
        assert(p.drop_first() =~= perm_of(d.drop_first(), rest));
        assert(perm_digits(p, avail) =~= seq![k as usize] + d.drop_first());
        assert(seq![d[0]] + d.drop_first() =~= d);
    }
}

/// Turning digits into a permutation and back gives the same digits.
pub proof fn lemma_permutation_round_trip(d: Seq<usize>)
    requires
        valid_digits(d),
        d.len() < usize::MAX,
    ensures
        is_permutation(permutation_of(d)),
        permutation_of(d).len() == d.len() + 1,
        digits_of_permutation(permutation_of(d)) == d,
{
    let n = (d.len() + 1) as nat;
    lemma_identity(n);
    lemma_perm_of_multiset(d, identity(n), |x: usize| 0u8);
    lemma_perm_round_trip(d, identity(n));
    let p = permutation_of(d);
    assert forall|i: int| 0 <= i < p.len() implies #[trigger] p[i] < p.len() by {
        assert(p.contains(p[i]));
        assert(identity(n).contains(p[i]));
    }
    lemma_perm_of_distinct(d, identity(n));
}

pub proof fn lemma_perm_of_distinct(d: Seq<usize>, avail: Seq<usize>)
    requires
        avail.no_duplicates(),
        digits_fit(d, avail.len()),
    ensures
        perm_of(d, avail).no_duplicates(),
    decreases d.len(),
{
    if d.len() > 0 {
        let k = d[0] as int;
        let rest = avail.remove(k);
        lemma_remove_no_duplicates(avail, k);
        lemma_digits_fit_rest(d, avail.len());
        lemma_perm_of_distinct(d.drop_first(), rest);
        lemma_perm_of_multiset(d.drop_first(), rest, |x: usize| 0u8);
        let tail = perm_of(d.drop_first(), rest);
        let p = perm_of(d, avail);
        assert forall|a: int, b: int| 0 <= a < b < p.len() implies p[a] != p[b] by {
            if a == 0 {
                assert(p[b] == tail[b - 1]);
                assert(tail.contains(tail[b - 1]));
                assert(rest.contains(p[b]));
            } else {
                assert(p[a] == tail[a - 1] && p[b] == tail[b - 1]);
            }
        }
    }
}

/// Reading back the byte order that [`permuted`] produced names the same
/// digits: the permutation is recovered from the ranks of the bytes.
pub proof fn lemma_read_after_permute(v: Seq<u8>, d: Seq<usize>)
    requires
        v.no_duplicates(),
        v.len() == d.len() + 1,
        valid_digits(d),
        v.len() <= usize::MAX,
    ensures
        sorted_bytes(permuted(v, d)) == sorted_bytes(v),
        ranks(permuted(v, d)) == permutation_of(d),
        digits_of_permutation(ranks(permuted(v, d))) == d,
{
    let n = v.len();
    lemma_byte_leq_total();
    v.lemma_sort_by_ensures(byte_leq());
    let s = sorted_bytes(v);
    lemma_sorted_bytes_distinct(v);
    lemma_permutation_round_trip(d);
    lemma_identity(n);
    let p = permutation_of(d);
    let f = |j: usize| s[j as int];
    lemma_perm_of_multiset(d, identity(n), f);
    let w = permuted(v, d);
    assert(w =~= p.map_values(f));
    assert(identity(n).map_values(f) =~= s);
    lemma_sorted_bytes(w, s);
    assert forall|i: int| 0 <= i < n implies #[trigger] ranks(w)[i] == p[i] by {
        lemma_index_in(s, p[i] as int);
    }
    assert(ranks(w) =~= p);
}

pub proof fn lemma_weighted_push(d: Seq<usize>, x: usize, k: nat)
    requires
        d.len() < k,
    ensures
        weighted(d.push(x), k) == weighted(d, k) + x as nat * fact((k - d.len()) as nat),
{
    assert(d.push(x).drop_last() =~= d);
}

/// A leading zero digit changes nothing.
pub proof fn lemma_leading_zero(t: Seq<usize>, k: nat)
    requires
        t.len() <= k,
    ensures
        weighted(seq![0usize] + t, k + 1) == weighted(t, k),
    decreases t.len(),
{
    if t.len() > 0 {
        lemma_leading_zero(t.drop_last(), k);
        let z = seq![0usize] + t;
        assert(z.drop_last() =~= seq![0usize] + t.drop_last());
        assert(z.last() == t.last());
        assert((k + 1 - z.len() + 1) == (k - t.len() + 1));
    } else {
        let z = seq![0usize] + t;
        assert(z.drop_last() =~= t);
        assert(z.last() == 0);
        assert(weighted(z, k + 1) == weighted(z.drop_last(), k + 1) + 0 * fact(k + 1));
    }
}

/// Permuting keeps the bytes, as a multiset.
pub proof fn lemma_permuted_multiset(v: Seq<u8>, d: Seq<usize>)
    requires
        v.len() == d.len() + 1,
        valid_digits(d),
        v.len() <= usize::MAX,
    ensures
        permuted(v, d).to_multiset() == v.to_multiset(),
{
    let n = v.len();
    lemma_byte_leq_total();
    v.lemma_sort_by_ensures(byte_leq());
    let s = sorted_bytes(v);
    assert(s.len() == v.len()) by {
        assert(s.to_multiset().len() == v.to_multiset().len());
    }
    lemma_identity(n);
    lemma_valid_digits_fit(d);
    let p = permutation_of(d);
    let f = |j: usize| s[j as int];
    lemma_perm_of_multiset(d, identity(n), f);
    assert(permuted(v, d) =~= p.map_values(f));
    assert(identity(n).map_values(f) =~= s);
}

} // verus!
