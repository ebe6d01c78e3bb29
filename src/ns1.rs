//! One Huffman table: a number spread over the permutations of several
//! groups of values, one group for each size above one.

use crate::bignum::{be_value, big_add, big_div, big_from_usize, big_lt, big_mul, big_rem, canonical, fact, factorial};
use crate::mixed::{in_range, lemma_mixed_bound, lemma_mixed_shift, mixed_value, radix_product};
use crate::ns0::NS0;
use crate::perm::{digits_of_permutation, permuted, ranks};
use vstd::prelude::*;

verus! {

/// The sizes above one, in order: a group of one value names nothing.
pub open spec fn big_tables(s: Seq<usize>) -> Seq<usize>
    decreases s.len(),
{
    if s.len() == 0 {
        seq![]
    } else if s.last() > 1 {
        big_tables(s.drop_last()).push(s.last())
    } else {
        big_tables(s.drop_last())
    }
}

/// The radix of each group: the number of its permutations.
pub open spec fn table_radices(t: Seq<usize>) -> Seq<nat> {
    t.map_values(|n: usize| fact(n as nat))
}

/// The sum of the sizes.
pub open spec fn size_sum(t: Seq<usize>) -> nat
    decreases t.len(),
{
    if t.len() == 0 {
        0
    } else {
        size_sum(t.drop_last()) + t.last() as nat
    }
}

/// The number each digit string holds.
pub open spec fn ns0_values(ds: Seq<NS0>) -> Seq<nat> {
    Seq::new(ds.len(), |i: int| ds[i].value())
}

pub proof fn lemma_big_tables(s: Seq<usize>)
    ensures
        forall|i: int| 0 <= i < big_tables(s).len() ==> #[trigger] big_tables(s)[i] > 1,
        big_tables(s).len() <= s.len(),
    decreases s.len(),
{
    if s.len() > 0 {
        lemma_big_tables(s.drop_last());
    }
}

/// Group `k` of `v`: the groups lie one after the other from the start.
pub open spec fn group(v: Seq<u8>, t: Seq<usize>, k: int) -> Seq<u8> {
    v.subrange(size_sum(t.take(k)) as int, size_sum(t.take(k)) + t[k])
}

pub proof fn lemma_size_sum_prefix(t: Seq<usize>, i: int)
    requires
        0 <= i <= t.len(),
    ensures
        size_sum(t.take(i)) <= size_sum(t),
        i < t.len() ==> size_sum(t.take(i + 1)) == size_sum(t.take(i)) + t[i],
    decreases t.len() - i,
{
    if i < t.len() {
        assert(t.take(i + 1).drop_last() =~= t.take(i));
        lemma_size_sum_prefix(t, i + 1);
    } else {
        assert(t.take(i) =~= t);
    }
}

/// `new` is `old` with each group reordered by its digits, and the bytes
/// after the last group kept.
pub open spec fn permuted_groups(old: Seq<u8>, new: Seq<u8>, t: Seq<usize>, ds: Seq<NS0>) -> bool {
    &&& new.len() == old.len()
    &&& forall|k: int|
        0 <= k < t.len() ==> #[trigger] group(new, t, k) == permuted(group(old, t, k), ds[k].digits@)
    &&& forall|i: int| size_sum(t) <= i < old.len() ==> new[i] == old[i]
}

/// Each digit string is the one that the order of its group names.
pub open spec fn read_groups(v: Seq<u8>, t: Seq<usize>, ds: Seq<NS0>) -> bool {
    &&& ds.len() == t.len()
    &&& forall|k: int|
        0 <= k < t.len() ==> (#[trigger] ds[k]).digits@ == digits_of_permutation(
            ranks(group(v, t, k)),
        )
}

/// The sizes above one.
pub fn valid_sizes(sizes: &Vec<usize>) -> (r: Vec<usize>)
    ensures
        r@ == big_tables(sizes@),
{
    let mut r: Vec<usize> = Vec::new();
    let mut i: usize = 0;
    while i < sizes.len()
        invariant
            i <= sizes@.len(),
            r@ == big_tables(sizes@.take(i as int)),
        decreases sizes@.len() - i,
    {
        assert(sizes@.take(i + 1).drop_last() =~= sizes@.take(i as int));
        if sizes[i] > 1 {
            r.push(sizes[i]);
        }
        i = i + 1;
    }
    assert(sizes@.take(i as int) =~= sizes@);
    r
}

/// Whether the sizes add up to no more than `len`.
pub fn sizes_fit(t: &Vec<usize>, len: usize) -> (r: bool)
    ensures
        r == (size_sum(t@) <= len),
{
    let mut acc: usize = 0;
    let mut i: usize = 0;
    while i < t.len()
        invariant
            i <= t@.len(),
            acc == size_sum(t@.take(i as int)),
            acc <= len,
        decreases t@.len() - i,
    {
        proof {
            lemma_size_sum_prefix(t@, i as int);
        }
        if len - acc < t[i] {
            proof {
                lemma_size_sum_prefix(t@, i + 1);
            }
            return false;
        }
        acc = acc + t[i];
        i = i + 1;
    }
    assert(t@.take(i as int) =~= t@);
    true
}

/// The permutation digits of one table, one [`NS0`] for each group of
/// more than one value.
#[derive(Clone, Debug)]
pub struct NS1 {
    pub digits: Vec<NS0>,
}

impl NS1 {
    /// One well-formed digit string for each group of `t`, of its size.
    pub open spec fn fits(&self, t: Seq<usize>) -> bool {
        &&& self.digits@.len() == t.len()
        &&& forall|k: int|
            0 <= k < t.len() ==> (#[trigger] self.digits@[k]).wf() && self.digits@[k].digits@.len()
                + 1 == t[k]
    }

    /// The number each group holds.
    pub open spec fn digit_values(&self) -> Seq<nat> {
        ns0_values(self.digits@)
    }

    /// The whole number, the last group weighing one.
    pub open spec fn value(&self, t: Seq<usize>) -> nat {
        mixed_value(table_radices(t), self.digit_values())
    }

    /// The digits of `value` for a table with the given group sizes; `None`
    /// when the value is not below the product of the groups' factorials.
    pub fn try_from_input(value: &Vec<u8>, sizes: &Vec<usize>) -> (r: Option<NS1>)
        ensures
            r.is_some() <==> be_value(value@) < radix_product(table_radices(big_tables(sizes@))),
            r matches Some(ns) ==> ns.fits(big_tables(sizes@)) && ns.value(big_tables(sizes@))
                == be_value(value@),
    {
        let t = valid_sizes(sizes);
        let ghost tt = t@;
        let ghost rad = table_radices(tt);
        proof {
            lemma_big_tables(sizes@);
        }
        let mut q = value.clone();
        let mut digits: Vec<NS0> = Vec::new();
        let mut k: usize = t.len();
        proof {
            assert(q@ == value@);
            assert(rad.skip(k as int) =~= Seq::<nat>::empty());
            assert(ns0_values(digits@) =~= Seq::<nat>::empty());
            assert(be_value(q@) * 1 == be_value(q@));
        }
        while k > 0
            invariant
                k <= tt.len(),
                t@ == tt,
                rad == table_radices(tt),
                forall|i: int| 0 <= i < tt.len() ==> #[trigger] tt[i] > 1,
                digits@.len() == tt.len() - k,
                forall|j: int|
                    0 <= j < digits@.len() ==> (#[trigger] digits@[j]).wf() && digits@[j].digits@.len()
                        + 1 == tt[k + j],
                forall|j: int|
                    0 <= j < digits@.len() ==> #[trigger] digits@[j].value() < fact(tt[k + j] as nat),
                be_value(value@) == be_value(q@) * radix_product(rad.skip(k as int)) + mixed_value(
                    rad.skip(k as int),
                    ns0_values(digits@),
                ),
            decreases k,
        {
            k = k - 1;
            let size = t[k];
            let f = factorial(size);
            proof {
                crate::ns0::lemma_fact_positive(size as nat);
            }
            let x = big_rem(&q, &f);
            let next = big_div(&q, &f);
            let ghost qv = be_value(q@);
            let ghost fv = be_value(f@);
            let ghost xv = be_value(x@);
            assert(xv < fv) by {
                vstd::arithmetic::div_mod::lemma_mod_pos_bound(qv as int, fv as int);
            }
            let d = match NS0::try_from_input(&x, size) {
                Some(d) => d,
                None => {
                    assert(false);
                    NS0 { digits: Vec::new() }
                },
            };
            let ghost old_digits = digits@;
            proof {
                vstd::arithmetic::div_mod::lemma_fundamental_div_mod(qv as int, fv as int);
                let r0 = rad.skip(k as int);
                assert(r0.drop_first() =~= rad.skip(k + 1));
                assert(r0[0] == fv);
                assert(qv == (qv / fv) * fv + xv) by (nonlinear_arith)
                    requires
                        qv == fv * (qv / fv) + qv % fv,
                        xv == qv % fv,
                ;
                lemma_mixed_shift(r0, qv / fv, xv, ns0_values(old_digits));
            }
            digits.insert(0, d);
            proof {
                assert(ns0_values(digits@) =~= seq![xv] + ns0_values(old_digits));
                assert forall|j: int| 0 <= j < digits@.len() implies (#[trigger] digits@[j]).wf()
                    && digits@[j].digits@.len() + 1 == tt[k + j] && digits@[j].value() < fact(
                    tt[k + j] as nat,
                ) by {
                    if j > 0 {
                        assert(digits@[j] == old_digits[j - 1]);
                    }
                }
            }
            q = next;
        }
        let one = big_from_usize(1);
        let ns = NS1 { digits };
        assert(rad.skip(0) =~= rad);
        assert(ns.digit_values() =~= ns0_values(digits@));
        proof {
            assert(in_range(rad, ns.digit_values())) by {
                assert forall|i: int| 0 <= i < rad.len() implies #[trigger] ns.digit_values()[i]
                    < rad[i] by {
                    assert(ns.digits@[i].value() < fact(tt[i] as nat));
                }
            }
            lemma_mixed_bound(rad, ns.digit_values());
            let p = radix_product(rad);
            let m = ns.value(tt);
            let qv = be_value(q@);
            if qv >= 1 {
                assert(qv * p >= p) by (nonlinear_arith)
                    requires
                        qv >= 1,
                ;
            } else {
                assert(qv * p == 0) by (nonlinear_arith)
                    requires
                        qv == 0,
                ;
            }
        }
        if big_lt(&q, &one) {
            Some(ns)
        } else {
            None
        }
    }

    /// The whole number as big-endian bytes, in shortest form.
    pub fn to_value(&self, sizes: &Vec<usize>) -> (r: Vec<u8>)
        requires
            self.fits(big_tables(sizes@)),
        ensures
            be_value(r@) == self.value(big_tables(sizes@)),
            canonical(r@),
    {
        let t = valid_sizes(sizes);
        let ghost rad = table_radices(t@);
        let ghost vals = self.digit_values();
        let mut acc = big_from_usize(0);
        let mut k: usize = 0;
        assert(rad.skip(0) =~= rad && vals.skip(0) =~= vals);
        while k < t.len()
            invariant
                k <= t@.len(),
                t@ == big_tables(sizes@),
                self.fits(t@),
                rad == table_radices(t@),
                vals == self.digit_values(),
                canonical(acc@),
                be_value(acc@) * radix_product(rad.skip(k as int)) + mixed_value(
                    rad.skip(k as int),
                    vals.skip(k as int),
                ) == mixed_value(rad, vals),
            decreases t@.len() - k,
        {
            let f = factorial(t[k]);
            let v = self.digits[k].to_value();
            let scaled = big_mul(&acc, &f);
            proof {
                let r0 = rad.skip(k as int);
                assert(r0.drop_first() =~= rad.skip(k + 1));
                assert(vals.skip(k as int) =~= seq![vals[k as int]] + vals.skip(k + 1));
                lemma_mixed_shift(r0, be_value(acc@), vals[k as int], vals.skip(k + 1));
            }
            acc = big_add(&scaled, &v);
            k = k + 1;
        }
        assert(rad.skip(k as int) =~= Seq::<nat>::empty());
        assert(vals.skip(k as int) =~= Seq::<nat>::empty());
        assert(be_value(acc@) * 1 == be_value(acc@));
        acc
    }

    /// Reorders each group of `values` by its digits.
    pub fn permute_values(&self, sizes: &Vec<usize>, values: &mut Vec<u8>)
        requires
            self.fits(big_tables(sizes@)),
            size_sum(big_tables(sizes@)) <= old(values)@.len(),
        ensures
            permuted_groups(old(values)@, final(values)@, big_tables(sizes@), self.digits@),
            final(values)@.to_multiset() == old(values)@.to_multiset(),
    {
        let t = valid_sizes(sizes);
        let ghost tt = t@;
        let ghost v = old(values)@;
        let n = values.len();
        proof {
            lemma_big_tables(sizes@);
        }
        let mut start: usize = 0;
        let mut k: usize = 0;
        while k < t.len()
            invariant
                k <= tt.len(),
                t@ == tt,
                tt == big_tables(sizes@),
                self.fits(tt),
                size_sum(tt) <= v.len(),
                n == v.len(),
                values@.len() == v.len(),
                start == size_sum(tt.take(k as int)),
                forall|j: int|
                    0 <= j < k ==> #[trigger] group(values@, tt, j) == permuted(
                        group(v, tt, j),
                        self.digits@[j].digits@,
                    ),
                forall|i: int| start <= i < v.len() ==> values@[i] == v[i],
                values@.to_multiset() == v.to_multiset(),
            decreases tt.len() - k,
        {
            proof {
                lemma_size_sum_prefix(tt, k as int);
                lemma_size_sum_prefix(tt, k + 1);
                assert(tt.take(k + 1).take(k as int) =~= tt.take(k as int));
            }
            let size = t[k];
            let mut part: Vec<u8> = Vec::new();
            let mut i: usize = 0;
            while i < size
                invariant
                    i <= size,
                    start + size <= n,
                    n == values@.len(),
                    part@ =~= values@.subrange(start as int, start + i),
                decreases size - i,
            {
                part.push(values[start + i]);
                i = i + 1;
            }
            assert(part@ =~= group(v, tt, k as int));
            let ghost g0 = part@;
            self.digits[k].permute_values(&mut part);
            proof {
                crate::perm::lemma_permuted_multiset(g0, self.digits@[k as int].digits@);
            }
            let ghost mid = values@;
            let mut i: usize = 0;
            while i < size
                invariant
                    i <= size,
                    start + size <= n,
                    n == values@.len(),
                    part@.len() == size,
                    values@.len() == mid.len(),
                    forall|l: int| 0 <= l < start ==> values@[l] == mid[l],
                    forall|l: int| start + size <= l < mid.len() ==> values@[l] == mid[l],
                    forall|l: int| start <= l < start + i ==> values@[l] == part@[l - start],
                    forall|l: int| start + i <= l < start + size ==> values@[l] == mid[l],
                decreases size - i,
            {
                values.set(start + i, part[i]);
                i = i + 1;
            }
            proof {
                let a = mid.subrange(0, start as int);
                let c = mid.subrange(start + size, mid.len() as int);
                assert(mid.subrange(start as int, start + size) =~= g0);
                assert(mid =~= a + g0 + c);
                assert(values@ =~= a + part@ + c);
                vstd::seq_lib::lemma_multiset_commutative(a + g0, c);
                vstd::seq_lib::lemma_multiset_commutative(a, g0);
                vstd::seq_lib::lemma_multiset_commutative(a + part@, c);
                vstd::seq_lib::lemma_multiset_commutative(a, part@);
                assert(group(values@, tt, k as int) =~= part@);
                assert forall|j: int| 0 <= j < k implies #[trigger] group(values@, tt, j) == permuted(
                    group(v, tt, j),
                    self.digits@[j].digits@,
                ) by {
                    lemma_size_sum_prefix(tt, j);
                    lemma_size_sum_prefix(tt, j + 1);
                    lemma_group_prefix(tt, j, k as int);
                    assert(group(values@, tt, j) =~= group(mid, tt, j));
                }
            }
            start = start + size;
            k = k + 1;
        }
        assert(tt.take(k as int) =~= tt);
    }

    /// The digits that the order of each group of the distinct `values`
    /// names.
    pub fn read_values(sizes: &Vec<usize>, values: &Vec<u8>) -> (r: NS1)
        requires
            values@.no_duplicates(),
            size_sum(big_tables(sizes@)) <= values@.len(),
        ensures
            r.fits(big_tables(sizes@)),
            read_groups(values@, big_tables(sizes@), r.digits@),
    {
        let t = valid_sizes(sizes);
        let ghost tt = t@;
        let ghost v = values@;
        let n = values.len();
        proof {
            lemma_big_tables(sizes@);
        }
        let mut digits: Vec<NS0> = Vec::new();
        let mut start: usize = 0;
        let mut k: usize = 0;
        while k < t.len()
            invariant
                k <= tt.len(),
                t@ == tt,
                tt == big_tables(sizes@),
                v == values@,
                n == v.len(),
                forall|i: int| 0 <= i < tt.len() ==> #[trigger] tt[i] > 1,
                v.no_duplicates(),
                size_sum(tt) <= v.len(),
                start == size_sum(tt.take(k as int)),
                digits@.len() == k,
                forall|j: int|
                    0 <= j < k ==> (#[trigger] digits@[j]).wf() && digits@[j].digits@.len() + 1
                        == tt[j] && digits@[j].digits@ == digits_of_permutation(
                        ranks(group(v, tt, j)),
                    ),
            decreases tt.len() - k,
        {
            proof {
                lemma_size_sum_prefix(tt, k as int);
                lemma_size_sum_prefix(tt, k + 1);
                assert(tt.take(k + 1).take(k as int) =~= tt.take(k as int));
            }
            let size = t[k];
            let mut part: Vec<u8> = Vec::new();
            let mut i: usize = 0;
            while i < size
                invariant
                    i <= size,
                    start + size <= n,
                    n == v.len(),
                    v == values@,
                    part@ =~= v.subrange(start as int, start + i),
                decreases size - i,
            {
                part.push(values[start + i]);
                i = i + 1;
            }
            assert(part@ =~= group(v, tt, k as int));
            assert(part@.no_duplicates()) by {
                assert forall|a: int, b: int| 0 <= a < b < part@.len() implies part@[a] != part@[b] by {
                    assert(part@[a] == v[start + a] && part@[b] == v[start + b]);
                }
            }
            let d = NS0::read_values(&part);
            digits.push(d);
            start = start + size;
            k = k + 1;
        }
        NS1 { digits }
    }
}

/// Groups before `k` lie before the start of group `k`.
pub proof fn lemma_group_prefix(t: Seq<usize>, j: int, k: int)
    requires
        0 <= j < k <= t.len(),
    ensures
        size_sum(t.take(j)) + t[j] <= size_sum(t.take(k)),
    decreases k - j,
{
    lemma_size_sum_prefix(t, j);
    assert(t.take(j + 1).drop_last() =~= t.take(j));
    if j + 1 < k {
        lemma_group_prefix(t, j + 1, k);
        lemma_size_sum_prefix(t, j + 1);
    }
}

/// Reading back the groups of a table that its digits permuted gives those
/// digits again, and so the same number.
pub proof fn lemma_table_round_trip(
    t: Seq<usize>,
    ns: NS1,
    old: Seq<u8>,
    new: Seq<u8>,
    read: NS1,
)
    requires
        ns.fits(t),
        old.no_duplicates(),
        size_sum(t) <= old.len(),
        old.len() <= usize::MAX,
        permuted_groups(old, new, t, ns.digits@),
        read_groups(new, t, read.digits@),
    ensures
        forall|k: int| 0 <= k < t.len() ==> (#[trigger] read.digits@[k]).digits@ == ns.digits@[k].digits@,
        read.digit_values() == ns.digit_values(),
        read.value(t) == ns.value(t),
{
    assert forall|k: int| 0 <= k < t.len() implies (#[trigger] read.digits@[k]).digits@
        == ns.digits@[k].digits@ by {
        lemma_size_sum_prefix(t, k);
        lemma_size_sum_prefix(t, k + 1);
        lemma_group_prefix_total(t, k);
        let g = group(old, t, k);
        assert(g.no_duplicates()) by {
            let a0 = size_sum(t.take(k)) as int;
            assert forall|a: int, b: int| 0 <= a < b < g.len() implies g[a] != g[b] by {
                assert(g[a] == old[a0 + a] && g[b] == old[a0 + b]);
            }
        }
        crate::perm::lemma_read_after_permute(g, ns.digits@[k].digits@);
    }
    assert(read.digit_values() =~= ns.digit_values());
}

/// Every group ends within the sizes' sum.
pub proof fn lemma_group_prefix_total(t: Seq<usize>, k: int)
    requires
        0 <= k < t.len(),
    ensures
        size_sum(t.take(k)) + t[k] <= size_sum(t),
{
    lemma_size_sum_prefix(t, k);
    lemma_size_sum_prefix(t, k + 1);
}

} // verus!
