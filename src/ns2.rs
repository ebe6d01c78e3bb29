//! Several Huffman tables: one number spread over all their groups, the last
//! table weighing one.

use crate::bignum::{be_value, big_add, big_div, big_from_usize, big_lt, big_mul, big_rem, canonical, fact, factorial};
use crate::mixed::{in_range, lemma_mixed_bound, lemma_mixed_shift, mixed_value, radix_product};
use crate::ns1::{
    big_tables, lemma_big_tables, lemma_table_round_trip, permuted_groups, read_groups, size_sum,
    sizes_fit, table_radices, valid_sizes, NS1,
};
use vstd::prelude::*;

verus! {

/// How many numbers one table can hold.
pub open spec fn table_capacity(sizes: Seq<usize>) -> nat {
    radix_product(table_radices(big_tables(sizes)))
}

/// The radix of each table.
pub open spec fn group_radices(g: Seq<Seq<usize>>) -> Seq<nat> {
    Seq::new(g.len(), |i: int| table_capacity(g[i]))
}

/// How many numbers all the tables can hold together.
pub open spec fn capacity(g: Seq<Seq<usize>>) -> nat {
    radix_product(group_radices(g))
}

/// The group sizes of each table.
pub open spec fn sizes_view(g: Seq<Vec<usize>>) -> Seq<Seq<usize>> {
    Seq::new(g.len(), |i: int| g[i]@)
}

/// The values of each table.
pub open spec fn values_view(v: Seq<Vec<u8>>) -> Seq<Seq<u8>> {
    Seq::new(v.len(), |i: int| v[i]@)
}

/// The capacity of one table as a big number.
pub fn max_table_value(sizes: &Vec<usize>) -> (r: Vec<u8>)
    ensures
        be_value(r@) == table_capacity(sizes@),
        canonical(r@),
{
    let t = valid_sizes(sizes);
    let ghost rad = table_radices(t@);
    let mut acc = big_from_usize(1);
    let mut k: usize = t.len();
    assert(rad.skip(k as int) =~= Seq::<nat>::empty());
    while k > 0
        invariant
            k <= t@.len(),
            rad == table_radices(t@),
            be_value(acc@) == radix_product(rad.skip(k as int)),
            canonical(acc@),
        decreases k,
    {
        k = k - 1;
        let f = factorial(t[k]);
        assert(rad.skip(k as int).drop_first() =~= rad.skip(k + 1));
        assert(be_value(f@) * be_value(acc@) == be_value(acc@) * be_value(f@)) by (nonlinear_arith);
        acc = big_mul(&f, &acc);
    }
    assert(rad.skip(0) =~= rad);
    acc
}

/// The capacity of all the tables as a big number.
pub fn max_base_value(groups: &Vec<Vec<usize>>) -> (r: Vec<u8>)
    ensures
        be_value(r@) == capacity(sizes_view(groups@)),
        canonical(r@),
{
    let ghost rad = group_radices(sizes_view(groups@));
    let mut acc = big_from_usize(1);
    let mut k: usize = groups.len();
    assert(rad.skip(k as int) =~= Seq::<nat>::empty());
    while k > 0
        invariant
            k <= groups@.len(),
            rad == group_radices(sizes_view(groups@)),
            be_value(acc@) == radix_product(rad.skip(k as int)),
            canonical(acc@),
        decreases k,
    {
        k = k - 1;
        let f = max_table_value(&groups[k]);
        assert(rad.skip(k as int).drop_first() =~= rad.skip(k + 1));
        acc = big_mul(&f, &acc);
    }
    assert(rad.skip(0) =~= rad);
    acc
}

/// The digits of several tables, one [`NS1`] for each.
#[derive(Clone, Debug)]
pub struct NS2 {
    pub digits: Vec<NS1>,
}

impl NS2 {
    /// One digit set for each table, fitting its groups.
    pub open spec fn fits(&self, g: Seq<Seq<usize>>) -> bool {
        &&& self.digits@.len() == g.len()
        &&& forall|k: int| 0 <= k < g.len() ==> (#[trigger] self.digits@[k]).fits(big_tables(g[k]))
    }

    /// The number each table holds.
    pub open spec fn digit_values(&self, g: Seq<Seq<usize>>) -> Seq<nat> {
        Seq::new(self.digits@.len(), |k: int| self.digits@[k].value(big_tables(g[k])))
    }

    /// The whole number.
    pub open spec fn value(&self, g: Seq<Seq<usize>>) -> nat {
        mixed_value(group_radices(g), self.digit_values(g))
    }

    /// The digits of `value` for tables with the given group sizes; `None`
    /// when the value is not below their capacity.
    pub fn try_from_input(value: &Vec<u8>, groups: &Vec<Vec<usize>>) -> (r: Option<NS2>)
        ensures
            r.is_some() <==> be_value(value@) < capacity(sizes_view(groups@)),
            r matches Some(ns) ==> ns.fits(sizes_view(groups@)) && ns.value(sizes_view(groups@))
                == be_value(value@),
    {
        let ghost g = sizes_view(groups@);
        let ghost rad = group_radices(g);
        let mut q = value.clone();
        let mut digits: Vec<NS1> = Vec::new();
        let mut k: usize = groups.len();
        proof {
            assert(q@ == value@);
            assert(rad.skip(k as int) =~= Seq::<nat>::empty());
            assert(be_value(q@) * 1 == be_value(q@));
        }
        while k > 0
            invariant
                k <= g.len(),
                g == sizes_view(groups@),
                rad == group_radices(g),
                digits@.len() == g.len() - k,
                forall|j: int|
                    0 <= j < digits@.len() ==> (#[trigger] digits@[j]).fits(big_tables(g[k + j]))
                        && digits@[j].value(big_tables(g[k + j])) < rad[k + j],
                be_value(value@) == be_value(q@) * radix_product(rad.skip(k as int)) + mixed_value(
                    rad.skip(k as int),
                    Seq::new(digits@.len(), |j: int| digits@[j].value(big_tables(g[k + j]))),
                ),
            decreases k,
        {
            let ghost vals = Seq::new(digits@.len(), |j: int| digits@[j].value(big_tables(g[k + j])));
            k = k - 1;
            let cap = max_table_value(&groups[k]);
            proof {
                let tr = table_radices(big_tables(g[k as int]));
                assert forall|i: int| 0 <= i < tr.len() implies #[trigger] tr[i] > 0 by {
                    crate::ns0::lemma_fact_positive(big_tables(g[k as int])[i] as nat);
                }
                lemma_radix_positive(tr);
            }
            let x = big_rem(&q, &cap);
            let next = big_div(&q, &cap);
            let ghost qv = be_value(q@);
            let ghost fv = be_value(cap@);
            let ghost xv = be_value(x@);
            assert(xv < fv) by {
                vstd::arithmetic::div_mod::lemma_mod_pos_bound(qv as int, fv as int);
            }
            let d = match NS1::try_from_input(&x, &groups[k]) {
                Some(d) => d,
                None => {
                    assert(false);
                    NS1 { digits: Vec::new() }
                },
            };
            let ghost old_digits = digits@;
            proof {
                vstd::arithmetic::div_mod::lemma_fundamental_div_mod(qv as int, fv as int);
                let r0 = rad.skip(k as int);
                assert(r0.drop_first() =~= rad.skip(k + 1));
                assert(r0[0] == fv);
                assert(qv == (qv / fv) * fv + xv) by (nonlinear_arith)
                    requires
                        qv == fv * (qv / fv) + qv % fv,
                        xv == qv % fv,
                ;
                lemma_mixed_shift(r0, qv / fv, xv, vals);
            }
            digits.insert(0, d);
            proof {
                assert(Seq::new(digits@.len(), |j: int| digits@[j].value(big_tables(g[k + j])))
                    =~= seq![xv] + vals);
                assert forall|j: int| 0 <= j < digits@.len() implies (#[trigger] digits@[j]).fits(
                    big_tables(g[k + j]),
                ) && digits@[j].value(big_tables(g[k + j])) < rad[k + j] by {
                    if j > 0 {
                        assert(digits@[j] == old_digits[j - 1]);
                    }
                }
            }
            q = next;
        }
        let one = big_from_usize(1);
        let ns = NS2 { digits };
        assert(rad.skip(0) =~= rad);
        proof {
            assert(ns.digit_values(g) =~= Seq::new(
                digits@.len(),
                |j: int| digits@[j].value(big_tables(g[0 + j])),
            ));
            assert(in_range(rad, ns.digit_values(g)));
            lemma_mixed_bound(rad, ns.digit_values(g));
            let p = radix_product(rad);
            let qv = be_value(q@);
            if qv >= 1 {
                assert(qv * p >= p) by (nonlinear_arith)
                    requires
                        qv >= 1,
                ;
            } else {
                assert(qv * p == 0) by (nonlinear_arith)
                    requires
                        qv == 0,
                ;
            }
        }
        if big_lt(&q, &one) {
            Some(ns)
        } else {
            None
        }
    }

    /// The whole number as big-endian bytes, in shortest form.
    pub fn to_value(&self, groups: &Vec<Vec<usize>>) -> (r: Vec<u8>)
        requires
            self.fits(sizes_view(groups@)),
        ensures
            be_value(r@) == self.value(sizes_view(groups@)),
            canonical(r@),
    {
        let ghost g = sizes_view(groups@);
        let ghost rad = group_radices(g);
        let ghost vals = self.digit_values(g);
        let mut acc = big_from_usize(0);
        let mut k: usize = 0;
        assert(rad.skip(0) =~= rad && vals.skip(0) =~= vals);
        while k < groups.len()
            invariant
                k <= g.len(),
                g == sizes_view(groups@),
                self.fits(g),
                rad == group_radices(g),
                vals == self.digit_values(g),
                canonical(acc@),
                be_value(acc@) * radix_product(rad.skip(k as int)) + mixed_value(
                    rad.skip(k as int),
                    vals.skip(k as int),
                ) == mixed_value(rad, vals),
            decreases g.len() - k,
        {
            let f = max_table_value(&groups[k]);
            let v = self.digits[k].to_value(&groups[k]);
            let scaled = big_mul(&acc, &f);
            proof {
                let r0 = rad.skip(k as int);
                assert(r0.drop_first() =~= rad.skip(k + 1));
                assert(vals.skip(k as int) =~= seq![vals[k as int]] + vals.skip(k + 1));
                lemma_mixed_shift(r0, be_value(acc@), vals[k as int], vals.skip(k + 1));
            }
            acc = big_add(&scaled, &v);
            k = k + 1;
        }
        assert(rad.skip(k as int) =~= Seq::<nat>::empty());
        assert(vals.skip(k as int) =~= Seq::<nat>::empty());
        assert(be_value(acc@) * 1 == be_value(acc@));
        acc
    }

    /// Reorders the groups of each table by its digits.
    pub fn permute_values(&self, groups: &Vec<Vec<usize>>, values: &mut Vec<Vec<u8>>)
        requires
            self.fits(sizes_view(groups@)),
            old(values)@.len() == groups@.len(),
            forall|k: int|
                0 <= k < groups@.len() ==> size_sum(big_tables(#[trigger] groups@[k]@)) <= old(
                    values,
                )@[k]@.len(),
        ensures
            final(values)@.len() == old(values)@.len(),
            forall|k: int|
                0 <= k < groups@.len() ==> permuted_groups(
                    #[trigger] old(values)@[k]@,
                    final(values)@[k]@,
                    big_tables(groups@[k]@),
                    self.digits@[k].digits@,
                ),
            forall|k: int|
                #![trigger final(values)@[k]]
                0 <= k < groups@.len() ==> final(values)@[k]@.to_multiset() == old(values)@[k]@.to_multiset(),
            forall|k: int|
                #![trigger final(values)@[k]]
                0 <= k < groups@.len() && old(values)@[k]@.no_duplicates() ==> final(values)@[k]@.no_duplicates(),
    {
        let ghost v = old(values)@;
        let mut k: usize = 0;
        while k < groups.len()
            invariant
                k <= groups@.len(),
                self.fits(sizes_view(groups@)),
                v.len() == groups@.len(),
                values@.len() == v.len(),
                forall|j: int|
                    0 <= j < groups@.len() ==> size_sum(big_tables(#[trigger] groups@[j]@))
                        <= v[j]@.len(),
                forall|j: int|
                    0 <= j < k ==> permuted_groups(
                        #[trigger] v[j]@,
                        values@[j]@,
                        big_tables(groups@[j]@),
                        self.digits@[j].digits@,
                    ),
                forall|j: int| k <= j < v.len() ==> #[trigger] values@[j] == v[j],
                forall|j: int|
                    0 <= j < k ==> (#[trigger] values@[j])@.to_multiset() == v[j]@.to_multiset(),
                forall|j: int|
                    0 <= j < k && v[j]@.no_duplicates() ==> (#[trigger] values@[j])@.no_duplicates(),
            decreases groups@.len() - k,
        {
            let mut table = values[k].clone();
            assert(table@ == v[k as int]@);
            assert(sizes_view(groups@)[k as int] == groups@[k as int]@);
            self.digits[k].permute_values(&groups[k], &mut table);
            proof {
                if v[k as int]@.no_duplicates() {
                    v[k as int]@.lemma_multiset_has_no_duplicates();
                    table@.lemma_multiset_has_no_duplicates_conv();
                }
            }
            values.set(k, table);
            k = k + 1;
        }
    }

    /// The digits that the order of each table's groups names; the values of
    /// each table must be distinct.
    pub fn read_values(groups: &Vec<Vec<usize>>, values: &Vec<Vec<u8>>) -> (r: NS2)
        requires
            values@.len() == groups@.len(),
            forall|k: int| 0 <= k < values@.len() ==> (#[trigger] values@[k])@.no_duplicates(),
            forall|k: int|
                0 <= k < groups@.len() ==> size_sum(big_tables(#[trigger] groups@[k]@))
                    <= values@[k]@.len(),
        ensures
            r.fits(sizes_view(groups@)),
            forall|k: int|
                0 <= k < groups@.len() ==> read_groups(
                    #[trigger] values@[k]@,
                    big_tables(groups@[k]@),
                    r.digits@[k].digits@,
                ),
    {
        let mut digits: Vec<NS1> = Vec::new();
        let mut k: usize = 0;
        while k < groups.len()
            invariant
                k <= groups@.len(),
                values@.len() == groups@.len(),
                forall|j: int| 0 <= j < values@.len() ==> (#[trigger] values@[j])@.no_duplicates(),
                forall|j: int|
                    0 <= j < groups@.len() ==> size_sum(big_tables(#[trigger] groups@[j]@))
                        <= values@[j]@.len(),
                digits@.len() == k,
                forall|j: int|
                    0 <= j < k ==> (#[trigger] digits@[j]).fits(big_tables(groups@[j]@))
                        && read_groups(values@[j]@, big_tables(groups@[j]@), digits@[j].digits@),
            decreases groups@.len() - k,
        {
            let d = NS1::read_values(&groups[k], &values[k]);
            digits.push(d);
            k = k + 1;
        }
        NS2 { digits }
    }
}

pub proof fn lemma_radix_positive(r: Seq<nat>)
    requires
        forall|i: int| 0 <= i < r.len() ==> #[trigger] r[i] > 0,
    ensures
        radix_product(r) > 0,
    decreases r.len(),
{
    if r.len() > 0 {
        lemma_radix_positive(r.drop_first());
        vstd::arithmetic::mul::lemma_mul_strictly_positive(r[0] as int, radix_product(r.drop_first()) as int);
    }
}

/// A number written into the order of several tables' values is read back
/// unchanged: the digits read from each permuted table are the digits that
/// permuted it, and so the numbers agree.
pub proof fn lemma_nested_round_trip(
    g: Seq<Seq<usize>>,
    ns: NS2,
    old: Seq<Seq<u8>>,
    new: Seq<Seq<u8>>,
    read: NS2,
)
    requires
        ns.fits(g),
        read.digits@.len() == g.len(),
        old.len() == g.len(),
        new.len() == g.len(),
        forall|k: int|
            0 <= k < g.len() ==> (#[trigger] old[k]).no_duplicates() && size_sum(big_tables(g[k]))
                <= old[k].len() && old[k].len() <= usize::MAX,
        forall|k: int|
            0 <= k < g.len() ==> permuted_groups(
                #[trigger] old[k],
                new[k],
                big_tables(g[k]),
                ns.digits@[k].digits@,
            ),
        forall|k: int|
            0 <= k < g.len() ==> read_groups(
                #[trigger] new[k],
                big_tables(g[k]),
                read.digits@[k].digits@,
            ),
    ensures
        read.digit_values(g) == ns.digit_values(g),
        read.value(g) == ns.value(g),
{
    assert forall|k: int| 0 <= k < g.len() implies #[trigger] read.digit_values(g)[k]
        == ns.digit_values(g)[k] by {
        lemma_table_round_trip(big_tables(g[k]), ns.digits@[k], old[k], new[k], read.digits@[k]);
    }
    assert(read.digit_values(g) =~= ns.digit_values(g));
}

} // verus!
