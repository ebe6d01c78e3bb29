//! Canonical Huffman codes from a table's code-length counts.

use crate::ns1::size_sum;
use vstd::prelude::*;

verus! {

/// `2^n`.
pub open spec fn two_pow(n: nat) -> nat
    decreases n,
{
    if n == 0 {
        1
    } else {
        2 * two_pow((n - 1) as nat)
    }
}

/// The `len` low bits of `code`, most significant first, one per byte.
pub open spec fn code_bits(code: nat, len: nat) -> Seq<u8> {
    Seq::new(len, |j: int| ((code / two_pow((len - 1 - j) as nat)) % 2) as u8)
}

/// The first code of length `l`: each length continues from the codes of
/// the one before, shifted one bit left.
pub open spec fn first_code(s: Seq<usize>, l: nat) -> nat
    decreases l,
{
    if l <= 1 {
        0
    } else {
        (first_code(s, (l - 1) as nat) + s[l - 2] as nat) * 2
    }
}

/// The index of the first symbol of length `l`.
pub open spec fn group_start(s: Seq<usize>, l: nat) -> nat {
    size_sum(s.take(l - 1))
}

/// The greatest length that has codes, or zero.
pub open spec fn last_length(s: Seq<usize>) -> nat
    decreases s.len(),
{
    if s.len() == 0 {
        0
    } else if s.last() > 0 {
        s.len()
    } else {
        last_length(s.drop_last())
    }
}

/// `2^e` for a small `e`.
fn pow_of_two(e: usize) -> (r: u64)
    requires
        e < 32,
    ensures
        r == two_pow(e as nat),
        r <= 0x8000_0000,
        r >= 1,
{
    proof {
        lemma_two_pow_positive(e as nat);
    }
    let mut r: u64 = 1;
    let mut i: usize = 0;
    while i < e
        invariant
            i <= e,
            e < 32,
            r == two_pow(i as nat),
            r <= 0x8000_0000,
        decreases e - i,
    {
        proof {
            lemma_two_pow_below((i + 1) as nat);
        }
        r = r * 2;
        i = i + 1;
    }
    r
}

pub proof fn lemma_two_pow_below(e: nat)
    requires
        e <= 31,
    ensures
        two_pow(e) <= 0x8000_0000,
{
    lemma_two_pow_split(e, (31 - e) as nat);
    lemma_two_pow_positive((31 - e) as nat);
    assert(two_pow(e) * two_pow((31 - e) as nat) >= two_pow(e) * 1) by (nonlinear_arith)
        requires
            two_pow((31 - e) as nat) >= 1,
    ;
}

pub proof fn lemma_two_pow_positive(n: nat)
    ensures
        two_pow(n) >= 1,
    decreases n,
{
    if n > 0 {
        lemma_two_pow_positive((n - 1) as nat);
    }
}

pub proof fn lemma_two_pow_split(a: nat, b: nat)
    ensures
        two_pow(a + b) == two_pow(a) * two_pow(b),
        two_pow(31) == 0x8000_0000,
    decreases a,
{
    lemma_two_pow_31();
    if a > 0 {
        let a1 = (a - 1) as nat;
        lemma_two_pow_split(a1, b);
        assert(two_pow(a + b) == 2 * two_pow(a1 + b));
        assert(two_pow(a) == 2 * two_pow(a1));
        assert(2 * (two_pow(a1) * two_pow(b)) == (2 * two_pow(a1)) * two_pow(b)) by (nonlinear_arith);
    } else {
        assert(two_pow(0) == 1);
        assert(a + b == b);
        assert(1 * two_pow(b) == two_pow(b));
    }
}

pub proof fn lemma_two_pow_15()
    ensures
        two_pow(15) == 0x8000,
{
    reveal_with_fuel(two_pow, 16);
}

pub proof fn lemma_two_pow_31()
    ensures
        two_pow(31) == 0x8000_0000,
{
    reveal_with_fuel(two_pow, 32);
}

/// The bits of the `len`-bit code `code`, most significant first.
pub fn code_to_bits(code: u64, len: usize) -> (r: Vec<u8>)
    requires
        len <= 32,
    ensures
        r@ == code_bits(code as nat, len as nat),
{
    let mut bits: Vec<u8> = Vec::new();
    let mut j: usize = 0;
    while j < len
        invariant
            j <= len,
            len <= 32,
            bits@ =~= code_bits(code as nat, len as nat).take(j as int),
        decreases len - j,
    {
        let d = pow_of_two(len - 1 - j);
        bits.push(((code / d) % 2) as u8);
        j = j + 1;
    }
    bits
}

/// The code table of a Huffman table: each symbol with its code, in symbol
/// order, and after them the symbol 255 with the code that would follow the
/// last one.
pub fn construct_huffman_table(sizes: &Vec<usize>, values: &Vec<u8>) -> (r: Vec<(u8, Vec<u8>)>)
    requires
        sizes@.len() <= 16,
        forall|i: int| 0 <= i < sizes@.len() ==> #[trigger] sizes@[i] <= 256,
        size_sum(sizes@) <= values@.len(),
    ensures
        r@.len() == size_sum(sizes@) + if size_sum(sizes@) > 0 { 1int } else { 0int },
        forall|l: nat, t: int|
            1 <= l <= sizes@.len() && 0 <= t < sizes@[l - 1] ==> {
                let e = #[trigger] r@[group_start(sizes@, l) + t];
                &&& e.0 == values@[group_start(sizes@, l) + t]
                &&& e.1@ == code_bits(first_code(sizes@, l) + t as nat, l)
            },
        size_sum(sizes@) > 0 ==> {
            let l = last_length(sizes@);
            &&& r@[size_sum(sizes@) as int].0 == 255
            &&& r@[size_sum(sizes@) as int].1@ == code_bits(
                first_code(sizes@, l) + sizes@[l - 1] as nat,
                l,
            )
        },
{
    let ghost s = sizes@;
    let n = sizes.len();
    let vlen = values.len();
    let mut table: Vec<(u8, Vec<u8>)> = Vec::new();
    let mut code: u64 = 0;
    let mut p: u64 = 1;
    let mut last_code: u64 = 0;
    let mut last_len: usize = 0;
    let mut l: usize = 1;
    proof {
        lemma_size_sum_bound(s, 0);
    }
    while l <= n
        invariant
            1 <= l <= n + 1,
            n == s.len(),
            s == sizes@,
            n <= 16,
            vlen == values@.len(),
            forall|i: int| 0 <= i < s.len() ==> #[trigger] s[i] <= 256,
            size_sum(s) <= values@.len(),
            table@.len() == size_sum(s.take(l - 1)),
            size_sum(s.take(l - 1)) <= 256 * (l - 1),
            code == first_code(s, l as nat),
            p == two_pow((l - 1) as nat),
            code <= size_sum(s.take(l - 1)) * p,
            p <= 0x10000,
            last_len == last_length(s.take(l - 1)),
            last_len > 0 ==> last_len <= s.len() && last_code == first_code(s, last_len as nat)
                + s[last_len - 1],
            (last_len == 0) == (size_sum(s.take(l - 1)) == 0),
            forall|l2: nat, t: int|
                1 <= l2 < l && 0 <= t < s[l2 - 1] ==> {
                    let e = #[trigger] table@[group_start(s, l2) + t];
                    &&& e.0 == values@[group_start(s, l2) + t]
                    &&& e.1@ == code_bits(first_code(s, l2) + t as nat, l2)
                },
        decreases n + 1 - l,
    {
        let count = sizes[l - 1];
        let start = table.len();
        proof {
            lemma_size_sum_step(s, (l - 1) as int);
            lemma_size_sum_prefix_le(s, l as int);
            lemma_two_pow_le((l - 1) as nat, 16);
            lemma_two_pow_positive((l - 1) as nat);
            let sp = size_sum(s.take(l - 1));
            assert(sp * p <= 4096 * 0x10000) by (nonlinear_arith)
                requires
                    sp <= 256 * 16,
                    p <= 0x10000,
            ;
        }
        let mut t: usize = 0;
        while t < count
            invariant
                t <= count,
                count == s[l - 1],
                1 <= l <= n,
                n <= 16,
                vlen == values@.len(),
                n == s.len(),
                s == sizes@,
                start == size_sum(s.take(l - 1)),
                start + count <= size_sum(s),
                size_sum(s) <= values@.len(),
                table@.len() == start + t,
                code == first_code(s, l as nat),
                code + count <= 0x1_0000_0000,
                forall|l2: nat, t2: int|
                    1 <= l2 < l && 0 <= t2 < s[l2 - 1] ==> {
                        let e = #[trigger] table@[group_start(s, l2) + t2];
                        &&& e.0 == values@[group_start(s, l2) + t2]
                        &&& e.1@ == code_bits(first_code(s, l2) + t2 as nat, l2)
                    },
                forall|t2: int|
                    0 <= t2 < t ==> {
                        let e = #[trigger] table@[start + t2];
                        &&& e.0 == values@[start + t2]
                        &&& e.1@ == code_bits(first_code(s, l as nat) + t2 as nat, l as nat)
                    },
            decreases count - t,
        {
            let bits = code_to_bits(code + t as u64, l);
            let value = values[start + t];
            let ghost before = table@;
            table.push((value, bits));
            proof {
                assert forall|l2: nat, t2: int| 1 <= l2 < l && 0 <= t2 < s[l2 - 1] implies {
                    let e = #[trigger] table@[group_start(s, l2) + t2];
                    &&& e.0 == values@[group_start(s, l2) + t2]
                    &&& e.1@ == code_bits(first_code(s, l2) + t2 as nat, l2)
                } by {
                    lemma_group_before(s, l2, l as nat, t2);
                    assert(table@[group_start(s, l2) + t2] == before[group_start(s, l2) + t2]);
                }
                assert forall|t2: int| 0 <= t2 < t + 1 implies {
                    let e = #[trigger] table@[start + t2];
                    &&& e.0 == values@[start + t2]
                    &&& e.1@ == code_bits(first_code(s, l as nat) + t2 as nat, l as nat)
                } by {
                    if t2 < t {
                        assert(table@[start + t2] == before[start + t2]);
                    }
                }
            }
            t = t + 1;
        }
        proof {
            assert forall|l2: nat, t2: int| 1 <= l2 < l + 1 && 0 <= t2 < s[l2 - 1] implies {
                let e = #[trigger] table@[group_start(s, l2) + t2];
                &&& e.0 == values@[group_start(s, l2) + t2]
                &&& e.1@ == code_bits(first_code(s, l2) + t2 as nat, l2)
            } by {
                if l2 == l {
                    assert(group_start(s, l2) == start);
                    let e = table@[start + t2];
                    assert(e == table@[start + t2]);
                }
            }
            assert(s.take(l as int).drop_last() =~= s.take(l - 1));
            assert(s.take(l as int).last() == count);
        }
        if count > 0 {
            last_code = code + count as u64;
            last_len = l;
        }
        proof {
            let sp = size_sum(s.take(l - 1));
            lemma_two_pow_le(l as nat, 16);
            lemma_two_pow_positive((l - 1) as nat);
            assert(two_pow(l as nat) == 2 * two_pow((l - 1) as nat));
            assert(code + count <= (sp + count) * p) by (nonlinear_arith)
                requires
                    code <= sp * p,
                    p >= 1,
            ;
            assert((code + count) * 2 <= (sp + count) * (p * 2)) by (nonlinear_arith)
                requires
                    code + count <= (sp + count) * p,
            ;
            assert((sp + count) * (p * 2) <= 4096 * 0x10000) by (nonlinear_arith)
                requires
                    sp + count <= 256 * l,
                    l <= 16,
                    p * 2 <= 0x10000,
            ;
        }
        code = (code + count as u64) * 2;
        p = p * 2;
        l = l + 1;
    }
    proof {
        assert(s.take(n as int) =~= s);
    }
    if last_len > 0 {
        let bits = code_to_bits(last_code, last_len);
        let ghost before = table@;
        table.push((255, bits));
        proof {
            assert forall|l2: nat, t2: int| 1 <= l2 <= n && 0 <= t2 < s[l2 - 1] implies {
                let e = #[trigger] table@[group_start(s, l2) + t2];
                &&& e.0 == values@[group_start(s, l2) + t2]
                &&& e.1@ == code_bits(first_code(s, l2) + t2 as nat, l2)
            } by {
                lemma_group_before_total(s, l2, t2);
                assert(table@[group_start(s, l2) + t2] == before[group_start(s, l2) + t2]);
            }
        }
    }
    table
}

pub proof fn lemma_size_sum_step(s: Seq<usize>, i: int)
    requires
        0 <= i < s.len(),
    ensures
        size_sum(s.take(i + 1)) == size_sum(s.take(i)) + s[i],
{
    assert(s.take(i + 1).drop_last() =~= s.take(i));
}

pub proof fn lemma_size_sum_prefix_le(s: Seq<usize>, i: int)
    requires
        0 <= i <= s.len(),
    ensures
        size_sum(s.take(i)) <= size_sum(s),
    decreases s.len() - i,
{
    if i < s.len() {
        lemma_size_sum_step(s, i);
        lemma_size_sum_prefix_le(s, i + 1);
    } else {
        assert(s.take(i) =~= s);
    }
}

pub proof fn lemma_size_sum_bound(s: Seq<usize>, i: int)
    requires
        0 <= i <= s.len(),
        forall|k: int| 0 <= k < s.len() ==> #[trigger] s[k] <= 256,
    ensures
        size_sum(s.take(i)) <= 256 * i,
    decreases i,
{
    if i > 0 {
        lemma_size_sum_bound(s, i - 1);
        lemma_size_sum_step(s, i - 1);
    } else {
        assert(s.take(0) =~= Seq::<usize>::empty());
    }
}

/// A symbol of a shorter length comes before the symbols of length `l`.
pub proof fn lemma_group_before(s: Seq<usize>, l2: nat, l: nat, t: int)
    requires
        1 <= l2 < l <= s.len(),
        0 <= t < s[l2 - 1],
    ensures
        group_start(s, l2) + t < group_start(s, l),
{
    lemma_size_sum_step(s, l2 - 1);
    lemma_monotone_start(s, (l2 + 1) as nat, l);
}

pub proof fn lemma_monotone_start(s: Seq<usize>, a: nat, b: nat)
    requires
        1 <= a <= b <= s.len() + 1,
    ensures
        group_start(s, a) <= group_start(s, b),
    decreases b - a,
{
    if a < b {
        lemma_size_sum_step(s, a - 1);
        lemma_monotone_start(s, a + 1, b);
    }
}

pub proof fn lemma_group_before_total(s: Seq<usize>, l: nat, t: int)
    requires
        1 <= l <= s.len(),
        0 <= t < s[l - 1],
    ensures
        group_start(s, l) + t < size_sum(s),
{
    lemma_size_sum_step(s, l - 1);
    lemma_size_sum_prefix_le(s, l as int);
}

pub proof fn lemma_two_pow_le(a: nat, b: nat)
    requires
        a <= b,
    ensures
        two_pow(a) <= two_pow(b),
        two_pow(16) == 0x10000,
    decreases b,
{
    reveal_with_fuel(two_pow, 17);
    if a < b {
        lemma_two_pow_le(a, (b - 1) as nat);
        lemma_two_pow_positive((b - 1) as nat);
    }
}

} // verus!
