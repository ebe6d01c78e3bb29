//! Canonical Huffman codes are prefix codes: the bits of a symbol's code,
//! read back with the same table, give that symbol and no shorter match.

use crate::huffman::{code_bits, first_code, group_start, lemma_two_pow_positive, lemma_two_pow_split, two_pow};
use crate::stream::{symbol_for, HuffmanCode};
use vstd::arithmetic::div_mod::{
    lemma_div_denominator, lemma_mod_breakdown, lemma_multiply_divide_le, lemma_multiply_divide_lt,
    lemma_small_mod,
};
use vstd::prelude::*;

verus! {

/// The number that bits spell, most significant first.
pub open spec fn seq_value(b: Seq<u8>) -> nat
    decreases b.len(),
{
    if b.len() == 0 {
        0
    } else {
        seq_value(b.drop_last()) * 2 + b.last() as nat
    }
}

/// Every length's codes end within that length.
pub open spec fn codes_fit(s: Seq<usize>) -> bool {
    forall|l: nat| 1 <= l <= s.len() ==> #[trigger] first_code(s, l) + s[l - 1] <= two_pow(l)
}

/// `bits`, read with `t`, are a whole code that names `sym`, and no shorter
/// prefix of them is a code of `t`.
pub open spec fn decodes_to(t: HuffmanCode, bits: Seq<u8>, sym: u8) -> bool {
    &&& 1 <= bits.len() <= 16
    &&& symbol_for(t, bits.len(), seq_value(bits)) == Some(sym)
    &&& forall|l: nat| 1 <= l < bits.len() ==> #[trigger] symbol_for(t, l, seq_value(bits.take(l as int))) is None
}

pub proof fn lemma_code_bits_last(x: nat, n: nat)
    requires
        n >= 1,
    ensures
        code_bits(x, n).drop_last() == code_bits(x / 2, (n - 1) as nat),
        code_bits(x, n).last() == (x % 2) as u8,
{
    let a = code_bits(x, n).drop_last();
    let b = code_bits(x / 2, (n - 1) as nat);
    assert forall|j: int| 0 <= j < n - 1 implies #[trigger] a[j] == b[j] by {
        let e = (n - 2 - j) as nat;
        lemma_two_pow_positive(e);
        assert(two_pow((n - 1 - j) as nat) == 2 * two_pow(e));
        lemma_div_denominator(x as int, 2, two_pow(e) as int);
    }
    assert(a =~= b);
    assert(two_pow(0) == 1);
    assert(x / 1 == x);
    assert(code_bits(x, n)[n - 1] == ((x / two_pow(0)) % 2) as u8);
}

/// The bits of `x` spell `x` modulo `2^n`.
pub proof fn lemma_seq_value_code_bits(x: nat, n: nat)
    ensures
        seq_value(code_bits(x, n)) == x % two_pow(n),
    decreases n,
{
    if n == 0 {
        assert(two_pow(0) == 1);
    } else {
        lemma_code_bits_last(x, n);
        lemma_seq_value_code_bits(x / 2, (n - 1) as nat);
        lemma_two_pow_positive((n - 1) as nat);
        lemma_mod_breakdown(x as int, 2, two_pow((n - 1) as nat) as int);
    }
}

/// The first `m` bits of an `n`-bit code are the code shifted right.
pub proof fn lemma_code_bits_take(x: nat, n: nat, m: nat)
    requires
        m <= n,
    ensures
        code_bits(x, n).take(m as int) == code_bits(x / two_pow((n - m) as nat), m),
{
    let a = code_bits(x, n).take(m as int);
    let b = code_bits(x / two_pow((n - m) as nat), m);
    assert forall|j: int| 0 <= j < m implies #[trigger] a[j] == b[j] by {
        let p = two_pow((n - m) as nat);
        let q = two_pow((m - 1 - j) as nat);
        lemma_two_pow_positive((n - m) as nat);
        lemma_two_pow_positive((m - 1 - j) as nat);
        lemma_two_pow_split((n - m) as nat, (m - 1 - j) as nat);
        assert((n - m) as nat + (m - 1 - j) as nat == (n - 1 - j) as nat);
        lemma_div_denominator(x as int, p as int, q as int);
    }
    assert(a =~= b);
}

/// Codes of a shorter length, with their count, shifted to a longer length
/// stay below that length's first code.
pub proof fn lemma_first_code_grows(s: Seq<usize>, l1: nat, l: nat)
    requires
        1 <= l1 < l,
        l <= s.len() + 1,
    ensures
        first_code(s, l) >= (first_code(s, l1) + s[l1 - 1]) * two_pow((l - l1) as nat),
    decreases l,
{
    let f = (first_code(s, l1) + s[l1 - 1]) as nat;
    if l == l1 + 1 {
        assert(two_pow(1) == 2 * two_pow(0));
        assert(two_pow(0) == 1);
    } else {
        lemma_first_code_grows(s, l1, (l - 1) as nat);
        let p = two_pow((l - 1 - l1) as nat);
        assert(two_pow((l - l1) as nat) == 2 * p);
        assert(first_code(s, l) == (first_code(s, (l - 1) as nat) + s[l - 2]) * 2);
        assert((first_code(s, (l - 1) as nat) + s[l - 2]) * 2 >= f * (2 * p)) by (nonlinear_arith)
            requires
                first_code(s, (l - 1) as nat) >= f * p,
        ;
    }
}

/// The code of entry `k` of length `l` reads back as that entry's symbol,
/// and none of its shorter prefixes is a code.
pub proof fn lemma_code_decodes(t: HuffmanCode, l: nat, k: int)
    requires
        t.wf(),
        codes_fit(t.sizes@),
        1 <= l <= 16,
        0 <= k < t.sizes@[l - 1],
    ensures
        decodes_to(
            t,
            code_bits(first_code(t.sizes@, l) + k as nat, l),
            t.values@[group_start(t.sizes@, l) + k],
        ),
{
    let s = t.sizes@;
    let c = first_code(s, l) + k as nat;
    let e = code_bits(c, l);
    assert(first_code(s, l) + s[l - 1] <= two_pow(l));
    lemma_two_pow_positive(l);
    lemma_seq_value_code_bits(c, l);
    lemma_small_mod(c, two_pow(l));
    assert forall|l2: nat| 1 <= l2 < l implies #[trigger] symbol_for(t, l2, seq_value(e.take(l2 as int))) is None by {
        let p = two_pow((l - l2) as nat);
        lemma_two_pow_positive((l - l2) as nat);
        lemma_two_pow_positive(l2);
        lemma_code_bits_take(c, l, l2);
        let d = c / p;
        lemma_seq_value_code_bits(d, l2);
        lemma_two_pow_split(l2, (l - l2) as nat);
        assert(l2 + (l - l2) as nat == l);
        lemma_multiply_divide_lt(c as int, p as int, two_pow(l2) as int);
        assert(two_pow(l) == two_pow(l2) * p);
        assert(p * two_pow(l2) == two_pow(l2) * p) by (nonlinear_arith);
        lemma_small_mod(d, two_pow(l2));
        lemma_first_code_grows(s, l2, l);
        let f = (first_code(s, l2) + s[l2 - 1]) as nat;
        assert(f * p <= c);
        assert(f <= d) by {
            assert(p * f <= c) by (nonlinear_arith)
                requires
                    f * p <= c,
            ;
            lemma_div_lower(c, p, f);
        }
    }
}

/// `f * p <= c` gives `f <= c / p`.
pub proof fn lemma_div_lower(c: nat, p: nat, f: nat)
    requires
        p > 0,
        p * f <= c,
    ensures
        f <= c / p,
{
    vstd::arithmetic::div_mod::lemma_div_is_ordered((p * f) as int, c as int, p as int);
    vstd::arithmetic::div_mod::lemma_div_multiples_vanish(f as int, p as int);
}

} // verus!
