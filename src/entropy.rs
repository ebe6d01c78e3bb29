//! Rewrites a scan's entropy-coded data: every symbol is decoded with the
//! old Huffman tables and written again with the new ones, and every other
//! bit is copied.

use crate::error::JpegError;
use crate::huffman::{code_bits, construct_huffman_table, first_code, group_start, two_pow};
use crate::prefix::{codes_fit, decodes_to, lemma_code_decodes};
use crate::ns1::size_sum;
use crate::segments::{SofData, SosData};
use crate::stream::{
    bits_from, bits_value, consumed, decode_at, destuffed, insert_data_padding, pack_bits, packed, produced,
    restuffed, strip_stream_padding, symbol_for, Event, HuffmanCode, RWStream,
};
use vstd::prelude::*;

verus! {

/// Code bits are bits.
pub open spec fn is_bits(b: Seq<u8>) -> bool {
    forall|i: int| 0 <= i < b.len() ==> #[trigger] b[i] <= 1
}

/// For each of the 256 symbols, its code bits; no bits where the table has
/// no code for it.
pub open spec fn encodes(t: HuffmanCode, enc: Seq<Vec<u8>>) -> bool {
    &&& enc.len() == 256
    &&& forall|v: int| 0 <= v < 256 ==> is_bits((#[trigger] enc[v])@)
    &&& forall|l: nat, k: int|
        1 <= l <= 16 && 0 <= k < t.sizes@[l - 1] ==> (#[trigger] enc[t.values@[group_start(
            t.sizes@,
            l,
        ) + k] as int])@ == code_bits(first_code(t.sizes@, l) + k as nat, l)
    &&& forall|v: int|
        0 <= v < 256 && (#[trigger] enc[v])@.len() > 0 ==> exists|l: nat, k: int|
            1 <= l <= 16 && 0 <= k < t.sizes@[l - 1] && #[trigger] t.values@[group_start(
                t.sizes@,
                l,
            ) + k] as int == v && enc[v]@ == code_bits(first_code(t.sizes@, l) + k as nat, l)
}

pub proof fn lemma_code_bits_are_bits(code: nat, len: nat)
    ensures
        is_bits(code_bits(code, len)),
{
}

/// The encoder of a table with distinct symbols: each symbol's code, by the
/// table's code lengths.
pub fn encoder_table(t: &HuffmanCode) -> (r: Vec<Vec<u8>>)
    requires
        t.wf(),
        t.values@.take(size_sum(t.sizes@) as int).no_duplicates(),
    ensures
        encodes(*t, r@),
{
    let codes = construct_huffman_table(&t.sizes, &t.values);
    let total = total_of(&t.sizes);
    let mut enc: Vec<Vec<u8>> = Vec::new();
    let mut v: usize = 0;
    while v < 256
        invariant
            v <= 256,
            enc@.len() == v,
            forall|w: int| 0 <= w < v ==> (#[trigger] enc@[w])@.len() == 0,
        decreases 256 - v,
    {
        enc.push(Vec::new());
        v = v + 1;
    }
    let ghost s = t.sizes@;
    let mut j: usize = 0;
    while j < total
        invariant
            j <= total,
            t.wf(),
            s == t.sizes@,
            codes@.len() == total + if total > 0 { 1int } else { 0int },
            t.values@.take(total as int).no_duplicates(),
            total == size_sum(s),
            total <= t.values@.len(),
            enc@.len() == 256,
            forall|l: nat, k: int|
                1 <= l <= s.len() && 0 <= k < s[l - 1] ==> {
                    let e = #[trigger] codes@[group_start(s, l) + k];
                    &&& e.0 == t.values@[group_start(s, l) + k]
                    &&& e.1@ == code_bits(first_code(s, l) + k as nat, l)
                },
            forall|w: int| 0 <= w < 256 ==> is_bits((#[trigger] enc@[w])@),
            forall|i: int|
                0 <= i < j && i < total ==> (#[trigger] enc@[t.values@[i] as int])@ == codes@[i].1@,
            forall|w: int|
                0 <= w < 256 && (#[trigger] enc@[w])@.len() > 0 ==> exists|i: int|
                    0 <= i < j && #[trigger] t.values@[i] as int == w && enc@[w]@ == codes@[i].1@,
        decreases total - j,
    {
        {
            let sym = codes[j].0;
            let bits = codes[j].1.clone();
            proof {
                lemma_entry_of_index(s, j as int);
                let (l, k) = entry_position(s, j as int);
                lemma_code_bits_are_bits(first_code(s, l) + k as nat, l);
                assert(codes@[group_start(s, l) + k].1@ == code_bits(first_code(s, l) + k as nat, l));
            }
            let ghost before = enc@;
            enc.set(sym as usize, bits);
            proof {
                assert forall|i: int| 0 <= i < j + 1 && i < total implies (#[trigger] enc@[
                    t.values@[i] as int
                ])@ == codes@[i].1@ by {
                    if i < j {
                        lemma_entry_of_index(s, i);
                        let (l, k) = entry_position(s, i);
                        assert(codes@[group_start(s, l) + k].0 == t.values@[i]);
                        lemma_entry_of_index(s, j as int);
                        let (l2, k2) = entry_position(s, j as int);
                        assert(codes@[group_start(s, l2) + k2].0 == t.values@[j as int]);
                        assert(t.values@.take(total as int)[i] != t.values@.take(total as int)[j as int]);
                    }
                }
                assert forall|w: int|
                    0 <= w < 256 && (#[trigger] enc@[w])@.len() > 0 implies exists|i: int|
                        0 <= i < j + 1 && #[trigger] t.values@[i] as int == w && enc@[w]@
                            == codes@[i].1@ by {
                    if w == sym as int {
                        assert(t.values@[j as int] as int == w);
                    } else {
                        assert(enc@[w] == before[w]);
                        let i = choose|i: int|
                            0 <= i < j && #[trigger] t.values@[i] as int == w && before[w]@
                                == codes@[i].1@;
                        assert(t.values@[i] as int == w);
                    }
                }
            }
        }
        j = j + 1;
    }
    proof {
        assert forall|l: nat, k: int|
            1 <= l <= 16 && 0 <= k < t.sizes@[l - 1] implies (#[trigger] enc@[t.values@[group_start(
            t.sizes@,
            l,
        ) + k] as int])@ == code_bits(first_code(t.sizes@, l) + k as nat, l) by {
            crate::huffman::lemma_group_before_total(s, l, k);
        }
        assert forall|v: int| 0 <= v < 256 && (#[trigger] enc@[v])@.len() > 0 implies exists|
            l: nat,
            k: int,
        |
            1 <= l <= 16 && 0 <= k < t.sizes@[l - 1] && #[trigger] t.values@[group_start(
                t.sizes@,
                l,
            ) + k] as int == v && enc@[v]@ == code_bits(first_code(t.sizes@, l) + k as nat, l) by {
            let i = choose|i: int|
                0 <= i < j && #[trigger] t.values@[i] as int == v && enc@[v]@ == codes@[i].1@;
            lemma_entry_of_index(s, i);
            let (l, k) = entry_position(s, i);
            assert(codes@[group_start(s, l) + k].1@ == code_bits(first_code(s, l) + k as nat, l));
            assert(t.values@[group_start(t.sizes@, l) + k] as int == v);
        }
    }
    enc
}

/// The sum of the counts.
fn total_of(sizes: &Vec<usize>) -> (r: usize)
    requires
        sizes@.len() <= 16,
        forall|i: int| 0 <= i < sizes@.len() ==> #[trigger] sizes@[i] <= 256,
    ensures
        r == size_sum(sizes@),
{
    let mut total: usize = 0;
    let mut i: usize = 0;
    while i < sizes.len()
        invariant
            i <= sizes@.len(),
            sizes@.len() <= 16,
            forall|k: int| 0 <= k < sizes@.len() ==> #[trigger] sizes@[k] <= 256,
            total == size_sum(sizes@.take(i as int)),
            total <= 256 * i,
        decreases sizes@.len() - i,
    {
        proof {
            crate::huffman::lemma_size_sum_step(sizes@, i as int);
        }
        total = total + sizes[i];
        i = i + 1;
    }
    assert(sizes@.take(i as int) =~= sizes@);
    total
}

/// The length and the place within it of symbol `j`.
pub open spec fn entry_position(s: Seq<usize>, j: int) -> (nat, int) {
    let l = choose|l: nat| 1 <= l <= s.len() && #[trigger] group_start(s, l) <= j < group_start(s, l) + s[l - 1];
    (l, j - group_start(s, l))
}

pub proof fn lemma_entry_of_index(s: Seq<usize>, j: int)
    requires
        0 <= j < size_sum(s),
    ensures
        ({
            let (l, k) = entry_position(s, j);
            &&& 1 <= l <= s.len()
            &&& 0 <= k < s[l - 1]
            &&& group_start(s, l) + k == j
        }),
{
    assert(s.take(s.len() as int) =~= s);
    let l = find_length(s, j, s.len());
    assert(1 <= l <= s.len() && group_start(s, l) <= j < group_start(s, l) + s[l - 1]);
}

/// A length whose symbols include symbol `j`, among the first `m` lengths.
pub proof fn find_length(s: Seq<usize>, j: int, m: nat) -> (l: nat)
    requires
        m <= s.len(),
        0 <= j < size_sum(s.take(m as int)),
    ensures
        1 <= l <= m,
        group_start(s, l) <= j < group_start(s, l) + s[l - 1],
    decreases m,
{
    crate::huffman::lemma_size_sum_step(s, m - 1);
    assert(s.take(m - 1) == s.take(m as int).take(m - 1));
    if j >= size_sum(s.take(m - 1)) {
        m
    } else {
        find_length(s, j, (m - 1) as nat)
    }
}

/// The tables of one transcoding, in slots `2 * class + index`: each slot
/// has the old code that reads the input, the new code, and the encoder of
/// the new code that writes the output.
pub struct TableSet {
    pub decode: Vec<HuffmanCode>,
    pub recode: Vec<HuffmanCode>,
    pub encode: Vec<Vec<Vec<u8>>>,
}

impl TableSet {
    /// Four slots, each with well-formed codes and the encoder of its new
    /// code.
    pub open spec fn wf(&self) -> bool {
        &&& self.decode@.len() == 4
        &&& self.recode@.len() == 4
        &&& self.encode@.len() == 4
        &&& forall|k: int| 0 <= k < 4 ==> (#[trigger] self.decode@[k]).wf()
        &&& forall|k: int|
            0 <= k < 4 ==> (#[trigger] self.recode@[k]).wf() && encodes(
                self.recode@[k],
                self.encode@[k]@,
            )
    }

    /// Four slots with no codes.
    pub fn new() -> (r: TableSet)
        ensures
            r.wf(),
    {
        let mut decode: Vec<HuffmanCode> = Vec::new();
        let mut recode: Vec<HuffmanCode> = Vec::new();
        let mut encode: Vec<Vec<Vec<u8>>> = Vec::new();
        let mut k: usize = 0;
        while k < 4
            invariant
                k <= 4,
                decode@.len() == k,
                recode@.len() == k,
                encode@.len() == k,
                forall|i: int| 0 <= i < k ==> (#[trigger] decode@[i]).wf(),
                forall|i: int|
                    0 <= i < k ==> (#[trigger] recode@[i]).wf() && encodes(recode@[i], encode@[i]@),
            decreases 4 - k,
        {
            let code = HuffmanCode::empty();
            let again = HuffmanCode::empty();
            let enc = encoder_table(&again);
            decode.push(code);
            recode.push(again);
            encode.push(enc);
            k = k + 1;
        }
        TableSet { decode, recode, encode }
    }

    /// Puts the old code of a table, its new code and the encoder of the new
    /// code in slot `slot`; the new code's symbols must be distinct.
    pub fn set(&mut self, slot: usize, decode: HuffmanCode, recode: HuffmanCode)
        requires
            old(self).wf(),
            slot < 4,
            decode.wf(),
            recode.wf(),
            recode.values@.take(size_sum(recode.sizes@) as int).no_duplicates(),
        ensures
            final(self).wf(),
            final(self).decode@ == old(self).decode@.update(slot as int, decode),
            final(self).recode@ == old(self).recode@.update(slot as int, recode),
    {
        let encode = encoder_table(&recode);
        self.decode.set(slot, decode);
        self.recode.set(slot, recode);
        self.encode.set(slot, encode);
    }
}

/// Every symbol in the log was read by the old code of one of the slots,
/// and written in the new code of the same slot for that symbol.
pub open spec fn faithful(evs: Seq<Event>, t: TableSet) -> bool {
    forall|i: int|
        0 <= i < evs.len() ==> match #[trigger] evs[i] {
            Event::Coded(len, code, sym, emitted) => exists|k: int|
                0 <= k < 4 && symbol_for(t.decode@[k], len, code) == Some(sym) && emitted
                    == t.encode@[k]@[sym as int]@ && emitted.len() > 0,
            _ => true,
        }
}

pub proof fn lemma_faithful_coded(evs: Seq<Event>, t: TableSet, k: int, len: nat, code: nat, sym: u8)
    requires
        faithful(evs, t),
        0 <= k < 4,
        symbol_for(t.decode@[k], len, code) == Some(sym),
        t.encode@[k]@[sym as int]@.len() > 0,
    ensures
        faithful(evs.push(Event::Coded(len, code, sym, t.encode@[k]@[sym as int]@)), t),
{
    let e = Event::Coded(len, code, sym, t.encode@[k]@[sym as int]@);
    let n = evs.push(e);
    assert forall|i: int| 0 <= i < n.len() implies match #[trigger] n[i] {
        Event::Coded(len, code, sym, emitted) => exists|k: int|
            0 <= k < 4 && symbol_for(t.decode@[k], len, code) == Some(sym) && emitted
                == t.encode@[k]@[sym as int]@ && emitted.len() > 0,
        _ => true,
    } by {
        if i < evs.len() {
            assert(n[i] == evs[i]);
        }
    }
}

pub proof fn lemma_faithful_other(evs: Seq<Event>, t: TableSet, e: Event)
    requires
        faithful(evs, t),
        !(e is Coded),
    ensures
        faithful(evs.push(e), t),
{
    let n = evs.push(e);
    assert forall|i: int| 0 <= i < n.len() implies match #[trigger] n[i] {
        Event::Coded(len, code, sym, emitted) => exists|k: int|
            0 <= k < 4 && symbol_for(t.decode@[k], len, code) == Some(sym) && emitted
                == t.encode@[k]@[sym as int]@ && emitted.len() > 0,
        _ => true,
    } by {
        if i < evs.len() {
            assert(n[i] == evs[i]);
        }
    }
}

/// `2^r - 1` for a run length below 16.
fn run_base(r: u8) -> (v: u32)
    requires
        r < 16,
    ensures
        v + 1 == two_pow(r as nat),
        v < 0x8000,
{
    let mut p: u32 = 1;
    let mut i: u8 = 0;
    while i < r
        invariant
            i <= r,
            r < 16,
            p == two_pow(i as nat),
            p <= 0x8000,
        decreases r - i,
    {
        proof {
            crate::stream::lemma_two_pow_le_16(i as nat);
            crate::huffman::lemma_two_pow_le((i + 1) as nat, 15);
            crate::huffman::lemma_two_pow_15();
        }
        p = p * 2;
        i = i + 1;
    }
    proof {
        crate::huffman::lemma_two_pow_positive(r as nat);
    }
    p - 1
}

/// The symbol read with slot `slot` from `pos`: its code length and symbol,
/// when the old code matches and the new code has the symbol.
pub open spec fn read_symbol(t: TableSet, slot: int, input: Seq<u8>, pos: nat) -> Option<(nat, u8)> {
    match decode_at(t.decode@[slot], input, pos as int, 1) {
        Some((l, s)) => if t.encode@[slot]@[s as int]@.len() > 0 {
            Some((l, s))
        } else {
            None
        },
        None => None,
    }
}

/// The step that reads symbol `s` with a code of length `l` at `pos` and
/// writes its new code.
pub open spec fn coded(t: TableSet, slot: int, input: Seq<u8>, pos: nat, l: nat, s: u8) -> Event {
    Event::Coded(l, bits_value(input, pos as int, l), s, t.encode@[slot]@[s as int]@)
}

/// The step that copies `n` bits from `pos`.
pub open spec fn copied(input: Seq<u8>, pos: nat, n: nat) -> Event {
    Event::Copied(bits_from(input, pos as int, n))
}

/// The AC part of a block from coefficient `k`, as spec 4.E reads it:
/// the position, the log, and the end-of-block run after it; `None` when
/// the bits run out or a code does not match.
pub open spec fn ac_part(
    t: TableSet,
    ac: int,
    se: nat,
    input: Seq<u8>,
    pos: nat,
    evs: Seq<Event>,
    k: nat,
) -> Option<(nat, Seq<Event>, nat)>
    decreases 80 - k,
{
    if k >= se || se > 64 {
        Some((pos, evs, 0))
    } else {
        match read_symbol(t, ac, input, pos) {
            None => None,
            Some((l, b)) => {
                let p1 = pos + l;
                let e1 = evs.push(coded(t, ac, input, pos, l, b));
                let r = (b / 16) as nat;
                let s = (b % 16) as nat;
                if s == 0 {
                    if r == 15 {
                        ac_part(t, ac, se, input, p1, e1, k + 16)
                    } else if r == 0 {
                        Some((p1, e1, 0))
                    } else if p1 + r > input.len() * 8 {
                        None
                    } else {
                        Some(
                            (
                                p1 + r,
                                e1.push(copied(input, p1, r)),
                                (two_pow(r) - 1 + bits_value(input, p1 as int, r)) as nat,
                            ),
                        )
                    }
                } else if k + r >= se {
                    Some((p1, e1, 0))
                } else if p1 + s > input.len() * 8 {
                    None
                } else {
                    ac_part(t, ac, se, input, p1 + s, e1.push(copied(input, p1, s)), k + r + 1)
                }
            },
        }
    }
}

/// The DC part of a block: the category symbol and its bits.
pub open spec fn dc_part(t: TableSet, dc: int, input: Seq<u8>, pos: nat, evs: Seq<Event>) -> Option<
    (nat, Seq<Event>),
> {
    match read_symbol(t, dc, input, pos) {
        None => None,
        Some((l, v)) => {
            let p1 = pos + l;
            let e1 = evs.push(coded(t, dc, input, pos, l, v));
            if v > 11 {
                None
            } else if v == 0 {
                Some((p1, e1))
            } else if p1 + v > input.len() * 8 {
                None
            } else {
                Some(((p1 + v) as nat, e1.push(copied(input, p1, v as nat))))
            }
        },
    }
}

/// One block, as spec 4.E reads it: the DC part when the scan starts at
/// coefficient 0, then either one less of a pending end-of-block run or the
/// AC part.
pub open spec fn block_part(
    t: TableSet,
    dc: int,
    ac: int,
    ss: nat,
    se: nat,
    input: Seq<u8>,
    pos: nat,
    evs: Seq<Event>,
    eob: nat,
) -> Option<(nat, Seq<Event>, nat)> {
    let first = if ss == 0 {
        dc_part(t, dc, input, pos, evs)
    } else {
        Some((pos, evs))
    };
    match first {
        None => None,
        Some((p, e)) => {
            let k: nat = if ss > 1 { ss } else { 1 };
            if k >= se {
                Some((p, e, eob))
            } else if eob > 0 {
                Some((p, e, (eob - 1) as nat))
            } else {
                ac_part(t, ac, se, input, p, e, k)
            }
        },
    }
}

/// One symbol of a block's AC part at coefficient `index`: the next
/// coefficient when the part goes on, or the end-of-block run when it ends.
#[verifier::rlimit(60)]
fn ac_step(stream: &mut RWStream, tables: &TableSet, ac: usize, spectral_end: u32, index: u32) -> (r:
    Result<(u32, Option<u32>), JpegError>)
    requires
        old(stream).wf(),
        tables.wf(),
        faithful(old(stream).events@, *tables),
        ac < 4,
        spectral_end <= 64,
        index < spectral_end,
    ensures
        final(stream).wf(),
        final(stream).input == old(stream).input,
        r is Ok ==> faithful(final(stream).events@, *tables),
        r is Err ==> ac_part(
            *tables,
            ac as int,
            spectral_end as nat,
            old(stream).input@,
            old(stream).pos as nat,
            old(stream).events@,
            index as nat,
        ) is None,
        r matches Err(e) ==> e == JpegError::BitstreamError,
        r matches Ok((next, None)) ==> index < next <= 80 && ac_part(
            *tables,
            ac as int,
            spectral_end as nat,
            old(stream).input@,
            old(stream).pos as nat,
            old(stream).events@,
            index as nat,
        ) == ac_part(
            *tables,
            ac as int,
            spectral_end as nat,
            final(stream).input@,
            final(stream).pos as nat,
            final(stream).events@,
            next as nat,
        ),
        r matches Ok((_, Some(run))) ==> run < 0x10000 && ac_part(
            *tables,
            ac as int,
            spectral_end as nat,
            old(stream).input@,
            old(stream).pos as nat,
            old(stream).events@,
            index as nat,
        ) == Some((final(stream).pos as nat, final(stream).events@, run as nat)),
{
    let ghost t = *tables;
    let ghost input = stream.input@;
    let ghost before = *stream;
    assert(tables.recode@[ac as int].wf() && encodes(tables.recode@[ac as int], tables.encode@[ac as int]@));
    let byte = match stream.read_huffman(&tables.decode[ac], &tables.encode[ac]) {
        Ok(v) => v,
        Err(e) => {
            return Err(e);
        },
    };
    let ghost l = (stream.pos - before.pos) as nat;
    proof {
        assert(read_symbol(t, ac as int, input, before.pos as nat) == Some((l, byte)));
        assert(stream.events@ == before.events@.push(coded(t, ac as int, input, before.pos as nat, l, byte)));
        lemma_faithful_coded(
            before.events@,
            *tables,
            ac as int,
            l,
            bits_value(before.input@, before.pos as int, l),
            byte,
        );
    }
    let r = byte >> 4u8;
    let s = byte & 0x0fu8;
    assert(r < 16 && s < 16 && r == byte / 16 && s == byte % 16) by (bit_vector)
        requires
            r == byte >> 4u8,
            s == byte & 0x0fu8,
    ;
    if s == 0 {
        if r == 15 {
            Ok((index + 16, None))
        } else {
            let base = run_base(r);
            if r > 0 {
                let ghost mid = stream.events@;
                let extra = match stream.read(r as usize) {
                    Ok(v) => v,
                    Err(e) => {
                        return Err(e);
                    },
                };
                proof {
                    lemma_faithful_other(mid, *tables, stream.events@.last());
                    assert(stream.events@ == mid.push(stream.events@.last()));
                    crate::huffman::lemma_two_pow_le(r as nat, 15);
                    crate::huffman::lemma_two_pow_15();
                }
                Ok((index, Some(base + extra)))
            } else {
                proof {
                    assert(two_pow(0) == 1);
                }
                Ok((index, Some(base)))
            }
        }
    } else {
        let next = index + r as u32;
        if next >= spectral_end {
            Ok((index, Some(0)))
        } else {
            let ghost mid = stream.events@;
            if let Err(e) = stream.read(s as usize) {
                return Err(e);
            }
            proof {
                lemma_faithful_other(mid, *tables, stream.events@.last());
                assert(stream.events@ == mid.push(stream.events@.last()));
            }
            Ok((next + 1, None))
        }
    }
}

/// Copies one block: its DC category and bits, then its AC symbols and
/// bits, re-encoding each symbol.
#[verifier::rlimit(60)]
pub fn decode_block(
    stream: &mut RWStream,
    tables: &TableSet,
    dc: usize,
    ac: usize,
    spectral_start: u32,
    spectral_end: u32,
    eob_run: &mut u32,
) -> (r: Result<(), JpegError>)
    requires
        old(stream).wf(),
        tables.wf(),
        faithful(old(stream).events@, *tables),
        dc < 4,
        ac < 4,
        spectral_end <= 64,
        *old(eob_run) < 0x10000,
    ensures
        final(stream).wf(),
        final(stream).input == old(stream).input,
        r is Ok <==> block_part(
            *tables,
            dc as int,
            ac as int,
            spectral_start as nat,
            spectral_end as nat,
            old(stream).input@,
            old(stream).pos as nat,
            old(stream).events@,
            *old(eob_run) as nat,
        ) is Some,
        r is Ok ==> block_part(
            *tables,
            dc as int,
            ac as int,
            spectral_start as nat,
            spectral_end as nat,
            old(stream).input@,
            old(stream).pos as nat,
            old(stream).events@,
            *old(eob_run) as nat,
        ) == Some((final(stream).pos as nat, final(stream).events@, *final(eob_run) as nat)),
        r is Ok ==> faithful(final(stream).events@, *tables) && *final(eob_run) < 0x10000,
        r matches Err(e) ==> e == JpegError::BitstreamError,
{
    let ghost t = *tables;
    let ghost input = stream.input@;
    let ghost total = block_part(
        t,
        dc as int,
        ac as int,
        spectral_start as nat,
        spectral_end as nat,
        input,
        stream.pos as nat,
        stream.events@,
        *eob_run as nat,
    );
    assert(total == block_part(*tables, dc as int, ac as int, spectral_start as nat, spectral_end as nat, old(stream).input@, old(stream).pos as nat, old(stream).events@, *old(eob_run) as nat));
    if spectral_start == 0 {
        let ghost before = *stream;
        assert(tables.recode@[dc as int].wf() && encodes(tables.recode@[dc as int], tables.encode@[dc as int]@));
        let value = match stream.read_huffman(&tables.decode[dc], &tables.encode[dc]) {
            Ok(v) => v,
            Err(e) => {
                return Err(e);
            },
        };
        proof {
            let l = (stream.pos - before.pos) as nat;
            assert(stream.events@ == before.events@.push(coded(t, dc as int, input, before.pos as nat, l, value)));
            lemma_faithful_coded(
                before.events@,
                *tables,
                dc as int,
                l,
                bits_value(before.input@, before.pos as int, l),
                value,
            );
        }
        if value > 11 {
            return Err(JpegError::BitstreamError);
        }
        if value > 0 {
            let ghost mid = stream.events@;
            if let Err(e) = stream.read(value as usize) {
                return Err(e);
            }
            proof {
                lemma_faithful_other(mid, *tables, stream.events@.last());
                assert(stream.events@ == mid.push(stream.events@.last()));
            }
        }
    }
    let mut index: u32 = if spectral_start > 1 { spectral_start } else { 1 };
    if index >= spectral_end {
        return Ok(());
    }
    if index < spectral_end && *eob_run > 0 {
        *eob_run = *eob_run - 1;
        return Ok(());
    }
    let mut done = false;
    while !done && index < spectral_end
        invariant
            stream.wf(),
            stream.input@ == input,
            stream.input == old(stream).input,
            t == *tables,
            tables.wf(),
            faithful(stream.events@, *tables),
            ac < 4,
            spectral_end <= 64,
            index <= 80,
            *eob_run < 0x10000,
            !done ==> *eob_run == 0 && ac_part(
                t,
                ac as int,
                spectral_end as nat,
                input,
                stream.pos as nat,
                stream.events@,
                index as nat,
            ) == total,
            done ==> total == Some((stream.pos as nat, stream.events@, *eob_run as nat)),
            total == block_part(
                *tables,
                dc as int,
                ac as int,
                spectral_start as nat,
                spectral_end as nat,
                old(stream).input@,
                old(stream).pos as nat,
                old(stream).events@,
                *old(eob_run) as nat,
            ),
        decreases 81 - index - if done { 1int } else { 0int },
    {
        match ac_step(stream, tables, ac, spectral_end, index) {
            Ok((next, None)) => {
                index = next;
            },
            Ok((_, Some(run))) => {
                *eob_run = run;
                done = true;
            },
            Err(e) => {
                return Err(e);
            },
        }
    }
    Ok(())
}

/// A scan component with what its blocks need: its sampling factors and
/// its two table slots.
#[derive(Clone, Copy, Debug)]
pub struct ComponentInfo {
    pub h_factor: usize,
    pub v_factor: usize,
    pub dc_slot: usize,
    pub ac_slot: usize,
}

/// `j` is the first frame component with id `id`.
pub open spec fn first_with_id(c: Seq<crate::segments::Component>, id: u32, j: int) -> bool {
    &&& 0 <= j < c.len()
    &&& c[j].component_id == id
    &&& forall|l: int| 0 <= l < j ==> c[l].component_id != id
}

/// Where the first frame component with id `id` stands.
pub open spec fn frame_component(c: Seq<crate::segments::Component>, id: u32) -> int {
    choose|j: int| first_with_id(c, id, j)
}

pub proof fn lemma_first_with_id_unique(c: Seq<crate::segments::Component>, id: u32, j: int)
    requires
        first_with_id(c, id, j),
    ensures
        frame_component(c, id) == j,
{
    let i = frame_component(c, id);
    assert(first_with_id(c, id, i));
    if i < j {
        assert(c[i].component_id != id);
    }
    if j < i {
        assert(c[j].component_id != id);
    }
}

/// A scan component is usable: the frame has a component with its id, with
/// sampling factors from 1 to 15, and its DC table index is below 4 and its
/// AC table index below 2.
pub open spec fn component_usable(frame: SofData, sc: crate::segments::ScanComponentData) -> bool {
    &&& exists|j: int| first_with_id(frame.components@, sc.component_id, j)
    &&& 1 <= frame.components@[frame_component(frame.components@, sc.component_id)].h_factor <= 15
    &&& 1 <= frame.components@[frame_component(frame.components@, sc.component_id)].v_factor <= 15
    &&& sc.dc_table_index < 4
    &&& sc.ac_table_index < 2
}

/// The scan has a component, and every one of them is usable.
pub open spec fn components_ok(frame: SofData, scan: SosData) -> bool {
    &&& scan.components@.len() > 0
    &&& forall|k: int|
        0 <= k < scan.components@.len() ==> component_usable(frame, #[trigger] scan.components@[k])
}

/// What the blocks of a scan component need.
pub open spec fn info_of(frame: SofData, sc: crate::segments::ScanComponentData) -> ComponentInfo {
    let f = frame.components@[frame_component(frame.components@, sc.component_id)];
    ComponentInfo {
        h_factor: f.h_factor as usize,
        v_factor: f.v_factor as usize,
        dc_slot: sc.dc_table_index,
        ac_slot: (2 + sc.ac_table_index) as usize,
    }
}

/// The component information of each scan component.
pub open spec fn infos_of(frame: SofData, scan: SosData) -> Seq<ComponentInfo> {
    Seq::new(scan.components@.len(), |k: int| info_of(frame, scan.components@[k]))
}

/// For each scan component, the frame component with its id and the slots
/// of its tables; fails when a component or a slot is missing, or a factor
/// is zero.
pub fn get_components_info(frame: &SofData, scan: &SosData) -> (r: Result<Vec<ComponentInfo>, JpegError>)
    ensures
        r matches Ok(info) ==> {
            &&& info@.len() == scan.components@.len()
            &&& info@.len() > 0
            &&& forall|k: int|
                0 <= k < info@.len() ==> {
                    let c = #[trigger] info@[k];
                    &&& 1 <= c.h_factor <= 15
                    &&& 1 <= c.v_factor <= 15
                    &&& c.dc_slot < 4
                    &&& c.ac_slot < 4
                    &&& c.dc_slot == scan.components@[k].dc_table_index
                    &&& c.ac_slot == 2 + scan.components@[k].ac_table_index
                    &&& exists|j: int|
                        0 <= j < frame.components@.len() && first_with_id(
                            frame.components@,
                            scan.components@[k].component_id,
                            j,
                        ) && c.h_factor == frame.components@[j].h_factor
                            && c.v_factor == frame.components@[j].v_factor
                }
        },
        r is Ok <==> components_ok(*frame, *scan),
        r matches Ok(info) ==> info@ == infos_of(*frame, *scan),
        r matches Err(e) ==> e == JpegError::ParseError,
{
    if scan.components.len() == 0 {
        return Err(JpegError::ParseError);
    }
    let mut info: Vec<ComponentInfo> = Vec::new();
    let mut k: usize = 0;
    while k < scan.components.len()
        invariant
            k <= scan.components@.len(),
            scan.components@.len() > 0,
            info@.len() == k,
            forall|j: int| 0 <= j < k ==> component_usable(*frame, #[trigger] scan.components@[j]),
            forall|j: int| 0 <= j < k ==> #[trigger] info@[j] == info_of(*frame, scan.components@[j]),
            forall|j: int|
                0 <= j < k ==> {
                    let c = #[trigger] info@[j];
                    &&& 1 <= c.h_factor <= 15
                    &&& 1 <= c.v_factor <= 15
                    &&& c.dc_slot < 4
                    &&& c.ac_slot < 4
                    &&& c.dc_slot == scan.components@[j].dc_table_index
                    &&& c.ac_slot == 2 + scan.components@[j].ac_table_index
                    &&& exists|i: int|
                        0 <= i < frame.components@.len() && first_with_id(
                            frame.components@,
                            scan.components@[j].component_id,
                            i,
                        ) && c.h_factor == frame.components@[i].h_factor
                            && c.v_factor == frame.components@[i].v_factor
                },
        decreases scan.components@.len() - k,
    {
        let sc = &scan.components[k];
        let mut i: usize = 0;
        while i < frame.components.len() && frame.components[i].component_id != sc.component_id
            invariant
                i <= frame.components@.len(),
                forall|l: int| 0 <= l < i ==> frame.components@[l].component_id != sc.component_id,
            decreases frame.components@.len() - i,
        {
            i = i + 1;
        }
        if i == frame.components.len() {
            proof {
                assert(!component_usable(*frame, scan.components@[k as int]));
            }
            return Err(JpegError::ParseError);
        }
        let index = i;
        let fc = &frame.components[index];
        assert(first_with_id(frame.components@, sc.component_id, index as int));
        proof {
            lemma_first_with_id_unique(frame.components@, sc.component_id, index as int);
        }
        if fc.h_factor == 0 || fc.h_factor > 15 || fc.v_factor == 0 || fc.v_factor > 15
            || sc.dc_table_index >= 4 || sc.ac_table_index >= 2 {
            proof {
                assert(!component_usable(*frame, scan.components@[k as int]));
            }
            return Err(JpegError::ParseError);
        }
        info.push(
            ComponentInfo {
                h_factor: fc.h_factor as usize,
                v_factor: fc.v_factor as usize,
                dc_slot: sc.dc_table_index,
                ac_slot: 2 + sc.ac_table_index,
            },
        );
        assert(info@[k as int].h_factor == frame.components@[index as int].h_factor);
        assert(info@[k as int].v_factor == frame.components@[index as int].v_factor);
        assert(info@[k as int] == info_of(*frame, scan.components@[k as int]));
        k = k + 1;
    }
    assert(info@ =~= infos_of(*frame, *scan));
    Ok(info)
}

/// The largest horizontal sampling factor, and at least one.
pub open spec fn max_h(info: Seq<ComponentInfo>) -> nat
    decreases info.len(),
{
    if info.len() == 0 {
        1
    } else {
        let m = max_h(info.drop_last());
        if info.last().h_factor > m { info.last().h_factor as nat } else { m }
    }
}

/// The largest vertical sampling factor, and at least one.
pub open spec fn max_v(info: Seq<ComponentInfo>) -> nat
    decreases info.len(),
{
    if info.len() == 0 {
        1
    } else {
        let m = max_v(info.drop_last());
        if info.last().v_factor > m { info.last().v_factor as nat } else { m }
    }
}

/// `a / b` rounded up.
pub open spec fn div_ceil(a: nat, b: nat) -> nat {
    ((a + b - 1) / (b as int)) as nat
}

/// The number of MCUs across and down: the image's size over the largest
/// sampling factors' 8-pixel blocks, rounded up.
pub fn get_mcu_range(frame: &SofData, info: &Vec<ComponentInfo>) -> (r: (usize, usize))
    requires
        info@.len() > 0,
        forall|k: int|
            0 <= k < info@.len() ==> 1 <= (#[trigger] info@[k]).h_factor <= 15 && 1
                <= info@[k].v_factor <= 15,
    ensures
        r.0 == div_ceil((frame.width % 0x10000) as nat, 8 * max_h(info@)),
        r.1 == div_ceil((frame.height % 0x10000) as nat, 8 * max_v(info@)),
        r.0 <= 0x10000,
        r.1 <= 0x10000,
{
    let mut h_max: usize = 1;
    let mut v_max: usize = 1;
    let mut k: usize = 0;
    while k < info.len()
        invariant
            k <= info@.len(),
            1 <= h_max <= 15,
            1 <= v_max <= 15,
            h_max == max_h(info@.take(k as int)),
            v_max == max_v(info@.take(k as int)),
            forall|j: int|
                0 <= j < info@.len() ==> 1 <= (#[trigger] info@[j]).h_factor <= 15 && 1
                    <= info@[j].v_factor <= 15,
        decreases info@.len() - k,
    {
        assert(info@.take(k + 1).drop_last() =~= info@.take(k as int));
        if info[k].h_factor > h_max {
            h_max = info[k].h_factor;
        }
        if info[k].v_factor > v_max {
            v_max = info[k].v_factor;
        }
        k = k + 1;
    }
    assert(info@.take(k as int) =~= info@);
    let width = (frame.width % 0x10000) as usize;
    let height = (frame.height % 0x10000) as usize;
    let across = (width + h_max * 8 - 1) / (h_max * 8);
    let down = (height + v_max * 8 - 1) / (v_max * 8);
    assert(across <= 0x10000) by (nonlinear_arith)
        requires
            across == (width + h_max * 8 - 1) / (h_max * 8),
            width < 0x10000,
            h_max >= 1,
    ;
    assert(down <= 0x10000) by (nonlinear_arith)
        requires
            down == (height + v_max * 8 - 1) / (v_max * 8),
            height < 0x10000,
            v_max >= 1,
    ;
    (across, down)
}

/// The table slots of the blocks of one MCU, in order: each scan
/// component's `v * h` blocks.
pub open spec fn block_slots(info: Seq<ComponentInfo>) -> Seq<(usize, usize)>
    decreases info.len(),
{
    if info.len() == 0 {
        seq![]
    } else {
        block_slots(info.drop_last()) + Seq::new(
            (info.last().v_factor * info.last().h_factor) as nat,
            |i: int| (info.last().dc_slot, info.last().ac_slot),
        )
    }
}

/// The blocks of one MCU from block `j` on.
pub open spec fn blocks_part(
    t: TableSet,
    slots: Seq<(usize, usize)>,
    j: nat,
    ss: nat,
    se: nat,
    input: Seq<u8>,
    pos: nat,
    evs: Seq<Event>,
    eob: nat,
) -> Option<(nat, Seq<Event>, nat)>
    decreases slots.len() - j,
{
    if j >= slots.len() {
        Some((pos, evs, eob))
    } else {
        match block_part(t, slots[j as int].0 as int, slots[j as int].1 as int, ss, se, input, pos, evs, eob) {
            None => None,
            Some((p, e, b)) => blocks_part(t, slots, j + 1, ss, se, input, p, e, b),
        }
    }
}

/// Both sides go to a byte boundary: the input skips its bits, the output
/// is padded with zero bits.
pub open spec fn align_step(input: Seq<u8>, pos: nat, evs: Seq<Event>) -> (nat, Seq<Event>) {
    let p1: nat = if pos % 8 == 0 { pos } else { (pos + 8 - pos % 8) as nat };
    let n = produced(evs).len();
    let pad: nat = ((8 - n % 8) % 8) as nat;
    (p1, evs.push(Event::Aligned(bits_from(input, pos as int, (p1 - pos) as nat), pad)))
}

/// A restart boundary: align, note the output byte where the marker goes,
/// and copy the marker, `0xFF` and its code.
pub open spec fn restart_part(input: Seq<u8>, pos: nat, evs: Seq<Event>, markers: Seq<usize>) -> Option<
    (nat, Seq<Event>, Seq<usize>),
> {
    let (p1, e1) = align_step(input, pos, evs);
    let m1 = markers.push((produced(e1).len() / 8) as usize);
    if p1 + 8 > input.len() * 8 {
        None
    } else if bits_value(input, p1 as int, 8) != 0xFF {
        None
    } else if p1 + 16 > input.len() * 8 {
        None
    } else {
        Some(((p1 + 16) as nat, e1.push(copied(input, p1, 8)).push(copied(input, (p1 + 8) as nat, 8)), m1))
    }
}

/// The last `m` MCUs of a scan, each after a restart boundary when the
/// interval `ri` has run out: the position, the log and the marker places
/// after them.
pub open spec fn mcus_part(
    t: TableSet,
    slots: Seq<(usize, usize)>,
    ss: nat,
    se: nat,
    ri: nat,
    input: Seq<u8>,
    pos: nat,
    evs: Seq<Event>,
    eob: nat,
    left: nat,
    markers: Seq<usize>,
    m: nat,
) -> Option<(nat, Seq<Event>, Seq<usize>)>
    decreases m,
{
    if m == 0 {
        Some((pos, evs, markers))
    } else {
        let pre: Option<(nat, Seq<Event>, nat, nat, Seq<usize>)> = if ri > 0 {
            if left == 0 {
                match restart_part(input, pos, evs, markers) {
                    None => None,
                    Some((p, e, mk)) => Some((p, e, 0, (ri - 1) as nat, mk)),
                }
            } else {
                Some((pos, evs, eob, (left - 1) as nat, markers))
            }
        } else {
            Some((pos, evs, eob, left, markers))
        };
        match pre {
            None => None,
            Some((p, e, b, l, mk)) => match blocks_part(t, slots, 0, ss, se, input, p, e, b) {
                None => None,
                Some((p2, e2, b2)) => mcus_part(
                    t,
                    slots,
                    ss,
                    se,
                    ri,
                    input,
                    p2,
                    e2,
                    b2,
                    l,
                    mk,
                    (m - 1) as nat,
                ),
            },
        }
    }
}

/// A whole scan, as spec 4.E reads it: the MCU grid over the destuffed
/// entropy-coded data, each MCU's blocks in component order, restart
/// boundaries every `ri` MCUs, and a final byte boundary. The log of steps
/// and the output bytes where restart markers start; `None` when a
/// component is unusable, or the data ends or holds a code that does not
/// match.
pub open spec fn scan_part(frame: SofData, scan: SosData, ri: nat, t: TableSet) -> Option<
    (Seq<Event>, Seq<usize>),
> {
    let info = infos_of(frame, scan);
    let raw = destuffed(scan.image_data@);
    let across = div_ceil((frame.width % 0x10000) as nat, 8 * max_h(info));
    let down = div_ceil((frame.height % 0x10000) as nat, 8 * max_v(info));
    if !components_ok(frame, scan) || raw.len() * 8 > usize::MAX {
        None
    } else {
        match mcus_part(
            t,
            block_slots(info),
            scan.spectral_start as nat,
            scan.spectral_end as nat,
            ri,
            raw,
            0,
            seq![],
            0,
            ri,
            seq![],
            across * down,
        ) {
            None => None,
            Some((p, e, mk)) => Some((align_step(raw, p, e).1, mk)),
        }
    }
}

/// The table slots of one MCU's blocks.
pub fn get_block_slots(info: &Vec<ComponentInfo>) -> (r: Vec<(usize, usize)>)
    requires
        forall|k: int|
            0 <= k < info@.len() ==> 1 <= (#[trigger] info@[k]).h_factor <= 15 && 1
                <= info@[k].v_factor <= 15 && info@[k].dc_slot < 4 && info@[k].ac_slot < 4,
    ensures
        r@ == block_slots(info@),
        forall|j: int| 0 <= j < r@.len() ==> (#[trigger] r@[j]).0 < 4 && r@[j].1 < 4,
{
    let mut slots: Vec<(usize, usize)> = Vec::new();
    let mut k: usize = 0;
    while k < info.len()
        invariant
            k <= info@.len(),
            forall|c: int|
                0 <= c < info@.len() ==> 1 <= (#[trigger] info@[c]).h_factor <= 15 && 1
                    <= info@[c].v_factor <= 15 && info@[c].dc_slot < 4 && info@[c].ac_slot < 4,
            slots@ == block_slots(info@.take(k as int)),
            forall|j: int| 0 <= j < slots@.len() ==> (#[trigger] slots@[j]).0 < 4 && slots@[j].1 < 4,
        decreases info@.len() - k,
    {
        let c = info[k];
        assert(1 <= c.h_factor <= 15 && 1 <= c.v_factor <= 15);
        assert(c.v_factor * c.h_factor <= 225) by (nonlinear_arith)
            requires
                1 <= c.h_factor <= 15,
                1 <= c.v_factor <= 15,
        ;
        let count = c.v_factor * c.h_factor;
        let ghost base = slots@;
        let mut i: usize = 0;
        while i < count
            invariant
                i <= count,
                c.dc_slot < 4 && c.ac_slot < 4,
                forall|j: int| 0 <= j < slots@.len() ==> (#[trigger] slots@[j]).0 < 4 && slots@[j].1 < 4,
                slots@ == base + Seq::new(i as nat, |x: int| (c.dc_slot, c.ac_slot)),
            decreases count - i,
        {
            slots.push((c.dc_slot, c.ac_slot));
            assert(slots@ =~= base + Seq::new((i + 1) as nat, |x: int| (c.dc_slot, c.ac_slot)));
            i = i + 1;
        }
        assert(info@.take(k + 1).drop_last() =~= info@.take(k as int));
        k = k + 1;
    }
    assert(info@.take(k as int) =~= info@);
    slots
}

/// The blocks of one MCU.
fn decode_mcu(
    stream: &mut RWStream,
    tables: &TableSet,
    slots: &Vec<(usize, usize)>,
    spectral_start: u32,
    spectral_end: u32,
    eob_run: &mut u32,
) -> (r: Result<(), JpegError>)
    requires
        old(stream).wf(),
        tables.wf(),
        faithful(old(stream).events@, *tables),
        forall|j: int| 0 <= j < slots@.len() ==> (#[trigger] slots@[j]).0 < 4 && slots@[j].1 < 4,
        spectral_end <= 64,
        *old(eob_run) < 0x10000,
    ensures
        final(stream).wf(),
        final(stream).input == old(stream).input,
        r is Ok <==> blocks_part(
            *tables,
            slots@,
            0,
            spectral_start as nat,
            spectral_end as nat,
            old(stream).input@,
            old(stream).pos as nat,
            old(stream).events@,
            *old(eob_run) as nat,
        ) is Some,
        r is Ok ==> blocks_part(
            *tables,
            slots@,
            0,
            spectral_start as nat,
            spectral_end as nat,
            old(stream).input@,
            old(stream).pos as nat,
            old(stream).events@,
            *old(eob_run) as nat,
        ) == Some((final(stream).pos as nat, final(stream).events@, *final(eob_run) as nat)),
        r is Ok ==> faithful(final(stream).events@, *tables) && *final(eob_run) < 0x10000,
        r matches Err(e) ==> e == JpegError::BitstreamError,
{
    let ghost whole = blocks_part(
        *tables,
        slots@,
        0,
        spectral_start as nat,
        spectral_end as nat,
        stream.input@,
        stream.pos as nat,
        stream.events@,
        *eob_run as nat,
    );
    let mut j: usize = 0;
    while j < slots.len()
        invariant
            j <= slots@.len(),
            stream.wf(),
            stream.input == old(stream).input,
            tables.wf(),
            faithful(stream.events@, *tables),
            forall|i: int| 0 <= i < slots@.len() ==> (#[trigger] slots@[i]).0 < 4 && slots@[i].1 < 4,
            spectral_end <= 64,
            *eob_run < 0x10000,
            whole == blocks_part(
                *tables,
                slots@,
                0,
                spectral_start as nat,
                spectral_end as nat,
                old(stream).input@,
                old(stream).pos as nat,
                old(stream).events@,
                *old(eob_run) as nat,
            ),
            blocks_part(
                *tables,
                slots@,
                j as nat,
                spectral_start as nat,
                spectral_end as nat,
                stream.input@,
                stream.pos as nat,
                stream.events@,
                *eob_run as nat,
            ) == whole,
        decreases slots@.len() - j,
    {
        let (dc, ac) = slots[j];
        if let Err(e) = decode_block(stream, tables, dc, ac, spectral_start, spectral_end, eob_run) {
            return Err(e);
        }
        j = j + 1;
    }
    Ok(())
}

/// One MCU: a restart boundary first when the interval has run out, then
/// its blocks.
#[verifier::rlimit(60)]
fn mcu_step(
    stream: &mut RWStream,
    tables: &TableSet,
    slots: &Vec<(usize, usize)>,
    spectral_start: u32,
    spectral_end: u32,
    restart_interval: u32,
    eob_run: &mut u32,
    left: &mut u32,
    markers: &mut Vec<usize>,
) -> (r: Result<(), JpegError>)
    requires
        old(stream).wf(),
        tables.wf(),
        faithful(old(stream).events@, *tables),
        forall|j: int| 0 <= j < slots@.len() ==> (#[trigger] slots@[j]).0 < 4 && slots@[j].1 < 4,
        spectral_end <= 64,
        *old(eob_run) < 0x10000,
        *old(left) <= restart_interval,
    ensures
        final(stream).wf(),
        final(stream).input == old(stream).input,
        r is Ok ==> faithful(final(stream).events@, *tables) && *final(eob_run) < 0x10000
            && *final(left) <= restart_interval,
        r is Ok ==> forall|rem: nat|
            #[trigger] mcus_part(
                *tables,
                slots@,
                spectral_start as nat,
                spectral_end as nat,
                restart_interval as nat,
                old(stream).input@,
                old(stream).pos as nat,
                old(stream).events@,
                *old(eob_run) as nat,
                *old(left) as nat,
                old(markers)@,
                rem + 1,
            ) == mcus_part(
                *tables,
                slots@,
                spectral_start as nat,
                spectral_end as nat,
                restart_interval as nat,
                final(stream).input@,
                final(stream).pos as nat,
                final(stream).events@,
                *final(eob_run) as nat,
                *final(left) as nat,
                final(markers)@,
                rem,
            ),
        r is Err ==> forall|rem: nat|
            #[trigger] mcus_part(
                *tables,
                slots@,
                spectral_start as nat,
                spectral_end as nat,
                restart_interval as nat,
                old(stream).input@,
                old(stream).pos as nat,
                old(stream).events@,
                *old(eob_run) as nat,
                *old(left) as nat,
                old(markers)@,
                rem + 1,
            ) is None,
        r matches Err(e) ==> e == JpegError::BitstreamError,
{
    let ghost input = stream.input@;
    if restart_interval > 0 {
        if *left == 0 {
            let ghost e0 = stream.events@;
            let ghost p0 = stream.pos as nat;
            stream.byte_align();
            proof {
                lemma_faithful_other(e0, *tables, stream.events@.last());
                assert(stream.events@ == e0.push(stream.events@.last()));
                assert((stream.pos as nat, stream.events@) == align_step(input, p0, e0));
            }
            markers.push(stream.writer_position());
            let ghost e1 = stream.events@;
            let header = match stream.read(8) {
                Ok(v) => v,
                Err(e) => {
                    return Err(e);
                },
            };
            proof {
                lemma_faithful_other(e1, *tables, stream.events@.last());
                assert(stream.events@ == e1.push(stream.events@.last()));
            }
            if header != 0xFF {
                return Err(JpegError::BitstreamError);
            }
            let ghost e2 = stream.events@;
            if let Err(e) = stream.read(8) {
                return Err(e);
            }
            proof {
                lemma_faithful_other(e2, *tables, stream.events@.last());
                assert(stream.events@ == e2.push(stream.events@.last()));
            }
            *eob_run = 0;
            *left = restart_interval;
        }
        *left = *left - 1;
    }
    if let Err(e) = decode_mcu(stream, tables, slots, spectral_start, spectral_end, eob_run) {
        return Err(e);
    }
    Ok(())
}

/// Rewrites a scan's entropy-coded data: decodes each symbol with the old
/// codes of `tables` and writes it with the new ones, copies every other
/// bit, keeps the restart markers, pads the end to a whole byte with zero
/// bits, and restores the stuffed zero bytes. It succeeds exactly when the
/// data holds a whole scan under the old codes, as [`scan_part`] reads it.
#[verifier::rlimit(60)]
pub fn process_entropy_stream(
    frame: &SofData,
    scan: &SosData,
    restart_interval: u32,
    tables: &TableSet,
) -> (r: Result<Vec<u8>, JpegError>)
    requires
        tables.wf(),
        scan.spectral_end <= 64,
    ensures
        r matches Err(e) ==> e == JpegError::ParseError || e == JpegError::BitstreamError,
        r is Ok <==> scan_part(*frame, *scan, restart_interval as nat, *tables) is Some,
        r matches Ok(out) ==> {
            let (evs, markers) = scan_part(*frame, *scan, restart_interval as nat, *tables).unwrap();
            &&& faithful(evs, *tables)
            &&& consumed(evs) == bits_from(destuffed(scan.image_data@), 0, consumed(evs).len())
            &&& produced(evs).len() % 8 == 0
            &&& out@ == restuffed(packed(produced(evs)), markers, packed(produced(evs)).len())
        },
{
    let info = match get_components_info(frame, scan) {
        Ok(v) => v,
        Err(e) => {
            return Err(e);
        },
    };
    let slots = get_block_slots(&info);
    let (max_x, max_y) = get_mcu_range(frame, &info);
    assert(max_x * max_y <= 0x10000 * 0x10000) by (nonlinear_arith)
        requires
            max_x <= 0x10000,
            max_y <= 0x10000,
    ;
    let total: u64 = max_x as u64 * max_y as u64;
    let input = strip_stream_padding(&scan.image_data);
    let ghost raw = input@;
    let mut stream = match RWStream::new(input) {
        Ok(v) => v,
        Err(e) => {
            return Err(e);
        },
    };
    let ghost t = *tables;
    let ghost ri = restart_interval as nat;
    let ghost ss = scan.spectral_start as nat;
    let ghost se = scan.spectral_end as nat;
    let ghost whole = mcus_part(t, slots@, ss, se, ri, raw, 0, seq![], 0, ri, seq![], total as nat);
    assert(faithful(stream.events@, *tables));
    assert(stream.events@ =~= Seq::<Event>::empty());
    proof {
        assert(info@ == infos_of(*frame, *scan));
        assert(scan_part(*frame, *scan, ri, t) == match whole {
            None => None,
            Some((p, e, mk)) => Some((align_step(raw, p, e).1, mk)),
        });
    }
    let mut marker_positions: Vec<usize> = Vec::new();
    let mut eob_run: u32 = 0;
    let mut left = restart_interval;
    let mut m: u64 = 0;
    while m < total
        invariant
            m <= total,
            stream.wf(),
            stream.input@ == raw,
            tables.wf(),
            t == *tables,
            faithful(stream.events@, *tables),
            ss == scan.spectral_start as nat,
            se == scan.spectral_end as nat,
            ri == restart_interval as nat,
            scan.spectral_end <= 64,
            forall|j: int| 0 <= j < slots@.len() ==> (#[trigger] slots@[j]).0 < 4 && slots@[j].1 < 4,
            eob_run < 0x10000,
            left <= restart_interval,
            scan_part(*frame, *scan, ri, t) == match whole {
                None => None,
                Some((p, e, mk)) => Some((align_step(raw, p, e).1, mk)),
            },
            mcus_part(
                t,
                slots@,
                ss,
                se,
                ri,
                raw,
                stream.pos as nat,
                stream.events@,
                eob_run as nat,
                left as nat,
                marker_positions@,
                (total - m) as nat,
            ) == whole,
        decreases total - m,
    {
        if let Err(e) = mcu_step(
            &mut stream,
            tables,
            &slots,
            scan.spectral_start,
            scan.spectral_end,
            restart_interval,
            &mut eob_run,
            &mut left,
            &mut marker_positions,
        ) {
            assert(((total - m - 1) as nat) + 1 == (total - m) as nat);
            return Err(e);
        }
        assert(((total - m - 1) as nat) + 1 == (total - m) as nat);
        m = m + 1;
    }
    let ghost e3 = stream.events@;
    stream.byte_align();
    proof {
        lemma_faithful_other(e3, *tables, stream.events@.last());
        assert(stream.events@ == e3.push(stream.events@.last()));
    }
    let bytes = pack_bits(&stream.output);
    let out = insert_data_padding(&bytes, &marker_positions);
    Ok(out)
}

/// The symbols of a transcoding read back: each symbol logged, written in
/// the new code of its slot, reads with that new code, by the shortest
/// prefix, as the same symbol that the old code read from the input.
pub proof fn lemma_symbols_read_back(evs: Seq<Event>, t: TableSet, i: int)
    requires
        t.wf(),
        faithful(evs, t),
        forall|k: int| 0 <= k < 4 ==> codes_fit((#[trigger] t.recode@[k]).sizes@),
        0 <= i < evs.len(),
    ensures
        match evs[i] {
            Event::Coded(len, code, sym, emitted) => exists|k: int|
                0 <= k < 4 && symbol_for(t.decode@[k], len, code) == Some(sym) && decodes_to(
                    t.recode@[k],
                    emitted,
                    sym,
                ),
            _ => true,
        },
{
    match evs[i] {
        Event::Coded(len, code, sym, emitted) => {
            let k = choose|k: int|
                0 <= k < 4 && symbol_for(t.decode@[k], len, code) == Some(sym) && emitted
                    == t.encode@[k]@[sym as int]@ && emitted.len() > 0;
            let r = t.recode@[k];
            assert(r.wf() && encodes(r, t.encode@[k]@));
            assert(t.encode@[k]@[sym as int]@.len() > 0);
            let (l, j) = choose|l: nat, j: int|
                1 <= l <= 16 && 0 <= j < r.sizes@[l - 1] && #[trigger] r.values@[group_start(
                    r.sizes@,
                    l,
                ) + j] as int == sym as int && t.encode@[k]@[sym as int]@ == code_bits(
                    first_code(r.sizes@, l) + j as nat,
                    l,
                );
            lemma_code_decodes(r, l, j);
        },
        _ => {},
    }
}

} // verus!
