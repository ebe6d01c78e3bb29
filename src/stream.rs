//! Entropy-coded data: removing and restoring the stuffed zero bytes, and a
//! paired bit stream that copies what it reads.

use crate::error::JpegError;
use crate::huffman::{code_bits, first_code, group_start, two_pow};
use crate::ns1::size_sum;
use bitstream_io::{BigEndian, BitRead, BitReader};
use vstd::prelude::*;

verus! {

/// The raw bytes of entropy-coded data: each `0xFF 0x00` becomes `0xFF`;
/// other pairs after `0xFF` (restart markers) are kept whole.
pub open spec fn destuffed(s: Seq<u8>) -> Seq<u8>
    decreases s.len(),
{
    if s.len() == 0 {
        seq![]
    } else if s[0] == 0xFF && s.len() >= 2 {
        if s[1] == 0x00 {
            seq![0xFFu8] + destuffed(s.subrange(2, s.len() as int))
        } else {
            seq![0xFFu8, s[1]] + destuffed(s.subrange(2, s.len() as int))
        }
    } else {
        seq![s[0]] + destuffed(s.subrange(1, s.len() as int))
    }
}

/// The first `n` bytes of `d`, each `0xFF` that is not at a marker position
/// followed by a stuffed `0x00`.
pub open spec fn restuffed(d: Seq<u8>, markers: Seq<usize>, n: nat) -> Seq<u8>
    decreases n,
{
    if n == 0 || n > d.len() {
        seq![]
    } else {
        let i = (n - 1) as int;
        restuffed(d, markers, (n - 1) as nat) + if d[i] == 0xFF && !markers.contains(i as usize) {
            seq![0xFFu8, 0x00u8]
        } else {
            seq![d[i]]
        }
    }
}

/// Removes the stuffed zero bytes.
pub fn strip_stream_padding(data: &Vec<u8>) -> (r: Vec<u8>)
    ensures
        r@ == destuffed(data@),
{
    let mut out: Vec<u8> = Vec::new();
    let n = data.len();
    let mut i: usize = 0;
    assert(data@.subrange(0, n as int) =~= data@);
    assert(out@ + destuffed(data@) =~= destuffed(data@));
    while i < n
        invariant
            i <= n,
            n == data@.len(),
            out@ + destuffed(data@.subrange(i as int, n as int)) == destuffed(data@),
        decreases n - i,
    {
        let ghost rest = data@.subrange(i as int, n as int);
        let value = data[i];
        if value == 0xFF && n - i >= 2 {
            let next = data[i + 1];
            assert(rest.subrange(2, rest.len() as int) =~= data@.subrange(i + 2, n as int));
            out.push(value);
            if next != 0x00 {
                out.push(next);
            }
            proof {
                if next == 0x00 {
                    assert(destuffed(rest) == seq![0xFFu8] + destuffed(data@.subrange(i + 2, n as int)));
                } else {
                    assert(destuffed(rest) == seq![0xFFu8, next] + destuffed(
                        data@.subrange(i + 2, n as int),
                    ));
                }
            }
            i = i + 2;
        } else {
            assert(rest.subrange(1, rest.len() as int) =~= data@.subrange(i + 1, n as int));
            out.push(value);
            i = i + 1;
        }
    }
    assert(data@.subrange(0, n as int) =~= data@);
    assert(out@ + destuffed(data@.subrange(i as int, n as int)) =~= out@);
    out
}

/// Whether `x` is in `v`.
pub fn contains_index(v: &Vec<usize>, x: usize) -> (r: bool)
    ensures
        r == v@.contains(x),
{
    let mut i: usize = 0;
    while i < v.len()
        invariant
            i <= v@.len(),
            forall|j: int| 0 <= j < i ==> v@[j] != x,
        decreases v@.len() - i,
    {
        if v[i] == x {
            return true;
        }
        i = i + 1;
    }
    false
}

/// Puts back a `0x00` after every `0xFF` that does not start a marker.
pub fn insert_data_padding(data: &Vec<u8>, marker_positions: &Vec<usize>) -> (r: Vec<u8>)
    ensures
        r@ == restuffed(data@, marker_positions@, data@.len()),
{
    let mut out: Vec<u8> = Vec::new();
    let mut i: usize = 0;
    while i < data.len()
        invariant
            i <= data@.len(),
            out@ == restuffed(data@, marker_positions@, i as nat),
        decreases data@.len() - i,
    {
        let value = data[i];
        out.push(value);
        if value == 0xFF && !contains_index(marker_positions, i) {
            out.push(0x00);
        }
        proof {
            if value == 0xFF && !marker_positions@.contains(i) {
                assert(out@ =~= restuffed(data@, marker_positions@, (i + 1) as nat));
            } else {
                assert(out@ =~= restuffed(data@, marker_positions@, (i + 1) as nat));
            }
        }
        i = i + 1;
    }
    out
}

/// Bit `i` of `data`, most significant bit of each byte first.
pub open spec fn bit_at(data: Seq<u8>, i: int) -> u8 {
    ((data[i / 8] as nat / two_pow((7 - i % 8) as nat)) % 2) as u8
}

/// The bits `data[pos..pos + n]` as one bit per byte.
pub open spec fn bits_from(data: Seq<u8>, pos: int, n: nat) -> Seq<u8> {
    Seq::new(n, |j: int| bit_at(data, pos + j))
}

/// The number that `n` bits from `pos` spell, most significant first.
pub open spec fn bits_value(data: Seq<u8>, pos: int, n: nat) -> nat
    decreases n,
{
    if n == 0 {
        0
    } else {
        bits_value(data, pos, (n - 1) as nat) * 2 + bit_at(data, pos + n - 1) as nat
    }
}

/// The bytes that a run of bits packs into, eight to a byte, most significant
/// first; a partial last byte is left out.
pub open spec fn packed(bits: Seq<u8>) -> Seq<u8> {
    Seq::new(bits.len() / 8, |k: int| byte_of_bits(bits, 8 * k))
}

/// The byte that the eight bits from `i` spell.
pub open spec fn byte_of_bits(bits: Seq<u8>, i: int) -> u8 {
    (bits[i] * 128 + bits[i + 1] * 64 + bits[i + 2] * 32 + bits[i + 3] * 16 + bits[i + 4] * 8
        + bits[i + 5] * 4 + bits[i + 6] * 2 + bits[i + 7]) as u8
}

/// Packs whole bytes of bits.
pub fn pack_bits(bits: &Vec<u8>) -> (r: Vec<u8>)
    requires
        forall|i: int| 0 <= i < bits@.len() ==> #[trigger] bits@[i] <= 1,
    ensures
        r@ == packed(bits@),
{
    let mut out: Vec<u8> = Vec::new();
    let n = bits.len();
    let count = n / 8;
    let mut k: usize = 0;
    while k < count
        invariant
            k <= count,
            n == bits@.len(),
            count == bits@.len() / 8,
            forall|i: int| 0 <= i < bits@.len() ==> #[trigger] bits@[i] <= 1,
            out@ =~= packed(bits@).take(k as int),
        decreases count - k,
    {
        assert(8 * k + 7 < n) by (nonlinear_arith)
            requires
                k < count,
                count == n / 8,
        ;
        let i = 8 * k;
        let b = bits[i] * 128 + bits[i + 1] * 64 + bits[i + 2] * 32 + bits[i + 3] * 16 + bits[i
            + 4] * 8 + bits[i + 5] * 4 + bits[i + 6] * 2 + bits[i + 7];
        out.push(b);
        k = k + 1;
    }
    out
}

/// A Huffman table as the decoder and encoder use it: the code-length counts
/// and the symbols in code order.
#[derive(Clone, Debug, Default)]
pub struct HuffmanCode {
    pub sizes: Vec<usize>,
    pub values: Vec<u8>,
}

impl HuffmanCode {
    /// A table with no codes.
    pub fn empty() -> (r: HuffmanCode)
        ensures
            r.wf(),
            size_sum(r.sizes@) == 0,
    {
        let mut sizes: Vec<usize> = Vec::new();
        let mut i: usize = 0;
        while i < 16
            invariant
                i <= 16,
                sizes@.len() == i,
                forall|j: int| 0 <= j < i ==> sizes@[j] == 0,
                size_sum(sizes@) == 0,
            decreases 16 - i,
        {
            let ghost before = sizes@;
            sizes.push(0);
            assert(sizes@.drop_last() =~= before);
            i = i + 1;
        }
        HuffmanCode { sizes, values: Vec::new() }
    }

    /// Sixteen counts of at most 256 codes, and a symbol for each code.
    pub open spec fn wf(&self) -> bool {
        &&& self.sizes@.len() == 16
        &&& forall|i: int| 0 <= i < 16 ==> #[trigger] self.sizes@[i] <= 256
        &&& size_sum(self.sizes@) <= self.values@.len()
    }
}

/// The symbol that the code of length `len` with value `code` stands for, if
/// there is one.
pub open spec fn symbol_for(t: HuffmanCode, len: nat, code: nat) -> Option<u8> {
    if 1 <= len <= 16 && first_code(t.sizes@, len) <= code < first_code(t.sizes@, len)
        + t.sizes@[len - 1] {
        Some(t.values@[group_start(t.sizes@, len) + (code - first_code(t.sizes@, len))])
    } else {
        None
    }
}

/// One step of a transcoding.
pub enum Event {
    /// Bits copied unchanged.
    Copied(Seq<u8>),
    /// A symbol read by an old code of the given length and value, and the
    /// bits written for it.
    Coded(nat, nat, u8, Seq<u8>),
    /// Input bits skipped to a byte boundary, and the number of zero bits
    /// written to reach one.
    Aligned(Seq<u8>, nat),
}

/// The input bits that the steps read.
pub open spec fn consumed(evs: Seq<Event>) -> Seq<u8>
    decreases evs.len(),
{
    if evs.len() == 0 {
        seq![]
    } else {
        consumed(evs.drop_last()) + match evs.last() {
            Event::Copied(b) => b,
            Event::Coded(len, code, _, _) => code_bits(code, len),
            Event::Aligned(skipped, _) => skipped,
        }
    }
}

/// The output bits that the steps wrote.
pub open spec fn produced(evs: Seq<Event>) -> Seq<u8>
    decreases evs.len(),
{
    if evs.len() == 0 {
        seq![]
    } else {
        produced(evs.drop_last()) + match evs.last() {
            Event::Copied(b) => b,
            Event::Coded(_, _, _, emitted) => emitted,
            Event::Aligned(_, pad) => Seq::new(pad, |i: int| 0u8),
        }
    }
}

/// The shortest code of `t`, of length `len` to 16, that the bits of `data`
/// from `pos` start with: its length and symbol. `None` when the bits run out
/// first, or no length up to 16 matches.
pub open spec fn decode_at(t: HuffmanCode, data: Seq<u8>, pos: int, len: nat) -> Option<(nat, u8)>
    decreases 17 - len,
{
    if len < 1 || len > 16 || pos + len > data.len() * 8 {
        None
    } else {
        match symbol_for(t, len, bits_value(data, pos, len)) {
            Some(s) => Some((len, s)),
            None => decode_at(t, data, pos, len + 1),
        }
    }
}

/// The reader and the writer of one transcoding: bits are read from
/// `input` at `pos`, and every bit read, or its new code, is written to
/// `output`, one bit per byte; `events` logs each step.
pub struct RWStream {
    pub input: Vec<u8>,
    pub pos: usize,
    pub output: Vec<u8>,
    pub events: Ghost<Seq<Event>>,
}

impl RWStream {
    /// The position is within the input, and the output holds bits.
    pub open spec fn basic(&self) -> bool {
        &&& self.input@.len() * 8 <= usize::MAX
        &&& self.pos <= self.input@.len() * 8
        &&& forall|i: int| 0 <= i < self.output@.len() ==> #[trigger] self.output@[i] <= 1
    }

    /// Besides, the log accounts for every bit read and written.
    pub open spec fn wf(&self) -> bool {
        &&& self.basic()
        &&& consumed(self.events@) == bits_from(self.input@, 0, self.pos as nat)
        &&& produced(self.events@) == self.output@
    }

    /// A stream at the start of `input`; fails on input too long to count
    /// its bits.
    pub fn new(input: Vec<u8>) -> (r: Result<RWStream, JpegError>)
        ensures
            r is Ok <==> input@.len() * 8 <= usize::MAX,
            r matches Ok(s) ==> s.wf() && s.input@ == input@ && s.pos == 0 && s.output@.len() == 0
                && s.events@.len() == 0,
            r matches Err(e) ==> e == JpegError::BitstreamError,
    {
        if input.len() > usize::MAX / 8 {
            return Err(JpegError::BitstreamError);
        }
        let s = RWStream { input, pos: 0, output: Vec::new(), events: Ghost(Seq::empty()) };
        assert(bits_from(s.input@, 0, 0) =~= Seq::<u8>::empty());
        Ok(s)
    }

    /// The byte offset of the output.
    pub fn writer_position(&self) -> (r: usize)
        ensures
            r == self.output@.len() / 8,
    {
        self.output.len() / 8
    }

    /// The next input bit, without writing it.
    fn next_bit(&mut self) -> (r: Result<u8, JpegError>)
        requires
            old(self).basic(),
        ensures
            final(self).basic(),
            final(self).input == old(self).input,
            final(self).output == old(self).output,
            final(self).events == old(self).events,
            r is Ok <==> old(self).pos < old(self).input@.len() * 8,
            r matches Ok(b) ==> b == bit_at(old(self).input@, old(self).pos as int) && b <= 1
                && final(self).pos == old(self).pos + 1,
            r is Err ==> final(self).pos == old(self).pos && r == Err::<u8, JpegError>(
                JpegError::BitstreamError,
            ),
    {
        if self.pos >= self.input.len() * 8 {
            return Err(JpegError::BitstreamError);
        }
        let byte = self.input[self.pos / 8];
        let b = bit_of(byte, (self.pos % 8) as u32);
        self.pos = self.pos + 1;
        Ok(b)
    }

    /// Reads `n` bits and writes them unchanged.
    pub fn read(&mut self, n: usize) -> (r: Result<u32, JpegError>)
        requires
            old(self).wf(),
            n <= 16,
        ensures
            final(self).wf(),
            final(self).input == old(self).input,
            r is Ok <==> old(self).pos + n <= old(self).input@.len() * 8,
            r matches Ok(v) ==> {
                &&& v == bits_value(old(self).input@, old(self).pos as int, n as nat)
                &&& v < two_pow(n as nat)
                &&& final(self).pos == old(self).pos + n
                &&& final(self).output@ == old(self).output@ + bits_from(
                    old(self).input@,
                    old(self).pos as int,
                    n as nat,
                )
                &&& final(self).events@ == old(self).events@.push(
                    Event::Copied(bits_from(old(self).input@, old(self).pos as int, n as nat)),
                )
            },
            r matches Err(e) ==> e == JpegError::BitstreamError && *final(self) == *old(self),
    {
        if self.input.len() * 8 - self.pos < n {
            return Err(JpegError::BitstreamError);
        }
        let ghost start = self.pos;
        let ghost out0 = self.output@;
        let ghost evs = self.events@;
        let mut value: u32 = 0;
        let mut i: usize = 0;
        while i < n
            invariant
                i <= n,
                n <= 16,
                self.basic(),
                self.input == old(self).input,
                self.events@ == evs,
                evs == old(self).events@,
                out0 == old(self).output@,
                start == old(self).pos,
                consumed(evs) == bits_from(self.input@, 0, start as nat),
                produced(evs) == out0,
                self.pos == start + i,
                start + n <= self.input@.len() * 8,
                value == bits_value(self.input@, start as int, i as nat),
                value < two_pow(i as nat),
                self.output@ == out0 + bits_from(self.input@, start as int, i as nat),
            decreases n - i,
        {
            let b = match self.next_bit() {
                Ok(b) => b,
                Err(e) => {
                    return Err(e);
                },
            };
            self.output.push(b);
            proof {
                lemma_two_pow_le_16(i as nat);
                assert(self.output@ =~= out0 + bits_from(self.input@, start as int, (i + 1) as nat));
            }
            value = value * 2 + b as u32;
            i = i + 1;
        }
        let ghost bits = bits_from(self.input@, start as int, n as nat);
        self.events = Ghost(evs.push(Event::Copied(bits)));
        proof {
            assert(self.events@.drop_last() =~= evs);
            assert(bits_from(self.input@, 0, start as nat) + bits =~= bits_from(
                self.input@,
                0,
                (start + n) as nat,
            ));
        }
        Ok(value)
    }

    /// Reads one symbol by the code of `decode`, and writes its code in
    /// `encode`: the bits of each symbol's code, empty where `encode` has no
    /// code for it.
    pub fn read_huffman(&mut self, decode: &HuffmanCode, encode: &Vec<Vec<u8>>) -> (r: Result<u8, JpegError>)
        requires
            old(self).wf(),
            decode.wf(),
            encode@.len() == 256,
            forall|v: int|
                0 <= v < 256 ==> forall|i: int|
                    0 <= i < (#[trigger] encode@[v])@.len() ==> encode@[v]@[i] <= 1,
        ensures
            final(self).wf(),
            final(self).input == old(self).input,
            r matches Ok(sym) ==> exists|len: nat|
                1 <= len <= 16 && old(self).pos + len <= old(self).input@.len() * 8
                    && #[trigger] symbol_for(
                    *decode,
                    len,
                    bits_value(old(self).input@, old(self).pos as int, len),
                ) == Some(sym) && final(self).pos == old(self).pos + len && final(self).output@
                    == old(self).output@ + encode@[sym as int]@ && encode@[sym as int]@.len() > 0
                    && final(self).events@
                    == old(self).events@.push(
                    Event::Coded(
                        len,
                        bits_value(old(self).input@, old(self).pos as int, len),
                        sym,
                        encode@[sym as int]@,
                    ),
                ),
            r is Ok <==> (decode_at(*decode, old(self).input@, old(self).pos as int, 1) matches Some(
                (l, s),
            ) && encode@[s as int]@.len() > 0),
            r matches Ok(sym) ==> decode_at(*decode, old(self).input@, old(self).pos as int, 1)
                == Some(((final(self).pos - old(self).pos) as nat, sym)),
            r matches Err(e) ==> e == JpegError::BitstreamError && *final(self) == *old(self),
    {
        let start = self.pos;
        let ghost evs = self.events@;
        let ghost out0 = self.output@;
        let mut code: u64 = 0;
        let mut first: u64 = 0;
        let mut index: usize = 0;
        let mut len: usize = 1;
        while len <= 16
            invariant
                1 <= len <= 17,
                decode.wf(),
                self.basic(),
                decode_at(*decode, self.input@, start as int, len as nat) == decode_at(
                    *decode,
                    self.input@,
                    start as int,
                    1,
                ),
                self.input == old(self).input,
                self.output == old(self).output,
                self.events@ == evs,
                evs == old(self).events@,
                out0 == old(self).output@,
                consumed(evs) == bits_from(self.input@, 0, start as nat),
                produced(evs) == out0,
                self.pos == start + len - 1,
                start == old(self).pos,
                code == bits_value(self.input@, start as int, (len - 1) as nat),
                code < two_pow((len - 1) as nat),
                first == first_code(decode.sizes@, len as nat),
                first <= index * two_pow((len - 1) as nat),
                index == group_start(decode.sizes@, len as nat),
                index <= 256 * (len - 1),
                encode@.len() == 256,
                forall|v: int|
                    0 <= v < 256 ==> forall|i: int|
                        0 <= i < (#[trigger] encode@[v])@.len() ==> encode@[v]@[i] <= 1,
            decreases 17 - len,
        {
            let b = match self.next_bit() {
                Ok(b) => b,
                Err(e) => {
                    self.pos = start;
                    return Err(e);
                },
            };
            proof {
                lemma_two_pow_le_16((len - 1) as nat);
                crate::huffman::lemma_size_sum_step(decode.sizes@, (len - 1) as int);
                let pw = two_pow((len - 1) as nat);
                assert(index * pw <= 4096 * 0x10000) by (nonlinear_arith)
                    requires
                        index <= 256 * 16,
                        pw <= 0x10000,
                ;
            }
            code = code * 2 + b as u64;
            let count = decode.sizes[len - 1];
            if first <= code && code - first < count as u64 {
                proof {
                    crate::huffman::lemma_size_sum_prefix_le(decode.sizes@, len as int);
                }
                let sym = decode.values[index + (code - first) as usize];
                let bits = &encode[sym as usize];
                if bits.len() == 0 {
                    self.pos = start;
                    return Err(JpegError::BitstreamError);
                }
                let mut i: usize = 0;
                while i < bits.len()
                    invariant
                        i <= bits@.len(),
                        self.basic(),
                        self.input == old(self).input,
                        self.pos == start + len,
                        self.events@ == evs,
                        forall|j: int| 0 <= j < bits@.len() ==> #[trigger] bits@[j] <= 1,
                        self.output@ == out0 + bits@.take(i as int),
                    decreases bits@.len() - i,
                {
                    self.output.push(bits[i]);
                    assert(self.output@ =~= out0 + bits@.take(i + 1));
                    i = i + 1;
                }
                assert(bits@.take(i as int) =~= bits@);
                let ghost c = bits_value(old(self).input@, start as int, len as nat);
                assert(symbol_for(*decode, len as nat, c) == Some(sym));
                self.events = Ghost(evs.push(Event::Coded(len as nat, c, sym, bits@)));
                proof {
                    assert(self.events@.drop_last() =~= evs);
                    lemma_bits_are_code(self.input@, start as int, len as nat);
                    assert(bits_from(self.input@, 0, start as nat) + code_bits(c, len as nat)
                        =~= bits_from(self.input@, 0, (start + len) as nat));
                }
                return Ok(sym);
            }
            proof {
                lemma_two_pow_le_16(len as nat);
                let pw = two_pow((len - 1) as nat);
                assert((first + count) * 2 <= (index + count) * two_pow(len as nat)) by (nonlinear_arith)
                    requires
                        first <= index * pw,
                        two_pow(len as nat) == 2 * pw,
                        pw >= 1,
                ;
                assert((index + count) * two_pow(len as nat) <= 4096 * 0x10000) by (nonlinear_arith)
                    requires
                        index + count <= 256 * len,
                        len <= 16,
                        two_pow(len as nat) <= 0x10000,
                ;
            }
            first = (first + count as u64) * 2;
            index = index + count;
            len = len + 1;
        }
        self.pos = start;
        Err(JpegError::BitstreamError)
    }

    /// Moves the reader to the next byte boundary, and pads the writer to
    /// one with zero bits.
    pub fn byte_align(&mut self)
        requires
            old(self).wf(),
        ensures
            final(self).wf(),
            final(self).input == old(self).input,
            final(self).pos == if old(self).pos % 8 == 0 { old(self).pos as int } else {
                old(self).pos + 8 - old(self).pos % 8
            },
            final(self).output@.len() % 8 == 0,
            final(self).output@.len() == old(self).output@.len() + (8 - old(self).output@.len() % 8) % 8,
            final(self).output@.take(old(self).output@.len() as int) == old(self).output@,
            forall|i: int|
                old(self).output@.len() <= i < final(self).output@.len() ==> final(self).output@[i]
                    == 0,
            final(self).events@ == old(self).events@.push(
                Event::Aligned(
                    bits_from(
                        old(self).input@,
                        old(self).pos as int,
                        (final(self).pos - old(self).pos) as nat,
                    ),
                    (final(self).output@.len() - old(self).output@.len()) as nat,
                ),
            ),
    {
        let ghost start = self.pos;
        let ghost evs = self.events@;
        if self.pos % 8 != 0 {
            self.pos = self.pos + (8 - self.pos % 8);
        }
        let ghost out0 = self.output@;
        let ghost p = self.pos;
        let pad = (8 - self.output.len() % 8) % 8;
        let mut i: usize = 0;
        while i < pad
            invariant
                i <= pad,
                pad < 8,
                pad == (8 - out0.len() % 8) % 8,
                self.basic(),
                self.pos == p,
                self.events@ == evs,
                self.input == old(self).input,
                self.output@.len() == out0.len() + i,
                self.output@.take(out0.len() as int) == out0,
                forall|j: int| out0.len() <= j < self.output@.len() ==> self.output@[j] == 0,
            decreases pad - i,
        {
            self.output.push(0);
            assert(self.output@.take(out0.len() as int) =~= out0);
            i = i + 1;
        }
        assert(self.output@.take(out0.len() as int) =~= out0);
        let ghost skipped = bits_from(self.input@, start as int, (p - start) as nat);
        self.events = Ghost(evs.push(Event::Aligned(skipped, pad as nat)));
        proof {
            assert(self.events@.drop_last() =~= evs);
            assert(bits_from(self.input@, 0, start as nat) + skipped =~= bits_from(
                self.input@,
                0,
                p as nat,
            ));
            assert(out0 + Seq::new(pad as nat, |i: int| 0u8) =~= self.output@);
        }
    }
}

/// Relies on `bitstream_io`'s big-endian `BitReader` (`skip`, then
/// `read_bit`): bit `k` of `byte`, counted from the most significant bit.
#[verifier::external_body]
fn bit_of(byte: u8, k: u32) -> (r: u8)
    requires
        k < 8,
    ensures
        r == ((byte as nat / two_pow((7 - k) as nat)) % 2) as u8,
{
    let data = [byte];
    let mut reader = BitReader::endian(&data[..], BigEndian);
    reader.skip(k).unwrap();
    reader.read_bit().unwrap() as u8
}

pub proof fn lemma_two_pow_le_16(e: nat)
    requires
        e <= 16,
    ensures
        two_pow(e) <= 0x10000,
        two_pow(e) >= 1,
        two_pow(e + 1) == 2 * two_pow(e),
{
    crate::huffman::lemma_two_pow_le(e, 16);
    crate::huffman::lemma_two_pow_positive(e);
}

/// The bits read are the bits of the value they spell.
pub proof fn lemma_bits_are_code(data: Seq<u8>, pos: int, n: nat)
    ensures
        bits_from(data, pos, n) == code_bits(bits_value(data, pos, n), n),
    decreases n,
{
    if n > 0 {
        let m = (n - 1) as nat;
        lemma_bits_are_code(data, pos, m);
        let w = bits_value(data, pos, m);
        let b = bit_at(data, pos + m) as nat;
        let v = bits_value(data, pos, n);
        assert(v == w * 2 + b);
        assert(b < 2);
        assert forall|j: int| 0 <= j < n implies #[trigger] code_bits(v, n)[j] == bits_from(
            data,
            pos,
            n,
        )[j] by {
            if j < m {
                let k = (m - 1 - j) as nat;
                crate::huffman::lemma_two_pow_positive(k);
                let p = two_pow(k);
                assert(two_pow((n - 1 - j) as nat) == 2 * p);
                assert((w * 2 + b) / (2 * p) == w / p) by {
                    vstd::arithmetic::div_mod::lemma_div_denominator((w * 2 + b) as int, 2, p as int);
                    assert((w * 2 + b) / 2 == w) by (nonlinear_arith)
                        requires
                            b < 2,
                    ;
                }
                assert(code_bits(w, m)[j] == bits_from(data, pos, m)[j]);
            } else {
                assert(two_pow(0) == 1);
                assert(v / 1 == v);
                assert((w * 2 + b) % 2 == b) by (nonlinear_arith)
                    requires
                        b < 2,
                ;
            }
        }
        assert(code_bits(v, n) =~= bits_from(data, pos, n));
    } else {
        assert(code_bits(0, 0) =~= bits_from(data, pos, 0));
    }
}

} // verus!
