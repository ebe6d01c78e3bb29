//! The payloads of the segments that the library reads or rewrites: frame
//! and scan headers, quantization and Huffman tables, restart interval.

use crate::error::JpegError;
use crate::jpeg::{copy_range, push_all};
use crate::ns1::size_sum;
use vstd::prelude::*;

verus! {

/// A byte made of two 4-bit halves.
pub open spec fn nibbles(high: nat, low: nat) -> u8 {
    (((high as u8) << 4u8) | (low as u8)) as u8
}

pub proof fn lemma_nibbles(b: u8)
    ensures
        nibbles((b >> 4u8) as nat, (b & 0xFu8) as nat) == b,
        (b >> 4u8) < 16,
        (b & 0xFu8) < 16,
{
    assert((((b >> 4u8) << 4u8) | (b & 0xFu8)) == b && (b >> 4u8) < 16 && (b & 0xFu8) < 16)
        by (bit_vector);
}

/// Serialises to bytes.
pub trait ToVec {
    /// Whether every field fits the bytes it is written to.
    spec fn encodable(&self) -> bool;

    /// The bytes written.
    spec fn bytes(&self) -> Seq<u8>;

    fn to_vec(&self) -> (r: Vec<u8>)
        requires
            self.encodable(),
        ensures
            r@ == self.bytes(),
    ;
}

/// One component of a frame.
#[derive(Clone, Debug, Default)]
pub struct Component {
    pub component_id: u32,
    pub h_factor: u32,
    pub v_factor: u32,
    pub table_index: usize,
}

impl Component {
    /// Reads the three bytes at `offset`: id, sampling factors, table.
    pub fn parse_at(data: &Vec<u8>, offset: usize) -> (r: Component)
        requires
            offset + 3 <= data@.len(),
        ensures
            r.component_id == data@[offset as int],
            r.h_factor == data@[offset + 1] >> 4u8,
            r.v_factor == data@[offset + 1] & 0xFu8,
            r.table_index == data@[offset + 2],
    {
        let n = data.len();
        assert(offset + 3 <= n);
        let hv = data[offset + 1];
        Component {
            component_id: data[offset] as u32,
            h_factor: (hv >> 4u8) as u32,
            v_factor: (hv & 0xFu8) as u32,
            table_index: data[offset + 2] as usize,
        }
    }
}

/// A frame header.
#[derive(Clone, Debug, Default)]
pub struct SofData {
    pub precision: u32,
    pub width: u32,
    pub height: u32,
    pub components: Vec<Component>,
}

impl SofData {
    /// A frame with no size and no components.
    pub fn empty() -> (r: SofData)
        ensures
            r.components@.len() == 0,
    {
        SofData { precision: 0, width: 0, height: 0, components: Vec::new() }
    }

    /// Reads a frame header: precision, height, width, and the components.
    pub fn parse(data: &Vec<u8>) -> (r: Result<SofData, JpegError>)
        ensures
            r is Ok <==> data@.len() >= 6 && data@.len() >= 6 + 3 * data@[5],
            r matches Ok(s) ==> {
                &&& s.precision == data@[0]
                &&& s.height == data@[1] * 256 + data@[2]
                &&& s.width == data@[3] * 256 + data@[4]
                &&& s.components@.len() == data@[5]
                &&& forall|k: int|
                    0 <= k < s.components@.len() ==> {
                        let c = #[trigger] s.components@[k];
                        &&& c.component_id == data@[6 + 3 * k]
                        &&& c.h_factor == data@[7 + 3 * k] >> 4u8
                        &&& c.v_factor == data@[7 + 3 * k] & 0xFu8
                        &&& c.table_index == data@[8 + 3 * k]
                    }
            },
            r matches Err(e) ==> e == JpegError::ParseError,
    {
        if data.len() < 6 {
            return Err(JpegError::ParseError);
        }
        let count = data[5] as usize;
        if data.len() - 6 < 3 * count {
            return Err(JpegError::ParseError);
        }
        let mut components: Vec<Component> = Vec::new();
        let mut k: usize = 0;
        while k < count
            invariant
                k <= count,
                count == data@[5],
                6 + 3 * count <= data@.len(),
                components@.len() == k,
                forall|j: int|
                    0 <= j < k ==> {
                        let c = #[trigger] components@[j];
                        &&& c.component_id == data@[6 + 3 * j]
                        &&& c.h_factor == data@[7 + 3 * j] >> 4u8
                        &&& c.v_factor == data@[7 + 3 * j] & 0xFu8
                        &&& c.table_index == data@[8 + 3 * j]
                    },
            decreases count - k,
        {
            components.push(Component::parse_at(data, 6 + 3 * k));
            k = k + 1;
        }
        Ok(SofData {
            precision: data[0] as u32,
            height: (data[1] as u32) * 256 + data[2] as u32,
            width: (data[3] as u32) * 256 + data[4] as u32,
            components,
        })
    }
}

/// One quantization table: 64 values.
#[derive(Clone, Debug, Default)]
pub struct QuantizationTable {
    pub precision: u32,
    pub table_index: usize,
    pub values: Vec<u8>,
}

impl ToVec for QuantizationTable {
    open spec fn encodable(&self) -> bool {
        self.precision < 16 && self.table_index < 16
    }

    open spec fn bytes(&self) -> Seq<u8> {
        seq![nibbles(self.precision as nat, self.table_index as nat)] + self.values@
    }

    fn to_vec(&self) -> (r: Vec<u8>) {
        let mut output: Vec<u8> = Vec::new();
        output.push((((self.precision as u8) << 4u8) | (self.table_index as u8)) as u8);
        push_all(&mut output, &self.values);
        output
    }
}

impl QuantizationTable {
    /// Reads the 65 bytes at `offset`.
    pub fn parse_at(data: &Vec<u8>, offset: usize) -> (r: QuantizationTable)
        requires
            offset + 65 <= data@.len(),
        ensures
            r.encodable(),
            r.bytes() == data@.subrange(offset as int, offset + 65),
    {
        let n = data.len();
        assert(offset + 65 <= n);
        let pq = data[offset];
        proof {
            lemma_nibbles(pq);
        }
        let values = copy_range(data, offset + 1, offset + 65);
        let t = QuantizationTable {
            precision: (pq >> 4u8) as u32,
            table_index: (pq & 0xFu8) as usize,
            values,
        };
        assert(t.bytes() =~= data@.subrange(offset as int, offset + 65));
        t
    }
}

/// The tables of a quantization segment.
#[derive(Clone, Debug, Default)]
pub struct DqtData {
    pub tables: Vec<QuantizationTable>,
}

/// The bytes of several tables, one after the other.
pub open spec fn dqt_bytes(tables: Seq<QuantizationTable>) -> Seq<u8>
    decreases tables.len(),
{
    if tables.len() == 0 {
        seq![]
    } else {
        dqt_bytes(tables.drop_last()) + tables.last().bytes()
    }
}

impl ToVec for DqtData {
    open spec fn encodable(&self) -> bool {
        forall|k: int| 0 <= k < self.tables@.len() ==> (#[trigger] self.tables@[k]).encodable()
    }

    open spec fn bytes(&self) -> Seq<u8> {
        dqt_bytes(self.tables@)
    }

    fn to_vec(&self) -> (r: Vec<u8>) {
        let mut output: Vec<u8> = Vec::new();
        let mut k: usize = 0;
        while k < self.tables.len()
            invariant
                k <= self.tables@.len(),
                self.encodable(),
                output@ == dqt_bytes(self.tables@.take(k as int)),
            decreases self.tables@.len() - k,
        {
            let part = self.tables[k].to_vec();
            push_all(&mut output, &part);
            assert(self.tables@.take(k + 1).drop_last() =~= self.tables@.take(k as int));
            k = k + 1;
        }
        assert(self.tables@.take(k as int) =~= self.tables@);
        output
    }
}

impl DqtData {
    /// Reads a run of 65-byte tables; fails unless the payload is a whole
    /// number of them.
    pub fn parse(data: &Vec<u8>) -> (r: Result<DqtData, JpegError>)
        ensures
            r is Ok <==> data@.len() % 65 == 0,
            r matches Ok(d) ==> d.encodable() && d.bytes() == data@,
            r matches Err(e) ==> e == JpegError::ParseError,
    {
        if data.len() % 65 != 0 {
            return Err(JpegError::ParseError);
        }
        let mut tables: Vec<QuantizationTable> = Vec::new();
        let mut offset: usize = 0;
        while offset < data.len()
            invariant
                offset <= data@.len(),
                data@.len() % 65 == 0,
                offset % 65 == 0,
                forall|k: int| 0 <= k < tables@.len() ==> (#[trigger] tables@[k]).encodable(),
                dqt_bytes(tables@) == data@.subrange(0, offset as int),
            decreases data@.len() - offset,
        {
            let t = QuantizationTable::parse_at(data, offset);
            let ghost before = tables@;
            tables.push(t);
            assert(tables@.drop_last() =~= before);
            assert(data@.subrange(0, offset + 65) =~= data@.subrange(0, offset as int)
                + data@.subrange(offset as int, offset + 65));
            offset = offset + 65;
        }
        assert(data@.subrange(0, offset as int) =~= data@);
        Ok(DqtData { tables })
    }
}

/// One Huffman table: the number of codes of each length from 1 to 16, and
/// the symbols in code order.
#[derive(Clone, Debug, Default)]
pub struct HuffmanTableData {
    pub table_class: usize,
    pub table_index: usize,
    pub sizes: Vec<usize>,
    pub values: Vec<u8>,
}

/// The sizes as bytes.
pub open spec fn size_bytes(sizes: Seq<usize>) -> Seq<u8> {
    Seq::new(sizes.len(), |i: int| sizes[i] as u8)
}

impl ToVec for HuffmanTableData {
    open spec fn encodable(&self) -> bool {
        &&& self.table_class < 16
        &&& self.table_index < 16
        &&& self.sizes@.len() == 16
        &&& forall|i: int| 0 <= i < 16 ==> #[trigger] self.sizes@[i] < 256
        &&& self.values@.len() == size_sum(self.sizes@)
    }

    open spec fn bytes(&self) -> Seq<u8> {
        seq![nibbles(self.table_class as nat, self.table_index as nat)] + size_bytes(self.sizes@)
            + self.values@
    }

    fn to_vec(&self) -> (r: Vec<u8>) {
        let mut output: Vec<u8> = Vec::new();
        output.push((((self.table_class as u8) << 4u8) | (self.table_index as u8)) as u8);
        let mut i: usize = 0;
        while i < self.sizes.len()
            invariant
                i <= self.sizes@.len(),
                output@ =~= seq![nibbles(self.table_class as nat, self.table_index as nat)]
                    + size_bytes(self.sizes@.take(i as int)),
            decreases self.sizes@.len() - i,
        {
            output.push(self.sizes[i] as u8);
            i = i + 1;
        }
        assert(self.sizes@.take(i as int) =~= self.sizes@);
        push_all(&mut output, &self.values);
        output
    }
}

/// The sum of the sixteen size bytes at `offset + 1`.
pub open spec fn count_at(data: Seq<u8>, offset: int) -> nat {
    size_sum(Seq::new(16, |i: int| data[offset + 1 + i] as usize))
}

/// Whether the bytes from `offset` on are whole Huffman tables.
pub open spec fn dht_parses(data: Seq<u8>, offset: int) -> bool
    decreases data.len() - offset,
{
    if offset < 0 || offset > data.len() {
        false
    } else if offset == data.len() {
        true
    } else if offset + 17 > data.len() || offset + 17 + count_at(data, offset) > data.len() {
        false
    } else {
        dht_parses(data, offset + 17 + count_at(data, offset))
    }
}

impl HuffmanTableData {
    /// A copy of the table.
    pub fn clone_table(&self) -> (r: HuffmanTableData)
        ensures
            r.table_class == self.table_class,
            r.table_index == self.table_index,
            r.sizes@ == self.sizes@,
            r.values@ == self.values@,
    {
        HuffmanTableData {
            table_class: self.table_class,
            table_index: self.table_index,
            sizes: self.sizes.clone(),
            values: self.values.clone(),
        }
    }

    /// Reads the table at `offset`, with its length; fails when the bytes
    /// end before it does.
    pub fn parse_at(data: &Vec<u8>, offset: usize) -> (r: Result<(HuffmanTableData, usize), JpegError>)
        ensures
            r is Ok <==> offset + 17 <= data@.len() && offset + 17 + count_at(data@, offset as int)
                <= data@.len(),
            r matches Ok((t, n)) ==> {
                &&& t.encodable()
                &&& t.table_class == data@[offset as int] >> 4u8
                &&& t.table_index == data@[offset as int] & 0xFu8
                &&& t.sizes@ == Seq::new(16, |i: int| data@[offset + 1 + i] as usize)
                &&& t.values@ == data@.subrange(offset + 17, offset + n)
                &&& n == 17 + count_at(data@, offset as int)
                &&& t.bytes() == data@.subrange(offset as int, offset + n)
            },
            r matches Err(e) ==> e == JpegError::ParseError,
    {
        if offset > data.len() || data.len() - offset < 17 {
            return Err(JpegError::ParseError);
        }
        let tc = data[offset];
        proof {
            lemma_nibbles(tc);
        }
        let mut sizes: Vec<usize> = Vec::new();
        let mut total: usize = 0;
        let ghost counts = Seq::new(16, |i: int| data@[offset + 1 + i] as usize);
        let n = data.len();
        let mut i: usize = 0;
        while i < 16
            invariant
                i <= 16,
                n == data@.len(),
                offset + 17 <= data@.len(),
                counts == Seq::new(16, |i: int| data@[offset + 1 + i] as usize),
                sizes@ =~= counts.take(i as int),
                total == size_sum(counts.take(i as int)),
                total <= 255 * i,
            decreases 16 - i,
        {
            let s = data[offset + 1 + i] as usize;
            assert(counts.take(i + 1).drop_last() =~= counts.take(i as int));
            sizes.push(s);
            total = total + s;
            i = i + 1;
        }
        assert(counts.take(16) =~= counts);
        if data.len() - offset - 17 < total {
            return Err(JpegError::ParseError);
        }
        let values = copy_range(data, offset + 17, offset + 17 + total);
        let t = HuffmanTableData {
            table_class: (tc >> 4u8) as usize,
            table_index: (tc & 0xFu8) as usize,
            sizes,
            values,
        };
        assert(size_bytes(t.sizes@) =~= data@.subrange(offset + 1, offset + 17));
        assert(t.bytes() =~= data@.subrange(offset as int, offset + 17 + total));
        Ok((t, 17 + total))
    }
}

/// The tables of a Huffman segment.
#[derive(Clone, Debug, Default)]
pub struct DhtData {
    pub tables: Vec<HuffmanTableData>,
}

/// The bytes of several tables, one after the other.
pub open spec fn dht_bytes(tables: Seq<HuffmanTableData>) -> Seq<u8>
    decreases tables.len(),
{
    if tables.len() == 0 {
        seq![]
    } else {
        dht_bytes(tables.drop_last()) + tables.last().bytes()
    }
}

/// The code-length counts and the symbols of each whole table from `off`
/// on, in order.
pub open spec fn dht_views(data: Seq<u8>, off: int) -> Seq<(Seq<usize>, Seq<u8>)>
    decreases data.len() - off,
{
    if off < 0 || off >= data.len() || off + 17 > data.len() || off + 17 + count_at(data, off)
        > data.len() {
        seq![]
    } else {
        let n = 17 + count_at(data, off);
        seq![
            (
                Seq::new(16, |i: int| data[off + 1 + i] as usize),
                data.subrange(off + 17, off + n),
            ),
        ] + dht_views(data, off + n)
    }
}

/// The code-length counts and symbols of each table.
pub open spec fn table_views(ts: Seq<HuffmanTableData>) -> Seq<(Seq<usize>, Seq<u8>)> {
    Seq::new(ts.len(), |k: int| (ts[k].sizes@, ts[k].values@))
}

impl ToVec for DhtData {
    open spec fn encodable(&self) -> bool {
        forall|k: int| 0 <= k < self.tables@.len() ==> (#[trigger] self.tables@[k]).encodable()
    }

    open spec fn bytes(&self) -> Seq<u8> {
        dht_bytes(self.tables@)
    }

    fn to_vec(&self) -> (r: Vec<u8>) {
        let mut output: Vec<u8> = Vec::new();
        let mut k: usize = 0;
        while k < self.tables.len()
            invariant
                k <= self.tables@.len(),
                self.encodable(),
                output@ == dht_bytes(self.tables@.take(k as int)),
            decreases self.tables@.len() - k,
        {
            let part = self.tables[k].to_vec();
            push_all(&mut output, &part);
            assert(self.tables@.take(k + 1).drop_last() =~= self.tables@.take(k as int));
            k = k + 1;
        }
        assert(self.tables@.take(k as int) =~= self.tables@);
        output
    }
}

impl DhtData {
    /// Reads a run of Huffman tables; fails unless the payload is whole
    /// tables.
    pub fn parse(data: &Vec<u8>) -> (r: Result<DhtData, JpegError>)
        ensures
            r is Ok <==> dht_parses(data@, 0),
            r matches Ok(d) ==> d.encodable() && d.bytes() == data@ && table_views(d.tables@)
                == dht_views(data@, 0),
            r matches Err(e) ==> e == JpegError::ParseError,
    {
        let mut tables: Vec<HuffmanTableData> = Vec::new();
        assert(table_views(tables@) + dht_views(data@, 0) =~= dht_views(data@, 0));
        let mut offset: usize = 0;
        while offset < data.len()
            invariant
                offset <= data@.len(),
                dht_parses(data@, 0) == dht_parses(data@, offset as int),
                forall|k: int| 0 <= k < tables@.len() ==> (#[trigger] tables@[k]).encodable(),
                dht_bytes(tables@) == data@.subrange(0, offset as int),
                table_views(tables@) + dht_views(data@, offset as int) == dht_views(data@, 0),
            decreases data@.len() - offset,
        {
            match HuffmanTableData::parse_at(data, offset) {
                Ok((t, n)) => {
                    let ghost before = tables@;
                    tables.push(t);
                    assert(tables@.drop_last() =~= before);
                    assert(table_views(tables@) + dht_views(data@, offset + n) =~= table_views(before)
                        + dht_views(data@, offset as int));
                    assert(data@.subrange(0, offset + n) =~= data@.subrange(0, offset as int)
                        + data@.subrange(offset as int, offset + n));
                    offset = offset + n;
                },
                Err(e) => {
                    return Err(e);
                },
            }
        }
        assert(data@.subrange(0, offset as int) =~= data@);
        assert(table_views(tables@) + dht_views(data@, offset as int) =~= table_views(tables@));
        Ok(DhtData { tables })
    }
}

/// One component of a scan: its id and its two table indices.
#[derive(Clone, Debug, Default)]
pub struct ScanComponentData {
    pub component_id: u32,
    pub dc_table_index: usize,
    pub ac_table_index: usize,
}

impl ToVec for ScanComponentData {
    open spec fn encodable(&self) -> bool {
        self.component_id < 256 && self.dc_table_index < 16 && self.ac_table_index < 16
    }

    open spec fn bytes(&self) -> Seq<u8> {
        seq![self.component_id as u8, nibbles(self.dc_table_index as nat, self.ac_table_index as nat)]
    }

    fn to_vec(&self) -> (r: Vec<u8>) {
        let mut output: Vec<u8> = Vec::new();
        output.push(self.component_id as u8);
        output.push((((self.dc_table_index as u8) << 4u8) | (self.ac_table_index as u8)) as u8);
        output
    }
}

/// A scan: its header, and the entropy-coded data that follows it.
#[derive(Clone, Debug, Default)]
pub struct SosData {
    pub spectral_start: u32,
    pub spectral_end: u32,
    pub approx_high: u32,
    pub approx_low: u32,
    pub components: Vec<ScanComponentData>,
    pub image_data: Vec<u8>,
}

/// The header bytes of several scan components.
pub open spec fn scan_component_bytes(c: Seq<ScanComponentData>) -> Seq<u8>
    decreases c.len(),
{
    if c.len() == 0 {
        seq![]
    } else {
        scan_component_bytes(c.drop_last()) + c.last().bytes()
    }
}

impl ToVec for SosData {
    open spec fn encodable(&self) -> bool {
        &&& self.components@.len() < 256
        &&& forall|k: int|
            0 <= k < self.components@.len() ==> (#[trigger] self.components@[k]).encodable()
        &&& self.spectral_start < 256
        &&& 1 <= self.spectral_end <= 256
        &&& self.approx_high < 16
        &&& self.approx_low < 16
    }

    open spec fn bytes(&self) -> Seq<u8> {
        seq![self.components@.len() as u8] + scan_component_bytes(self.components@) + seq![
            self.spectral_start as u8,
            (self.spectral_end - 1) as u8,
            nibbles(self.approx_high as nat, self.approx_low as nat),
        ] + self.image_data@
    }

    fn to_vec(&self) -> (r: Vec<u8>) {
        let mut output: Vec<u8> = Vec::new();
        output.push(self.components.len() as u8);
        let mut k: usize = 0;
        while k < self.components.len()
            invariant
                k <= self.components@.len(),
                self.encodable(),
                output@ == seq![self.components@.len() as u8] + scan_component_bytes(
                    self.components@.take(k as int),
                ),
            decreases self.components@.len() - k,
        {
            let part = self.components[k].to_vec();
            push_all(&mut output, &part);
            assert(self.components@.take(k + 1).drop_last() =~= self.components@.take(k as int));
            assert(output@ =~= seq![self.components@.len() as u8] + scan_component_bytes(
                self.components@.take(k + 1),
            ));
            k = k + 1;
        }
        assert(self.components@.take(k as int) =~= self.components@);
        output.push(self.spectral_start as u8);
        output.push((self.spectral_end - 1) as u8);
        output.push((((self.approx_high as u8) << 4u8) | (self.approx_low as u8)) as u8);
        push_all(&mut output, &self.image_data);
        assert(output@ =~= self.bytes());
        output
    }
}

impl SosData {
    /// A scan with no components and no data.
    pub fn empty() -> (r: SosData)
        ensures
            r.components@.len() == 0,
            r.image_data@.len() == 0,
    {
        SosData {
            spectral_start: 0,
            spectral_end: 64,
            approx_high: 0,
            approx_low: 0,
            components: Vec::new(),
            image_data: Vec::new(),
        }
    }

    /// Reads a scan header and keeps the rest as entropy-coded data.
    pub fn parse(data: &Vec<u8>) -> (r: Result<SosData, JpegError>)
        ensures
            r is Ok <==> data@.len() >= 1 && data@.len() >= 4 + 2 * data@[0],
            r matches Ok(s) ==> {
                &&& s.encodable()
                &&& s.bytes() == data@
                &&& s.components@.len() == data@[0]
                &&& s.spectral_start == data@[1 + 2 * data@[0]]
                &&& s.spectral_end == data@[2 + 2 * data@[0]] + 1
                &&& s.image_data@ == data@.subrange(4 + 2 * data@[0], data@.len() as int)
            },
            r matches Err(e) ==> e == JpegError::ParseError,
    {
        if data.len() < 1 {
            return Err(JpegError::ParseError);
        }
        let count = data[0] as usize;
        if data.len() - 1 < 2 * count + 3 {
            return Err(JpegError::ParseError);
        }
        let mut components: Vec<ScanComponentData> = Vec::new();
        let mut k: usize = 0;
        while k < count
            invariant
                k <= count,
                count == data@[0],
                4 + 2 * count <= data@.len(),
                components@.len() == k,
                forall|j: int|
                    0 <= j < k ==> (#[trigger] components@[j]).encodable(),
                scan_component_bytes(components@) == data@.subrange(1, 1 + 2 * k),
            decreases count - k,
        {
            let b = data[2 + 2 * k];
            proof {
                lemma_nibbles(b);
            }
            let c = ScanComponentData {
                component_id: data[1 + 2 * k] as u32,
                dc_table_index: (b >> 4u8) as usize,
                ac_table_index: (b & 0xFu8) as usize,
            };
            let ghost before = components@;
            components.push(c);
            assert(components@.drop_last() =~= before);
            assert(data@.subrange(1, 1 + 2 * (k + 1)) =~= data@.subrange(1, 1 + 2 * k) + c.bytes());
            k = k + 1;
        }
        let a = data[3 + 2 * count];
        proof {
            lemma_nibbles(a);
        }
        let image_data = copy_range(data, 4 + 2 * count, data.len());
        let s = SosData {
            spectral_start: data[1 + 2 * count] as u32,
            spectral_end: data[2 + 2 * count] as u32 + 1,
            approx_high: (a >> 4u8) as u32,
            approx_low: (a & 0xFu8) as u32,
            components,
            image_data,
        };
        assert(s.bytes() =~= data@);
        Ok(s)
    }
}

/// The entropy-coded data after a restart marker.
#[derive(Clone, Debug, Default)]
pub struct RestartData {
    pub image_data: Vec<u8>,
}

impl RestartData {
    /// Keeps the payload as it is.
    pub fn parse(data: &Vec<u8>) -> (r: RestartData)
        ensures
            r.image_data@ == data@,
    {
        RestartData { image_data: data.clone() }
    }
}

/// A restart interval.
#[derive(Clone, Debug, Default)]
pub struct DriData {
    pub count: u32,
}

impl DriData {
    /// Reads the big-endian 16-bit interval.
    pub fn parse(data: &Vec<u8>) -> (r: Result<DriData, JpegError>)
        ensures
            r is Ok <==> data@.len() >= 2,
            r matches Ok(d) ==> d.count == data@[0] * 256 + data@[1],
            r matches Err(e) ==> e == JpegError::ParseError,
    {
        if data.len() < 2 {
            return Err(JpegError::ParseError);
        }
        Ok(DriData { count: (data[0] as u32) * 256 + data[1] as u32 })
    }
}

} // verus!
