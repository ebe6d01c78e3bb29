//! Whole files: hides a secret in a JPEG file's bytes, and reads it back.

use crate::entropy::{faithful, process_entropy_stream, scan_part, TableSet};
use crate::stream::{bits_from, consumed, destuffed, packed, produced, restuffed, Event};
use crate::error::JpegError;
use crate::bignum::{be_value, lemma_canonical_unique};
use crate::jpeg::{
    payload_end, payload_start, scan_segments, segment_bytes, segment_markers, segments_ok,
    write_segment, Segment,
};
use crate::ns2::{capacity, sizes_view, values_view};
use crate::secret::{envelope, found_view, recovered_from, tables_ok};
use crate::segments::dht_parses;
use crate::marker::Marker;
use crate::ns1::size_sum;
use crate::secret::{all_distinct, approx_max_size, hide_in_tables, recover_from_tables};
use crate::segments::{
    dht_bytes, dht_views, table_views, DhtData, DriData, HuffmanTableData, SofData, SosData, ToVec,
};
use crate::stream::HuffmanCode;
use vstd::prelude::*;

verus! {

/// What writing a secret found: about how many bytes the image can hold,
/// and how many the secret took with its header.
#[derive(Clone, Copy, Debug)]
pub struct WriteData {
    pub approx_max_size: usize,
    pub secret_size: usize,
}

/// The payloads of the Huffman segments, one after the other.
pub open spec fn dht_payloads(segs: Seq<Segment>) -> Seq<u8>
    decreases segs.len(),
{
    if segs.len() == 0 {
        seq![]
    } else {
        dht_payloads(segs.drop_last()) + if segs.last().marker is DHT {
            segs.last().data@
        } else {
            seq![]
        }
    }
}

/// The payload of segment `i` of a file.
pub open spec fn payload_of(b: Seq<u8>, i: int) -> Seq<u8> {
    b.subrange(
        payload_start(segment_markers(b)[i]),
        payload_end(segment_markers(b), i, b.len()),
    )
}

/// The payloads of the Huffman segments among the first `n` segments of a
/// file, one after the other.
pub open spec fn dht_concat(b: Seq<u8>, n: nat) -> Seq<u8>
    decreases n,
{
    if n == 0 {
        seq![]
    } else {
        dht_concat(b, (n - 1) as nat) + if segment_markers(b)[n - 1].1 is DHT {
            payload_of(b, n - 1)
        } else {
            seq![]
        }
    }
}

/// The views of the tables of the segments, one after the other.
pub open spec fn dht_payload_views(segs: Seq<Segment>) -> Seq<(Seq<usize>, Seq<u8>)>
    decreases segs.len(),
{
    if segs.len() == 0 {
        seq![]
    } else {
        dht_payload_views(segs.drop_last()) + if segs.last().marker is DHT {
            dht_views(segs.last().data@, 0)
        } else {
            seq![]
        }
    }
}

/// The code-length counts and symbols of the tables of the Huffman segments
/// among the first `n` segments of a file.
pub open spec fn file_views_upto(b: Seq<u8>, n: nat) -> Seq<(Seq<usize>, Seq<u8>)>
    decreases n,
{
    if n == 0 {
        seq![]
    } else {
        file_views_upto(b, (n - 1) as nat) + if segment_markers(b)[n - 1].1 is DHT {
            dht_views(payload_of(b, n - 1), 0)
        } else {
            seq![]
        }
    }
}

/// The code-length counts of each table of the file, in order.
pub open spec fn file_sizes(b: Seq<u8>) -> Seq<Seq<usize>> {
    let v = file_views_upto(b, segment_markers(b).len());
    Seq::new(v.len(), |k: int| v[k].0)
}

/// The symbols of each table of the file, in order.
pub open spec fn file_values(b: Seq<u8>) -> Seq<Seq<u8>> {
    let v = file_views_upto(b, segment_markers(b).len());
    Seq::new(v.len(), |k: int| v[k].1)
}

/// The file splits into segments, and every Huffman segment is whole
/// tables.
pub open spec fn file_parses(b: Seq<u8>) -> bool {
    &&& segments_ok(b)
    &&& forall|i: int|
        0 <= i < segment_markers(b).len() ==> (#[trigger] segment_markers(b)[i]).1 is DHT
            ==> dht_parses(payload_of(b, i), 0)
}

/// `ts` are the tables of the file's Huffman segments, in order.
pub open spec fn file_tables_are(b: Seq<u8>, ts: Seq<HuffmanTableData>) -> bool {
    &&& forall|k: int| 0 <= k < ts.len() ==> (#[trigger] ts[k]).encodable()
    &&& dht_bytes(ts) == dht_concat(b, segment_markers(b).len())
}

/// The code-length counts of each table.
pub open spec fn sizes_of(ts: Seq<HuffmanTableData>) -> Seq<Seq<usize>> {
    Seq::new(ts.len(), |k: int| ts[k].sizes@)
}

/// The symbols of each table.
pub open spec fn values_of(ts: Seq<HuffmanTableData>) -> Seq<Seq<u8>> {
    Seq::new(ts.len(), |k: int| ts[k].values@)
}

/// The bytes of segments with the markers of `ms` and the payloads
/// `datas`, one after the other.
pub open spec fn rewritten(ms: Seq<(usize, Marker)>, datas: Seq<Seq<u8>>) -> Seq<u8>
    decreases datas.len(),
{
    if datas.len() == 0 {
        seq![]
    } else {
        rewritten(ms, datas.drop_last()) + segment_bytes(ms[datas.len() - 1].1, datas.last())
    }
}

/// One payload for each segment of `b`, and every segment but the Huffman
/// and scan segments keeps its payload.
pub open spec fn keeps_other_segments(b: Seq<u8>, datas: Seq<Seq<u8>>) -> bool {
    &&& datas.len() == segment_markers(b).len()
    &&& forall|i: int|
        0 <= i < datas.len() && !((#[trigger] segment_markers(b)[i]).1 is DHT
            || segment_markers(b)[i].1 is SOS) ==> datas[i] == payload_of(b, i)
}

/// `old` and `new` are Huffman payloads with the same tables but for the
/// order of each table's symbols: the same classes, indices and code-length
/// counts, and as many symbols, distinct in `new`.
pub open spec fn same_table_headers(old: Seq<u8>, new: Seq<u8>) -> bool {
    exists|a: Seq<HuffmanTableData>, b: Seq<HuffmanTableData>|
        {
            &&& dht_bytes(a) == old
            &&& dht_bytes(b) == new
            &&& a.len() == b.len()
            &&& forall|j: int|
                0 <= j < a.len() ==> {
                    &&& (#[trigger] b[j]).table_class == a[j].table_class
                    &&& b[j].table_index == a[j].table_index
                    &&& b[j].sizes@ == a[j].sizes@
                    &&& b[j].values@.len() == a[j].values@.len()
                    &&& b[j].values@.no_duplicates()
                }
        }
}

/// `old` and `new` are scan payloads with the same header, and the
/// entropy-coded data of `new` is that of `old` transcoded as a whole scan
/// (for the frame, restart interval and tables then in effect): the log of
/// the whole scan grammar, each symbol read by an old code written in the new
/// code of the same table and every other bit copied, reads the data of
/// `old` and writes that of `new`, with restart markers at their places.
pub open spec fn rewritten_scan(old: Seq<u8>, new: Seq<u8>) -> bool {
    exists|
        s1: SosData,
        s2: SosData,
        frame: SofData,
        ri: nat,
        t: TableSet,
        evs: Seq<Event>,
        markers: Seq<usize>,
    |
        {
            &&& scan_part(frame, s1, ri, t) == Some((evs, markers))
            &&& s1.bytes() == old
            &&& s2.bytes() == new
            &&& s2.components@ == s1.components@
            &&& s2.spectral_start == s1.spectral_start
            &&& s2.spectral_end == s1.spectral_end
            &&& s2.approx_high == s1.approx_high
            &&& s2.approx_low == s1.approx_low
            &&& t.wf()
            &&& faithful(evs, t)
            &&& consumed(evs) == bits_from(destuffed(s1.image_data@), 0, consumed(evs).len())
            &&& produced(evs).len() % 8 == 0
            &&& s2.image_data@ == restuffed(
                packed(produced(evs)),
                markers,
                packed(produced(evs)).len(),
            )
        }
}

/// A scan payload whose header reads spectral start 0 and end 63: a
/// baseline scan over all 64 coefficients.
pub open spec fn baseline_scan(p: Seq<u8>) -> bool {
    &&& p.len() >= 1
    &&& p.len() >= 4 + 2 * p[0]
    &&& p[1 + 2 * p[0]] == 0
    &&& p[2 + 2 * p[0]] == 63
}

/// The payloads among `datas` of the Huffman segments, one after the other.
pub open spec fn dht_datas(ms: Seq<(usize, Marker)>, datas: Seq<Seq<u8>>) -> Seq<u8>
    decreases datas.len(),
{
    if datas.len() == 0 {
        seq![]
    } else {
        dht_datas(ms, datas.drop_last()) + if ms[datas.len() - 1].1 is DHT {
            datas.last()
        } else {
            seq![]
        }
    }
}

/// Each table's counts with its symbols.
pub open spec fn zip_views(s: Seq<Seq<usize>>, v: Seq<Seq<u8>>) -> Seq<(Seq<usize>, Seq<u8>)> {
    Seq::new(s.len(), |k: int| (s[k], v[k]))
}

pub proof fn lemma_dht_bytes_append(a: Seq<HuffmanTableData>, b: Seq<HuffmanTableData>)
    ensures
        dht_bytes(a + b) == dht_bytes(a) + dht_bytes(b),
    decreases b.len(),
{
    if b.len() == 0 {
        assert(a + b =~= a);
    } else {
        lemma_dht_bytes_append(a, b.drop_last());
        assert((a + b).drop_last() =~= a + b.drop_last());
    }
}

pub proof fn lemma_views_prefix(b: Seq<u8>, n: nat, m: nat)
    requires
        n <= m,
    ensures
        file_views_upto(b, n).len() <= file_views_upto(b, m).len(),
        file_views_upto(b, m).take(file_views_upto(b, n).len() as int) == file_views_upto(b, n),
    decreases m,
{
    if n < m {
        lemma_views_prefix(b, n, (m - 1) as nat);
        let a = file_views_upto(b, n);
        let c = file_views_upto(b, (m - 1) as nat);
        assert(file_views_upto(b, m).take(a.len() as int) =~= c.take(a.len() as int));
    } else {
        assert(file_views_upto(b, m).take(file_views_upto(b, n).len() as int) =~= file_views_upto(b, n));
    }
}

/// Segments as the scan of `b` found them.
pub open spec fn segments_of(b: Seq<u8>, segs: Seq<Segment>) -> bool {
    &&& segs.len() == segment_markers(b).len()
    &&& forall|i: int|
        0 <= i < segs.len() ==> {
            let m = #[trigger] segment_markers(b)[i];
            &&& segs[i].marker == m.1
            &&& segs[i].data@ == payload_of(b, i)
        }
}

pub proof fn lemma_dht_concat(b: Seq<u8>, segs: Seq<Segment>, n: nat)
    requires
        segments_of(b, segs),
        n <= segs.len(),
    ensures
        dht_payloads(segs.take(n as int)) == dht_concat(b, n),
        dht_payload_views(segs.take(n as int)) == file_views_upto(b, n),
    decreases n,
{
    if n > 0 {
        lemma_dht_concat(b, segs, (n - 1) as nat);
        assert(segs.take(n as int).drop_last() =~= segs.take(n - 1));
        assert(segs[n - 1].marker == segment_markers(b)[n - 1].1);
    } else {
        assert(segs.take(0) =~= Seq::<Segment>::empty());
    }
}

/// Every table of every Huffman segment, in file order; fails when a
/// Huffman segment is not whole tables.
pub fn collect_tables(segments: &Vec<Segment>) -> (r: Result<Vec<HuffmanTableData>, JpegError>)
    ensures
        r is Ok <==> forall|i: int|
            0 <= i < segments@.len() ==> (#[trigger] segments@[i]).marker is DHT ==> dht_parses(
                segments@[i].data@,
                0,
            ),
        r matches Ok(ts) ==> {
            &&& forall|k: int| 0 <= k < ts@.len() ==> (#[trigger] ts@[k]).encodable()
            &&& dht_bytes(ts@) == dht_payloads(segments@)
            &&& table_views(ts@) == dht_payload_views(segments@)
        },
        r matches Err(e) ==> e == JpegError::ParseError,
{
    let mut tables: Vec<HuffmanTableData> = Vec::new();
    let mut i: usize = 0;
    while i < segments.len()
        invariant
            i <= segments@.len(),
            forall|k: int| 0 <= k < tables@.len() ==> (#[trigger] tables@[k]).encodable(),
            dht_bytes(tables@) == dht_payloads(segments@.take(i as int)),
            table_views(tables@) == dht_payload_views(segments@.take(i as int)),
            forall|j: int|
                0 <= j < i ==> (#[trigger] segments@[j]).marker is DHT ==> dht_parses(
                    segments@[j].data@,
                    0,
                ),
        decreases segments@.len() - i,
    {
        let ghost before = tables@;
        assert(segments@.take(i + 1).drop_last() =~= segments@.take(i as int));
        if let Marker::DHT = segments[i].marker {
            let dht = match DhtData::parse(&segments[i].data) {
                Ok(v) => v,
                Err(e) => {
                    return Err(e);
                },
            };
            let mut k: usize = 0;
            assert(dht.tables@.take(0) =~= Seq::<HuffmanTableData>::empty());
            assert(table_views(before) + table_views(dht.tables@.take(0)) =~= table_views(before));
            while k < dht.tables.len()
                invariant
                    k <= dht.tables@.len(),
                    dht.encodable(),
                    dht_bytes(tables@) == dht_bytes(before) + dht_bytes(dht.tables@.take(k as int)),
                    table_views(tables@) == table_views(before) + table_views(dht.tables@.take(k as int)),
                    forall|j: int| 0 <= j < tables@.len() ==> (#[trigger] tables@[j]).encodable(),
                decreases dht.tables@.len() - k,
            {
                let ghost prev = tables@;
                let c = dht.tables[k].clone_table();
                assert(c.bytes() == dht.tables@[k as int].bytes());
                tables.push(c);
                assert(tables@.drop_last() =~= prev);
                assert(dht.tables@.take(k + 1).drop_last() =~= dht.tables@.take(k as int));
                assert(table_views(tables@) =~= table_views(prev).push((c.sizes@, c.values@)));
                assert(table_views(dht.tables@.take(k + 1)) =~= table_views(dht.tables@.take(k as int)).push(
                    (dht.tables@[k as int].sizes@, dht.tables@[k as int].values@),
                ));
                assert(table_views(tables@) =~= table_views(before) + table_views(dht.tables@.take(k + 1)));
                k = k + 1;
            }
            assert(dht.tables@.take(k as int) =~= dht.tables@);
        }
        i = i + 1;
    }
    assert(segments@.take(i as int) =~= segments@);
    Ok(tables)
}

/// The tables of a file's Huffman segments, in order; fails with
/// [`JpegError::ParseError`] unless the file splits into segments and its
/// Huffman segments into tables.
pub fn file_tables(input: &Vec<u8>) -> (r: Result<Vec<HuffmanTableData>, JpegError>)
    ensures
        r is Ok <==> file_parses(input@),
        r matches Ok(ts) ==> file_tables_are(input@, ts@) && sizes_of(ts@) == file_sizes(input@)
            && values_of(ts@) == file_values(input@),
        r matches Err(e) ==> e == JpegError::ParseError,
{
    let segments = match scan_segments(input) {
        Ok(v) => v,
        Err(e) => {
            return Err(e);
        },
    };
    let ghost ms = segment_markers(input@);
    proof {
        assert(segments_of(input@, segments@));
        assert forall|i: int| 0 <= i < segments@.len() implies ((#[trigger] segments@[i]).marker is DHT
            ==> dht_parses(segments@[i].data@, 0)) == (ms[i].1 is DHT ==> dht_parses(
            payload_of(input@, i),
            0,
        )) by {
            assert(segments@[i].marker == ms[i].1);
        }
        lemma_dht_concat(input@, segments@, segments@.len());
        assert(segments@.take(segments@.len() as int) =~= segments@);
    }
    let tables = collect_tables(&segments);
    proof {
        if tables is Ok {
            let ts = tables->Ok_0;
            assert(sizes_of(ts@) =~= file_sizes(input@));
            assert(values_of(ts@) =~= file_values(input@));
        }
        if tables is Ok {
            assert(file_parses(input@)) by {
                assert forall|i: int| 0 <= i < ms.len() && (#[trigger] ms[i]).1 is DHT implies dht_parses(
                    payload_of(input@, i),
                    0,
                ) by {
                    assert(segments@[i].marker is DHT ==> dht_parses(segments@[i].data@, 0));
                    assert(segments@[i].data@ == payload_of(input@, i));
                    assert(segments@[i].marker == ms[i].1);
                }
            }
        } else {
            assert(!file_parses(input@)) by {
                let i = choose|i: int|
                    0 <= i < segments@.len() && !((#[trigger] segments@[i]).marker is DHT
                        ==> dht_parses(segments@[i].data@, 0));
                assert(segments@[i].data@ == payload_of(input@, i));
                assert(segments@[i].marker == ms[i].1);
                assert(!(ms[i].1 is DHT ==> dht_parses(payload_of(input@, i), 0)));
            }
        }
    }
    tables
}

/// The sizes and the values of each table.
pub fn split_tables(tables: &Vec<HuffmanTableData>) -> (r: (Vec<Vec<usize>>, Vec<Vec<u8>>))
    ensures
        sizes_view(r.0@) == sizes_of(tables@),
        values_view(r.1@) == values_of(tables@),
        r.0@.len() == tables@.len(),
        r.1@.len() == tables@.len(),
        forall|k: int| 0 <= k < tables@.len() ==> (#[trigger] r.0@[k])@ == tables@[k].sizes@,
        forall|k: int| 0 <= k < tables@.len() ==> (#[trigger] r.1@[k])@ == tables@[k].values@,
{
    let mut sizes: Vec<Vec<usize>> = Vec::new();
    let mut values: Vec<Vec<u8>> = Vec::new();
    let mut k: usize = 0;
    while k < tables.len()
        invariant
            k <= tables@.len(),
            sizes@.len() == k,
            values@.len() == k,
            forall|j: int| 0 <= j < k ==> (#[trigger] sizes@[j])@ == tables@[j].sizes@,
            forall|j: int| 0 <= j < k ==> (#[trigger] values@[j])@ == tables@[j].values@,
        decreases tables@.len() - k,
    {
        let s = tables[k].sizes.clone();
        let v = tables[k].values.clone();
        assert(s@ =~= tables@[k as int].sizes@);
        assert(v@ =~= tables@[k as int].values@);
        sizes.push(s);
        values.push(v);
        assert(sizes@[k as int]@ == tables@[k as int].sizes@);
        assert(values@[k as int]@ == tables@[k as int].values@);
        k = k + 1;
    }
    assert(sizes_view(sizes@) =~= sizes_of(tables@));
    assert(values_view(values@) =~= values_of(tables@));
    (sizes, values)
}

/// Writes `input` again with `secret` hidden in the order of its Huffman
/// symbols, each scan's entropy-coded data rewritten to match.
#[verifier::rlimit(100)]
pub fn write_secret(input: &Vec<u8>, secret: &Vec<u8>) -> (r: Result<(Vec<u8>, WriteData), JpegError>)
    ensures
        !file_parses(input@) ==> r == Err::<(Vec<u8>, WriteData), JpegError>(JpegError::ParseError),
        file_parses(input@) && !tables_ok(file_sizes(input@), file_values(input@)) ==> r == Err::<
            (Vec<u8>, WriteData),
            JpegError,
        >(JpegError::ParseError),
        r == Err::<(Vec<u8>, WriteData), JpegError>(JpegError::SecretTooLarge) <==> {
            &&& file_parses(input@)
            &&& tables_ok(file_sizes(input@), file_values(input@))
            &&& be_value(envelope(secret@)) >= capacity(file_sizes(input@))
        },
        r == Err::<(Vec<u8>, WriteData), JpegError>(JpegError::UnsupportedScan) ==> exists|j: int|
            0 <= j < segment_markers(input@).len() && (#[trigger] segment_markers(input@)[j]).1 is SOS
                && !baseline_scan(payload_of(input@, j)),
        r matches Ok((out, info)) ==> {
            &&& info.secret_size == secret@.len() + 2
            &&& tables_ok(file_sizes(input@), file_values(input@))
            &&& be_value(envelope(secret@)) < capacity(file_sizes(input@))
            &&& forall|j: int|
                0 <= j < segment_markers(input@).len() && (#[trigger] segment_markers(input@)[j]).1 is SOS
                    ==> baseline_scan(payload_of(input@, j))
            &&& exists|datas: Seq<Seq<u8>>, ws: Seq<HuffmanTableData>, nv: Seq<Seq<u8>>|
                {
                    &&& keeps_other_segments(input@, datas)
                    &&& out@ == rewritten(segment_markers(input@), datas)
                    &&& forall|j: int|
                        0 <= j < datas.len() && (#[trigger] segment_markers(input@)[j]).1 is DHT
                            ==> same_table_headers(payload_of(input@, j), datas[j])
                    &&& forall|j: int|
                        0 <= j < datas.len() && (#[trigger] segment_markers(input@)[j]).1 is SOS
                            ==> rewritten_scan(payload_of(input@, j), datas[j])
                    &&& forall|k: int| 0 <= k < ws.len() ==> (#[trigger] ws[k]).encodable()
                    &&& dht_datas(segment_markers(input@), datas) == dht_bytes(ws)
                    &&& table_views(ws) == zip_views(file_sizes(input@), nv)
                    &&& forall|found: Option<Seq<u8>>|
                        #[trigger] recovered_from(file_sizes(input@), nv, found) ==> found == Some(
                            secret@,
                        )
                }
        },
{
    let segments = match scan_segments(input) {
        Ok(v) => v,
        Err(e) => {
            return Err(e);
        },
    };
    let tables = match file_tables(input) {
        Ok(v) => v,
        Err(e) => {
            return Err(e);
        },
    };
    let (sizes, values) = split_tables(&tables);
    let (_, mut new_values) = split_tables(&tables);
    let ghost fs = file_sizes(input@);
    let ghost fv = file_values(input@);
    assert(sizes_view(sizes@) == fs && values_view(new_values@) == fv);
    let ns = match hide_in_tables(&sizes, &mut new_values, secret) {
        Ok(v) => v,
        Err(e) => {
            return Err(e);
        },
    };
    let written = ns.to_value(&sizes);
    proof {
        let e = envelope(secret@);
        assert(e[0] == 0xBE);
        lemma_canonical_unique(written@, e);
    }
    let secret_size = written.len();
    let info = WriteData { approx_max_size: approx_max_size(&sizes), secret_size };

    let mut out: Vec<u8> = Vec::new();
    let mut frame = SofData::empty();
    let mut scan = SosData::empty();
    let mut restart_interval: u32 = 0;
    let mut coder = TableSet::new();
    let mut next_table: usize = 0;
    let mut i: usize = 0;
    let ghost ms = segment_markers(input@);
    let ghost mut datas: Seq<Seq<u8>> = seq![];
    let ghost nv = values_view(new_values@);
    let ghost mut ws: Seq<HuffmanTableData> = seq![];
    let ghost all_views = file_views_upto(input@, ms.len());
    assert(segments_of(input@, segments@));
    assert(fs.len() == all_views.len() && nv.len() == fs.len());
    assert(table_views(ws) =~= zip_views(fs, nv).take(0));
    while i < segments.len()
        invariant
            coder.wf(),
            segments_of(input@, segments@),
            ms == segment_markers(input@),
            datas.len() == i,
            i <= segments@.len(),
            out@ == rewritten(ms, datas),
            forall|j: int|
                0 <= j < i && !((#[trigger] ms[j]).1 is DHT || ms[j].1 is SOS) ==> datas[j]
                    == payload_of(input@, j),
            forall|j: int|
                0 <= j < i && (#[trigger] ms[j]).1 is DHT ==> same_table_headers(
                    payload_of(input@, j),
                    datas[j],
                ),
            forall|j: int|
                0 <= j < i && (#[trigger] ms[j]).1 is SOS ==> rewritten_scan(
                    payload_of(input@, j),
                    datas[j],
                ),
            file_parses(input@),
            file_tables_are(input@, tables@),
            tables_ok(sizes_of(tables@), values_of(tables@)),
            be_value(envelope(secret@)) < capacity(sizes_of(tables@)),
            info.secret_size == secret@.len() + 2,
            fs == file_sizes(input@),
            fv == file_values(input@),
            sizes_of(tables@) == fs,
            values_of(tables@) == fv,
            all_views == file_views_upto(input@, ms.len()),
            fs.len() == all_views.len(),
            nv.len() == fs.len(),
            values_view(new_values@) == nv,
            forall|found: Option<Seq<u8>>| #[trigger] recovered_from(fs, nv, found) ==> found == Some(secret@),
            next_table == file_views_upto(input@, i as nat).len(),
            forall|k: int| 0 <= k < ws.len() ==> (#[trigger] ws[k]).encodable(),
            dht_datas(ms, datas) == dht_bytes(ws),
            table_views(ws) == zip_views(fs, nv).take(next_table as int),
            forall|j: int|
                0 <= j < i && (#[trigger] ms[j]).1 is SOS ==> baseline_scan(payload_of(input@, j)),
        decreases segments@.len() - i,
    {
        let segment = &segments[i];
        let marker = segment.marker;
        let mut data = segment.data.clone();
        match marker {
            Marker::SOF0 | Marker::SOF1 | Marker::SOF2 => {
                frame = match SofData::parse(&segment.data) {
                    Ok(v) => v,
                    Err(e) => {
                        return Err(e);
                    },
                };
            },
            Marker::DRI => {
                restart_interval = match DriData::parse(&segment.data) {
                    Ok(v) => v.count,
                    Err(e) => {
                        return Err(e);
                    },
                };
            },
            Marker::SOS => {
                scan = match SosData::parse(&segment.data) {
                    Ok(v) => v,
                    Err(e) => {
                        return Err(e);
                    },
                };
                if scan.spectral_start != 0 || scan.spectral_end != 64 {
                    proof {
                        assert(segment.data@ == payload_of(input@, i as int));
                        assert(ms[i as int].1 is SOS);
                        assert(!baseline_scan(payload_of(input@, i as int)));
                    }
                    return Err(JpegError::UnsupportedScan);
                }
                let image = match process_entropy_stream(&frame, &scan, restart_interval, &coder) {
                    Ok(v) => v,
                    Err(e) => {
                        return Err(e);
                    },
                };
                let ghost s1 = scan;
                scan.image_data = image;
                data = scan.to_vec();
                proof {
                    let s2 = scan;
                    let (evs, markers) = scan_part(frame, s1, restart_interval as nat, coder).unwrap();
                    assert(s2.components@ == s1.components@);
                    assert(rewritten_scan(segment.data@, data@));
                }
            },
            Marker::DHT => {
                let mut dht = match DhtData::parse(&segment.data) {
                    Ok(v) => v,
                    Err(e) => {
                        return Err(e);
                    },
                };
                let mut rewritten: Vec<HuffmanTableData> = Vec::new();
                let ghost parsed = dht.tables@;
                let ghost base = next_table as int;
                proof {
                    assert(segment.data@ == payload_of(input@, i as int));
                    assert(ms[i as int].1 is DHT);
                    assert(file_views_upto(input@, (i + 1) as nat) == file_views_upto(input@, i as nat)
                        + dht_views(payload_of(input@, i as int), 0));
                    lemma_views_prefix(input@, (i + 1) as nat, ms.len());
                    let u = file_views_upto(input@, i as nat);
                    let u1 = file_views_upto(input@, (i + 1) as nat);
                    let dv = dht_views(payload_of(input@, i as int), 0);
                    assert(table_views(parsed) == dv);
                    assert(all_views.take(u1.len() as int) == u1);
                    assert forall|j: int| 0 <= j < parsed.len() implies (#[trigger] parsed[j]).sizes@
                        == fs[base + j] by {
                        assert(u1[base + j] == dv[j]);
                        assert(all_views[base + j] == u1[base + j]);
                        assert(table_views(parsed)[j] == dv[j]);
                    }
                }
                let mut k: usize = 0;
                while k < dht.tables.len()
                    invariant
                        coder.wf(),
                        parsed == dht.tables@,
                        k <= parsed.len(),
                        rewritten@.len() == k,
                        forall|j: int| 0 <= j < dht.tables@.len() ==> (#[trigger] dht.tables@[j]).encodable(),
                        forall|j: int| 0 <= j < rewritten@.len() ==> (#[trigger] rewritten@[j]).encodable(),
                        forall|j: int|
                            0 <= j < k ==> {
                                &&& (#[trigger] rewritten@[j]).table_class == parsed[j].table_class
                                &&& rewritten@[j].table_index == parsed[j].table_index
                                &&& rewritten@[j].sizes@ == parsed[j].sizes@
                                &&& rewritten@[j].values@.len() == parsed[j].values@.len()
                                &&& rewritten@[j].values@.no_duplicates()
                                &&& rewritten@[j].values@ == nv[base + j]
                            },
                        next_table == base + k,
                        base + parsed.len() <= fs.len(),
                        nv.len() == fs.len(),
                        values_view(new_values@) == nv,
                        forall|j: int| 0 <= j < parsed.len() ==> (#[trigger] parsed[j]).sizes@ == fs[base + j],
                        fs == file_sizes(input@),
                        fv == file_values(input@),
                        file_parses(input@),
                        tables_ok(fs, fv),
                        be_value(envelope(secret@)) < capacity(fs),
                    decreases dht.tables@.len() - k,
                {
                    let table = &dht.tables[k];
                    if next_table >= new_values.len() {
                        return Err(JpegError::ParseError);
                    }
                    let replaced = new_values[next_table].clone();
                    next_table = next_table + 1;
                    if replaced.len() != table.values.len() || !all_distinct(&replaced) {
                        return Err(JpegError::ParseError);
                    }
                    let slot = 2 * table.table_class + table.table_index;
                    if table.table_class >= 2 || slot >= 4 {
                        return Err(JpegError::ParseError);
                    }
                    let old_code = HuffmanCode { sizes: table.sizes.clone(), values: table.values.clone() };
                    let new_code = HuffmanCode { sizes: table.sizes.clone(), values: replaced.clone() };
                    assert(replaced@.take(size_sum(table.sizes@) as int) =~= replaced@);
                    coder.set(slot, old_code, new_code);
                    rewritten.push(
                        HuffmanTableData {
                            table_class: table.table_class,
                            table_index: table.table_index,
                            sizes: table.sizes.clone(),
                            values: replaced,
                        },
                    );
                    k = k + 1;
                }
                let ghost fresh = rewritten@;
                dht = DhtData { tables: rewritten };
                data = dht.to_vec();
                proof {
                    assert(parsed.len() == fresh.len());
                    assert(same_table_headers(segment.data@, data@));
                    lemma_dht_bytes_append(ws, fresh);
                    let z = zip_views(fs, nv);
                    assert(table_views(ws).len() == ws.len());
                    assert(ws.len() == base);
                    assert(fresh.len() == parsed.len());
                    assert(next_table == base + fresh.len());
                    assert forall|j: int| 0 <= j < next_table implies #[trigger] table_views(ws + fresh)[j]
                        == z.take(next_table as int)[j] by {
                        if j < base {
                            assert((ws + fresh)[j] == ws[j]);
                            assert(table_views(ws + fresh)[j] == table_views(ws)[j]);
                            assert(table_views(ws)[j] == z.take(base)[j]);
                        } else {
                            assert((ws + fresh)[j] == fresh[j - base]);
                            assert(table_views(ws + fresh)[j] == (fresh[j - base].sizes@, fresh[j - base].values@));
                            assert(fresh[j - base].sizes@ == parsed[j - base].sizes@);
                        }
                    }
                    assert(table_views(ws + fresh) =~= z.take(next_table as int));
                    ws = ws + fresh;
                }
            },
            _ => {},
        }
        let ghost before = datas;
        if let Err(e) = write_segment(&mut out, marker, &data) {
            return Err(e);
        }
        proof {
            datas = datas.push(data@);
            assert(datas.drop_last() =~= before);
            assert(marker == ms[i as int].1);
            assert(segment.data@ == payload_of(input@, i as int));
            assert(file_views_upto(input@, (i + 1) as nat) == file_views_upto(input@, i as nat) + if ms[i as int].1 is DHT {
                dht_views(payload_of(input@, i as int), 0)
            } else {
                seq![]
            });
            if !(ms[i as int].1 is DHT) {
                assert(file_views_upto(input@, (i + 1) as nat) =~= file_views_upto(input@, i as nat));
                assert(dht_datas(ms, datas) =~= dht_datas(ms, before));
            }
        }
        i = i + 1;
    }
    assert(keeps_other_segments(input@, datas));
    assert(zip_views(fs, nv).take(next_table as int) =~= zip_views(fs, nv));
    Ok((out, info))
}

/// The secret hidden in `input`, if there is one.
pub fn read_secret(input: &Vec<u8>) -> (r: Result<Option<Vec<u8>>, JpegError>)
    ensures
        r is Err <==> !file_parses(input@) || !tables_ok(file_sizes(input@), file_values(input@)),
        r matches Err(e) ==> e == JpegError::ParseError,
        r matches Ok(found) ==> recovered_from(
            file_sizes(input@),
            file_values(input@),
            found_view(found),
        ),
{
    let tables = match file_tables(input) {
        Ok(v) => v,
        Err(e) => {
            return Err(e);
        },
    };
    let (sizes, values) = split_tables(&tables);
    recover_from_tables(&sizes, &values)
}

} // verus!
