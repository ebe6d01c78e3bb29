//! The segments of a JPEG file: finding them in the bytes, and writing them
//! back.

use crate::error::JpegError;
use crate::marker::{byte_of, has_length, marker_of, Marker};
use vstd::prelude::*;

verus! {

/// Where each recorded marker stands from position `i` on: a `0xFF` followed
/// by a byte other than `0x00`, `0xFF` or a restart marker.
pub open spec fn scan_from(b: Seq<u8>, i: int) -> Seq<(usize, Marker)>
    decreases b.len() - i,
{
    if i < 0 || i + 1 >= b.len() {
        seq![]
    } else if b[i] != 0xFF {
        scan_from(b, i + 1)
    } else if b[i + 1] == 0x00 || b[i + 1] == 0xFF {
        scan_from(b, i + 2)
    } else if marker_of(b[i + 1]) is RST {
        scan_from(b, i + 2)
    } else {
        seq![(i as usize, marker_of(b[i + 1]))] + scan_from(b, i + 2)
    }
}

/// The markers of a file, in order.
pub open spec fn segment_markers(b: Seq<u8>) -> Seq<(usize, Marker)> {
    scan_from(b, 0)
}

/// Where a segment's payload starts: after the marker and its length field.
pub open spec fn payload_start(m: (usize, Marker)) -> int {
    m.0 + 2 + if has_length(m.1) { 2int } else { 0int }
}

/// Where segment `i`'s payload ends: at the next marker, or the end of the
/// file.
pub open spec fn payload_end(ms: Seq<(usize, Marker)>, i: int, len: nat) -> int {
    if i + 1 < ms.len() {
        ms[i + 1].0 as int
    } else {
        len as int
    }
}

/// Every segment has room for its length field.
pub open spec fn segments_ok(b: Seq<u8>) -> bool {
    forall|i: int|
        0 <= i < segment_markers(b).len() ==> payload_start(#[trigger] segment_markers(b)[i])
            <= payload_end(segment_markers(b), i, b.len())
}

/// The big-endian bytes of a 16-bit number.
pub open spec fn be16(n: nat) -> Seq<u8> {
    seq![(n / 256) as u8, (n % 256) as u8]
}

/// Whether a segment can be written: a scan header has its component
/// count, and a length fits 16 bits.
pub open spec fn writable(m: Marker, data: Seq<u8>) -> bool {
    &&& m.wf()
    &&& m is SOS ==> data.len() >= 1
    &&& (has_length(m) && !(m is SOS)) ==> data.len() + 2 <= 0xFFFF
}

/// The bytes of a segment: marker, length field where it has one, payload.
/// A scan's length covers its header alone.
pub open spec fn segment_bytes(m: Marker, data: Seq<u8>) -> Seq<u8> {
    let head = seq![0xFFu8, byte_of(m)];
    if m is SOI || m is EOI {
        head
    } else if m is RST {
        head + data
    } else if m is SOS {
        head + be16((6 + 2 * data[0]) as nat) + data
    } else {
        head + be16((data.len() + 2) as nat) + data
    }
}

/// One segment of a file: where its marker stands, its kind, and its payload
/// without the marker and length field.
#[derive(Clone, Debug)]
pub struct Segment {
    pub index: usize,
    pub marker: Marker,
    pub data: Vec<u8>,
}

/// The bytes `b[start..end]`.
pub fn copy_range(b: &Vec<u8>, start: usize, end: usize) -> (r: Vec<u8>)
    requires
        start <= end <= b@.len(),
    ensures
        r@ == b@.subrange(start as int, end as int),
{
    let mut r: Vec<u8> = Vec::new();
    let mut i: usize = start;
    while i < end
        invariant
            start <= i <= end,
            end <= b@.len(),
            r@ =~= b@.subrange(start as int, i as int),
        decreases end - i,
    {
        r.push(b[i]);
        i = i + 1;
    }
    r
}

/// The markers of a file and where they stand.
pub fn find_markers(bytes: &Vec<u8>) -> (r: Vec<(usize, Marker)>)
    ensures
        r@ == segment_markers(bytes@),
{
    let mut markers: Vec<(usize, Marker)> = Vec::new();
    let mut index: usize = 0;
    let n = bytes.len();
    while index < n && n - index > 1
        invariant
            n == bytes@.len(),
            index <= bytes@.len(),
            markers@ + scan_from(bytes@, index as int) == segment_markers(bytes@),
        decreases bytes@.len() - index,
    {
        if bytes[index] != 0xFF {
            index = index + 1;
            continue;
        }
        let marker_byte = bytes[index + 1];
        if marker_byte == 0xFF || marker_byte == 0x00 {
            index = index + 2;
            continue;
        }
        let marker = Marker::from_byte(marker_byte);
        match marker {
            Marker::RST(_) => {},
            _ => {
                let ghost before = markers@;
                markers.push((index, marker));
                assert(markers@ + scan_from(bytes@, index + 2) =~= before + scan_from(
                    bytes@,
                    index as int,
                ));
            },
        }
        index = index + 2;
    }
    assert(markers@ + scan_from(bytes@, index as int) =~= markers@);
    markers
}

/// Splits a file into its segments; a segment too short for its length
/// field is a [`JpegError::ParseError`].
pub fn scan_segments(bytes: &Vec<u8>) -> (r: Result<Vec<Segment>, JpegError>)
    ensures
        r is Ok <==> segments_ok(bytes@),
        r matches Ok(segs) ==> {
            &&& segs@.len() == segment_markers(bytes@).len()
            &&& forall|i: int|
                0 <= i < segs@.len() ==> {
                    let m = #[trigger] segment_markers(bytes@)[i];
                    &&& segs@[i].index == m.0
                    &&& segs@[i].marker == m.1
                    &&& segs@[i].data@ == bytes@.subrange(
                        payload_start(m),
                        payload_end(segment_markers(bytes@), i, bytes@.len()),
                    )
                }
        },
        r matches Err(e) ==> e == JpegError::ParseError,
{
    let markers = find_markers(bytes);
    let ghost ms = markers@;
    let n = bytes.len();
    let mut segments: Vec<Segment> = Vec::new();
    let mut k: usize = 0;
    while k < markers.len()
        invariant
            k <= ms.len(),
            ms == markers@,
            ms == segment_markers(bytes@),
            n == bytes@.len(),
            segments@.len() == k,
            forall|i: int|
                0 <= i < k ==> payload_start(#[trigger] ms[i]) <= payload_end(ms, i, bytes@.len()),
            forall|i: int|
                0 <= i < k ==> {
                    let m = #[trigger] ms[i];
                    &&& segments@[i].index == m.0
                    &&& segments@[i].marker == m.1
                    &&& segments@[i].data@ == bytes@.subrange(
                        payload_start(m),
                        payload_end(ms, i, bytes@.len()),
                    )
                },
        decreases ms.len() - k,
    {
        let (index, marker) = markers[k];
        proof {
            lemma_scan_bounds(bytes@, 0);
            assert(ms.contains(ms[k as int]));
        }
        let end = if k + 1 < markers.len() {
            markers[k + 1].0
        } else {
            bytes.len()
        };
        let skip: usize = match marker {
            Marker::SOI | Marker::EOI | Marker::RST(_) => 0,
            _ => 2,
        };
        if end < index || end - index < 2 + skip {
            return Err(JpegError::ParseError);
        }
        proof {
            lemma_scan_bounds(bytes@, 0);
            if k + 1 < ms.len() {
                assert(ms.contains(ms[k + 1]));
            }
        }
        let data = copy_range(bytes, index + 2 + skip, end);
        segments.push(Segment { index, marker, data });
        k = k + 1;
    }
    Ok(segments)
}

/// Every marker found stands at or after `i` and before the last byte.
pub proof fn lemma_scan_bounds(b: Seq<u8>, i: int)
    requires
        0 <= i,
        b.len() <= usize::MAX,
    ensures
        forall|m: (usize, Marker)|
            #[trigger] scan_from(b, i).contains(m) ==> i <= m.0 && m.0 + 1 < b.len(),
    decreases b.len() - i,
{
    if i + 1 < b.len() {
        lemma_scan_bounds(b, i + 1);
        lemma_scan_bounds(b, i + 2);
        let s = scan_from(b, i);
        if b[i] != 0xFF {
            assert(s == scan_from(b, i + 1));
        } else if b[i + 1] == 0x00 || b[i + 1] == 0xFF || marker_of(b[i + 1]) is RST {
            assert(s == scan_from(b, i + 2));
        } else {
            let t = scan_from(b, i + 2);
            assert(s == seq![(i as usize, marker_of(b[i + 1]))] + t);
            assert forall|m: (usize, Marker)| #[trigger] s.contains(m) implies i <= m.0 && m.0 + 1
                < b.len() by {
                let j = choose|j: int| 0 <= j < s.len() && s[j] == m;
                if j > 0 {
                    assert(t[j - 1] == m);
                    assert(t.contains(m));
                } else {
                    assert(m.0 == i);
                }
            }
        }
    }
}

/// Appends the bytes of a segment to `out`; fails with
/// [`JpegError::ParseError`] when the segment cannot be written.
pub fn write_segment(out: &mut Vec<u8>, marker: Marker, data: &Vec<u8>) -> (r: Result<(), JpegError>)
    ensures
        r is Ok <==> writable(marker, data@),
        r is Ok ==> final(out)@ == old(out)@ + segment_bytes(marker, data@),
        r is Err ==> final(out)@ == old(out)@ && r == Err::<(), JpegError>(JpegError::ParseError),
{
    let valid = match marker {
        Marker::RST(k) => k < 8,
        _ => true,
    };
    if !valid {
        return Err(JpegError::ParseError);
    }
    let length: usize = match marker {
        Marker::SOI | Marker::EOI | Marker::RST(_) => 0,
        Marker::SOS => {
            if data.len() == 0 {
                return Err(JpegError::ParseError);
            }
            6 + 2 * (data[0] as usize)
        },
        _ => {
            if data.len() > 0xFFFF - 2 {
                return Err(JpegError::ParseError);
            }
            data.len() + 2
        },
    };
    let ghost start = out@;
    out.push(0xFF);
    out.push(marker.to_byte());
    match marker {
        Marker::SOI | Marker::EOI => {},
        Marker::RST(_) => {
            push_all(out, data);
        },
        _ => {
            out.push((length / 256) as u8);
            out.push((length % 256) as u8);
            push_all(out, data);
        },
    }
    assert(out@ =~= start + segment_bytes(marker, data@));
    Ok(())
}

/// Appends `data` to `out`.
pub fn push_all(out: &mut Vec<u8>, data: &Vec<u8>)
    ensures
        final(out)@ == old(out)@ + data@,
{
    let ghost start = out@;
    let mut i: usize = 0;
    while i < data.len()
        invariant
            i <= data@.len(),
            out@ =~= start + data@.take(i as int),
        decreases data@.len() - i,
    {
        out.push(data[i]);
        i = i + 1;
    }
    assert(data@.take(i as int) =~= data@);
}

} // verus!
