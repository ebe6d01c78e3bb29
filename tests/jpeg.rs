use jpeg_secret::engine::{read_secret, write_secret};
use jpeg_secret::entropy::{encoder_table, process_entropy_stream, TableSet};
use jpeg_secret::error::JpegError;
use jpeg_secret::huffman::construct_huffman_table;
use jpeg_secret::jpeg::{scan_segments, write_segment};
use jpeg_secret::marker::Marker;
use jpeg_secret::segments::{DhtData, SofData, SosData, ToVec};
use jpeg_secret::stream::{insert_data_padding, strip_stream_padding, HuffmanCode};

fn sizes_with(length: usize, count: usize) -> Vec<u8> {
    let mut sizes = vec![0u8; 16];
    sizes[length - 1] = count as u8;
    sizes
}

fn table(tc: u8, length: usize, values: &[u8]) -> Vec<u8> {
    let mut out = vec![tc];
    out.extend(sizes_with(length, values.len()));
    out.extend(values);
    out
}

fn segment(marker: u8, payload: &[u8]) -> Vec<u8> {
    let mut out = vec![0xFF, marker];
    let len = payload.len() + 2;
    out.push((len / 256) as u8);
    out.push((len % 256) as u8);
    out.extend(payload);
    out
}

fn ac_values() -> Vec<u8> {
    (0u8..20).collect()
}

/// An 8x8 one-component baseline image with four Huffman tables in two
/// segments; its one block is DC category 0 and an end of block.
fn small_jpeg() -> Vec<u8> {
    let mut out = vec![0xFF, 0xD8];
    let mut dqt = vec![0u8];
    dqt.extend(vec![1u8; 64]);
    out.extend(segment(0xDB, &dqt));
    out.extend(segment(0xC0, &[8, 0, 8, 0, 8, 1, 1, 0x11, 0]));
    let mut dht1 = table(0x00, 2, &[0, 1, 2]);
    dht1.extend(table(0x10, 5, &ac_values()));
    out.extend(segment(0xC4, &dht1));
    let mut dht2 = table(0x01, 2, &[0, 1]);
    dht2.extend(table(0x11, 3, &[0, 1, 2]));
    out.extend(segment(0xC4, &dht2));
    out.extend(segment(0xDA, &[1, 1, 0x00, 0, 63, 0]));
    out.push(0x01);
    out.extend([0xFF, 0xD9]);
    out
}

#[test]
fn write_then_read_hello() {
    let input = small_jpeg();
    let (output, info) = write_secret(&input, &b"hello".to_vec()).unwrap();
    assert_eq!(info.secret_size, 7);
    assert!(info.approx_max_size >= 8);
    assert_eq!(read_secret(&output), Ok(Some(b"hello".to_vec())));
}

#[test]
fn write_then_read_empty_secret() {
    let input = small_jpeg();
    let (output, _) = write_secret(&input, &Vec::new()).unwrap();
    assert_eq!(output.len(), input.len());
    assert_eq!(read_secret(&output), Ok(Some(Vec::new())));
    let a = scan_segments(&input).unwrap();
    let b = scan_segments(&output).unwrap();
    assert_eq!(a.len(), b.len());
    for (x, y) in a.iter().zip(b.iter()) {
        assert_eq!(x.marker, y.marker);
        if x.marker != Marker::DHT && x.marker != Marker::SOS {
            assert_eq!(x.data, y.data);
        }
    }
}

#[test]
fn secret_too_large() {
    let input = small_jpeg();
    assert_eq!(
        write_secret(&input, &b"far too long".to_vec()).map(|r| r.0),
        Err(JpegError::SecretTooLarge)
    );
}

#[test]
fn unmarked_image_holds_no_message() {
    assert_eq!(read_secret(&small_jpeg()), Ok(None));
}

#[test]
fn progressive_scan_is_refused() {
    let mut input = small_jpeg();
    let sos = input.len() - 7 - 3;
    input[sos + 4] = 5;
    assert_eq!(
        write_secret(&input, &b"x".to_vec()).map(|r| r.0),
        Err(JpegError::UnsupportedScan)
    );
}

#[test]
fn truncated_segment_is_a_parse_error() {
    let bytes = vec![0xFF, 0xD8, 0xFF, 0xDB, 0xFF, 0xD9];
    assert!(matches!(scan_segments(&bytes), Err(JpegError::ParseError)));
}

#[test]
fn segments_are_found_and_written_back() {
    let input = small_jpeg();
    let segments = scan_segments(&input).unwrap();
    let markers: Vec<Marker> = segments.iter().map(|s| s.marker).collect();
    assert_eq!(
        markers,
        vec![
            Marker::SOI,
            Marker::DQT,
            Marker::SOF0,
            Marker::DHT,
            Marker::DHT,
            Marker::SOS,
            Marker::EOI
        ]
    );
    let mut out = Vec::new();
    for s in &segments {
        write_segment(&mut out, s.marker, &s.data).unwrap();
    }
    assert_eq!(out, input);
}

#[test]
fn markers_map_to_bytes() {
    assert_eq!(Marker::from_byte(0xC4), Marker::DHT);
    assert_eq!(Marker::from_byte(0xD3), Marker::RST(3));
    assert_eq!(Marker::from_byte(0xE0), Marker::Unknown(0xE0));
    for b in 0..=255u8 {
        assert_eq!(Marker::from_byte(b).to_byte(), b);
    }
}

#[test]
fn huffman_codes_are_canonical() {
    let mut sizes = vec![0usize; 16];
    sizes[1] = 2;
    sizes[2] = 1;
    let table = construct_huffman_table(&sizes, &vec![7, 9, 4]);
    assert_eq!(
        table,
        vec![
            (7, vec![0, 0]),
            (9, vec![0, 1]),
            (4, vec![1, 0, 0]),
            (255, vec![1, 0, 1])
        ]
    );
}

#[test]
fn stuffed_bytes_are_removed_and_restored() {
    let data = vec![0x12, 0xFF, 0x00, 0x34, 0xFF, 0xD0, 0x56];
    let raw = strip_stream_padding(&data);
    assert_eq!(raw, vec![0x12, 0xFF, 0x34, 0xFF, 0xD0, 0x56]);
    assert_eq!(insert_data_padding(&raw, &vec![3]), data);
}

#[test]
fn dht_payload_round_trips() {
    let mut payload = table(0x00, 2, &[0, 1, 2]);
    payload.extend(table(0x11, 3, &[5, 6]));
    let dht = DhtData::parse(&payload).unwrap();
    assert_eq!(dht.tables.len(), 2);
    assert_eq!(dht.tables[1].table_class, 1);
    assert_eq!(dht.tables[1].values, vec![5, 6]);
    assert_eq!(dht.to_vec(), payload);
    assert!(DhtData::parse(&payload[..payload.len() - 1].to_vec()).is_err());
}

fn code(length: usize, values: &[u8]) -> HuffmanCode {
    let mut sizes = vec![0usize; 16];
    sizes[length - 1] = values.len();
    HuffmanCode { sizes, values: values.to_vec() }
}

#[test]
fn identity_transcoding_copies_the_stream() {
    let frame = SofData::parse(&vec![8, 0, 8, 0, 8, 1, 1, 0x11, 0]).unwrap();
    let scan = SosData::parse(&vec![1, 1, 0x00, 0, 63, 0, 0x61, 0x00]).unwrap();
    let mut tables = TableSet::new();
    tables.set(0, code(2, &[0, 1, 2]), code(2, &[0, 1, 2]));
    tables.set(2, code(5, &ac_values()), code(5, &ac_values()));
    let out = process_entropy_stream(&frame, &scan, 0, &tables).unwrap();
    assert_eq!(out, vec![0x61, 0x00]);
}

#[test]
fn transcoding_uses_the_new_codes() {
    let frame = SofData::parse(&vec![8, 0, 8, 0, 8, 1, 1, 0x11, 0]).unwrap();
    let scan = SosData::parse(&vec![1, 1, 0x00, 0, 63, 0, 0x61, 0x00]).unwrap();
    let mut tables = TableSet::new();
    tables.set(0, code(2, &[0, 1, 2]), code(2, &[2, 1, 0]));
    tables.set(2, code(5, &ac_values()), code(5, &ac_values()));
    let out = process_entropy_stream(&frame, &scan, 0, &tables).unwrap();
    assert_eq!(out, vec![0x61, 0x00]);
    let mut tables = TableSet::new();
    tables.set(0, code(2, &[0, 1, 2]), code(2, &[1, 0, 2]));
    tables.set(2, code(5, &ac_values()), code(5, &ac_values()));
    let out = process_entropy_stream(&frame, &scan, 0, &tables).unwrap();
    assert_eq!(out, vec![0x21, 0x00]);
}

#[test]
fn restart_markers_are_kept_in_place() {
    let frame = SofData::parse(&vec![8, 0, 8, 0, 16, 1, 1, 0x11, 0]).unwrap();
    let scan = SosData::parse(&vec![1, 1, 0x00, 0, 63, 0, 0x01, 0xFF, 0xD0, 0x01]).unwrap();
    let mut tables = TableSet::new();
    tables.set(0, code(2, &[0, 1, 2]), code(2, &[0, 1, 2]));
    tables.set(2, code(5, &ac_values()), code(5, &ac_values()));
    let out = process_entropy_stream(&frame, &scan, 1, &tables).unwrap();
    assert_eq!(out, vec![0x00, 0xFF, 0xD0, 0x00]);
}

#[test]
fn truncated_stream_is_a_bitstream_error() {
    let frame = SofData::parse(&vec![8, 0, 16, 0, 16, 1, 1, 0x11, 0]).unwrap();
    let scan = SosData::parse(&vec![1, 1, 0x00, 0, 63, 0, 0x01]).unwrap();
    let mut tables = TableSet::new();
    tables.set(0, code(2, &[0, 1, 2]), code(2, &[0, 1, 2]));
    tables.set(2, code(5, &ac_values()), code(5, &ac_values()));
    assert_eq!(
        process_entropy_stream(&frame, &scan, 0, &tables),
        Err(JpegError::BitstreamError)
    );
}

#[test]
fn repeated_table_values_are_refused() {
    let mut input = small_jpeg();
    let pos = input
        .windows(4)
        .position(|w| w == [0x00, 0x00, 0x01, 0x02])
        .unwrap();
    input[pos + 2] = 0x00;
    assert_eq!(read_secret(&input), Err(JpegError::ParseError));
}

#[test]
fn symbol_missing_from_the_new_code_is_refused() {
    let frame = SofData::parse(&vec![8, 0, 8, 0, 8, 1, 1, 0x11, 0]).unwrap();
    let scan = SosData::parse(&vec![1, 1, 0x00, 0, 63, 0, 0x61, 0x00]).unwrap();
    let mut tables = TableSet::new();
    tables.set(0, code(2, &[0, 1, 2]), code(2, &[0, 5, 2]));
    tables.set(2, code(5, &ac_values()), code(5, &ac_values()));
    assert_eq!(
        process_entropy_stream(&frame, &scan, 0, &tables),
        Err(JpegError::BitstreamError)
    );
}

#[test]
fn encoder_holds_the_codes_of_the_table() {
    let enc = encoder_table(&code(2, &[7, 3, 9]));
    assert_eq!(enc.len(), 256);
    assert_eq!(enc[7], vec![0, 0]);
    assert_eq!(enc[3], vec![0, 1]);
    assert_eq!(enc[9], vec![1, 0]);
    assert!(enc[0].is_empty());
}
