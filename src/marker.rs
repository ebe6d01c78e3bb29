//! The kinds of JPEG segments, named by the byte that follows `0xFF`.

use vstd::prelude::*;

verus! {

/// A JPEG marker.
#[derive(Debug, Clone, Copy, PartialEq, Eq, Structural)]
pub enum Marker {
    /// Baseline DCT frame.
    SOF0,
    /// Extended sequential DCT frame.
    SOF1,
    /// Progressive DCT frame.
    SOF2,
    /// Huffman tables.
    DHT,
    /// Restart marker `k`, for `k` in `0..8`.
    RST(u8),
    /// Start of image.
    SOI,
    /// End of image.
    EOI,
    /// Start of scan.
    SOS,
    /// Quantization tables.
    DQT,
    /// Number of lines.
    DNL,
    /// Restart interval.
    DRI,
    /// Any other marker.
    Unknown(u8),
}

/// The marker that a byte names.
pub open spec fn marker_of(b: u8) -> Marker {
    if b == 0xC0 {
        Marker::SOF0
    } else if b == 0xC1 {
        Marker::SOF1
    } else if b == 0xC2 {
        Marker::SOF2
    } else if b == 0xC4 {
        Marker::DHT
    } else if 0xD0 <= b <= 0xD7 {
        Marker::RST((b - 0xD0) as u8)
    } else if b == 0xD8 {
        Marker::SOI
    } else if b == 0xD9 {
        Marker::EOI
    } else if b == 0xDA {
        Marker::SOS
    } else if b == 0xDB {
        Marker::DQT
    } else if b == 0xDC {
        Marker::DNL
    } else if b == 0xDD {
        Marker::DRI
    } else {
        Marker::Unknown(b)
    }
}

/// The byte that names a marker.
pub open spec fn byte_of(m: Marker) -> u8 {
    match m {
        Marker::SOF0 => 0xC0,
        Marker::SOF1 => 0xC1,
        Marker::SOF2 => 0xC2,
        Marker::DHT => 0xC4,
        Marker::RST(k) => (0xD0 + k) as u8,
        Marker::SOI => 0xD8,
        Marker::EOI => 0xD9,
        Marker::SOS => 0xDA,
        Marker::DQT => 0xDB,
        Marker::DNL => 0xDC,
        Marker::DRI => 0xDD,
        Marker::Unknown(b) => b,
    }
}

/// Segments of these kinds carry no length field.
pub open spec fn has_length(m: Marker) -> bool {
    !(m is SOI || m is EOI || m is RST)
}

impl Marker {
    /// A restart marker names one of eight.
    pub open spec fn wf(&self) -> bool {
        match *self {
            Marker::RST(k) => k < 8,
            _ => true,
        }
    }

    /// The marker that `b` names.
    pub fn from_byte(b: u8) -> (r: Marker)
        ensures
            r == marker_of(b),
            r.wf(),
    {
        if b == 0xC0 {
            Marker::SOF0
        } else if b == 0xC1 {
            Marker::SOF1
        } else if b == 0xC2 {
            Marker::SOF2
        } else if b == 0xC4 {
            Marker::DHT
        } else if 0xD0 <= b && b <= 0xD7 {
            Marker::RST(b - 0xD0)
        } else if b == 0xD8 {
            Marker::SOI
        } else if b == 0xD9 {
            Marker::EOI
        } else if b == 0xDA {
            Marker::SOS
        } else if b == 0xDB {
            Marker::DQT
        } else if b == 0xDC {
            Marker::DNL
        } else if b == 0xDD {
            Marker::DRI
        } else {
            Marker::Unknown(b)
        }
    }

    /// The byte that names this marker.
    pub fn to_byte(&self) -> (r: u8)
        requires
            self.wf(),
        ensures
            r == byte_of(*self),
    {
        match *self {
            Marker::SOF0 => 0xC0,
            Marker::SOF1 => 0xC1,
            Marker::SOF2 => 0xC2,
            Marker::DHT => 0xC4,
            Marker::RST(k) => 0xD0 + k,
            Marker::SOI => 0xD8,
            Marker::EOI => 0xD9,
            Marker::SOS => 0xDA,
            Marker::DQT => 0xDB,
            Marker::DNL => 0xDC,
            Marker::DRI => 0xDD,
            Marker::Unknown(b) => b,
        }
    }
}

} // verus!
