//! Decoding: a restartable parse from a byte buffer. The behaviour is fixed
//! by a family of spec functions over the byte sequence; the executable
//! parser is proved to follow them exactly.
use crate::encode::null_array_wire;
use crate::encode::null_bulk_wire;
use crate::frame::entry_views;
use crate::frame::frame_view;
use crate::frame::frame_views;
use crate::frame::lemma_entry_views;
use crate::frame::lemma_frame_views;
use crate::frame::BulkString;
use crate::frame::FrameV;
use crate::frame::RespArray;
use crate::frame::RespFrame;
use crate::frame::RespMap;
use crate::frame::RespNull;
use crate::frame::RespNullArray;
use crate::frame::RespNullBulkString;
use crate::frame::RespSet;
use crate::frame::SimpleError;
use crate::frame::SimpleString;
use crate::outside::buf_advance;
use crate::outside::buf_as_slice;
use crate::outside::buf_bytes;
use crate::outside::chars_of_lossy;
use crate::text::is_i64_text;
use crate::text::is_float_text;
use crate::text::is_usize_text;
use crate::text::i64_text_val;
use crate::text::usize_text_val;
use vstd::prelude::*;

verus! {

/// Decoder errors. `NotComplete` is recoverable: read more and retry.
#[derive(Debug, PartialEq, Eq)]
pub enum RespError {
    InvalidFrame(String),
    InvalidFrameType(String),
    InvalidFrameLength(isize),
    NotComplete,
    ParseIntError,
    Utf8Error,
    ParseFloatError,
}

/// Outcome of parsing a prefix of a byte sequence: a result and the number
/// of bytes it takes, or the need for more input, or a malformed input.
pub enum Parsed<T> {
    Found(T, int),
    Pending,
    Bad,
}

// ---------------------------------------------------------------------------
// Line-terminated pieces
// ---------------------------------------------------------------------------
/// Position of the first CRLF pair at or after `i`.
pub open spec fn spec_find_crlf(s: Seq<u8>, i: int) -> Option<int>
    decreases s.len() - i,
{
    if i < 0 || i + 1 >= s.len() {
        None
    } else if s[i] == 13 && s[i + 1] == 10 {
        Some(i)
    } else {
        spec_find_crlf(s, i + 1)
    }
}

pub proof fn lemma_spec_find_crlf(s: Seq<u8>, i: int)
    requires
        0 <= i,
    ensures
        match spec_find_crlf(s, i) {
            Some(e) => i <= e && e + 1 < s.len() && s[e] == 13 && s[e + 1] == 10 && forall|j: int|
                i <= j < e ==> !(#[trigger] s[j] == 13 && s[j + 1] == 10),
            None => forall|j: int|
                i <= j && j + 1 < s.len() ==> !(#[trigger] s[j] == 13 && s[j + 1] == 10),
        },
    decreases s.len() - i,
{
    if i + 1 < s.len() && !(s[i] == 13 && s[i + 1] == 10) {
        lemma_spec_find_crlf(s, i + 1);
    }
}

/// A line frame: prefix byte, payload up to the first CRLF, CRLF.
pub open spec fn spec_line(s: Seq<u8>, prefix: u8) -> Parsed<Seq<u8>> {
    if s.len() < 3 {
        Parsed::Pending
    } else if s[0] != prefix {
        Parsed::Bad
    } else {
        match spec_find_crlf(s, 0) {
            None => Parsed::Pending,
            Some(end) => Parsed::Found(s.subrange(1, end), end + 2),
        }
    }
}

/// A decimal length header: line frame whose payload is a usize text.
pub open spec fn spec_parse_len(s: Seq<u8>, prefix: u8) -> Parsed<int> {
    match spec_line(s, prefix) {
        Parsed::Found(payload, used) => if is_usize_text(payload) {
            Parsed::Found(usize_text_val(payload), used)
        } else {
            Parsed::Bad
        },
        Parsed::Pending => Parsed::Pending,
        Parsed::Bad => Parsed::Bad,
    }
}

/// A fixed wire form, byte for byte.
pub open spec fn spec_fixed(s: Seq<u8>, w: Seq<u8>) -> Parsed<()> {
    if s.len() < w.len() {
        Parsed::Pending
    } else if s.subrange(0, w.len() as int) == w {
        Parsed::Found((), w.len() as int)
    } else {
        Parsed::Bad
    }
}

// ---------------------------------------------------------------------------
// The mutually recursive scan (expected length) and parse of whole frames
// ---------------------------------------------------------------------------
/// Structural length of the frame at the head of `s`: how many bytes one
/// complete frame starting here would take. Contents are not validated.
pub open spec fn spec_scan(s: Seq<u8>) -> Parsed<()>
    decreases s.len(), 0int, 0int,
{
    if s.len() == 0 {
        Parsed::Pending
    } else {
        let c = s[0];
        if c == 43 || c == 45 || c == 58 || c == 44 {
            match spec_line(s, c) {
                Parsed::Found(_, used) => Parsed::Found((), used),
                Parsed::Pending => Parsed::Pending,
                Parsed::Bad => Parsed::Bad,
            }
        } else if c == 95 {
            Parsed::Found((), 3)
        } else if c == 35 {
            Parsed::Found((), 4)
        } else if c == 36 {
            if s.len() >= 5 && s.subrange(0, 5) == null_bulk_wire() {
                Parsed::Found((), 5)
            } else {
                match spec_parse_len(s, 36) {
                    Parsed::Found(l, used) => if used + l + 2 > usize::MAX {
                        Parsed::Pending
                    } else {
                        Parsed::Found((), used + l + 2)
                    },
                    Parsed::Pending => Parsed::Pending,
                    Parsed::Bad => Parsed::Bad,
                }
            }
        } else if c == 42 || c == 126 {
            if c == 42 && s.len() >= 5 && s.subrange(0, 5) == null_array_wire() {
                Parsed::Found((), 5)
            } else {
                match spec_parse_len(s, c) {
                    Parsed::Found(l, used) => if !(3 <= used <= s.len()) {
                        Parsed::Bad
                    } else {
                        match spec_scan_items(s.skip(used), l) {
                            Parsed::Found(_, m) => Parsed::Found((), used + m),
                            Parsed::Pending => Parsed::Pending,
                            Parsed::Bad => Parsed::Bad,
                        }
                    },
                    Parsed::Pending => Parsed::Pending,
                    Parsed::Bad => Parsed::Bad,
                }
            }
        } else if c == 37 {
            match spec_parse_len(s, 37) {
                Parsed::Found(l, used) => if !(3 <= used <= s.len()) {
                    Parsed::Bad
                } else {
                    match spec_scan_entries(s.skip(used), l) {
                        Parsed::Found(_, m) => Parsed::Found((), used + m),
                        Parsed::Pending => Parsed::Pending,
                        Parsed::Bad => Parsed::Bad,
                    }
                },
                Parsed::Pending => Parsed::Pending,
                Parsed::Bad => Parsed::Bad,
            }
        } else {
            Parsed::Bad
        }
    }
}

/// Summed structural lengths of `n` frames in a row. A frame that would run
/// past the end of `s` leaves the run pending.
pub open spec fn spec_scan_items(s: Seq<u8>, n: int) -> Parsed<()>
    decreases s.len(), n, 1int,
{
    if n <= 0 {
        Parsed::Found((), 0)
    } else {
        match spec_scan(s) {
            Parsed::Found(_, k) => if !(0 <= k <= s.len()) {
                Parsed::Pending
            } else {
                match spec_scan_items(s.skip(k), n - 1) {
                    Parsed::Found(_, m) => Parsed::Found((), k + m),
                    Parsed::Pending => Parsed::Pending,
                    Parsed::Bad => Parsed::Bad,
                }
            },
            Parsed::Pending => Parsed::Pending,
            Parsed::Bad => Parsed::Bad,
        }
    }
}

/// Summed structural lengths of `n` map entries: a simple-string key, then a
/// frame.
pub open spec fn spec_scan_entries(s: Seq<u8>, n: int) -> Parsed<()>
    decreases s.len(), n, 1int,
{
    if n <= 0 {
        Parsed::Found((), 0)
    } else {
        match spec_line(s, 43) {
            Parsed::Found(_, k1) => if !(3 <= k1 <= s.len()) {
                Parsed::Bad
            } else {
                match spec_scan(s.skip(k1)) {
                    Parsed::Found(_, k2) => if !(0 <= k2 && k1 + k2 <= s.len()) {
                        Parsed::Pending
                    } else {
                        match spec_scan_entries(s.skip(k1 + k2), n - 1) {
                            Parsed::Found(_, m) => Parsed::Found((), k1 + k2 + m),
                            Parsed::Pending => Parsed::Pending,
                            Parsed::Bad => Parsed::Bad,
                        }
                    },
                    Parsed::Pending => Parsed::Pending,
                    Parsed::Bad => Parsed::Bad,
                }
            },
            Parsed::Pending => Parsed::Pending,
            Parsed::Bad => Parsed::Bad,
        }
    }
}

/// The bulk-string form: length header, payload, trailing CRLF. The two
/// trailing bytes are consumed without being inspected.
pub open spec fn spec_bulk(s: Seq<u8>) -> Parsed<FrameV> {
    match spec_parse_len(s, 36) {
        Parsed::Found(l, used) => if s.len() < used + l + 2 {
            Parsed::Pending
        } else {
            Parsed::Found(FrameV::BulkString(s.subrange(used, used + l)), used + l + 2)
        },
        Parsed::Pending => Parsed::Pending,
        Parsed::Bad => Parsed::Bad,
    }
}

/// One whole frame, dispatched on the first byte.
pub open spec fn spec_value(s: Seq<u8>) -> Parsed<FrameV>
    decreases s.len(), 0int, 2int,
{
    if s.len() == 0 {
        Parsed::Pending
    } else {
        let c = s[0];
        if c == 43 {
            match spec_line(s, 43) {
                Parsed::Found(p, used) => Parsed::Found(
                    FrameV::SimpleString(chars_of_lossy(p)),
                    used,
                ),
                Parsed::Pending => Parsed::Pending,
                Parsed::Bad => Parsed::Bad,
            }
        } else if c == 45 {
            match spec_line(s, 45) {
                Parsed::Found(p, used) => Parsed::Found(
                    FrameV::SimpleError(chars_of_lossy(p)),
                    used,
                ),
                Parsed::Pending => Parsed::Pending,
                Parsed::Bad => Parsed::Bad,
            }
        } else if c == 58 {
            match spec_line(s, 58) {
                Parsed::Found(p, used) => if is_i64_text(p) {
                    Parsed::Found(FrameV::Integer(i64_text_val(p)), used)
                } else {
                    Parsed::Bad
                },
                Parsed::Pending => Parsed::Pending,
                Parsed::Bad => Parsed::Bad,
            }
        } else if c == 44 {
            match spec_line(s, 44) {
                Parsed::Found(p, used) => if is_float_text(p) {
                    Parsed::Found(FrameV::Double(chars_of_lossy(p)), used)
                } else {
                    Parsed::Bad
                },
                Parsed::Pending => Parsed::Pending,
                Parsed::Bad => Parsed::Bad,
            }
        } else if c == 95 {
            match spec_fixed(s, seq![95u8, 13u8, 10u8]) {
                Parsed::Found(_, u) => Parsed::Found(FrameV::Null, u),
                Parsed::Pending => Parsed::Pending,
                Parsed::Bad => Parsed::Bad,
            }
        } else if c == 35 {
            if s.len() < 4 {
                Parsed::Pending
            } else if s.subrange(0, 4) == seq![35u8, 116u8, 13u8, 10u8] {
                Parsed::Found(FrameV::Boolean(true), 4)
            } else if s.subrange(0, 4) == seq![35u8, 102u8, 13u8, 10u8] {
                Parsed::Found(FrameV::Boolean(false), 4)
            } else {
                Parsed::Bad
            }
        } else if c == 36 {
            if s.len() >= 5 && s.subrange(0, 5) == null_bulk_wire() {
                Parsed::Found(FrameV::NullBulkString, 5)
            } else {
                spec_bulk(s)
            }
        } else if c == 42 {
            if s.len() >= 5 && s.subrange(0, 5) == null_array_wire() {
                Parsed::Found(FrameV::NullArray, 5)
            } else {
                match spec_container_items(s, 42) {
                    Parsed::Found(items, u) => Parsed::Found(FrameV::Array(items), u),
                    Parsed::Pending => Parsed::Pending,
                    Parsed::Bad => Parsed::Bad,
                }
            }
        } else if c == 126 {
            match spec_container_items(s, 126) {
                Parsed::Found(items, u) => Parsed::Found(FrameV::SetFrame(items), u),
                Parsed::Pending => Parsed::Pending,
                Parsed::Bad => Parsed::Bad,
            }
        } else if c == 37 {
            match spec_container_entries(s) {
                Parsed::Found(entries, u) => Parsed::Found(FrameV::MapFrame(entries), u),
                Parsed::Pending => Parsed::Pending,
                Parsed::Bad => Parsed::Bad,
            }
        } else {
            Parsed::Bad
        }
    }
}

/// An array-shaped container: length header, structural scan of the whole
/// frame, then the children decoded one after another.
pub open spec fn spec_container_items(s: Seq<u8>, prefix: u8) -> Parsed<Seq<FrameV>>
    decreases s.len(), 0int, 1int,
{
    match spec_parse_len(s, prefix) {
        Parsed::Found(l, used) => if !(3 <= used <= s.len()) {
            Parsed::Bad
        } else {
            match spec_scan_items(s.skip(used), l) {
                Parsed::Found(_, m) => if used + m > s.len() {
                    Parsed::Pending
                } else {
                    match spec_items(s.skip(used), l) {
                        Parsed::Found(items, m2) => Parsed::Found(items, used + m2),
                        Parsed::Pending => Parsed::Pending,
                        Parsed::Bad => Parsed::Bad,
                    }
                },
                Parsed::Pending => Parsed::Pending,
                Parsed::Bad => Parsed::Bad,
            }
        },
        Parsed::Pending => Parsed::Pending,
        Parsed::Bad => Parsed::Bad,
    }
}

/// A map container: length header, structural scan, then key/value pairs.
pub open spec fn spec_container_entries(s: Seq<u8>) -> Parsed<Seq<(Seq<char>, FrameV)>>
    decreases s.len(), 0int, 1int,
{
    match spec_parse_len(s, 37) {
        Parsed::Found(l, used) => if !(3 <= used <= s.len()) {
            Parsed::Bad
        } else {
            match spec_scan_entries(s.skip(used), l) {
                Parsed::Found(_, m) => if used + m > s.len() {
                    Parsed::Pending
                } else {
                    match spec_entries(s.skip(used), l) {
                        Parsed::Found(entries, m2) => Parsed::Found(entries, used + m2),
                        Parsed::Pending => Parsed::Pending,
                        Parsed::Bad => Parsed::Bad,
                    }
                },
                Parsed::Pending => Parsed::Pending,
                Parsed::Bad => Parsed::Bad,
            }
        },
        Parsed::Pending => Parsed::Pending,
        Parsed::Bad => Parsed::Bad,
    }
}

/// `n` frames decoded one after another.
pub open spec fn spec_items(s: Seq<u8>, n: int) -> Parsed<Seq<FrameV>>
    decreases s.len(), n, 3int,
{
    if n <= 0 {
        Parsed::Found(Seq::empty(), 0)
    } else {
        match spec_value(s) {
            Parsed::Found(f, k) => if !(0 <= k <= s.len()) {
                Parsed::Pending
            } else {
                match spec_items(s.skip(k), n - 1) {
                    Parsed::Found(fs, m) => Parsed::Found(seq![f] + fs, k + m),
                    Parsed::Pending => Parsed::Pending,
                    Parsed::Bad => Parsed::Bad,
                }
            },
            Parsed::Pending => Parsed::Pending,
            Parsed::Bad => Parsed::Bad,
        }
    }
}

/// `n` map entries decoded one after another.
pub open spec fn spec_entries(s: Seq<u8>, n: int) -> Parsed<Seq<(Seq<char>, FrameV)>>
    decreases s.len(), n, 3int,
{
    if n <= 0 {
        Parsed::Found(Seq::empty(), 0)
    } else {
        match spec_line(s, 43) {
            Parsed::Found(p, k1) => if !(3 <= k1 <= s.len()) {
                Parsed::Bad
            } else {
                match spec_value(s.skip(k1)) {
                    Parsed::Found(f, k2) => if !(0 <= k2 && k1 + k2 <= s.len()) {
                        Parsed::Pending
                    } else {
                        match spec_entries(s.skip(k1 + k2), n - 1) {
                            Parsed::Found(es, m) => Parsed::Found(
                                seq![(chars_of_lossy(p), f)] + es,
                                k1 + k2 + m,
                            ),
                            Parsed::Pending => Parsed::Pending,
                            Parsed::Bad => Parsed::Bad,
                        }
                    },
                    Parsed::Pending => Parsed::Pending,
                    Parsed::Bad => Parsed::Bad,
                }
            },
            Parsed::Pending => Parsed::Pending,
            Parsed::Bad => Parsed::Bad,
        }
    }
}

// ---------------------------------------------------------------------------
// Executable line helpers
// ---------------------------------------------------------------------------
/// Index of the first CRLF pair, if any.
pub fn find_crlf(buf: &[u8]) -> (r: Option<usize>)
    ensures
        match spec_find_crlf(buf@, 0) {
            Some(e) => r matches Some(i) && i == e,
            None => r is None,
        },
{
    if buf.len() < 2 {
        proof {
            lemma_spec_find_crlf(buf@, 0);
        }
        return None;
    }
    let mut i: usize = 0;
    while i < buf.len() - 1
        invariant
            0 <= i,
            i + 1 <= buf@.len(),
            buf@.len() >= 2,
            forall|j: int| 0 <= j < i ==> !(#[trigger] buf@[j] == 13 && buf@[j + 1] == 10),
        decreases buf@.len() - i,
    {
        if buf[i] == 13 && buf[i + 1] == 10 {
            proof {
                lemma_spec_find_crlf(buf@, 0);
                match spec_find_crlf(buf@, 0) {
                    Some(e) => {
                        if e < i as int {
                            assert(!(buf@[e] == 13 && buf@[e + 1] == 10));
                        }
                        if e > i as int {
                            assert(!(buf@[i as int] == 13 && buf@[i as int + 1] == 10));
                        }
                    },
                    None => {
                        assert(!(buf@[i as int] == 13 && buf@[i as int + 1] == 10));
                    },
                }
            }
            return Some(i);
        }
        i += 1;
    }
    proof {
        lemma_spec_find_crlf(buf@, 0);
        match spec_find_crlf(buf@, 0) {
            Some(e) => {
                assert(!(buf@[e] == 13 && buf@[e + 1] == 10));
            },
            None => {},
        }
    }
    None
}

/// Scans a line frame and returns the CRLF position: too short an input is
/// incomplete, a wrong prefix is invalid, a missing CRLF is incomplete.
pub fn extract_simple_frame_data(buf: &[u8], prefix: u8) -> (r: Result<usize, RespError>)
    requires
        prefix != 13,
    ensures
        buf@.len() <= usize::MAX,
        match spec_line(buf@, prefix) {
            Parsed::Found(p, u) => r matches Ok(end) && end + 2 == u && 1 <= end && u <= buf@.len()
                && p == buf@.subrange(1, end as int),
            Parsed::Pending => r matches Err(RespError::NotComplete),
            Parsed::Bad => r is Err && !(r matches Err(RespError::NotComplete)),
        },
{
    if buf.len() < 3 {
        return Err(RespError::NotComplete);
    }
    if buf[0] != prefix {
        return Err(RespError::InvalidFrameType("unexpected frame prefix".to_owned()));
    }
    proof {
        lemma_spec_find_crlf(buf@, 0);
    }
    match find_crlf(buf) {
        Some(end) => {
            proof {
                assert(buf@[0] == prefix && prefix != 13);
            }
            Ok(end)
        },
        None => Err(RespError::NotComplete),
    }
}

/// Parses a length header: the CRLF position and the decimal length.
pub fn parse_length(buf: &[u8], prefix: u8) -> (r: Result<(usize, usize), RespError>)
    requires
        prefix != 13,
    ensures
        buf@.len() <= usize::MAX,
        match spec_parse_len(buf@, prefix) {
            Parsed::Found(l, u) => r matches Ok((end, len)) && end + 2 == u && 1 <= end && u
                <= buf@.len() && len == l,
            Parsed::Pending => r matches Err(RespError::NotComplete),
            Parsed::Bad => r is Err && !(r matches Err(RespError::NotComplete)),
        },
{
    let end = match extract_simple_frame_data(buf, prefix) {
        Ok(end) => end,
        Err(e) => {
            return Err(e);
        },
    };
    let digits = vstd::slice::slice_subrange(buf, 1, end);
    match crate::text::parse_usize_text(digits) {
        Some(len) => Ok((end, len)),
        None => Err(RespError::ParseIntError),
    }
}

/// Scans a line frame and copies its payload out; returns payload and the
/// total bytes the line takes.
fn parse_line_payload(buf: &[u8], prefix: u8) -> (r: Result<(Vec<u8>, usize), RespError>)
    requires
        prefix != 13,
    ensures
        match spec_line(buf@, prefix) {
            Parsed::Found(p, u) => r matches Ok((v, used)) && v@ == p && used == u && 3 <= u
                <= buf@.len(),
            Parsed::Pending => r matches Err(RespError::NotComplete),
            Parsed::Bad => r is Err && !(r matches Err(RespError::NotComplete)),
        },
{
    let end = match extract_simple_frame_data(buf, prefix) {
        Ok(end) => end,
        Err(e) => {
            return Err(e);
        },
    };
    proof {
        match spec_line(buf@, prefix) {
            Parsed::Found(p, u) => {},
            Parsed::Pending => {
                assert(false);
            },
            Parsed::Bad => {
                assert(false);
            },
        }
    }
    let payload = vstd::slice::slice_to_vec(vstd::slice::slice_subrange(buf, 1, end));
    Ok((payload, end + 2))
}

// ---------------------------------------------------------------------------
// Executable structural scan
// ---------------------------------------------------------------------------
/// Shifts the byte count of a parse outcome.
pub open spec fn shift_scan(p: Parsed<()>, d: int) -> Parsed<()> {
    match p {
        Parsed::Found(u, m) => Parsed::Found(u, m + d),
        Parsed::Pending => Parsed::Pending,
        Parsed::Bad => Parsed::Bad,
    }
}

/// True exactly when `buf` starts with the five-byte null form.
fn null_probe(buf: &[u8], first: u8) -> (r: bool)
    ensures
        r == (buf@.len() >= 5 && buf@.subrange(0, 5) == seq![first, 45u8, 49u8, 13u8, 10u8]),
{
    if buf.len() < 5 {
        return false;
    }
    let ok = buf[0] == first && buf[1] == 45 && buf[2] == 49 && buf[3] == 13 && buf[4] == 10;
    proof {
        let w = seq![first, 45u8, 49u8, 13u8, 10u8];
        if ok {
            assert(buf@.subrange(0, 5) =~= w);
        } else {
            assert(w[0] == first && w[1] == 45 && w[2] == 49 && w[3] == 13 && w[4] == 10);
            assert(buf@.subrange(0, 5)[0] == buf@[0] && buf@.subrange(0, 5)[1] == buf@[1]
                && buf@.subrange(0, 5)[2] == buf@[2] && buf@.subrange(0, 5)[3] == buf@[3]
                && buf@.subrange(0, 5)[4] == buf@[4]);
        }
    }
    ok
}

/// Total bytes one complete frame at the head of `buf` would take, without
/// validating its contents.
pub fn expect_frame_length(buf: &[u8]) -> (r: Result<usize, RespError>)
    ensures
        match spec_scan(buf@) {
            Parsed::Found(_, k) => r matches Ok(n) && n == k,
            Parsed::Pending => r matches Err(RespError::NotComplete),
            Parsed::Bad => r is Err && !(r matches Err(RespError::NotComplete)),
        },
    decreases buf@.len(), 1int,
{
    if buf.len() == 0 {
        return Err(RespError::NotComplete);
    }
    let c = buf[0];
    if c == 43 || c == 45 || c == 58 || c == 44 {
        match extract_simple_frame_data(buf, c) {
            Ok(end) => Ok(end + 2),
            Err(e) => Err(e),
        }
    } else if c == 95 {
        Ok(3)
    } else if c == 35 {
        Ok(4)
    } else if c == 36 {
        if null_probe(buf, 36) {
            Ok(5)
        } else {
            match parse_length(buf, 36) {
                Ok((end, len)) => {
                    let used = end + 2;
                    let room = usize::MAX - used;
                    if room < 2 || len > room - 2 {
                        Err(RespError::NotComplete)
                    } else {
                        Ok(used + len + 2)
                    }
                },
                Err(e) => Err(e),
            }
        }
    } else if c == 42 || c == 126 {
        if c == 42 && null_probe(buf, 42) {
            Ok(5)
        } else {
            match parse_length(buf, c) {
                Ok((end, len)) => calc_total_length(buf, len, end, c),
                Err(e) => Err(e),
            }
        }
    } else if c == 37 {
        match parse_length(buf, 37) {
            Ok((end, len)) => calc_total_length(buf, len, end, 37),
            Err(e) => Err(e),
        }
    } else {
        Err(RespError::InvalidFrameType("unknown frame type".to_owned()))
    }
}

/// Total bytes of a container frame: the header that ends at `end` plus the
/// structural lengths of `len` children (or key/value entries for a map).
pub fn calc_total_length(buf: &[u8], len: usize, end: usize, prefix: u8) -> (r: Result<
    usize,
    RespError,
>)
    requires
        prefix == 42 || prefix == 126 || prefix == 37,
        1 <= end,
        end + 2 <= buf@.len(),
        buf@.len() <= usize::MAX,
    ensures
        ({
            let scan = if prefix == 37 {
                spec_scan_entries(buf@.skip(end + 2), len as int)
            } else {
                spec_scan_items(buf@.skip(end + 2), len as int)
            };
            match scan {
                Parsed::Found(_, m) => r matches Ok(t) && t == end + 2 + m,
                Parsed::Pending => r matches Err(RespError::NotComplete),
                Parsed::Bad => r is Err && !(r matches Err(RespError::NotComplete)),
            }
        }),
    decreases buf@.len(), 0int,
{
    let mut total: usize = end + 2;
    let mut i: usize = 0;
    if prefix == 37 {
        while i < len
            invariant
                prefix == 37,
                0 <= i <= len,
                1 <= end,
                end + 2 <= total <= buf@.len(),
                spec_scan_entries(buf@.skip(end + 2), len as int) == shift_scan(
                    spec_scan_entries(buf@.skip(total as int), len - i),
                    total - end - 2,
                ),
            decreases len - i,
        {
            let data = vstd::slice::slice_subrange(buf, total, buf.len());
            let ghost rem: int = len - i;
            proof {
                assert(data@ == buf@.skip(total as int));
            }
            let k1 = match extract_simple_frame_data(data, 43) {
                Ok(endk) => endk + 2,
                Err(e) => {
                    return Err(e);
                },
            };
            let data2 = vstd::slice::slice_subrange(buf, total + k1, buf.len());
            proof {
                assert(data2@ =~= data@.skip(k1 as int));
            }
            let k2 = match expect_frame_length(data2) {
                Ok(k2) => k2,
                Err(e) => {
                    return Err(e);
                },
            };
            if k2 > data2.len() {
                return Err(RespError::NotComplete);
            }
            proof {
                assert(buf@.skip(total as int).skip(k1 + k2) =~= buf@.skip(
                    total as int + k1 + k2));
                match spec_scan_entries(buf@.skip(total as int + k1 + k2), rem - 1) {
                    Parsed::Found(u, m) => {},
                    Parsed::Pending => {},
                    Parsed::Bad => {},
                }
            }
            total = total + k1 + k2;
            i += 1;
        }
        proof {
            assert(spec_scan_entries(buf@.skip(total as int), 0) == Parsed::<()>::Found((), 0));
        }
        Ok(total)
    } else {
        while i < len
            invariant
                prefix == 42 || prefix == 126,
                0 <= i <= len,
                1 <= end,
                end + 2 <= total <= buf@.len(),
                spec_scan_items(buf@.skip(end + 2), len as int) == shift_scan(
                    spec_scan_items(buf@.skip(total as int), len - i),
                    total - end - 2,
                ),
            decreases len - i,
        {
            let data = vstd::slice::slice_subrange(buf, total, buf.len());
            let ghost rem: int = len - i;
            proof {
                assert(data@ == buf@.skip(total as int));
            }
            let flen = match expect_frame_length(data) {
                Ok(flen) => flen,
                Err(e) => {
                    return Err(e);
                },
            };
            if flen > data.len() {
                return Err(RespError::NotComplete);
            }
            proof {
                assert(buf@.skip(total as int).skip(flen as int) =~= buf@.skip(
                    total as int + flen));
                match spec_scan_items(buf@.skip(total as int + flen), rem - 1) {
                    Parsed::Found(u, m) => {},
                    Parsed::Pending => {},
                    Parsed::Bad => {},
                }
            }
            total = total + flen;
            i += 1;
        }
        proof {
            assert(spec_scan_items(buf@.skip(total as int), 0) == Parsed::<()>::Found((), 0));
        }
        Ok(total)
    }
}

// ---------------------------------------------------------------------------
// Executable frame parsing
// ---------------------------------------------------------------------------
/// Prepends decoded frames and shifts the byte count of a parse outcome.
pub open spec fn shift_items(p: Parsed<Seq<FrameV>>, pre: Seq<FrameV>, d: int) -> Parsed<
    Seq<FrameV>,
> {
    match p {
        Parsed::Found(fs, m) => Parsed::Found(pre + fs, m + d),
        Parsed::Pending => Parsed::Pending,
        Parsed::Bad => Parsed::Bad,
    }
}

/// Prepends decoded entries and shifts the byte count of a parse outcome.
pub open spec fn shift_entries(
    p: Parsed<Seq<(Seq<char>, FrameV)>>,
    pre: Seq<(Seq<char>, FrameV)>,
    d: int,
) -> Parsed<Seq<(Seq<char>, FrameV)>> {
    match p {
        Parsed::Found(es, m) => Parsed::Found(pre + es, m + d),
        Parsed::Pending => Parsed::Pending,
        Parsed::Bad => Parsed::Bad,
    }
}

/// Parses one frame from the head of `buf` and reports the bytes it takes.
pub fn parse_frame_value(buf: &[u8]) -> (r: Result<(RespFrame, usize), RespError>)
    ensures
        match spec_value(buf@) {
            Parsed::Found(fv, k) => r matches Ok(p) && frame_view(p.0) == fv && p.1 == k && 1 <= k
                <= buf@.len(),
            Parsed::Pending => r matches Err(RespError::NotComplete),
            Parsed::Bad => r is Err && !(r matches Err(RespError::NotComplete)),
        },
    decreases buf@.len(), 2int,
{
    if buf.len() == 0 {
        proof {
            assert(spec_value(buf@) == Parsed::<FrameV>::Pending);
        }
        return Err(RespError::NotComplete);
    }
    let c = buf[0];
    if c == 43 {
        match parse_line_payload(buf, 43) {
            Ok((payload, used)) => {
                let st = crate::outside::utf8_lossy_string(payload.as_slice());
                Ok((RespFrame::SimpleString(SimpleString(st)), used))
            },
            Err(e) => Err(e),
        }
    } else if c == 45 {
        match parse_line_payload(buf, 45) {
            Ok((payload, used)) => {
                let st = crate::outside::utf8_lossy_string(payload.as_slice());
                Ok((RespFrame::SimpleError(SimpleError(st)), used))
            },
            Err(e) => Err(e),
        }
    } else if c == 58 {
        match parse_line_payload(buf, 58) {
            Ok((payload, used)) => match crate::text::parse_i64_text(payload.as_slice()) {
                Some(n) => Ok((RespFrame::Integer(n), used)),
                None => Err(RespError::ParseIntError),
            },
            Err(e) => Err(e),
        }
    } else if c == 44 {
        match parse_line_payload(buf, 44) {
            Ok((payload, used)) => {
                if crate::text::check_float_text(payload.as_slice()) {
                    let st = crate::outside::utf8_lossy_string(payload.as_slice());
                    Ok((RespFrame::Double(st), used))
                } else {
                    Err(RespError::ParseFloatError)
                }
            },
            Err(e) => Err(e),
        }
    } else if c == 95 {
        if buf.len() < 3 {
            Err(RespError::NotComplete)
        } else if buf[1] == 13 && buf[2] == 10 {
            proof {
                assert(buf@.subrange(0, 3) =~= seq![95u8, 13u8, 10u8]);
            }
            Ok((RespFrame::Null(RespNull), 3))
        } else {
            proof {
                let w = seq![95u8, 13u8, 10u8];
                assert(w[1] == 13 && w[2] == 10);
                assert(buf@.subrange(0, 3)[1] == buf@[1] && buf@.subrange(0, 3)[2] == buf@[2]);
            }
            Err(RespError::InvalidFrameType("expected a null frame".to_owned()))
        }
    } else if c == 35 {
        if buf.len() < 4 {
            Err(RespError::NotComplete)
        } else {
            proof {
                let t = seq![35u8, 116u8, 13u8, 10u8];
                let f = seq![35u8, 102u8, 13u8, 10u8];
                assert(t[1] == 116 && t[2] == 13 && t[3] == 10);
                assert(f[1] == 102 && f[2] == 13 && f[3] == 10);
                assert(buf@.subrange(0, 4)[1] == buf@[1] && buf@.subrange(0, 4)[2] == buf@[2]
                    && buf@.subrange(0, 4)[3] == buf@[3]);
            }
            if buf[1] == 116 && buf[2] == 13 && buf[3] == 10 {
                proof {
                    assert(buf@.subrange(0, 4) =~= seq![35u8, 116u8, 13u8, 10u8]);
                }
                Ok((RespFrame::Boolean(true), 4))
            } else if buf[1] == 102 && buf[2] == 13 && buf[3] == 10 {
                proof {
                    assert(buf@.subrange(0, 4) =~= seq![35u8, 102u8, 13u8, 10u8]);
                }
                Ok((RespFrame::Boolean(false), 4))
            } else {
                Err(RespError::InvalidFrameType("expected a boolean frame".to_owned()))
            }
        }
    } else if c == 36 {
        if null_probe(buf, 36) {
            Ok((RespFrame::NullBulkString(RespNullBulkString), 5))
        } else {
            match parse_length(buf, 36) {
                Ok((end, len)) => {
                    let used = end + 2;
                    let rem = buf.len() - used;
                    if rem < 2 || len > rem - 2 {
                        Err(RespError::NotComplete)
                    } else {
                        let payload = vstd::slice::slice_to_vec(
                            vstd::slice::slice_subrange(buf, used, used + len),
                        );
                        Ok((RespFrame::BulkString(BulkString(payload)), used + len + 2))
                    }
                },
                Err(e) => Err(e),
            }
        }
    } else if c == 42 {
        if null_probe(buf, 42) {
            Ok((RespFrame::NullArray(RespNullArray), 5))
        } else {
            match parse_container_items(buf, 42) {
                Ok((items, total)) => Ok((RespFrame::Array(RespArray(items)), total)),
                Err(e) => Err(e),
            }
        }
    } else if c == 126 {
        match parse_container_items(buf, 126) {
            Ok((items, total)) => Ok((RespFrame::SetFrame(RespSet(items)), total)),
            Err(e) => Err(e),
        }
    } else if c == 37 {
        match parse_container_entries(buf) {
            Ok((entries, total)) => Ok((RespFrame::MapFrame(RespMap(entries)), total)),
            Err(e) => Err(e),
        }
    } else {
        Err(RespError::InvalidFrameType("unknown frame type".to_owned()))
    }
}

/// Parses a length-prefixed run of child frames.
fn parse_container_items(buf: &[u8], prefix: u8) -> (r: Result<(Vec<RespFrame>, usize), RespError>)
    requires
        prefix == 42 || prefix == 126,
    ensures
        match spec_container_items(buf@, prefix) {
            Parsed::Found(fvs, u) => r matches Ok(p) && frame_views(p.0@) == fvs && p.1 == u && 3
                <= u <= buf@.len(),
            Parsed::Pending => r matches Err(RespError::NotComplete),
            Parsed::Bad => r is Err && !(r matches Err(RespError::NotComplete)),
        },
    decreases buf@.len(), 1int,
{
    let (end, len) = match parse_length(buf, prefix) {
        Ok(x) => x,
        Err(e) => {
            return Err(e);
        },
    };
    let total = match calc_total_length(buf, len, end, prefix) {
        Ok(t) => t,
        Err(e) => {
            return Err(e);
        },
    };
    if total > buf.len() {
        return Err(RespError::NotComplete);
    }
    let used = end + 2;
    let mut items: Vec<RespFrame> = Vec::new();
    let mut pos: usize = used;
    let mut i: usize = 0;
    proof {
        assert(frame_views(items@) =~= Seq::<FrameV>::empty());
        assert(buf@.skip(used as int).skip(0) =~= buf@.skip(used as int));
    }
    while i < len
        invariant
            prefix == 42 || prefix == 126,
            0 <= i <= len,
            3 <= used <= pos <= buf@.len(),
            items@.len() == i as int,
            spec_container_items(buf@, prefix) == (match spec_items(
                buf@.skip(used as int),
                len as int,
            ) {
                Parsed::Found(fs, m) => Parsed::Found(fs, used + m),
                Parsed::Pending => Parsed::<Seq<FrameV>>::Pending,
                Parsed::Bad => Parsed::<Seq<FrameV>>::Bad,
            }),
            spec_items(buf@.skip(used as int), len as int) == shift_items(
                spec_items(buf@.skip(pos as int), len - i),
                frame_views(items@),
                pos - used,
            ),
        decreases len - i,
    {
        let sub = vstd::slice::slice_subrange(buf, pos, buf.len());
        let ghost rem: int = len - i;
        proof {
            assert(sub@ == buf@.skip(pos as int));
        }
        match parse_frame_value(sub) {
            Ok((f, k)) => {
                proof {
                    assert(buf@.skip(pos as int).skip(k as int) =~= buf@.skip(pos as int + k));
                    lemma_frame_views(items@);
                    lemma_frame_views(items@.push(f));
                    assert(frame_views(items@.push(f)) =~= frame_views(items@) + seq![
                        frame_view(f),
                    ]);
                    match spec_items(buf@.skip(pos as int + k), rem - 1) {
                        Parsed::Found(fs2, m2) => {
                            assert(spec_items(buf@.skip(pos as int), rem) == Parsed::Found(
                                seq![frame_view(f)] + fs2,
                                k + m2,
                            ));
                            assert((frame_views(items@) + seq![frame_view(f)]) + fs2
                                =~= frame_views(items@) + (seq![frame_view(f)] + fs2));
                        },
                        Parsed::Pending => {},
                        Parsed::Bad => {},
                    }
                }
                items.push(f);
                pos = pos + k;
            },
            Err(e) => {
                return Err(e);
            },
        }
        i += 1;
    }
    proof {
        assert(spec_items(buf@.skip(pos as int), 0) == Parsed::<Seq<FrameV>>::Found(
            Seq::empty(),
            0,
        ));
        assert(frame_views(items@) + Seq::<FrameV>::empty() =~= frame_views(items@));
    }
    Ok((items, pos))
}

/// Parses a length-prefixed run of key/value entries.
fn parse_container_entries(buf: &[u8]) -> (r: Result<
    (Vec<(String, RespFrame)>, usize),
    RespError,
>)
    ensures
        match spec_container_entries(buf@) {
            Parsed::Found(evs, u) => r matches Ok(p) && entry_views(p.0@) == evs && p.1 == u && 3
                <= u <= buf@.len(),
            Parsed::Pending => r matches Err(RespError::NotComplete),
            Parsed::Bad => r is Err && !(r matches Err(RespError::NotComplete)),
        },
    decreases buf@.len(), 1int,
{
    let (end, len) = match parse_length(buf, 37) {
        Ok(x) => x,
        Err(e) => {
            return Err(e);
        },
    };
    let total = match calc_total_length(buf, len, end, 37) {
        Ok(t) => t,
        Err(e) => {
            return Err(e);
        },
    };
    if total > buf.len() {
        return Err(RespError::NotComplete);
    }
    let used = end + 2;
    let mut entries: Vec<(String, RespFrame)> = Vec::new();
    let mut pos: usize = used;
    let mut i: usize = 0;
    proof {
        assert(entry_views(entries@) =~= Seq::<(Seq<char>, FrameV)>::empty());
        assert(buf@.skip(used as int).skip(0) =~= buf@.skip(used as int));
    }
    while i < len
        invariant
            0 <= i <= len,
            3 <= used <= pos <= buf@.len(),
            entries@.len() == i as int,
            spec_container_entries(buf@) == (match spec_entries(
                buf@.skip(used as int),
                len as int,
            ) {
                Parsed::Found(es, m) => Parsed::Found(es, used + m),
                Parsed::Pending => Parsed::<Seq<(Seq<char>, FrameV)>>::Pending,
                Parsed::Bad => Parsed::<Seq<(Seq<char>, FrameV)>>::Bad,
            }),
            spec_entries(buf@.skip(used as int), len as int) == shift_entries(
                spec_entries(buf@.skip(pos as int), len - i),
                entry_views(entries@),
                pos - used,
            ),
        decreases len - i,
    {
        let sub = vstd::slice::slice_subrange(buf, pos, buf.len());
        let ghost rem: int = len - i;
        proof {
            assert(sub@ == buf@.skip(pos as int));
        }
        let (kpayload, k1) = match parse_line_payload(sub, 43) {
            Ok(x) => x,
            Err(e) => {
                return Err(e);
            },
        };
        let key = crate::outside::utf8_lossy_string(kpayload.as_slice());
        let sub2 = vstd::slice::slice_subrange(buf, pos + k1, buf.len());
        proof {
            assert(sub2@ =~= sub@.skip(k1 as int));
        }
        match parse_frame_value(sub2) {
            Ok((f, k2)) => {
                proof {
                    assert(buf@.skip(pos as int).skip(k1 + k2) =~= buf@.skip(pos as int + k1 + k2));
                    lemma_entry_views(entries@);
                    lemma_entry_views(entries@.push((key, f)));
                    assert(entry_views(entries@.push((key, f))) =~= entry_views(entries@) + seq![
                        (key@, frame_view(f)),
                    ]);
                    match spec_entries(buf@.skip(pos as int + k1 + k2), rem - 1) {
                        Parsed::Found(es2, m2) => {
                            assert(spec_entries(buf@.skip(pos as int), rem) == Parsed::Found(
                                seq![(key@, frame_view(f))] + es2,
                                k1 + k2 + m2,
                            ));
                            assert((entry_views(entries@) + seq![(key@, frame_view(f))]) + es2
                                =~= entry_views(entries@) + (seq![(key@, frame_view(f))] + es2));
                        },
                        Parsed::Pending => {},
                        Parsed::Bad => {},
                    }
                }
                entries.push((key, f));
                pos = pos + k1 + k2;
            },
            Err(e) => {
                return Err(e);
            },
        }
        i += 1;
    }
    proof {
        assert(spec_entries(buf@.skip(pos as int), 0) == Parsed::<Seq<(Seq<char>, FrameV)>>::Found(
            Seq::empty(),
            0,
        ));
        assert(entry_views(entries@) + Seq::<(Seq<char>, FrameV)>::empty() =~= entry_views(
            entries@,
        ));
    }
    Ok((entries, pos))
}

// ---------------------------------------------------------------------------
// The public decoding trait
// ---------------------------------------------------------------------------
/// Decoding from a shared byte buffer. `spec_dec` fixes what `decode` does to
/// the buffer and returns; `spec_exp` fixes what `expect_length` reports.
pub trait RespDecode: Sized {
    spec fn dec_view(&self) -> FrameV;

    spec fn spec_dec(s: Seq<u8>) -> Parsed<FrameV>;

    spec fn spec_exp(s: Seq<u8>) -> Parsed<()>;

    /// On success the buffer advances past exactly one frame; on an
    /// incomplete input it is left untouched.
    fn decode(buf: &mut bytes::BytesMut) -> (r: Result<Self, RespError>)
        ensures
            match Self::spec_dec(buf_bytes(*old(buf))) {
                Parsed::Found(fv, k) => r matches Ok(v) && v.dec_view() == fv && buf_bytes(
                    *final(buf),
                ) == buf_bytes(*old(buf)).skip(k),
                Parsed::Pending => r matches Err(RespError::NotComplete) && buf_bytes(*final(buf))
                    == buf_bytes(*old(buf)),
                Parsed::Bad => r is Err && !(r matches Err(RespError::NotComplete)),
            },
    ;

    /// The bytes one complete frame would take; never consumes.
    fn expect_length(buf: &[u8]) -> (r: Result<usize, RespError>)
        ensures
            match Self::spec_exp(buf@) {
                Parsed::Found(_, k) => r matches Ok(n) && n == k,
                Parsed::Pending => r matches Err(RespError::NotComplete),
                Parsed::Bad => r is Err && !(r matches Err(RespError::NotComplete)),
            },
    ;
}

impl RespDecode for RespFrame {
    open spec fn dec_view(&self) -> FrameV {
        frame_view(*self)
    }

    open spec fn spec_dec(s: Seq<u8>) -> Parsed<FrameV> {
        spec_value(s)
    }

    open spec fn spec_exp(s: Seq<u8>) -> Parsed<()> {
        spec_scan(s)
    }

    fn decode(buf: &mut bytes::BytesMut) -> (r: Result<Self, RespError>) {
        let res = {
            let s = buf_as_slice(buf);
            parse_frame_value(s)
        };
        match res {
            Ok((f, used)) => {
                buf_advance(buf, used);
                Ok(f)
            },
            Err(e) => Err(e),
        }
    }

    fn expect_length(buf: &[u8]) -> (r: Result<usize, RespError>) {
        expect_frame_length(buf)
    }
}

impl RespDecode for SimpleString {
    open spec fn dec_view(&self) -> FrameV {
        FrameV::SimpleString(self@)
    }

    open spec fn spec_dec(s: Seq<u8>) -> Parsed<FrameV> {
        match spec_line(s, 43) {
            Parsed::Found(p, u) => Parsed::Found(FrameV::SimpleString(chars_of_lossy(p)), u),
            Parsed::Pending => Parsed::Pending,
            Parsed::Bad => Parsed::Bad,
        }
    }

    open spec fn spec_exp(s: Seq<u8>) -> Parsed<()> {
        match spec_line(s, 43) {
            Parsed::Found(_, u) => Parsed::Found((), u),
            Parsed::Pending => Parsed::Pending,
            Parsed::Bad => Parsed::Bad,
        }
    }

    fn decode(buf: &mut bytes::BytesMut) -> (r: Result<Self, RespError>) {
        let res = {
            let s = buf_as_slice(buf);
            parse_line_payload(s, 43)
        };
        match res {
            Ok((payload, used)) => {
                buf_advance(buf, used);
                Ok(SimpleString(crate::outside::utf8_lossy_string(payload.as_slice())))
            },
            Err(e) => Err(e),
        }
    }

    fn expect_length(buf: &[u8]) -> (r: Result<usize, RespError>) {
        match extract_simple_frame_data(buf, 43) {
            Ok(end) => Ok(end + 2),
            Err(e) => Err(e),
        }
    }
}

impl RespDecode for SimpleError {
    open spec fn dec_view(&self) -> FrameV {
        FrameV::SimpleError(self@)
    }

    open spec fn spec_dec(s: Seq<u8>) -> Parsed<FrameV> {
        match spec_line(s, 45) {
            Parsed::Found(p, u) => Parsed::Found(FrameV::SimpleError(chars_of_lossy(p)), u),
            Parsed::Pending => Parsed::Pending,
            Parsed::Bad => Parsed::Bad,
        }
    }

    open spec fn spec_exp(s: Seq<u8>) -> Parsed<()> {
        match spec_line(s, 45) {
            Parsed::Found(_, u) => Parsed::Found((), u),
            Parsed::Pending => Parsed::Pending,
            Parsed::Bad => Parsed::Bad,
        }
    }

    fn decode(buf: &mut bytes::BytesMut) -> (r: Result<Self, RespError>) {
        let res = {
            let s = buf_as_slice(buf);
            parse_line_payload(s, 45)
        };
        match res {
            Ok((payload, used)) => {
                buf_advance(buf, used);
                Ok(SimpleError(crate::outside::utf8_lossy_string(payload.as_slice())))
            },
            Err(e) => Err(e),
        }
    }

    fn expect_length(buf: &[u8]) -> (r: Result<usize, RespError>) {
        match extract_simple_frame_data(buf, 45) {
            Ok(end) => Ok(end + 2),
            Err(e) => Err(e),
        }
    }
}

impl RespDecode for i64 {
    open spec fn dec_view(&self) -> FrameV {
        FrameV::Integer(*self as int)
    }

    open spec fn spec_dec(s: Seq<u8>) -> Parsed<FrameV> {
        match spec_line(s, 58) {
            Parsed::Found(p, u) => if is_i64_text(p) {
                Parsed::Found(FrameV::Integer(i64_text_val(p)), u)
            } else {
                Parsed::Bad
            },
            Parsed::Pending => Parsed::Pending,
            Parsed::Bad => Parsed::Bad,
        }
    }

    open spec fn spec_exp(s: Seq<u8>) -> Parsed<()> {
        match spec_line(s, 58) {
            Parsed::Found(_, u) => Parsed::Found((), u),
            Parsed::Pending => Parsed::Pending,
            Parsed::Bad => Parsed::Bad,
        }
    }

    fn decode(buf: &mut bytes::BytesMut) -> (r: Result<Self, RespError>) {
        let res = {
            let s = buf_as_slice(buf);
            parse_line_payload(s, 58)
        };
        match res {
            Ok((payload, used)) => match crate::text::parse_i64_text(payload.as_slice()) {
                Some(value) => {
                    buf_advance(buf, used);
                    Ok(value)
                },
                None => Err(RespError::ParseIntError),
            },
            Err(e) => Err(e),
        }
    }

    fn expect_length(buf: &[u8]) -> (r: Result<usize, RespError>) {
        match extract_simple_frame_data(buf, 58) {
            Ok(end) => Ok(end + 2),
            Err(e) => Err(e),
        }
    }
}

impl RespDecode for bool {
    open spec fn dec_view(&self) -> FrameV {
        FrameV::Boolean(*self)
    }

    open spec fn spec_dec(s: Seq<u8>) -> Parsed<FrameV> {
        if s.len() < 4 {
            Parsed::Pending
        } else if s.subrange(0, 4) == seq![35u8, 116u8, 13u8, 10u8] {
            Parsed::Found(FrameV::Boolean(true), 4)
        } else if s.subrange(0, 4) == seq![35u8, 102u8, 13u8, 10u8] {
            Parsed::Found(FrameV::Boolean(false), 4)
        } else {
            Parsed::Bad
        }
    }

    open spec fn spec_exp(s: Seq<u8>) -> Parsed<()> {
        Parsed::Found((), 4)
    }

    fn decode(buf: &mut bytes::BytesMut) -> (r: Result<Self, RespError>) {
        let probe = {
            let s = buf_as_slice(buf);
            if s.len() < 4 {
                Err(RespError::NotComplete)
            } else {
                proof {
                    let t = seq![35u8, 116u8, 13u8, 10u8];
                    let f = seq![35u8, 102u8, 13u8, 10u8];
                    assert(t[0] == 35 && t[1] == 116 && t[2] == 13 && t[3] == 10);
                    assert(f[0] == 35 && f[1] == 102 && f[2] == 13 && f[3] == 10);
                    assert(s@.subrange(0, 4)[0] == s@[0] && s@.subrange(0, 4)[1] == s@[1]
                        && s@.subrange(0, 4)[2] == s@[2] && s@.subrange(0, 4)[3] == s@[3]);
                }
                if s[0] == 35 && s[1] == 116 && s[2] == 13 && s[3] == 10 {
                    proof {
                        assert(s@.subrange(0, 4) =~= seq![35u8, 116u8, 13u8, 10u8]);
                    }
                    Ok(true)
                } else if s[0] == 35 && s[1] == 102 && s[2] == 13 && s[3] == 10 {
                    proof {
                        assert(s@.subrange(0, 4) =~= seq![35u8, 102u8, 13u8, 10u8]);
                    }
                    Ok(false)
                } else {
                    Err(RespError::InvalidFrameType("expected a boolean frame".to_owned()))
                }
            }
        };
        match probe {
            Ok(value) => {
                buf_advance(buf, 4);
                Ok(value)
            },
            Err(e) => Err(e),
        }
    }

    fn expect_length(buf: &[u8]) -> (r: Result<usize, RespError>) {
        Ok(4)
    }
}

impl RespDecode for RespNull {
    open spec fn dec_view(&self) -> FrameV {
        FrameV::Null
    }

    open spec fn spec_dec(s: Seq<u8>) -> Parsed<FrameV> {
        match spec_fixed(s, seq![95u8, 13u8, 10u8]) {
            Parsed::Found(_, u) => Parsed::Found(FrameV::Null, u),
            Parsed::Pending => Parsed::Pending,
            Parsed::Bad => Parsed::Bad,
        }
    }

    open spec fn spec_exp(s: Seq<u8>) -> Parsed<()> {
        Parsed::Found((), 3)
    }

    fn decode(buf: &mut bytes::BytesMut) -> (r: Result<Self, RespError>) {
        let probe = {
            let s = buf_as_slice(buf);
            if s.len() < 3 {
                Err(RespError::NotComplete)
            } else {
                proof {
                    let w = seq![95u8, 13u8, 10u8];
                    assert(w[0] == 95 && w[1] == 13 && w[2] == 10);
                    assert(s@.subrange(0, 3)[0] == s@[0] && s@.subrange(0, 3)[1] == s@[1]
                        && s@.subrange(0, 3)[2] == s@[2]);
                }
                if s[0] == 95 && s[1] == 13 && s[2] == 10 {
                    proof {
                        assert(s@.subrange(0, 3) =~= seq![95u8, 13u8, 10u8]);
                    }
                    Ok(())
                } else {
                    Err(RespError::InvalidFrameType("expected a null frame".to_owned()))
                }
            }
        };
        match probe {
            Ok(_) => {
                buf_advance(buf, 3);
                Ok(RespNull)
            },
            Err(e) => Err(e),
        }
    }

    fn expect_length(buf: &[u8]) -> (r: Result<usize, RespError>) {
        Ok(3)
    }
}

impl RespDecode for RespNullBulkString {
    open spec fn dec_view(&self) -> FrameV {
        FrameV::NullBulkString
    }

    open spec fn spec_dec(s: Seq<u8>) -> Parsed<FrameV> {
        match spec_fixed(s, null_bulk_wire()) {
            Parsed::Found(_, u) => Parsed::Found(FrameV::NullBulkString, u),
            Parsed::Pending => Parsed::Pending,
            Parsed::Bad => Parsed::Bad,
        }
    }

    open spec fn spec_exp(s: Seq<u8>) -> Parsed<()> {
        Parsed::Found((), 5)
    }

    fn decode(buf: &mut bytes::BytesMut) -> (r: Result<Self, RespError>) {
        let probe = {
            let s = buf_as_slice(buf);
            if s.len() < 5 {
                Err(RespError::NotComplete)
            } else if null_probe(s, 36) {
                Ok(())
            } else {
                Err(RespError::InvalidFrameType("expected a null bulk string".to_owned()))
            }
        };
        match probe {
            Ok(_) => {
                buf_advance(buf, 5);
                Ok(RespNullBulkString)
            },
            Err(e) => Err(e),
        }
    }

    fn expect_length(buf: &[u8]) -> (r: Result<usize, RespError>) {
        Ok(5)
    }
}

impl RespDecode for RespNullArray {
    open spec fn dec_view(&self) -> FrameV {
        FrameV::NullArray
    }

    open spec fn spec_dec(s: Seq<u8>) -> Parsed<FrameV> {
        match spec_fixed(s, null_array_wire()) {
            Parsed::Found(_, u) => Parsed::Found(FrameV::NullArray, u),
            Parsed::Pending => Parsed::Pending,
            Parsed::Bad => Parsed::Bad,
        }
    }

    open spec fn spec_exp(s: Seq<u8>) -> Parsed<()> {
        Parsed::Found((), 5)
    }

    fn decode(buf: &mut bytes::BytesMut) -> (r: Result<Self, RespError>) {
        let probe = {
            let s = buf_as_slice(buf);
            if s.len() < 5 {
                Err(RespError::NotComplete)
            } else if null_probe(s, 42) {
                Ok(())
            } else {
                Err(RespError::InvalidFrameType("expected a null array".to_owned()))
            }
        };
        match probe {
            Ok(_) => {
                buf_advance(buf, 5);
                Ok(RespNullArray)
            },
            Err(e) => Err(e),
        }
    }

    fn expect_length(buf: &[u8]) -> (r: Result<usize, RespError>) {
        Ok(5)
    }
}

impl RespDecode for BulkString {
    open spec fn dec_view(&self) -> FrameV {
        FrameV::BulkString(self@)
    }

    open spec fn spec_dec(s: Seq<u8>) -> Parsed<FrameV> {
        spec_bulk(s)
    }

    open spec fn spec_exp(s: Seq<u8>) -> Parsed<()> {
        match spec_parse_len(s, 36) {
            Parsed::Found(l, used) => if used + l + 2 > usize::MAX {
                Parsed::Pending
            } else {
                Parsed::Found((), used + l + 2)
            },
            Parsed::Pending => Parsed::Pending,
            Parsed::Bad => Parsed::Bad,
        }
    }

    fn decode(buf: &mut bytes::BytesMut) -> (r: Result<Self, RespError>) {
        let res = {
            let s = buf_as_slice(buf);
            match parse_length(s, 36) {
                Ok((end, len)) => {
                    let used = end + 2;
                    let rem = s.len() - used;
                    if rem < 2 || len > rem - 2 {
                        Err(RespError::NotComplete)
                    } else {
                        let payload = vstd::slice::slice_to_vec(
                            vstd::slice::slice_subrange(s, used, used + len),
                        );
                        Ok((payload, used + len + 2))
                    }
                },
                Err(e) => Err(e),
            }
        };
        match res {
            Ok((payload, total)) => {
                buf_advance(buf, total);
                Ok(BulkString(payload))
            },
            Err(e) => Err(e),
        }
    }

    fn expect_length(buf: &[u8]) -> (r: Result<usize, RespError>) {
        match parse_length(buf, 36) {
            Ok((end, len)) => {
                let used = end + 2;
                let room = usize::MAX - used;
                if room < 2 || len > room - 2 {
                    Err(RespError::NotComplete)
                } else {
                    Ok(used + len + 2)
                }
            },
            Err(e) => Err(e),
        }
    }
}

impl RespDecode for RespArray {
    open spec fn dec_view(&self) -> FrameV {
        FrameV::Array(self@)
    }

    open spec fn spec_dec(s: Seq<u8>) -> Parsed<FrameV> {
        match spec_container_items(s, 42) {
            Parsed::Found(items, u) => Parsed::Found(FrameV::Array(items), u),
            Parsed::Pending => Parsed::Pending,
            Parsed::Bad => Parsed::Bad,
        }
    }

    open spec fn spec_exp(s: Seq<u8>) -> Parsed<()> {
        match spec_parse_len(s, 42) {
            Parsed::Found(l, used) => if !(3 <= used <= s.len()) {
                Parsed::Bad
            } else {
                match spec_scan_items(s.skip(used), l) {
                    Parsed::Found(_, m) => Parsed::Found((), used + m),
                    Parsed::Pending => Parsed::Pending,
                    Parsed::Bad => Parsed::Bad,
                }
            },
            Parsed::Pending => Parsed::Pending,
            Parsed::Bad => Parsed::Bad,
        }
    }

    fn decode(buf: &mut bytes::BytesMut) -> (r: Result<Self, RespError>) {
        let res = {
            let s = buf_as_slice(buf);
            parse_container_items(s, 42)
        };
        match res {
            Ok((items, total)) => {
                buf_advance(buf, total);
                Ok(RespArray(items))
            },
            Err(e) => Err(e),
        }
    }

    fn expect_length(buf: &[u8]) -> (r: Result<usize, RespError>) {
        match parse_length(buf, 42) {
            Ok((end, len)) => calc_total_length(buf, len, end, 42),
            Err(e) => Err(e),
        }
    }
}

impl RespDecode for RespSet {
    open spec fn dec_view(&self) -> FrameV {
        FrameV::SetFrame(self@)
    }

    open spec fn spec_dec(s: Seq<u8>) -> Parsed<FrameV> {
        match spec_container_items(s, 126) {
            Parsed::Found(items, u) => Parsed::Found(FrameV::SetFrame(items), u),
            Parsed::Pending => Parsed::Pending,
            Parsed::Bad => Parsed::Bad,
        }
    }

    open spec fn spec_exp(s: Seq<u8>) -> Parsed<()> {
        match spec_parse_len(s, 126) {
            Parsed::Found(l, used) => if !(3 <= used <= s.len()) {
                Parsed::Bad
            } else {
                match spec_scan_items(s.skip(used), l) {
                    Parsed::Found(_, m) => Parsed::Found((), used + m),
                    Parsed::Pending => Parsed::Pending,
                    Parsed::Bad => Parsed::Bad,
                }
            },
            Parsed::Pending => Parsed::Pending,
            Parsed::Bad => Parsed::Bad,
        }
    }

    fn decode(buf: &mut bytes::BytesMut) -> (r: Result<Self, RespError>) {
        let res = {
            let s = buf_as_slice(buf);
            parse_container_items(s, 126)
        };
        match res {
            Ok((items, total)) => {
                buf_advance(buf, total);
                Ok(RespSet(items))
            },
            Err(e) => Err(e),
        }
    }

    fn expect_length(buf: &[u8]) -> (r: Result<usize, RespError>) {
        match parse_length(buf, 126) {
            Ok((end, len)) => calc_total_length(buf, len, end, 126),
            Err(e) => Err(e),
        }
    }
}

impl RespDecode for RespMap {
    open spec fn dec_view(&self) -> FrameV {
        FrameV::MapFrame(self@)
    }

    open spec fn spec_dec(s: Seq<u8>) -> Parsed<FrameV> {
        match spec_container_entries(s) {
            Parsed::Found(entries, u) => Parsed::Found(FrameV::MapFrame(entries), u),
            Parsed::Pending => Parsed::Pending,
            Parsed::Bad => Parsed::Bad,
        }
    }

    open spec fn spec_exp(s: Seq<u8>) -> Parsed<()> {
        match spec_parse_len(s, 37) {
            Parsed::Found(l, used) => if !(3 <= used <= s.len()) {
                Parsed::Bad
            } else {
                match spec_scan_entries(s.skip(used), l) {
                    Parsed::Found(_, m) => Parsed::Found((), used + m),
                    Parsed::Pending => Parsed::Pending,
                    Parsed::Bad => Parsed::Bad,
                }
            },
            Parsed::Pending => Parsed::Pending,
            Parsed::Bad => Parsed::Bad,
        }
    }

    fn decode(buf: &mut bytes::BytesMut) -> (r: Result<Self, RespError>) {
        let res = {
            let s = buf_as_slice(buf);
            parse_container_entries(s)
        };
        match res {
            Ok((entries, total)) => {
                buf_advance(buf, total);
                Ok(RespMap(entries))
            },
            Err(e) => Err(e),
        }
    }

    fn expect_length(buf: &[u8]) -> (r: Result<usize, RespError>) {
        match parse_length(buf, 37) {
            Ok((end, len)) => calc_total_length(buf, len, end, 37),
            Err(e) => Err(e),
        }
    }
}

} // verus!
