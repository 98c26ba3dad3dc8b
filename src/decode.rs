//! Sizing and decoding frames.
use crate::buffer::{buf_advance, buf_bytes, buffered};
use crate::frame::{
    frames_view, BulkError, BulkString, NullBulkString, RespArray, RespDouble, RespFrame, RespMap,
    RespNull, RespNullArray, RespSet, SimpleError, SimpleString,
};
use crate::model::{
    decode_spec, frame_end, is_minus_one, is_sentinel, items_end, parse_entries,
    parse_frame, parse_items, Fault, FrameView,
};
use crate::scan::{
    double_text_at, next_crlf, parse_count_at, parse_int_at, simple_text_at,
};
use bytes::BytesMut;
use vstd::prelude::*;

verus! {

/// Why bytes could not be decoded.
#[derive(Debug, Clone, PartialEq, Eq)]
pub enum RespError {
    /// More bytes are needed.
    Incomplete,
    Invalid(String),
    InvalidFrameLength,
    InvalidFrameType(String),
}

impl RespError {
    /// The error as text.
    pub fn message(&self) -> String {
        match self {
            RespError::Incomplete => String::from_str("Frame is incomplete"),
            RespError::Invalid(d) => {
                let mut m = String::from_str("Invalid frame: ");
                m.append(d.as_str());
                m
            },
            RespError::InvalidFrameLength => String::from_str("Invalid frame length"),
            RespError::InvalidFrameType(d) => {
                let mut m = String::from_str("Invalid frame type: ");
                m.append(d.as_str());
                m
            },
        }
    }

    pub open spec fn fault(&self) -> Fault {
        match self {
            RespError::Incomplete => Fault::Incomplete,
            RespError::Invalid(_) => Fault::Invalid,
            RespError::InvalidFrameLength => Fault::InvalidFrameLength,
            RespError::InvalidFrameType(_) => Fault::InvalidFrameType,
        }
    }
}

fn invalid(detail: &str) -> (r: RespError)
    ensures
        r.fault() == Fault::Invalid,
{
    RespError::Invalid(detail.to_string())
}

fn invalid_type(detail: &str) -> (r: RespError)
    ensures
        r.fault() == Fault::InvalidFrameType,
{
    RespError::InvalidFrameType(detail.to_string())
}

/// An end position computed against its specification.
pub open spec fn end_matches(r: Result<usize, RespError>, s: Result<int, Fault>) -> bool {
    match r {
        Ok(n) => s == Ok::<int, Fault>(n as int),
        Err(e) => s == Err::<int, Fault>(e.fault()),
    }
}

/// A decoded frame and end position computed against their specification.
pub open spec fn parsed_matches(
    r: Result<(RespFrame, usize), RespError>,
    s: Result<(FrameView, int), Fault>,
) -> bool {
    match r {
        Ok((f, n)) => s == Ok::<(FrameView, int), Fault>((f@, n as int)),
        Err(e) => s == Err::<(FrameView, int), Fault>(e.fault()),
    }
}

fn sentinel(c: u8) -> (r: bool)
    ensures
        r == is_sentinel(c),
{
    c == 43 || c == 45 || c == 58 || c == 36 || c == 33 || c == 95 || c == 35 || c == 44 || c
        == 42 || c == 37 || c == 126
}

/// Whether `buf[from..to]` is `-1`.
fn minus_one(buf: &[u8], from: usize, to: usize) -> (r: bool)
    requires
        from <= to <= buf.len(),
    ensures
        r == is_minus_one(buf@.subrange(from as int, to as int)),
{
    let ghost s = buf@.subrange(from as int, to as int);
    let ghost m = seq![45u8, 49u8];
    assert(m.len() == 2 && m[0] == 45 && m[1] == 49);
    if to - from == 2 && buf[from] == 45 && buf[from + 1] == 49 {
        assert(s =~= seq![45u8, 49u8]);
        true
    } else {
        if to - from == 2 {
            assert(s[0] == buf[from as int] && s[1] == buf[from + 1]);
        }
        false
    }
}

/// End of the frame that starts at `i`, found without building it.
pub fn frame_end_at(buf: &[u8], i: usize) -> (r: Result<usize, RespError>)
    ensures
        end_matches(r, frame_end(buf@, i as int)),
        r matches Ok(j) ==> i < j <= buf.len(),
    decreases buf.len() - i,
{
    if i >= buf.len() {
        return Err(RespError::Incomplete);
    }
    let t = buf[i];
    if !sentinel(t) {
        return Err(invalid_type("unknown frame type"));
    }
    let p = match next_crlf(buf, i + 1) {
        None => return Err(RespError::Incomplete),
        Some(p) => p,
    };
    if (t == 36 || t == 42) && minus_one(buf, i + 1, p) {
        return Ok(p + 2);
    }
    if t == 36 || t == 33 {
        match next_crlf(buf, p + 2) {
            None => Err(RespError::Incomplete),
            Some(q) => Ok(q + 2),
        }
    } else if t == 42 || t == 37 || t == 126 {
        match parse_count_at(buf, i + 1, p) {
            None => Err(invalid("invalid element count")),
            Some(n) => {
                let total: u128 = if t == 37 {
                    2 * (n as u128)
                } else {
                    n as u128
                };
                let ghost start = (p + 2) as int;
                let mut pos: usize = p + 2;
                let mut k: u128 = 0;
                while k < total
                    invariant
                        i < pos <= buf.len(),
                        k <= total,
                        frame_end(buf@, i as int) == items_end(buf@, start, total as nat),
                        items_end(buf@, start, total as nat) == items_end(
                            buf@,
                            pos as int,
                            (total - k) as nat,
                        ),
                    decreases total - k,
                {
                    match frame_end_at(buf, pos) {
                        Err(e) => return Err(e),
                        Ok(j) => {
                            pos = j;
                        },
                    }
                    k += 1;
                }
                Ok(pos)
            },
        }
    } else {
        Ok(p + 2)
    }
}

/// The frame that starts at `i`, with the position after it.
pub fn parse_at(buf: &[u8], i: usize) -> (r: Result<(RespFrame, usize), RespError>)
    ensures
        parsed_matches(r, parse_frame(buf@, i as int)),
        r matches Ok((_, j)) ==> i < j <= buf.len(),
    decreases buf.len() - i,
{
    if i >= buf.len() {
        return Err(RespError::Incomplete);
    }
    let t = buf[i];
    if !sentinel(t) {
        return Err(invalid_type("unknown frame type"));
    }
    let p = match next_crlf(buf, i + 1) {
        None => return Err(RespError::Incomplete),
        Some(p) => p,
    };
    let next = p + 2;
    if t == 43 || t == 45 {
        match simple_text_at(buf, i + 1, p) {
            None => Err(invalid("invalid simple text")),
            Some(s) => {
                let f = if t == 43 {
                    RespFrame::SimpleString(SimpleString(s))
                } else {
                    RespFrame::Error(SimpleError(s))
                };
                Ok((f, next))
            },
        }
    } else if t == 58 {
        match parse_int_at(buf, i + 1, p) {
            None => Err(invalid("invalid integer")),
            Some(n) => Ok((RespFrame::Integer(n), next)),
        }
    } else if t == 36 && minus_one(buf, i + 1, p) {
        Ok((RespFrame::NullBulkString(NullBulkString), next))
    } else if t == 36 || t == 33 {
        match parse_count_at(buf, i + 1, p) {
            None => Err(invalid("invalid bulk length")),
            Some(n) => match next_crlf(buf, next) {
                None => Err(RespError::Incomplete),
                Some(q) => {
                    if q - next == n {
                        let data = crate::scan::copy_range(buf, next, q);
                        let f = if t == 36 {
                            RespFrame::BulkString(BulkString(data))
                        } else {
                            RespFrame::BulkError(BulkError(data))
                        };
                        Ok((f, q + 2))
                    } else {
                        Err(RespError::InvalidFrameLength)
                    }
                },
            },
        }
    } else if t == 95 {
        if p == i + 1 {
            Ok((RespFrame::Null(RespNull), next))
        } else {
            Err(invalid("null with a payload"))
        }
    } else if t == 35 {
        let ghost text = buf@.subrange(i + 1, p as int);
        if p == i + 2 && buf[i + 1] == 116 {
            assert(text =~= seq![116u8]);
            Ok((RespFrame::Boolean(true), next))
        } else if p == i + 2 && buf[i + 1] == 102 {
            assert(text =~= seq![102u8]);
            Ok((RespFrame::Boolean(false), next))
        } else {
            if p == i + 2 {
                assert(text[0] == buf[i + 1]);
            }
            Err(invalid("invalid boolean"))
        }
    } else if t == 44 {
        match double_text_at(buf, i + 1, p) {
            None => Err(invalid("invalid double")),
            Some(s) => Ok((RespFrame::Double(RespDouble(s)), next)),
        }
    } else if t == 42 && minus_one(buf, i + 1, p) {
        Ok((RespFrame::NullArray(RespNullArray), next))
    } else {
        match parse_count_at(buf, i + 1, p) {
            None => Err(invalid("invalid element count")),
            Some(n) => {
                if t == 37 {
                    parse_map_body(buf, i, next, n)
                } else if t == 126 {
                    parse_set_body(buf, i, next, n)
                } else {
                    parse_array_body(buf, i, next, n)
                }
            },
        }
    }
}

/// `n` frames from `next`, as an array.
fn parse_array_body(buf: &[u8], i: usize, next: usize, n: usize) -> (r: Result<
    (RespFrame, usize),
    RespError,
>)
    requires
        i < next <= buf.len(),
    ensures
        parsed_matches(
            r,
            match parse_items(buf@, next as int, n as nat, seq![], false) {
                Err(e) => Err(e),
                Ok((s, j)) => Ok((FrameView::Array(s), j)),
            },
        ),
        r matches Ok((_, j)) ==> i < j <= buf.len(),
    decreases buf.len() - i, 1int,
{
    let mut items: Vec<RespFrame> = Vec::new();
    let mut pos: usize = next;
    let mut k: usize = 0;
    while k < n
        invariant
            i < next <= pos <= buf.len(),
            k <= n,
            parse_items(buf@, next as int, n as nat, seq![], false) == parse_items(
                buf@,
                pos as int,
                (n - k) as nat,
                frames_view(items@),
                false,
            ),
        decreases n - k,
    {
        match parse_at(buf, pos) {
            Err(e) => return Err(e),
            Ok((f, j)) => {
                proof {
                    assert(items@.push(f).drop_last() =~= items@);
                }
                items.push(f);
                pos = j;
            },
        }
        k += 1;
    }
    Ok((RespFrame::Array(RespArray(items)), pos))
}

/// `n` frames from `next`, gathered into a set.
fn parse_set_body(buf: &[u8], i: usize, next: usize, n: usize) -> (r: Result<
    (RespFrame, usize),
    RespError,
>)
    requires
        i < next <= buf.len(),
    ensures
        parsed_matches(
            r,
            match parse_items(buf@, next as int, n as nat, seq![], true) {
                Err(e) => Err(e),
                Ok((s, j)) => Ok((FrameView::SetOf(s), j)),
            },
        ),
        r matches Ok((_, j)) ==> i < j <= buf.len(),
    decreases buf.len() - i, 1int,
{
    let mut set = RespSet::new();
    let mut pos: usize = next;
    let mut k: usize = 0;
    while k < n
        invariant
            i < next <= pos <= buf.len(),
            k <= n,
            parse_items(buf@, next as int, n as nat, seq![], true) == parse_items(
                buf@,
                pos as int,
                (n - k) as nat,
                set@,
                true,
            ),
        decreases n - k,
    {
        match parse_at(buf, pos) {
            Err(e) => return Err(e),
            Ok((f, j)) => {
                set.insert(f);
                pos = j;
            },
        }
        k += 1;
    }
    Ok((RespFrame::RespSet(set), pos))
}

/// `n` entries from `next`, gathered into a map.
fn parse_map_body(buf: &[u8], i: usize, next: usize, n: usize) -> (r: Result<
    (RespFrame, usize),
    RespError,
>)
    requires
        i < next <= buf.len(),
    ensures
        parsed_matches(
            r,
            match parse_entries(buf@, next as int, n as nat, seq![]) {
                Err(e) => Err(e),
                Ok((m, j)) => Ok((FrameView::MapOf(m), j)),
            },
        ),
        r matches Ok((_, j)) ==> i < j <= buf.len(),
    decreases buf.len() - i, 1int,
{
    let mut map = RespMap::new();
    let mut pos: usize = next;
    let mut k: usize = 0;
    while k < n
        invariant
            i < next <= pos <= buf.len(),
            k <= n,
            parse_entries(buf@, next as int, n as nat, seq![]) == parse_entries(
                buf@,
                pos as int,
                (n - k) as nat,
                map@,
            ),
        decreases n - k,
    {
        if pos < buf.len() && buf[pos] != 43 {
            return Err(invalid_type("map key is not a simple string"));
        }
        match parse_at(buf, pos) {
            Err(e) => return Err(e),
            Ok((kf, j)) => match kf {
                RespFrame::SimpleString(key) => match parse_at(buf, j) {
                    Err(e) => return Err(e),
                    Ok((v, l)) => {
                        map.insert(key.0, v);
                        pos = l;
                    },
                },
                _ => return Err(invalid_type("map key is not a simple string")),
            },
        }
        k += 1;
    }
    Ok((RespFrame::RespMap(map), pos))
}

impl RespFrame {
    /// Number of bytes the first frame of `buf` takes, found without decoding it.
    pub fn expect_length(buf: &[u8]) -> (r: Result<usize, RespError>)
        ensures
            end_matches(r, frame_end(buf@, 0)),
    {
        frame_end_at(buf, 0)
    }

    /// Decodes the first frame of `buf` and drops its bytes; on error nothing is dropped.
    pub fn decode(buf: &mut BytesMut) -> (r: Result<RespFrame, RespError>)
        ensures
            match decode_spec(buffered(*old(buf))) {
                Ok((f, n)) => r matches Ok(g) && g@ == f && buffered(*final(buf)) == buffered(
                    *old(buf),
                ).subrange(n, buffered(*old(buf)).len() as int),
                Err(e) => r matches Err(x) && x.fault() == e && buffered(*final(buf)) == buffered(
                    *old(buf),
                ),
            },
    {
        let bytes = buf_bytes(buf);
        match frame_end_at(bytes, 0) {
            Err(e) => return Err(e),
            Ok(_) => {},
        }
        match parse_at(bytes, 0) {
            Err(e) => Err(e),
            Ok((f, n)) => {
                buf_advance(buf, n);
                Ok(f)
            },
        }
    }
}

} // verus!
