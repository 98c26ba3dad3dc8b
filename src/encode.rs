//! Writing frames to bytes.
use crate::frame::{
    entries_view, frames_view, BulkError, BulkString, NullBulkString, RespArray, RespDouble,
    RespFrame, RespMap, RespNull, RespNullArray, RespSet, SimpleError, SimpleString,
};
use crate::model::{
    crlf, digits, encode_entries, encode_frame, encode_items, header, line, signed_text, FrameView,
};
use vstd::prelude::*;

verus! {

/// What can be written as RESP bytes.
pub trait RespEncoder {
    /// The bytes that `encode` returns.
    spec fn encoding(&self) -> Seq<u8>;

    fn encode(&self) -> (r: Vec<u8>)
        ensures
            r@ == self.encoding(),
    ;
}

/// Appends the decimal digits of `n`.
pub(crate) fn push_digits(out: &mut Vec<u8>, n: u128)
    ensures
        final(out)@ == old(out)@ + digits(n as nat),
    decreases n,
{
    if n >= 10 {
        push_digits(out, n / 10);
        out.push((48 + n % 10) as u8);
        assert(final(out)@ =~= old(out)@ + digits(n as nat));
    } else {
        out.push((48 + n) as u8);
        assert(final(out)@ =~= old(out)@ + digits(n as nat));
    }
}

/// Appends all of `b`.
pub(crate) fn push_bytes(out: &mut Vec<u8>, b: &[u8])
    ensures
        final(out)@ == old(out)@ + b@,
{
    let ghost start = out@;
    let mut i: usize = 0;
    while i < b.len()
        invariant
            i <= b.len(),
            out@ == start + b@.subrange(0, i as int),
        decreases b.len() - i,
    {
        out.push(b[i]);
        i += 1;
        assert(out@ =~= start + b@.subrange(0, i as int));
    }
    assert(b@.subrange(0, b.len() as int) =~= b@);
}

fn push_crlf(out: &mut Vec<u8>)
    ensures
        final(out)@ == old(out)@ + crlf(),
{
    out.push(13u8);
    out.push(10u8);
    assert(final(out)@ =~= old(out)@ + crlf());
}

/// `<tag><count>\r\n`
fn push_header(out: &mut Vec<u8>, tag: u8, n: usize)
    ensures
        final(out)@ == old(out)@ + header(tag, n as nat),
{
    let ghost start = out@;
    out.push(tag);
    push_digits(out, n as u128);
    push_crlf(out);
    assert(out@ =~= start + header(tag, n as nat));
}

/// `<tag><text>\r\n`
fn push_line(out: &mut Vec<u8>, tag: u8, text: &[u8])
    ensures
        final(out)@ == old(out)@ + line(tag, text@),
{
    let ghost start = out@;
    out.push(tag);
    push_bytes(out, text);
    push_crlf(out);
    assert(out@ =~= start + line(tag, text@));
}

/// `<tag><length>\r\n<data>\r\n`
fn push_sized(out: &mut Vec<u8>, tag: u8, data: &[u8])
    ensures
        final(out)@ == old(out)@ + header(tag, data@.len()) + data@ + crlf(),
{
    let ghost start = out@;
    push_header(out, tag, data.len());
    push_bytes(out, data);
    push_crlf(out);
    assert(out@ =~= start + header(tag, data@.len()) + data@ + crlf());
}

fn push_integer(out: &mut Vec<u8>, n: i64)
    ensures
        final(out)@ == old(out)@ + line(58u8, signed_text(n as int)),
{
    let ghost start = out@;
    out.push(58u8);
    if n < 0 {
        out.push(45u8);
        push_digits(out, (0i128 - n as i128) as u128);
    } else {
        out.push(43u8);
        push_digits(out, n as u128);
    }
    push_crlf(out);
    assert(out@ =~= start + line(58u8, signed_text(n as int)));
}

fn push_literal(out: &mut Vec<u8>, lit: &[u8])
    ensures
        final(out)@ == old(out)@ + lit@,
{
    push_bytes(out, lit);
}

pub proof fn lemma_frames_view_step(s: Seq<RespFrame>, i: int)
    requires
        0 <= i < s.len(),
    ensures
        frames_view(s.subrange(0, i + 1)) == frames_view(s.subrange(0, i)).push(s[i]@),
{
    assert(s.subrange(0, i + 1).drop_last() =~= s.subrange(0, i));
}

pub proof fn lemma_entries_view_step(s: Seq<(String, RespFrame)>, i: int)
    requires
        0 <= i < s.len(),
    ensures
        entries_view(s.subrange(0, i + 1)) == entries_view(s.subrange(0, i)).push(
            (s[i].0@, s[i].1@),
        ),
{
    assert(s.subrange(0, i + 1).drop_last() =~= s.subrange(0, i));
}

pub proof fn lemma_encode_items_push(x: Seq<FrameView>, y: FrameView)
    ensures
        encode_items(x.push(y)) == encode_items(x) + encode_frame(y),
{
    assert(x.push(y).drop_last() =~= x);
}

pub proof fn lemma_encode_entries_push(x: Seq<(Seq<char>, FrameView)>, k: Seq<char>, v: FrameView)
    ensures
        encode_entries(x.push((k, v))) == encode_entries(x) + line(43u8, vstd::utf8::encode_utf8(k))
            + encode_frame(v),
{
    assert(x.push((k, v)).drop_last() =~= x);
}

/// Appends the encoding of each frame of `items`.
fn push_items(out: &mut Vec<u8>, items: &Vec<RespFrame>)
    ensures
        final(out)@ == old(out)@ + encode_items(frames_view(items@)),
    decreases items,
{
    let ghost start = out@;
    let mut i: usize = 0;
    assert(items@.subrange(0, 0) =~= Seq::<RespFrame>::empty());
    while i < items.len()
        invariant
            i <= items.len(),
            out@ == start + encode_items(frames_view(items@.subrange(0, i as int))),
        decreases items.len() - i,
    {
        proof {
            lemma_frames_view_step(items@, i as int);
            lemma_encode_items_push(frames_view(items@.subrange(0, i as int)), items@[i as int]@);
        }
        write_frame(out, &items[i]);
        i += 1;
        assert(out@ =~= start + encode_items(frames_view(items@.subrange(0, i as int))));
    }
    assert(items@.subrange(0, items.len() as int) =~= items@);
}

/// Appends each entry: its key as a simple string, then its value.
fn push_entries(out: &mut Vec<u8>, entries: &Vec<(String, RespFrame)>)
    ensures
        final(out)@ == old(out)@ + encode_entries(entries_view(entries@)),
    decreases entries,
{
    let ghost start = out@;
    let mut i: usize = 0;
    assert(entries@.subrange(0, 0) =~= Seq::<(String, RespFrame)>::empty());
    while i < entries.len()
        invariant
            i <= entries.len(),
            out@ == start + encode_entries(entries_view(entries@.subrange(0, i as int))),
        decreases entries.len() - i,
    {
        let (key, value) = &entries[i];
        proof {
            lemma_entries_view_step(entries@, i as int);
            lemma_encode_entries_push(
                entries_view(entries@.subrange(0, i as int)),
                key@,
                value@,
            );
        }
        push_line(out, 43u8, key.as_str().as_bytes());
        write_frame(out, value);
        i += 1;
        assert(out@ =~= start + encode_entries(entries_view(entries@.subrange(0, i as int))));
    }
    assert(entries@.subrange(0, entries.len() as int) =~= entries@);
}

/// Appends the encoding of `f`.
pub fn write_frame(out: &mut Vec<u8>, f: &RespFrame)
    ensures
        final(out)@ == old(out)@ + encode_frame(f@),
    decreases f, 0int,
{
    let ghost start = out@;
    match f {
        RespFrame::SimpleString(s) => push_line(out, 43u8, s.0.as_str().as_bytes()),
        RespFrame::Error(s) => push_line(out, 45u8, s.0.as_str().as_bytes()),
        RespFrame::Integer(n) => push_integer(out, *n),
        RespFrame::BulkString(b) => push_sized(out, 36u8, b.0.as_slice()),
        RespFrame::NullBulkString(_) => {
            push_literal(out, &[36u8, 45u8, 49u8, 13u8, 10u8]);
            assert(out@ =~= start + encode_frame(f@));
        },
        RespFrame::BulkError(b) => push_sized(out, 33u8, b.0.as_slice()),
        RespFrame::Null(_) => {
            push_literal(out, &[95u8, 13u8, 10u8]);
            assert(out@ =~= start + encode_frame(f@));
        },
        RespFrame::Boolean(v) => {
            let c: u8 = if *v {
                116u8
            } else {
                102u8
            };
            push_literal(out, &[35u8, c, 13u8, 10u8]);
            assert(out@ =~= start + encode_frame(f@));
        },
        RespFrame::Double(d) => push_line(out, 44u8, d.0.as_str().as_bytes()),
        RespFrame::Array(a) => {
            proof {
                crate::frame::lemma_frames_view(a.0@);
            }
            push_header(out, 42u8, a.0.len());
            push_items(out, &a.0);
            assert(out@ =~= start + encode_frame(f@));
        },
        RespFrame::NullArray(_) => {
            push_literal(out, &[42u8, 45u8, 49u8, 13u8, 10u8]);
            assert(out@ =~= start + encode_frame(f@));
        },
        RespFrame::RespMap(m) => {
            proof {
                crate::frame::lemma_entries_view(m.0@);
            }
            push_header(out, 37u8, m.0.len());
            push_entries(out, &m.0);
            assert(out@ =~= start + encode_frame(f@));
        },
        RespFrame::RespSet(s) => {
            proof {
                crate::frame::lemma_frames_view(s.0@);
            }
            push_header(out, 126u8, s.0.len());
            push_items(out, &s.0);
            assert(out@ =~= start + encode_frame(f@));
        },
    }
}

impl RespEncoder for RespFrame {
    open spec fn encoding(&self) -> Seq<u8> {
        encode_frame(self@)
    }

    fn encode(&self) -> (r: Vec<u8>) {
        let mut out: Vec<u8> = Vec::new();
        write_frame(&mut out, self);
        assert(out@ =~= self.encoding());
        out
    }
}

impl RespEncoder for SimpleString {
    open spec fn encoding(&self) -> Seq<u8> {
        encode_frame(FrameView::Simple(self.0@))
    }

    fn encode(&self) -> (r: Vec<u8>) {
        let mut out: Vec<u8> = Vec::new();
        push_line(&mut out, 43u8, self.0.as_str().as_bytes());
        assert(out@ =~= self.encoding());
        out
    }
}

impl RespEncoder for SimpleError {
    open spec fn encoding(&self) -> Seq<u8> {
        encode_frame(FrameView::Error(self.0@))
    }

    fn encode(&self) -> (r: Vec<u8>) {
        let mut out: Vec<u8> = Vec::new();
        push_line(&mut out, 45u8, self.0.as_str().as_bytes());
        assert(out@ =~= self.encoding());
        out
    }
}

impl RespEncoder for i64 {
    open spec fn encoding(&self) -> Seq<u8> {
        encode_frame(FrameView::Integer(*self as int))
    }

    fn encode(&self) -> (r: Vec<u8>) {
        let mut out: Vec<u8> = Vec::new();
        push_integer(&mut out, *self);
        assert(out@ =~= self.encoding());
        out
    }
}

impl RespEncoder for BulkString {
    open spec fn encoding(&self) -> Seq<u8> {
        encode_frame(FrameView::Bulk(self.0@))
    }

    fn encode(&self) -> (r: Vec<u8>) {
        let mut out: Vec<u8> = Vec::new();
        push_sized(&mut out, 36u8, self.0.as_slice());
        assert(out@ =~= self.encoding());
        out
    }
}

impl RespEncoder for NullBulkString {
    open spec fn encoding(&self) -> Seq<u8> {
        encode_frame(FrameView::NullBulk)
    }

    fn encode(&self) -> (r: Vec<u8>) {
        let mut out: Vec<u8> = Vec::new();
        push_literal(&mut out, &[36u8, 45u8, 49u8, 13u8, 10u8]);
        assert(out@ =~= self.encoding());
        out
    }
}

impl RespEncoder for BulkError {
    open spec fn encoding(&self) -> Seq<u8> {
        encode_frame(FrameView::BulkError(self.0@))
    }

    fn encode(&self) -> (r: Vec<u8>) {
        let mut out: Vec<u8> = Vec::new();
        push_sized(&mut out, 33u8, self.0.as_slice());
        assert(out@ =~= self.encoding());
        out
    }
}

impl RespEncoder for RespNull {
    open spec fn encoding(&self) -> Seq<u8> {
        encode_frame(FrameView::Null)
    }

    fn encode(&self) -> (r: Vec<u8>) {
        let mut out: Vec<u8> = Vec::new();
        push_literal(&mut out, &[95u8, 13u8, 10u8]);
        assert(out@ =~= self.encoding());
        out
    }
}

impl RespEncoder for bool {
    open spec fn encoding(&self) -> Seq<u8> {
        encode_frame(FrameView::Boolean(*self))
    }

    fn encode(&self) -> (r: Vec<u8>) {
        let mut out: Vec<u8> = Vec::new();
        let c: u8 = if *self { 116u8 } else { 102u8 };
        push_literal(&mut out, &[35u8, c, 13u8, 10u8]);
        assert(out@ =~= self.encoding());
        out
    }
}

impl RespEncoder for RespDouble {
    open spec fn encoding(&self) -> Seq<u8> {
        encode_frame(FrameView::Double(self.0@))
    }

    fn encode(&self) -> (r: Vec<u8>) {
        let mut out: Vec<u8> = Vec::new();
        push_line(&mut out, 44u8, self.0.as_str().as_bytes());
        assert(out@ =~= self.encoding());
        out
    }
}

impl RespEncoder for RespArray {
    open spec fn encoding(&self) -> Seq<u8> {
        encode_frame(FrameView::Array(frames_view(self.0@)))
    }

    fn encode(&self) -> (r: Vec<u8>) {
        let mut out: Vec<u8> = Vec::new();
        proof {
            crate::frame::lemma_frames_view(self.0@);
        }
        push_header(&mut out, 42u8, self.0.len());
        push_items(&mut out, &self.0);
        assert(out@ =~= self.encoding());
        out
    }
}

impl RespEncoder for RespNullArray {
    open spec fn encoding(&self) -> Seq<u8> {
        encode_frame(FrameView::NullArray)
    }

    fn encode(&self) -> (r: Vec<u8>) {
        let mut out: Vec<u8> = Vec::new();
        push_literal(&mut out, &[42u8, 45u8, 49u8, 13u8, 10u8]);
        assert(out@ =~= self.encoding());
        out
    }
}

impl RespEncoder for RespMap {
    open spec fn encoding(&self) -> Seq<u8> {
        encode_frame(FrameView::MapOf(entries_view(self.0@)))
    }

    fn encode(&self) -> (r: Vec<u8>) {
        let mut out: Vec<u8> = Vec::new();
        proof {
            crate::frame::lemma_entries_view(self.0@);
        }
        push_header(&mut out, 37u8, self.0.len());
        push_entries(&mut out, &self.0);
        assert(out@ =~= self.encoding());
        out
    }
}

impl RespEncoder for RespSet {
    open spec fn encoding(&self) -> Seq<u8> {
        encode_frame(FrameView::SetOf(frames_view(self.0@)))
    }

    fn encode(&self) -> (r: Vec<u8>) {
        let mut out: Vec<u8> = Vec::new();
        proof {
            crate::frame::lemma_frames_view(self.0@);
        }
        push_header(&mut out, 126u8, self.0.len());
        push_items(&mut out, &self.0);
        assert(out@ =~= self.encoding());
        out
    }
}

} // verus!
