//! The frame types and their views.
use crate::model::FrameView;
use vstd::prelude::*;

verus! {

/// Text without CR or LF: `+<text>\r\n`.
#[derive(Debug, Clone, PartialEq, Eq)]
pub struct SimpleString(pub String);

/// Error text without CR or LF: `-<text>\r\n`.
#[derive(Debug, Clone, PartialEq, Eq)]
pub struct SimpleError(pub String);

/// Arbitrary bytes: `$<length>\r\n<data>\r\n`.
#[derive(Debug, Clone, PartialEq, Eq)]
pub struct BulkString(pub Vec<u8>);

/// Arbitrary error bytes: `!<length>\r\n<data>\r\n`.
#[derive(Debug, Clone, PartialEq, Eq)]
pub struct BulkError(pub Vec<u8>);

/// The absent bulk string: `$-1\r\n`.
#[derive(Debug, Clone, Copy, PartialEq, Eq)]
pub struct NullBulkString;

/// The null value: `_\r\n`.
#[derive(Debug, Clone, Copy, PartialEq, Eq)]
pub struct RespNull;

/// The absent array: `*-1\r\n`.
#[derive(Debug, Clone, Copy, PartialEq, Eq)]
pub struct RespNullArray;

/// A double kept in its textual form: `,<text>\r\n`.
#[derive(Debug, Clone, PartialEq, Eq)]
pub struct RespDouble(pub String);

/// An ordered sequence of frames.
#[derive(Debug, PartialEq, Eq)]
pub struct RespArray(pub Vec<RespFrame>);

/// Entries in ascending key order, keys unique.
#[derive(Debug, PartialEq, Eq)]
pub struct RespMap(pub Vec<(String, RespFrame)>);

/// Frames in ascending order, without repeats.
#[derive(Debug, PartialEq, Eq)]
pub struct RespSet(pub Vec<RespFrame>);

#[derive(Debug, PartialEq, Eq)]
pub enum RespFrame {
    SimpleString(SimpleString),
    Error(SimpleError),
    Integer(i64),
    BulkString(BulkString),
    NullBulkString(NullBulkString),
    BulkError(BulkError),
    Null(RespNull),
    Boolean(bool),
    Double(RespDouble),
    Array(RespArray),
    NullArray(RespNullArray),
    RespMap(RespMap),
    RespSet(RespSet),
}

pub open spec fn frame_view(f: RespFrame) -> FrameView
    decreases f,
{
    match f {
        RespFrame::SimpleString(s) => FrameView::Simple(s.0@),
        RespFrame::Error(s) => FrameView::Error(s.0@),
        RespFrame::Integer(n) => FrameView::Integer(n as int),
        RespFrame::BulkString(b) => FrameView::Bulk(b.0@),
        RespFrame::NullBulkString(_) => FrameView::NullBulk,
        RespFrame::BulkError(b) => FrameView::BulkError(b.0@),
        RespFrame::Null(_) => FrameView::Null,
        RespFrame::Boolean(v) => FrameView::Boolean(v),
        RespFrame::Double(d) => FrameView::Double(d.0@),
        RespFrame::Array(a) => FrameView::Array(frames_view(a.0@)),
        RespFrame::NullArray(_) => FrameView::NullArray,
        RespFrame::RespMap(m) => FrameView::MapOf(entries_view(m.0@)),
        RespFrame::RespSet(s) => FrameView::SetOf(frames_view(s.0@)),
    }
}

pub open spec fn frames_view(s: Seq<RespFrame>) -> Seq<FrameView>
    decreases s,
{
    if s.len() == 0 {
        seq![]
    } else {
        frames_view(s.drop_last()).push(frame_view(s.last()))
    }
}

pub open spec fn entries_view(s: Seq<(String, RespFrame)>) -> Seq<(Seq<char>, FrameView)>
    decreases s,
{
    if s.len() == 0 {
        seq![]
    } else {
        entries_view(s.drop_last()).push((s.last().0@, frame_view(s.last().1)))
    }
}

pub proof fn lemma_frames_view(s: Seq<RespFrame>)
    ensures
        frames_view(s).len() == s.len(),
        forall|i: int| 0 <= i < s.len() ==> #[trigger] frames_view(s)[i] == frame_view(s[i]),
    decreases s.len(),
{
    if s.len() > 0 {
        lemma_frames_view(s.drop_last());
    }
}

pub proof fn lemma_entries_view(s: Seq<(String, RespFrame)>)
    ensures
        entries_view(s).len() == s.len(),
        forall|i: int|
            0 <= i < s.len() ==> #[trigger] entries_view(s)[i] == (s[i].0@, frame_view(s[i].1)),
    decreases s.len(),
{
    if s.len() > 0 {
        lemma_entries_view(s.drop_last());
    }
}

impl View for RespFrame {
    type V = FrameView;

    open spec fn view(&self) -> FrameView {
        frame_view(*self)
    }
}


impl View for SimpleString {
    type V = Seq<char>;

    open spec fn view(&self) -> Seq<char> {
        self.0@
    }
}

impl View for SimpleError {
    type V = Seq<char>;

    open spec fn view(&self) -> Seq<char> {
        self.0@
    }
}

impl View for BulkString {
    type V = Seq<u8>;

    open spec fn view(&self) -> Seq<u8> {
        self.0@
    }
}

impl View for BulkError {
    type V = Seq<u8>;

    open spec fn view(&self) -> Seq<u8> {
        self.0@
    }
}

impl View for RespDouble {
    type V = Seq<char>;

    open spec fn view(&self) -> Seq<char> {
        self.0@
    }
}

impl View for RespArray {
    type V = Seq<FrameView>;

    open spec fn view(&self) -> Seq<FrameView> {
        frames_view(self.0@)
    }
}

impl View for RespSet {
    type V = Seq<FrameView>;

    open spec fn view(&self) -> Seq<FrameView> {
        frames_view(self.0@)
    }
}

impl View for RespMap {
    type V = Seq<(Seq<char>, FrameView)>;

    open spec fn view(&self) -> Seq<(Seq<char>, FrameView)> {
        entries_view(self.0@)
    }
}

} // verus!
