//! Equality and order of frames, computed.
use crate::frame::{entries_view, frames_view, lemma_entries_view, lemma_frames_view, RespFrame};
use crate::model::{bytes_lt, entries_lt, frame_lt, items_lt, tag_rank, text_lt};
use vstd::prelude::*;

verus! {

/// Whether `a` comes before `b` in byte order.
pub fn bytes_less(a: &[u8], b: &[u8]) -> (r: bool)
    ensures
        r == bytes_lt(a@, b@),
{
    assert(a@.subrange(0, a@.len() as int) =~= a@);
    assert(b@.subrange(0, b@.len() as int) =~= b@);
    let mut i: usize = 0;
    while i < a.len() && i < b.len() && a[i] == b[i]
        invariant
            i <= a.len(),
            i <= b.len(),
            bytes_lt(a@, b@) == bytes_lt(
                a@.subrange(i as int, a@.len() as int),
                b@.subrange(i as int, b@.len() as int),
            ),
        decreases a.len() - i,
    {
        proof {
            assert(a@.subrange(i as int, a@.len() as int).drop_first() =~= a@.subrange(
                i + 1,
                a@.len() as int,
            ));
            assert(b@.subrange(i as int, b@.len() as int).drop_first() =~= b@.subrange(
                i + 1,
                b@.len() as int,
            ));
        }
        i += 1;
    }
    if i == a.len() {
        i < b.len()
    } else if i == b.len() {
        false
    } else {
        a[i] < b[i]
    }
}

/// Whether two byte sequences are equal.
pub fn bytes_equal(a: &[u8], b: &[u8]) -> (r: bool)
    ensures
        r == (a@ == b@),
{
    if a.len() != b.len() {
        return false;
    }
    let mut i: usize = 0;
    while i < a.len()
        invariant
            i <= a.len(),
            a.len() == b.len(),
            forall|k: int| 0 <= k < i ==> a@[k] == b@[k],
        decreases a.len() - i,
    {
        if a[i] != b[i] {
            return false;
        }
        i += 1;
    }
    assert(a@ =~= b@);
    true
}

/// Whether text `a` comes before text `b`, by their UTF-8 bytes.
pub fn text_less(a: &String, b: &String) -> (r: bool)
    ensures
        r == text_lt(a@, b@),
{
    bytes_less(a.as_str().as_bytes(), b.as_str().as_bytes())
}

fn rank(f: &RespFrame) -> (r: u8)
    ensures
        r as int == tag_rank(f@),
{
    match f {
        RespFrame::SimpleString(_) => 0,
        RespFrame::Error(_) => 1,
        RespFrame::Integer(_) => 2,
        RespFrame::BulkString(_) => 3,
        RespFrame::NullBulkString(_) => 4,
        RespFrame::BulkError(_) => 5,
        RespFrame::Null(_) => 6,
        RespFrame::Boolean(_) => 7,
        RespFrame::Double(_) => 8,
        RespFrame::Array(_) => 9,
        RespFrame::NullArray(_) => 10,
        RespFrame::RespMap(_) => 11,
        RespFrame::RespSet(_) => 12,
    }
}

/// Whether two frames are equal as values.
pub fn frame_equal(a: &RespFrame, b: &RespFrame) -> (r: bool)
    ensures
        r == (a@ == b@),
    decreases a, 0int,
{
    match (a, b) {
        (RespFrame::SimpleString(x), RespFrame::SimpleString(y)) => x.0 == y.0,
        (RespFrame::Error(x), RespFrame::Error(y)) => x.0 == y.0,
        (RespFrame::Integer(x), RespFrame::Integer(y)) => *x == *y,
        (RespFrame::BulkString(x), RespFrame::BulkString(y)) => bytes_equal(
            x.0.as_slice(),
            y.0.as_slice(),
        ),
        (RespFrame::NullBulkString(_), RespFrame::NullBulkString(_)) => true,
        (RespFrame::BulkError(x), RespFrame::BulkError(y)) => bytes_equal(
            x.0.as_slice(),
            y.0.as_slice(),
        ),
        (RespFrame::Null(_), RespFrame::Null(_)) => true,
        (RespFrame::Boolean(x), RespFrame::Boolean(y)) => *x == *y,
        (RespFrame::Double(x), RespFrame::Double(y)) => x.0 == y.0,
        (RespFrame::Array(x), RespFrame::Array(y)) => items_equal(&x.0, &y.0),
        (RespFrame::NullArray(_), RespFrame::NullArray(_)) => true,
        (RespFrame::RespMap(x), RespFrame::RespMap(y)) => entries_equal(&x.0, &y.0),
        (RespFrame::RespSet(x), RespFrame::RespSet(y)) => items_equal(&x.0, &y.0),
        _ => {
            assert(tag_rank(a@) != tag_rank(b@));
            false
        },
    }
}

/// Whether two sequences of frames are equal as values.
pub fn items_equal(a: &Vec<RespFrame>, b: &Vec<RespFrame>) -> (r: bool)
    ensures
        r == (frames_view(a@) == frames_view(b@)),
    decreases a,
{
    proof {
        lemma_frames_view(a@);
        lemma_frames_view(b@);
    }
    if a.len() != b.len() {
        return false;
    }
    let mut i: usize = 0;
    while i < a.len()
        invariant
            i <= a.len(),
            a.len() == b.len(),
            frames_view(a@).len() == a.len(),
            frames_view(b@).len() == b.len(),
            forall|k: int| 0 <= k < a.len() ==> #[trigger] frames_view(a@)[k] == a@[k]@,
            forall|k: int| 0 <= k < b.len() ==> #[trigger] frames_view(b@)[k] == b@[k]@,
            forall|k: int| 0 <= k < i ==> frames_view(a@)[k] == frames_view(b@)[k],
        decreases a.len() - i,
    {
        if !frame_equal(&a[i], &b[i]) {
            assert(frames_view(a@)[i as int] != frames_view(b@)[i as int]);
            return false;
        }
        i += 1;
    }
    assert(frames_view(a@) =~= frames_view(b@));
    true
}

/// Whether two entry sequences are equal as values.
pub fn entries_equal(a: &Vec<(String, RespFrame)>, b: &Vec<(String, RespFrame)>) -> (r: bool)
    ensures
        r == (entries_view(a@) == entries_view(b@)),
    decreases a,
{
    proof {
        lemma_entries_view(a@);
        lemma_entries_view(b@);
    }
    if a.len() != b.len() {
        return false;
    }
    let mut i: usize = 0;
    while i < a.len()
        invariant
            i <= a.len(),
            a.len() == b.len(),
            entries_view(a@).len() == a.len(),
            entries_view(b@).len() == b.len(),
            forall|k: int|
                0 <= k < a.len() ==> #[trigger] entries_view(a@)[k] == (a@[k].0@, a@[k].1@),
            forall|k: int|
                0 <= k < b.len() ==> #[trigger] entries_view(b@)[k] == (b@[k].0@, b@[k].1@),
            forall|k: int| 0 <= k < i ==> entries_view(a@)[k] == entries_view(b@)[k],
        decreases a.len() - i,
    {
        let (ka, va) = &a[i];
        let (kb, vb) = &b[i];
        if !(*ka == *kb) || !frame_equal(va, vb) {
            assert(entries_view(a@)[i as int] != entries_view(b@)[i as int]);
            return false;
        }
        i += 1;
    }
    assert(entries_view(a@) =~= entries_view(b@));
    true
}

/// Whether `a` comes before `b` in the order on frames.
pub fn frame_less(a: &RespFrame, b: &RespFrame) -> (r: bool)
    ensures
        r == frame_lt(a@, b@),
    decreases a, 0int,
{
    let ra = rank(a);
    let rb = rank(b);
    if ra != rb {
        return ra < rb;
    }
    match (a, b) {
        (RespFrame::SimpleString(x), RespFrame::SimpleString(y)) => text_less(&x.0, &y.0),
        (RespFrame::Error(x), RespFrame::Error(y)) => text_less(&x.0, &y.0),
        (RespFrame::Integer(x), RespFrame::Integer(y)) => *x < *y,
        (RespFrame::BulkString(x), RespFrame::BulkString(y)) => bytes_less(
            x.0.as_slice(),
            y.0.as_slice(),
        ),
        (RespFrame::BulkError(x), RespFrame::BulkError(y)) => bytes_less(
            x.0.as_slice(),
            y.0.as_slice(),
        ),
        (RespFrame::Boolean(x), RespFrame::Boolean(y)) => !*x && *y,
        (RespFrame::Double(x), RespFrame::Double(y)) => text_less(&x.0, &y.0),
        (RespFrame::Array(x), RespFrame::Array(y)) => items_less(&x.0, &y.0),
        (RespFrame::RespMap(x), RespFrame::RespMap(y)) => entries_less(&x.0, &y.0),
        (RespFrame::RespSet(x), RespFrame::RespSet(y)) => items_less(&x.0, &y.0),
        _ => false,
    }
}

/// Whether `a` comes before `b` in lexicographic order of frames.
pub fn items_less(a: &Vec<RespFrame>, b: &Vec<RespFrame>) -> (r: bool)
    ensures
        r == items_lt(frames_view(a@), frames_view(b@)),
    decreases a,
{
    let ghost va = frames_view(a@);
    let ghost vb = frames_view(b@);
    proof {
        lemma_frames_view(a@);
        lemma_frames_view(b@);
        assert(va.subrange(0, va.len() as int) =~= va);
        assert(vb.subrange(0, vb.len() as int) =~= vb);
    }
    let mut i: usize = 0;
    while i < a.len() && i < b.len() && frame_equal(&a[i], &b[i])
        invariant
            i <= a.len(),
            i <= b.len(),
            va.len() == a.len(),
            vb.len() == b.len(),
            forall|k: int| 0 <= k < a.len() ==> #[trigger] va[k] == a@[k]@,
            forall|k: int| 0 <= k < b.len() ==> #[trigger] vb[k] == b@[k]@,
            items_lt(va, vb) == items_lt(
                va.subrange(i as int, va.len() as int),
                vb.subrange(i as int, vb.len() as int),
            ),
        decreases a.len() - i,
    {
        proof {
            assert(va.subrange(i as int, va.len() as int).subrange(
                1,
                va.len() - i,
            ) =~= va.subrange(i + 1, va.len() as int));
            assert(vb.subrange(i as int, vb.len() as int).subrange(
                1,
                vb.len() - i,
            ) =~= vb.subrange(i + 1, vb.len() as int));
        }
        i += 1;
    }
    if i == a.len() {
        i < b.len()
    } else if i == b.len() {
        false
    } else {
        frame_less(&a[i], &b[i])
    }
}

/// Whether `a` comes before `b` in lexicographic order of entries.
pub fn entries_less(a: &Vec<(String, RespFrame)>, b: &Vec<(String, RespFrame)>) -> (r: bool)
    ensures
        r == entries_lt(entries_view(a@), entries_view(b@)),
    decreases a,
{
    let ghost va = entries_view(a@);
    let ghost vb = entries_view(b@);
    proof {
        lemma_entries_view(a@);
        lemma_entries_view(b@);
        assert(va.subrange(0, va.len() as int) =~= va);
        assert(vb.subrange(0, vb.len() as int) =~= vb);
    }
    let mut i: usize = 0;
    while i < a.len() && i < b.len() && a[i].0 == b[i].0 && frame_equal(&a[i].1, &b[i].1)
        invariant
            i <= a.len(),
            i <= b.len(),
            va.len() == a.len(),
            vb.len() == b.len(),
            forall|k: int| 0 <= k < a.len() ==> #[trigger] va[k] == (a@[k].0@, a@[k].1@),
            forall|k: int| 0 <= k < b.len() ==> #[trigger] vb[k] == (b@[k].0@, b@[k].1@),
            entries_lt(va, vb) == entries_lt(
                va.subrange(i as int, va.len() as int),
                vb.subrange(i as int, vb.len() as int),
            ),
        decreases a.len() - i,
    {
        proof {
            assert(va.subrange(i as int, va.len() as int).subrange(
                1,
                va.len() - i,
            ) =~= va.subrange(i + 1, va.len() as int));
            assert(vb.subrange(i as int, vb.len() as int).subrange(
                1,
                vb.len() - i,
            ) =~= vb.subrange(i + 1, vb.len() as int));
        }
        i += 1;
    }
    if i == a.len() {
        i < b.len()
    } else if i == b.len() {
        false
    } else if !(a[i].0 == b[i].0) {
        text_less(&a[i].0, &b[i].0)
    } else {
        frame_less(&a[i].1, &b[i].1)
    }
}

} // verus!
