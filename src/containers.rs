//! Constructors and operations of the frame types.
use crate::frame::{
    entries_view, frames_view, lemma_entries_view, lemma_frames_view, BulkError, BulkString,
    NullBulkString, RespArray, RespDouble, RespFrame, RespMap, RespNull, RespNullArray, RespSet,
    SimpleError, SimpleString,
};
use crate::model::{frame_lt, map_insert, map_lookup, set_insert, text_lt, FrameView};
use crate::order::{frame_equal, frame_less, text_less};
use crate::ordering::{lemma_map_insert_sorted, lemma_set_insert_sorted};
use vstd::prelude::*;

verus! {

impl SimpleString {
    pub fn new(s: String) -> (r: SimpleString)
        ensures
            r@ == s@,
    {
        SimpleString(s)
    }
}

impl SimpleError {
    pub fn new(s: String) -> (r: SimpleError)
        ensures
            r@ == s@,
    {
        SimpleError(s)
    }
}

impl BulkString {
    pub fn new(s: Vec<u8>) -> (r: BulkString)
        ensures
            r@ == s@,
    {
        BulkString(s)
    }
}

impl BulkError {
    pub fn new(s: Vec<u8>) -> (r: BulkError)
        ensures
            r@ == s@,
    {
        BulkError(s)
    }
}

impl RespDouble {
    /// A double from its textual form, such as `+1.5` or `-1.23456e8`.
    pub fn new(text: String) -> (r: RespDouble)
        ensures
            r@ == text@,
    {
        RespDouble(text)
    }
}

impl RespArray {
    pub fn new(frames: Vec<RespFrame>) -> (r: RespArray)
        ensures
            r@ == frames_view(frames@),
    {
        RespArray(frames)
    }

    pub fn len(&self) -> (r: usize)
        ensures
            r == self@.len(),
    {
        proof {
            lemma_frames_view(self.0@);
        }
        self.0.len()
    }
}

/// Entries sorted by key, each key once.
pub open spec fn entries_sorted(m: Seq<(Seq<char>, FrameView)>) -> bool {
    forall|i: int, j: int| 0 <= i < j < m.len() ==> text_lt(#[trigger] m[i].0, #[trigger] m[j].0)
}

/// Frames sorted, each once.
pub open spec fn frames_sorted(s: Seq<FrameView>) -> bool {
    forall|i: int, j: int| 0 <= i < j < s.len() ==> frame_lt(#[trigger] s[i], #[trigger] s[j])
}

proof fn lemma_view_insert(s: Seq<(String, RespFrame)>, i: int, k: String, v: RespFrame)
    requires
        0 <= i <= s.len(),
    ensures
        entries_view(s.insert(i, (k, v))) == entries_view(s).insert(i, (k@, v@)),
{
    lemma_entries_view(s);
    lemma_entries_view(s.insert(i, (k, v)));
    assert(entries_view(s.insert(i, (k, v))) =~= entries_view(s).insert(i, (k@, v@)));
}

proof fn lemma_view_update(s: Seq<(String, RespFrame)>, i: int, k: String, v: RespFrame)
    requires
        0 <= i < s.len(),
    ensures
        entries_view(s.update(i, (k, v))) == entries_view(s).update(i, (k@, v@)),
{
    lemma_entries_view(s);
    lemma_entries_view(s.update(i, (k, v)));
    assert(entries_view(s.update(i, (k, v))) =~= entries_view(s).update(i, (k@, v@)));
}

proof fn lemma_frames_view_insert(s: Seq<RespFrame>, i: int, x: RespFrame)
    requires
        0 <= i <= s.len(),
    ensures
        frames_view(s.insert(i, x)) == frames_view(s).insert(i, x@),
{
    lemma_frames_view(s);
    lemma_frames_view(s.insert(i, x));
    assert(frames_view(s.insert(i, x)) =~= frames_view(s).insert(i, x@));
}

impl RespMap {
    pub fn new() -> (r: RespMap)
        ensures
            r@ == Seq::<(Seq<char>, FrameView)>::empty(),
            entries_sorted(r@),
    {
        RespMap(Vec::new())
    }

    pub fn len(&self) -> (r: usize)
        ensures
            r == self@.len(),
    {
        proof {
            lemma_entries_view(self.0@);
        }
        self.0.len()
    }

    /// Puts `value` under `key`, in key order; a value already under `key` is replaced.
    pub fn insert(&mut self, key: String, value: RespFrame)
        ensures
            final(self)@ == map_insert(old(self)@, key@, value@),
            entries_sorted(old(self)@) ==> entries_sorted(final(self)@) && forall|q: Seq<char>|
                #[trigger] map_lookup(final(self)@, q) == if q == key@ {
                    Some(value@)
                } else {
                    map_lookup(old(self)@, q)
                },
    {
        let ghost m = self@;
        proof {
            if entries_sorted(m) {
                lemma_map_insert_sorted(m, key@, value@);
            }
            lemma_entries_view(self.0@);
            assert(m.subrange(0, 0) + m.subrange(0, m.len() as int) =~= m);
        }
        let mut i: usize = 0;
        while i < self.0.len() && text_less(&self.0[i].0, &key)
            invariant
                i <= self.0.len(),
                self@ == m,
                m.len() == self.0.len(),
                forall|k: int| 0 <= k < m.len() ==> #[trigger] m[k] == (self.0@[k].0@, self.0@[k].1@),
                map_insert(m, key@, value@) == m.subrange(0, i as int) + map_insert(
                    m.subrange(i as int, m.len() as int),
                    key@,
                    value@,
                ),
            decreases self.0.len() - i,
        {
            proof {
                let rest = m.subrange(i as int, m.len() as int);
                assert(rest.drop_first() =~= m.subrange(i + 1, m.len() as int));
                assert(m.subrange(0, i as int) + (seq![rest[0]] + map_insert(
                    rest.drop_first(),
                    key@,
                    value@,
                )) =~= m.subrange(0, i + 1) + map_insert(
                    m.subrange(i + 1, m.len() as int),
                    key@,
                    value@,
                ));
            }
            i += 1;
        }
        let ghost rest = m.subrange(i as int, m.len() as int);
        if i < self.0.len() && self.0[i].0 == key {
            proof {
                lemma_view_update(self.0@, i as int, key, value);
                assert(rest.drop_first() =~= m.subrange(i + 1, m.len() as int));
                assert(m.update(i as int, (key@, value@)) =~= m.subrange(0, i as int) + (seq![
                    (key@, value@),
                ] + rest.drop_first()));
            }
            self.0.set(i, (key, value));
        } else {
            proof {
                lemma_view_insert(self.0@, i as int, key, value);
                assert(m.insert(i as int, (key@, value@)) =~= m.subrange(0, i as int) + (seq![
                    (key@, value@),
                ] + rest));
            }
            self.0.insert(i, (key, value));
        }
    }

    /// The value under `key`, if any.
    pub fn get(&self, key: &String) -> (r: Option<&RespFrame>)
        ensures
            match r {
                Some(v) => map_lookup(self@, key@) == Some(v@),
                None => map_lookup(self@, key@) is None,
            },
    {
        let ghost m = self@;
        proof {
            lemma_entries_view(self.0@);
            assert(m.subrange(0, m.len() as int) =~= m);
        }
        let mut i: usize = 0;
        while i < self.0.len()
            invariant
                i <= self.0.len(),
                self@ == m,
                m.len() == self.0.len(),
                forall|k: int| 0 <= k < m.len() ==> #[trigger] m[k] == (self.0@[k].0@, self.0@[k].1@),
                map_lookup(m, key@) == map_lookup(m.subrange(i as int, m.len() as int), key@),
            decreases self.0.len() - i,
        {
            proof {
                assert(m.subrange(i as int, m.len() as int).drop_first() =~= m.subrange(
                    i + 1,
                    m.len() as int,
                ));
            }
            if self.0[i].0 == *key {
                return Some(&self.0[i].1);
            }
            i += 1;
        }
        None
    }
}

impl RespSet {
    pub fn new() -> (r: RespSet)
        ensures
            r@ == Seq::<FrameView>::empty(),
            frames_sorted(r@),
    {
        RespSet(Vec::new())
    }

    pub fn len(&self) -> (r: usize)
        ensures
            r == self@.len(),
    {
        proof {
            lemma_frames_view(self.0@);
        }
        self.0.len()
    }

    /// Adds `x` in order, unless an equal frame is already there.
    pub fn insert(&mut self, x: RespFrame)
        ensures
            final(self)@ == set_insert(old(self)@, x@),
            frames_sorted(old(self)@) ==> frames_sorted(final(self)@) && forall|y: FrameView|
                #[trigger] final(self)@.contains(y) <==> (old(self)@.contains(y) || y == x@),
    {
        let ghost s = self@;
        proof {
            if frames_sorted(s) {
                lemma_set_insert_sorted(s, x@);
            }
            lemma_frames_view(self.0@);
            assert(s.subrange(0, 0) + s.subrange(0, s.len() as int) =~= s);
        }
        let mut i: usize = 0;
        while i < self.0.len() && frame_less(&self.0[i], &x)
            invariant
                i <= self.0.len(),
                self@ == s,
                s.len() == self.0.len(),
                forall|k: int| 0 <= k < s.len() ==> #[trigger] s[k] == self.0@[k]@,
                set_insert(s, x@) == s.subrange(0, i as int) + set_insert(
                    s.subrange(i as int, s.len() as int),
                    x@,
                ),
            decreases self.0.len() - i,
        {
            proof {
                let rest = s.subrange(i as int, s.len() as int);
                assert(rest.drop_first() =~= s.subrange(i + 1, s.len() as int));
                assert(s.subrange(0, i as int) + (seq![rest[0]] + set_insert(rest.drop_first(), x@))
                    =~= s.subrange(0, i + 1) + set_insert(s.subrange(i + 1, s.len() as int), x@));
            }
            i += 1;
        }
        let ghost rest = s.subrange(i as int, s.len() as int);
        if i < self.0.len() && frame_equal(&self.0[i], &x) {
            assert(s =~= s.subrange(0, i as int) + rest);
        } else {
            proof {
                lemma_frames_view_insert(self.0@, i as int, x);
                assert(s.insert(i as int, x@) =~= s.subrange(0, i as int) + (seq![x@] + rest));
            }
            self.0.insert(i, x);
        }
    }

    /// Whether a frame equal to `x` is in the set.
    pub fn contains(&self, x: &RespFrame) -> (r: bool)
        ensures
            r == self@.contains(x@),
    {
        proof {
            lemma_frames_view(self.0@);
        }
        let mut i: usize = 0;
        while i < self.0.len()
            invariant
                i <= self.0.len(),
                self@.len() == self.0.len(),
                forall|k: int| 0 <= k < self.0.len() ==> #[trigger] self@[k] == self.0@[k]@,
                forall|k: int| 0 <= k < i ==> self@[k] != x@,
            decreases self.0.len() - i,
        {
            if frame_equal(&self.0[i], x) {
                assert(self@[i as int] == x@);
                return true;
            }
            i += 1;
        }
        false
    }
}

/// A copy of `f`, equal to it as a value.
pub fn copy_frame(f: &RespFrame) -> (r: RespFrame)
    ensures
        r@ == f@,
    decreases f, 0int,
{
    match f {
        RespFrame::SimpleString(s) => RespFrame::SimpleString(SimpleString(s.0.clone())),
        RespFrame::Error(s) => RespFrame::Error(SimpleError(s.0.clone())),
        RespFrame::Integer(n) => RespFrame::Integer(*n),
        RespFrame::BulkString(b) => RespFrame::BulkString(BulkString(copy_bytes(&b.0))),
        RespFrame::NullBulkString(_) => RespFrame::NullBulkString(NullBulkString),
        RespFrame::BulkError(b) => RespFrame::BulkError(BulkError(copy_bytes(&b.0))),
        RespFrame::Null(_) => RespFrame::Null(RespNull),
        RespFrame::Boolean(v) => RespFrame::Boolean(*v),
        RespFrame::Double(d) => RespFrame::Double(RespDouble(d.0.clone())),
        RespFrame::Array(a) => RespFrame::Array(RespArray(copy_items(&a.0))),
        RespFrame::NullArray(_) => RespFrame::NullArray(RespNullArray),
        RespFrame::RespMap(m) => RespFrame::RespMap(RespMap(copy_entries(&m.0))),
        RespFrame::RespSet(s) => RespFrame::RespSet(RespSet(copy_items(&s.0))),
    }
}

fn copy_bytes(b: &Vec<u8>) -> (r: Vec<u8>)
    ensures
        r@ == b@,
{
    crate::scan::copy_range(b.as_slice(), 0, b.len())
}

/// A copy of each frame of `items`.
pub fn copy_items(items: &Vec<RespFrame>) -> (r: Vec<RespFrame>)
    ensures
        frames_view(r@) == frames_view(items@),
    decreases items,
{
    let mut out: Vec<RespFrame> = Vec::new();
    let mut i: usize = 0;
    proof {
        lemma_frames_view(items@);
    }
    while i < items.len()
        invariant
            i <= items.len(),
            frames_view(items@).len() == items.len(),
            forall|k: int| 0 <= k < items.len() ==> #[trigger] frames_view(items@)[k] == items@[k]@,
            frames_view(out@) == frames_view(items@).subrange(0, i as int),
        decreases items.len() - i,
    {
        let f = copy_frame(&items[i]);
        proof {
            assert(out@.push(f).drop_last() =~= out@);
            assert(frames_view(items@).subrange(0, i as int).push(f@) =~= frames_view(items@).subrange(0, i + 1));
        }
        out.push(f);
        i += 1;
    }
    assert(frames_view(items@).subrange(0, items.len() as int) =~= frames_view(items@));
    out
}

/// A copy of each entry of `entries`.
pub fn copy_entries(entries: &Vec<(String, RespFrame)>) -> (r: Vec<(String, RespFrame)>)
    ensures
        entries_view(r@) == entries_view(entries@),
    decreases entries,
{
    let mut out: Vec<(String, RespFrame)> = Vec::new();
    let mut i: usize = 0;
    proof {
        lemma_entries_view(entries@);
    }
    while i < entries.len()
        invariant
            i <= entries.len(),
            entries_view(entries@).len() == entries.len(),
            forall|k: int|
                0 <= k < entries.len() ==> #[trigger] entries_view(entries@)[k] == (
                    entries@[k].0@,
                    entries@[k].1@,
                ),
            entries_view(out@) == entries_view(entries@).subrange(0, i as int),
        decreases entries.len() - i,
    {
        let k = entries[i].0.clone();
        let v = copy_frame(&entries[i].1);
        proof {
            assert(out@.push((k, v)).drop_last() =~= out@);
            assert(entries_view(entries@).subrange(0, i as int).push((k@, v@)) =~= entries_view(
                entries@,
            ).subrange(0, i + 1));
        }
        out.push((k, v));
        i += 1;
    }
    assert(entries_view(entries@).subrange(0, entries.len() as int) =~= entries_view(entries@));
    out
}

impl RespMap {
    /// A copy of the map, equal to it as a value.
    pub fn copy(&self) -> (r: RespMap)
        ensures
            r@ == self@,
    {
        RespMap(copy_entries(&self.0))
    }
}

} // verus!
