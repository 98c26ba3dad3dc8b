//! The in-memory store: strings, hashes and sets, each keyed by text.
use crate::containers::copy_frame;
use crate::frame::{frames_view, lemma_frames_view, RespFrame, RespMap, RespSet};
use crate::containers::{entries_sorted, frames_sorted};
use crate::model::{map_insert, map_lookup, set_insert, FrameView};
use crate::ordering::lemma_add_all_keeps_sorted;
use vstd::prelude::*;

verus! {

/// The store as values: three tables, each a sequence of (key, value) pairs.
pub struct BackendView {
    pub strings: Seq<(Seq<char>, FrameView)>,
    pub hashes: Seq<(Seq<char>, Seq<(Seq<char>, FrameView)>)>,
    pub sets: Seq<(Seq<char>, Seq<FrameView>)>,
}

/// The value of the first pair with key `k`.
pub open spec fn assoc<V>(s: Seq<(Seq<char>, V)>, k: Seq<char>) -> Option<V>
    decreases s.len(),
{
    if s.len() == 0 {
        None
    } else if s[0].0 == k {
        Some(s[0].1)
    } else {
        assoc(s.drop_first(), k)
    }
}

/// `s` with the value of key `k` set to `v`: in place if `k` is there, else at the end.
pub open spec fn assoc_put<V>(s: Seq<(Seq<char>, V)>, k: Seq<char>, v: V) -> Seq<(Seq<char>, V)>
    decreases s.len(),
{
    if s.len() == 0 {
        seq![(k, v)]
    } else if s[0].0 == k {
        s.update(0, (k, v))
    } else {
        seq![s[0]] + assoc_put(s.drop_first(), k, v)
    }
}

/// The hash under `k`, empty if there is none.
pub open spec fn hash_or_empty(v: BackendView, k: Seq<char>) -> Seq<(Seq<char>, FrameView)> {
    match assoc(v.hashes, k) {
        Some(h) => h,
        None => seq![],
    }
}

/// The set under `k`, empty if there is none.
pub open spec fn set_or_empty(v: BackendView, k: Seq<char>) -> Seq<FrameView> {
    match assoc(v.sets, k) {
        Some(s) => s,
        None => seq![],
    }
}

/// `s` with each of `xs` added in turn.
pub open spec fn set_add_all(s: Seq<FrameView>, xs: Seq<FrameView>) -> Seq<FrameView>
    decreases xs.len(),
{
    if xs.len() == 0 {
        s
    } else {
        set_insert(set_add_all(s, xs.drop_last()), xs.last())
    }
}

pub open spec fn opt_view(r: Option<RespFrame>) -> Option<FrameView> {
    match r {
        Some(f) => Some(f@),
        None => None,
    }
}


/// Every table in key order, every hash in field order, every set in ascending order.
pub open spec fn store_sorted(v: BackendView) -> bool {
    &&& entries_sorted(v.strings)
    &&& forall|i: int| 0 <= i < v.hashes.len() ==> entries_sorted((#[trigger] v.hashes[i]).1)
    &&& forall|i: int| 0 <= i < v.sets.len() ==> frames_sorted((#[trigger] v.sets[i]).1)
}

/// A property of every value in `s` holds of what `assoc` finds, and still of every value
/// after `assoc_put` with a value that has it.
proof fn lemma_assoc_keeps<V>(s: Seq<(Seq<char>, V)>, k: Seq<char>, v: V, p: spec_fn(V) -> bool)
    requires
        forall|i: int| 0 <= i < s.len() ==> p((#[trigger] s[i]).1),
        p(v),
    ensures
        forall|i: int| 0 <= i < assoc_put(s, k, v).len() ==> p((#[trigger] assoc_put(s, k, v)[i]).1),
        assoc(s, k) matches Some(w) ==> p(w),
    decreases s.len(),
{
    if s.len() > 0 {
        let rest = s.drop_first();
        assert forall|i: int| 0 <= i < rest.len() implies p((#[trigger] rest[i]).1) by {
            assert(rest[i] == s[i + 1]);
        }
        lemma_assoc_keeps(rest, k, v, p);
        if s[0].0 != k {
            let out = assoc_put(s, k, v);
            assert(out == seq![s[0]] + assoc_put(rest, k, v));
            assert forall|i: int| 0 <= i < out.len() implies p((#[trigger] out[i]).1) by {
                if i > 0 {
                    assert(out[i] == assoc_put(rest, k, v)[i - 1]);
                }
            }
        }
    }
}


/// In a store kept in order, the hash under any key lists its fields in ascending order, so
/// HGETALL answers in field order.
pub proof fn law_hash_fields_sorted(b: BackendView, key: Seq<char>)
    requires
        store_sorted(b),
    ensures
        assoc(b.hashes, key) matches Some(h) ==> entries_sorted(h),
{
    let p = |h: Seq<(Seq<char>, FrameView)>| entries_sorted(h);
    lemma_assoc_keeps(b.hashes, key, Seq::<(Seq<char>, FrameView)>::empty(), p);
    if let Some(h) = assoc(b.hashes, key) {
        assert(p(h));
    }
}

proof fn lemma_assoc_found<V>(s: Seq<(Seq<char>, V)>, k: Seq<char>, v: V, i: int)
    requires
        0 <= i < s.len(),
        s[i].0 == k,
        forall|j: int| 0 <= j < i ==> s[j].0 != k,
    ensures
        assoc(s, k) == Some(s[i].1),
        assoc_put(s, k, v) == s.update(i, (k, v)),
    decreases i,
{
    if i > 0 {
        lemma_assoc_found(s.drop_first(), k, v, i - 1);
        assert(seq![s[0]] + s.drop_first().update(i - 1, (k, v)) =~= s.update(i, (k, v)));
    }
}

proof fn lemma_assoc_absent<V>(s: Seq<(Seq<char>, V)>, k: Seq<char>, v: V)
    requires
        forall|j: int| 0 <= j < s.len() ==> s[j].0 != k,
    ensures
        assoc(s, k) is None,
        assoc_put(s, k, v) == s.push((k, v)),
    decreases s.len(),
{
    if s.len() > 0 {
        lemma_assoc_absent(s.drop_first(), k, v);
        assert(seq![s[0]] + s.drop_first().push((k, v)) =~= s.push((k, v)));
    }
}

/// Position of the first pair with key `key`.
fn find_key<T>(t: &Vec<(String, T)>, key: &String) -> (r: Option<usize>)
    ensures
        r matches Some(i) ==> i < t.len() && t@[i as int].0@ == key@ && forall|j: int|
            0 <= j < i ==> t@[j].0@ != key@,
        r is None ==> forall|j: int| 0 <= j < t.len() ==> t@[j].0@ != key@,
{
    let mut i: usize = 0;
    while i < t.len()
        invariant
            i <= t.len(),
            forall|j: int| 0 <= j < i ==> t@[j].0@ != key@,
        decreases t.len() - i,
    {
        if t[i].0 == *key {
            return Some(i);
        }
        i += 1;
    }
    None
}

pub open spec fn hashes_view(t: Seq<(String, RespMap)>) -> Seq<
    (Seq<char>, Seq<(Seq<char>, FrameView)>),
> {
    t.map_values(|e: (String, RespMap)| (e.0@, e.1@))
}

pub open spec fn sets_view(t: Seq<(String, RespSet)>) -> Seq<(Seq<char>, Seq<FrameView>)> {
    t.map_values(|e: (String, RespSet)| (e.0@, e.1@))
}

/// The store that commands run against.
pub struct Backend {
    strings: RespMap,
    hashes: Vec<(String, RespMap)>,
    sets: Vec<(String, RespSet)>,
}

impl View for Backend {
    type V = BackendView;

    closed spec fn view(&self) -> BackendView {
        BackendView {
            strings: self.strings@,
            hashes: hashes_view(self.hashes@),
            sets: sets_view(self.sets@),
        }
    }
}

impl Backend {
    pub fn new() -> (r: Backend)
        ensures
            r@.strings == Seq::<(Seq<char>, FrameView)>::empty(),
            r@.hashes == Seq::<(Seq<char>, Seq<(Seq<char>, FrameView)>)>::empty(),
            r@.sets == Seq::<(Seq<char>, Seq<FrameView>)>::empty(),
            store_sorted(r@),
    {
        let r = Backend { strings: RespMap::new(), hashes: Vec::new(), sets: Vec::new() };
        assert(hashes_view(r.hashes@) =~= Seq::<(Seq<char>, Seq<(Seq<char>, FrameView)>)>::empty());
        assert(sets_view(r.sets@) =~= Seq::<(Seq<char>, Seq<FrameView>)>::empty());
        r
    }

    /// The frame stored under `key`.
    pub fn get(&self, key: &String) -> (r: Option<RespFrame>)
        ensures
            opt_view(r) == map_lookup(self@.strings, key@),
    {
        match self.strings.get(key) {
            Some(v) => Some(copy_frame(v)),
            None => None,
        }
    }

    /// Stores `value` under `key`, replacing what was there.
    pub fn set(&mut self, key: String, value: RespFrame)
        ensures
            final(self)@.strings == map_insert(old(self)@.strings, key@, value@),
            final(self)@.hashes == old(self)@.hashes,
            final(self)@.sets == old(self)@.sets,
            store_sorted(old(self)@) ==> store_sorted(final(self)@),
    {
        let ghost before = self@;
        self.strings.insert(key, value);
        proof {
            if store_sorted(before) {
                assert(entries_sorted(self@.strings));
                assert(self@.hashes == before.hashes);
                assert(self@.sets == before.sets);
            }
        }
    }

    /// The value of `field` in the hash under `key`.
    pub fn hget(&self, key: &String, field: &String) -> (r: Option<RespFrame>)
        ensures
            opt_view(r) == match assoc(self@.hashes, key@) {
                Some(h) => map_lookup(h, field@),
                None => None,
            },
    {
        match find_key(&self.hashes, key) {
            Some(i) => {
                proof {
                    lemma_assoc_found(hashes_view(self.hashes@), key@, seq![], i as int);
                }
                match self.hashes[i].1.get(field) {
                    Some(v) => Some(copy_frame(v)),
                    None => None,
                }
            },
            None => {
                proof {
                    lemma_assoc_absent(hashes_view(self.hashes@), key@, seq![]);
                }
                None
            },
        }
    }

    /// Sets `field` of the hash under `key` to `value`, creating the hash if needed.
    pub fn hset(&mut self, key: String, field: String, value: RespFrame)
        ensures
            final(self)@.hashes == assoc_put(
                old(self)@.hashes,
                key@,
                map_insert(hash_or_empty(old(self)@, key@), field@, value@),
            ),
            final(self)@.strings == old(self)@.strings,
            final(self)@.sets == old(self)@.sets,
            store_sorted(old(self)@) ==> store_sorted(final(self)@),
    {
        let ghost before = self@;
        let ghost (kv, fv, vv) = (key@, field@, value@);
        match find_key(&self.hashes, &key) {
            Some(i) => {
                let ghost t = self.hashes@;
                let (k, mut m) = self.hashes.remove(i);
                m.insert(field, value);
                self.hashes.insert(i, (k, m));
                proof {
                    lemma_assoc_found(hashes_view(t), key@, m@, i as int);
                    assert(self.hashes@ =~= t.update(i as int, (k, m)));
                    assert(hashes_view(self.hashes@) =~= hashes_view(t).update(
                        i as int,
                        (key@, m@),
                    ));
                }
            },
            None => {
                let ghost t = self.hashes@;
                let mut m = RespMap::new();
                m.insert(field, value);
                proof {
                    lemma_assoc_absent(hashes_view(t), key@, m@);
                }
                self.hashes.push((key, m));
                assert(hashes_view(self.hashes@) =~= hashes_view(t).push((key@, m@)));
            },
        }
        proof {
            if store_sorted(before) {
                let p = |h: Seq<(Seq<char>, FrameView)>| entries_sorted(h);
                lemma_assoc_keeps(before.hashes, kv, Seq::<(Seq<char>, FrameView)>::empty(), p);
                let h = hash_or_empty(before, kv);
                assert(p(h));
                crate::ordering::lemma_map_insert_sorted(h, fv, vv);
                lemma_assoc_keeps(before.hashes, kv, map_insert(h, fv, vv), p);
                let a = self@.hashes;
                assert forall|i: int| 0 <= i < a.len() implies entries_sorted(
                    (#[trigger] a[i]).1,
                ) by {
                    assert(p(a[i].1));
                }
            }
        }
    }

    /// A copy of the hash under `key`.
    pub fn hgetall(&self, key: &String) -> (r: Option<RespMap>)
        ensures
            match r {
                Some(m) => assoc(self@.hashes, key@) == Some(m@),
                None => assoc(self@.hashes, key@) is None,
            },
    {
        match find_key(&self.hashes, key) {
            Some(i) => {
                proof {
                    lemma_assoc_found(hashes_view(self.hashes@), key@, seq![], i as int);
                }
                Some(self.hashes[i].1.copy())
            },
            None => {
                proof {
                    lemma_assoc_absent(hashes_view(self.hashes@), key@, seq![]);
                }
                None
            },
        }
    }

    /// Adds each of `members` to the set under `key`, creating the set if needed.
    pub fn sadd(&mut self, key: String, members: &Vec<RespFrame>)
        ensures
            final(self)@.sets == assoc_put(
                old(self)@.sets,
                key@,
                set_add_all(set_or_empty(old(self)@, key@), frames_view(members@)),
            ),
            final(self)@.strings == old(self)@.strings,
            final(self)@.hashes == old(self)@.hashes,
            store_sorted(old(self)@) ==> store_sorted(final(self)@),
    {
        let ghost before = self@;
        let ghost kv = key@;
        let ghost t = self.sets@;
        let found = find_key(&self.sets, &key);
        let (k, mut s) = match found {
            Some(i) => self.sets.remove(i),
            None => (key, RespSet::new()),
        };
        let ghost start = s@;
        proof {
            match found {
                Some(i) => lemma_assoc_found(sets_view(t), k@, seq![], i as int),
                None => lemma_assoc_absent(sets_view(t), k@, seq![]),
            }
            lemma_frames_view(members@);
            assert(frames_view(members@).subrange(0, 0) =~= Seq::<FrameView>::empty());
        }
        let mut j: usize = 0;
        while j < members.len()
            invariant
                j <= members.len(),
                frames_view(members@).len() == members.len(),
                forall|q: int|
                    0 <= q < members.len() ==> #[trigger] frames_view(members@)[q] == members@[q]@,
                s@ == set_add_all(start, frames_view(members@).subrange(0, j as int)),
            decreases members.len() - j,
        {
            proof {
                assert(frames_view(members@).subrange(0, j + 1).drop_last() =~= frames_view(
                    members@,
                ).subrange(0, j as int));
            }
            s.insert(copy_frame(&members[j]));
            j += 1;
        }
        proof {
            assert(frames_view(members@).subrange(0, members.len() as int) =~= frames_view(
                members@,
            ));
        }
        match found {
            Some(i) => {
                self.sets.insert(i, (k, s));
                proof {
                    lemma_assoc_found(sets_view(t), k@, s@, i as int);
                    assert(self.sets@ =~= t.update(i as int, (k, s)));
                    assert(sets_view(self.sets@) =~= sets_view(t).update(i as int, (k@, s@)));
                }
            },
            None => {
                proof {
                    lemma_assoc_absent(sets_view(t), k@, s@);
                }
                self.sets.push((k, s));
                assert(sets_view(self.sets@) =~= sets_view(t).push((k@, s@)));
            },
        }
        proof {
            if store_sorted(before) {
                let p = |x: Seq<FrameView>| frames_sorted(x);
                lemma_assoc_keeps(before.sets, kv, Seq::<FrameView>::empty(), p);
                let s0 = set_or_empty(before, kv);
                assert(p(s0));
                lemma_add_all_keeps_sorted(s0, frames_view(members@));
                lemma_assoc_keeps(before.sets, kv, set_add_all(s0, frames_view(members@)), p);
                let a = self@.sets;
                assert forall|i: int| 0 <= i < a.len() implies frames_sorted((#[trigger] a[i]).1) by {
                    assert(p(a[i].1));
                }
            }
        }
    }

    /// Whether `member` is in the set under `key`.
    pub fn sismember(&self, key: &String, member: &RespFrame) -> (r: bool)
        ensures
            r == match assoc(self@.sets, key@) {
                Some(s) => s.contains(member@),
                None => false,
            },
    {
        match find_key(&self.sets, key) {
            Some(i) => {
                proof {
                    lemma_assoc_found(sets_view(self.sets@), key@, seq![], i as int);
                }
                self.sets[i].1.contains(member)
            },
            None => {
                proof {
                    lemma_assoc_absent(sets_view(self.sets@), key@, seq![]);
                }
                false
            },
        }
    }
}

} // verus!
