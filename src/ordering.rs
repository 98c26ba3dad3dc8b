//! The order on frames is a strict total order; sets built by insertion are canonical.
use crate::backend::set_add_all;
use crate::containers::{entries_sorted, frames_sorted};
use crate::model::{
    bytes_lt, encode_frame, entries_lt, frame_lt, items_lt, map_insert, map_lookup, set_insert,
    tag_rank, text_lt, FrameView,
};
use vstd::prelude::*;
use vstd::utf8::{encode_utf8, encode_utf8_decode_utf8};

verus! {

pub proof fn lemma_bytes_irreflexive(a: Seq<u8>)
    ensures
        !bytes_lt(a, a),
    decreases a.len(),
{
    if a.len() > 0 {
        lemma_bytes_irreflexive(a.drop_first());
    }
}

pub proof fn lemma_bytes_transitive(a: Seq<u8>, b: Seq<u8>, c: Seq<u8>)
    requires
        bytes_lt(a, b),
        bytes_lt(b, c),
    ensures
        bytes_lt(a, c),
    decreases a.len(),
{
    if a.len() > 0 && b.len() > 0 && c.len() > 0 && a[0] == b[0] && b[0] == c[0] {
        lemma_bytes_transitive(a.drop_first(), b.drop_first(), c.drop_first());
    }
}

pub proof fn lemma_bytes_total(a: Seq<u8>, b: Seq<u8>)
    requires
        a != b,
    ensures
        bytes_lt(a, b) || bytes_lt(b, a),
    decreases a.len(),
{
    if a.len() == 0 && b.len() == 0 {
        assert(a =~= b);
    } else if a.len() > 0 && b.len() > 0 && a[0] == b[0] {
        if a.drop_first() == b.drop_first() {
            assert(a =~= seq![a[0]] + a.drop_first());
            assert(b =~= seq![b[0]] + b.drop_first());
        }
        lemma_bytes_total(a.drop_first(), b.drop_first());
    }
}

pub proof fn lemma_text_total(a: Seq<char>, b: Seq<char>)
    requires
        a != b,
    ensures
        text_lt(a, b) || text_lt(b, a),
{
    encode_utf8_decode_utf8(a);
    encode_utf8_decode_utf8(b);
    lemma_bytes_total(encode_utf8(a), encode_utf8(b));
}

pub proof fn lemma_items_irreflexive(a: Seq<FrameView>)
    ensures
        !items_lt(a, a),
    decreases a.len(),
{
    if a.len() > 0 {
        lemma_items_irreflexive(a.subrange(1, a.len() as int));
    }
}

pub proof fn lemma_entries_irreflexive(a: Seq<(Seq<char>, FrameView)>)
    ensures
        !entries_lt(a, a),
    decreases a.len(),
{
    if a.len() > 0 {
        lemma_entries_irreflexive(a.subrange(1, a.len() as int));
    }
}

/// No frame comes before itself.
pub proof fn lemma_frame_irreflexive(a: FrameView)
    ensures
        !frame_lt(a, a),
{
    match a {
        FrameView::Simple(x) => lemma_bytes_irreflexive(encode_utf8(x)),
        FrameView::Error(x) => lemma_bytes_irreflexive(encode_utf8(x)),
        FrameView::Bulk(x) => lemma_bytes_irreflexive(x),
        FrameView::BulkError(x) => lemma_bytes_irreflexive(x),
        FrameView::Double(x) => lemma_bytes_irreflexive(encode_utf8(x)),
        FrameView::Array(x) => lemma_items_irreflexive(x),
        FrameView::MapOf(x) => lemma_entries_irreflexive(x),
        FrameView::SetOf(x) => lemma_items_irreflexive(x),
        _ => {},
    }
}

/// The order on frames is transitive.
pub proof fn lemma_frame_transitive(a: FrameView, b: FrameView, c: FrameView)
    requires
        frame_lt(a, b),
        frame_lt(b, c),
    ensures
        frame_lt(a, c),
    decreases a, 1int,
{
    if tag_rank(a) == tag_rank(b) && tag_rank(b) == tag_rank(c) {
        match a {
            FrameView::Simple(x) => lemma_bytes_transitive(
                encode_utf8(x),
                encode_utf8(b->Simple_0),
                encode_utf8(c->Simple_0),
            ),
            FrameView::Error(x) => lemma_bytes_transitive(
                encode_utf8(x),
                encode_utf8(b->Error_0),
                encode_utf8(c->Error_0),
            ),
            FrameView::Bulk(x) => lemma_bytes_transitive(x, b->Bulk_0, c->Bulk_0),
            FrameView::BulkError(x) => lemma_bytes_transitive(x, b->BulkError_0, c->BulkError_0),
            FrameView::Double(x) => lemma_bytes_transitive(
                encode_utf8(x),
                encode_utf8(b->Double_0),
                encode_utf8(c->Double_0),
            ),
            FrameView::Array(x) => lemma_items_transitive(x, b->Array_0, c->Array_0),
            FrameView::SetOf(x) => lemma_items_transitive(x, b->SetOf_0, c->SetOf_0),
            FrameView::MapOf(x) => lemma_entries_transitive(x, b->MapOf_0, c->MapOf_0),
            _ => {},
        }
    }
}

pub proof fn lemma_items_transitive(a: Seq<FrameView>, b: Seq<FrameView>, c: Seq<FrameView>)
    requires
        items_lt(a, b),
        items_lt(b, c),
    ensures
        items_lt(a, c),
    decreases a, 0int,
{
    if a.len() > 0 && b.len() > 0 && c.len() > 0 {
        if a[0] == b[0] && b[0] == c[0] {
            lemma_items_transitive(
                a.subrange(1, a.len() as int),
                b.subrange(1, b.len() as int),
                c.subrange(1, c.len() as int),
            );
        } else if a[0] != b[0] && b[0] != c[0] {
            lemma_frame_transitive(a[0], b[0], c[0]);
            lemma_frame_irreflexive(a[0]);
        }
    }
}

pub proof fn lemma_entries_transitive(
    a: Seq<(Seq<char>, FrameView)>,
    b: Seq<(Seq<char>, FrameView)>,
    c: Seq<(Seq<char>, FrameView)>,
)
    requires
        entries_lt(a, b),
        entries_lt(b, c),
    ensures
        entries_lt(a, c),
    decreases a, 0int,
{
    if a.len() > 0 && b.len() > 0 && c.len() > 0 {
        if a[0] == b[0] && b[0] == c[0] {
            lemma_entries_transitive(
                a.subrange(1, a.len() as int),
                b.subrange(1, b.len() as int),
                c.subrange(1, c.len() as int),
            );
        } else if a[0] != b[0] && b[0] != c[0] {
            let (x, y, z) = (a[0], b[0], c[0]);
            if x.0 != y.0 && y.0 != z.0 {
                lemma_bytes_transitive(encode_utf8(x.0), encode_utf8(y.0), encode_utf8(z.0));
                lemma_bytes_irreflexive(encode_utf8(x.0));
            } else if x.0 == y.0 && y.0 == z.0 {
                lemma_frame_transitive(x.1, y.1, z.1);
                lemma_frame_irreflexive(x.1);
            }
        }
    }
}

/// Two different frames are ordered one way or the other.
pub proof fn lemma_frame_total(a: FrameView, b: FrameView)
    requires
        a != b,
    ensures
        frame_lt(a, b) || frame_lt(b, a),
    decreases a, 1int,
{
    if tag_rank(a) == tag_rank(b) {
        match a {
            FrameView::Simple(x) => lemma_text_total(x, b->Simple_0),
            FrameView::Error(x) => lemma_text_total(x, b->Error_0),
            FrameView::Bulk(x) => lemma_bytes_total(x, b->Bulk_0),
            FrameView::BulkError(x) => lemma_bytes_total(x, b->BulkError_0),
            FrameView::Double(x) => lemma_text_total(x, b->Double_0),
            FrameView::Array(x) => lemma_items_total(x, b->Array_0),
            FrameView::SetOf(x) => lemma_items_total(x, b->SetOf_0),
            FrameView::MapOf(x) => lemma_entries_total(x, b->MapOf_0),
            _ => {},
        }
    }
}

pub proof fn lemma_items_total(a: Seq<FrameView>, b: Seq<FrameView>)
    requires
        a != b,
    ensures
        items_lt(a, b) || items_lt(b, a),
    decreases a, 0int,
{
    if a.len() == 0 && b.len() == 0 {
        assert(a =~= b);
    } else if a.len() > 0 && b.len() > 0 {
        let ra = a.subrange(1, a.len() as int);
        let rb = b.subrange(1, b.len() as int);
        if a[0] == b[0] {
            if ra == rb {
                assert(a =~= seq![a[0]] + ra);
                assert(b =~= seq![b[0]] + rb);
            }
            lemma_items_total(ra, rb);
        } else {
            lemma_frame_total(a[0], b[0]);
        }
    }
}

pub proof fn lemma_entries_total(a: Seq<(Seq<char>, FrameView)>, b: Seq<(Seq<char>, FrameView)>)
    requires
        a != b,
    ensures
        entries_lt(a, b) || entries_lt(b, a),
    decreases a, 0int,
{
    if a.len() == 0 && b.len() == 0 {
        assert(a =~= b);
    } else if a.len() > 0 && b.len() > 0 {
        let ra = a.subrange(1, a.len() as int);
        let rb = b.subrange(1, b.len() as int);
        if a[0] == b[0] {
            if ra == rb {
                assert(a =~= seq![a[0]] + ra);
                assert(b =~= seq![b[0]] + rb);
            }
            lemma_entries_total(ra, rb);
        } else if a[0].0 != b[0].0 {
            lemma_text_total(a[0].0, b[0].0);
        } else {
            lemma_frame_total(a[0].1, b[0].1);
        }
    }
}

proof fn lemma_sorted_tail(s: Seq<FrameView>)
    requires
        frames_sorted(s),
        s.len() > 0,
    ensures
        frames_sorted(s.drop_first()),
{
    let t = s.drop_first();
    assert forall|i: int, j: int| 0 <= i < j < t.len() implies frame_lt(
        #[trigger] t[i],
        #[trigger] t[j],
    ) by {
        assert(t[i] == s[i + 1] && t[j] == s[j + 1]);
    }
}

/// Inserting into an ascending set keeps it ascending, and adds `x` and nothing else.
pub proof fn lemma_set_insert_sorted(s: Seq<FrameView>, x: FrameView)
    requires
        frames_sorted(s),
    ensures
        frames_sorted(set_insert(s, x)),
        forall|y: FrameView| #[trigger] set_insert(s, x).contains(y) <==> (s.contains(y) || y == x),
    decreases s.len(),
{
    let out = set_insert(s, x);
    if s.len() == 0 {
        assert(out =~= seq![x]);
        assert forall|y: FrameView| out.contains(y) <==> (s.contains(y) || y == x) by {
            if y == x {
                assert(out[0] == x);
            }
        }
    } else if frame_lt(s[0], x) {
        let rest = s.drop_first();
        lemma_sorted_tail(s);
        lemma_set_insert_sorted(rest, x);
        let r = set_insert(rest, x);
        assert(out == seq![s[0]] + r);
        assert forall|y: FrameView| out.contains(y) <==> (s.contains(y) || y == x) by {
            if out.contains(y) {
                let i = choose|i: int| 0 <= i < out.len() && out[i] == y;
                if i == 0 {
                    assert(s[0] == y);
                } else {
                    assert(r[i - 1] == y);
                    assert(r.contains(y));
                    if rest.contains(y) {
                        let k = choose|k: int| 0 <= k < rest.len() && rest[k] == y;
                        assert(s[k + 1] == y);
                    }
                }
            }
            if s.contains(y) {
                let k = choose|k: int| 0 <= k < s.len() && s[k] == y;
                if k == 0 {
                    assert(out[0] == y);
                } else {
                    assert(rest[k - 1] == y);
                    assert(rest.contains(y));
                    assert(r.contains(y));
                    let i = choose|i: int| 0 <= i < r.len() && r[i] == y;
                    assert(out[i + 1] == y);
                }
            }
            if y == x {
                assert(r.contains(x));
                let i = choose|i: int| 0 <= i < r.len() && r[i] == x;
                assert(out[i + 1] == x);
            }
        }
        assert forall|i: int, j: int| 0 <= i < j < out.len() implies frame_lt(
            #[trigger] out[i],
            #[trigger] out[j],
        ) by {
            assert(out[j] == r[j - 1]);
            if i == 0 {
                assert(r.contains(r[j - 1]));
                if r[j - 1] != x {
                    let k = choose|k: int| 0 <= k < rest.len() && rest[k] == r[j - 1];
                    assert(s[k + 1] == rest[k]);
                }
            } else {
                assert(out[i] == r[i - 1]);
            }
        }
    } else if s[0] == x {
        assert forall|y: FrameView| out.contains(y) <==> (s.contains(y) || y == x) by {
            if y == x {
                assert(s[0] == x);
            }
        }
    } else {
        lemma_frame_total(s[0], x);
        assert(out == seq![x] + s);
        assert forall|y: FrameView| out.contains(y) <==> (s.contains(y) || y == x) by {
            if out.contains(y) {
                let i = choose|i: int| 0 <= i < out.len() && out[i] == y;
                if i > 0 {
                    assert(s[i - 1] == y);
                }
            }
            if s.contains(y) {
                let k = choose|k: int| 0 <= k < s.len() && s[k] == y;
                assert(out[k + 1] == y);
            }
            if y == x {
                assert(out[0] == x);
            }
        }
        assert forall|i: int, j: int| 0 <= i < j < out.len() implies frame_lt(
            #[trigger] out[i],
            #[trigger] out[j],
        ) by {
            assert(out[j] == s[j - 1]);
            if i == 0 {
                if j > 1 {
                    lemma_frame_transitive(x, s[0], s[j - 1]);
                }
            } else {
                assert(out[i] == s[i - 1]);
            }
        }
    }
}

/// Adding frames one by one to an empty set gives an ascending set of exactly those frames.
pub proof fn lemma_add_all_sorted(xs: Seq<FrameView>)
    ensures
        frames_sorted(set_add_all(seq![], xs)),
        forall|y: FrameView| #[trigger] set_add_all(seq![], xs).contains(y) <==> xs.contains(y),
    decreases xs.len(),
{
    if xs.len() > 0 {
        let init = xs.drop_last();
        lemma_add_all_sorted(init);
        lemma_set_insert_sorted(set_add_all(seq![], init), xs.last());
        assert forall|y: FrameView| #[trigger] set_add_all(seq![], xs).contains(y) <==> xs.contains(
            y,
        ) by {
            if init.contains(y) {
                let k = choose|k: int| 0 <= k < init.len() && init[k] == y;
                assert(xs[k] == y);
            }
            if xs.contains(y) {
                let k = choose|k: int| 0 <= k < xs.len() && xs[k] == y;
                if k < xs.len() - 1 {
                    assert(init[k] == y);
                }
            }
        }
    }
}

/// Two ascending sets with the same frames are the same sequence.
pub proof fn lemma_sorted_unique(s: Seq<FrameView>, t: Seq<FrameView>)
    requires
        frames_sorted(s),
        frames_sorted(t),
        forall|y: FrameView| s.contains(y) <==> t.contains(y),
    ensures
        s == t,
    decreases s.len(),
{
    if s.len() == 0 {
        if t.len() > 0 {
            assert(t.contains(t[0]));
        }
        assert(s =~= t);
    } else {
        assert(s.contains(s[0]));
        assert(t.len() > 0);
        assert(t.contains(t[0]));
        if s[0] != t[0] {
            let j = choose|j: int| 0 <= j < t.len() && t[j] == s[0];
            let i = choose|i: int| 0 <= i < s.len() && s[i] == t[0];
            lemma_frame_irreflexive(s[0]);
            lemma_frame_transitive(s[0], t[0], s[0]);
        }
        let s1 = s.drop_first();
        let t1 = t.drop_first();
        lemma_sorted_tail(s);
        lemma_sorted_tail(t);
        lemma_frame_irreflexive(s[0]);
        assert forall|y: FrameView| s1.contains(y) <==> t1.contains(y) by {
            if s1.contains(y) {
                let k = choose|k: int| 0 <= k < s1.len() && s1[k] == y;
                assert(s[k + 1] == y);
                assert(frame_lt(s[0], s[k + 1]));
                assert(t.contains(y));
                let m = choose|m: int| 0 <= m < t.len() && t[m] == y;
                assert(m != 0);
                assert(t1[m - 1] == y);
            }
            if t1.contains(y) {
                let k = choose|k: int| 0 <= k < t1.len() && t1[k] == y;
                assert(t[k + 1] == y);
                assert(frame_lt(t[0], t[k + 1]));
                assert(s.contains(y));
                let m = choose|m: int| 0 <= m < s.len() && s[m] == y;
                assert(m != 0);
                assert(s1[m - 1] == y);
            }
        }
        lemma_sorted_unique(s1, t1);
        assert(s =~= seq![s[0]] + s1);
        assert(t =~= seq![t[0]] + t1);
    }
}

/// Sets built from the same frames, whatever the order of insertion and the repeats, are
/// the same set and have the same encoding.
pub proof fn law_set_canonical(xs: Seq<FrameView>, ys: Seq<FrameView>)
    requires
        forall|y: FrameView| xs.contains(y) <==> ys.contains(y),
    ensures
        set_add_all(seq![], xs) == set_add_all(seq![], ys),
        encode_frame(FrameView::SetOf(set_add_all(seq![], xs))) == encode_frame(
            FrameView::SetOf(set_add_all(seq![], ys)),
        ),
{
    lemma_add_all_sorted(xs);
    lemma_add_all_sorted(ys);
    lemma_sorted_unique(set_add_all(seq![], xs), set_add_all(seq![], ys));
}

pub open spec fn has_key(m: Seq<(Seq<char>, FrameView)>, q: Seq<char>) -> bool {
    exists|j: int| 0 <= j < m.len() && (#[trigger] m[j]).0 == q
}

proof fn lemma_entries_sorted_tail(m: Seq<(Seq<char>, FrameView)>)
    requires
        entries_sorted(m),
        m.len() > 0,
    ensures
        entries_sorted(m.drop_first()),
{
    let t = m.drop_first();
    assert forall|i: int, j: int| 0 <= i < j < t.len() implies text_lt(
        (#[trigger] t[i]).0,
        (#[trigger] t[j]).0,
    ) by {
        assert(t[i] == m[i + 1] && t[j] == m[j + 1]);
    }
}

/// Inserting into a map kept in key order keeps it so; afterwards `k` finds `v` and every
/// other key finds what it found before.
pub proof fn lemma_map_insert_sorted(m: Seq<(Seq<char>, FrameView)>, k: Seq<char>, v: FrameView)
    requires
        entries_sorted(m),
    ensures
        entries_sorted(map_insert(m, k, v)),
        forall|q: Seq<char>| #[trigger]
            has_key(map_insert(m, k, v), q) <==> (has_key(m, q) || q == k),
        forall|q: Seq<char>| #[trigger]
            map_lookup(map_insert(m, k, v), q) == if q == k {
                Some(v)
            } else {
                map_lookup(m, q)
            },
    decreases m.len(),
{
    let out = map_insert(m, k, v);
    if m.len() == 0 {
        assert(out =~= seq![(k, v)]);
        assert(out.drop_first() =~= Seq::<(Seq<char>, FrameView)>::empty());
        assert forall|q: Seq<char>| #[trigger] map_lookup(out, q) == if q == k {
            Some(v)
        } else {
            map_lookup(m, q)
        } by {
            assert(out[0] == (k, v));
            assert(map_lookup(out.drop_first(), q) is None);
        }
        assert forall|q: Seq<char>| #[trigger] has_key(out, q) <==> (has_key(m, q) || q == k) by {
            if q == k {
                assert(out[0].0 == k);
            }
        }
    } else if text_lt(m[0].0, k) {
        let rest = m.drop_first();
        lemma_entries_sorted_tail(m);
        lemma_map_insert_sorted(rest, k, v);
        let r = map_insert(rest, k, v);
        assert(out == seq![m[0]] + r);
        assert(out.drop_first() =~= r);
        lemma_bytes_irreflexive(encode_utf8(k));
        assert forall|q: Seq<char>| #[trigger] map_lookup(out, q) == if q == k {
            Some(v)
        } else {
            map_lookup(m, q)
        } by {
            assert(out[0] == m[0]);
            assert(map_lookup(out, q) == if out[0].0 == q {
                Some(out[0].1)
            } else {
                map_lookup(out.drop_first(), q)
            });
            assert(map_lookup(m, q) == if m[0].0 == q {
                Some(m[0].1)
            } else {
                map_lookup(rest, q)
            });
            assert(map_lookup(r, q) == if q == k {
                Some(v)
            } else {
                map_lookup(rest, q)
            });
        }
        assert forall|q: Seq<char>| #[trigger] has_key(out, q) <==> (has_key(m, q) || q == k) by {
            if has_key(out, q) {
                let i = choose|i: int| 0 <= i < out.len() && (#[trigger] out[i]).0 == q;
                if i > 0 {
                    assert(r[i - 1] == out[i]);
                    assert(has_key(r, q));
                    if has_key(rest, q) {
                        let j = choose|j: int| 0 <= j < rest.len() && (#[trigger] rest[j]).0 == q;
                        assert(m[j + 1] == rest[j]);
                    }
                } else {
                    assert(m[0] == out[0]);
                }
            }
            if has_key(m, q) {
                let j = choose|j: int| 0 <= j < m.len() && (#[trigger] m[j]).0 == q;
                if j == 0 {
                    assert(out[0] == m[0]);
                } else {
                    assert(rest[j - 1] == m[j]);
                    assert(has_key(rest, q));
                    assert(has_key(r, q));
                    let i = choose|i: int| 0 <= i < r.len() && (#[trigger] r[i]).0 == q;
                    assert(out[i + 1] == r[i]);
                }
            }
            if q == k {
                assert(has_key(r, k));
                let i = choose|i: int| 0 <= i < r.len() && (#[trigger] r[i]).0 == k;
                assert(out[i + 1] == r[i]);
            }
        }
        assert forall|i: int, j: int| 0 <= i < j < out.len() implies text_lt(
            (#[trigger] out[i]).0,
            (#[trigger] out[j]).0,
        ) by {
            assert(out[j] == r[j - 1]);
            if i == 0 {
                assert(has_key(r, r[j - 1].0));
                if r[j - 1].0 != k {
                    let q = r[j - 1].0;
                    let l = choose|l: int| 0 <= l < rest.len() && (#[trigger] rest[l]).0 == q;
                    assert(m[l + 1] == rest[l]);
                }
            } else {
                assert(out[i] == r[i - 1]);
            }
        }
    } else if m[0].0 == k {
        assert(out =~= seq![(k, v)] + m.drop_first());
        assert(out.drop_first() =~= m.drop_first());
        assert forall|q: Seq<char>| #[trigger] map_lookup(out, q) == if q == k {
            Some(v)
        } else {
            map_lookup(m, q)
        } by {
            assert(out[0] == (k, v));
        }
        assert forall|q: Seq<char>| #[trigger] has_key(out, q) <==> (has_key(m, q) || q == k) by {
            if has_key(out, q) {
                let i = choose|i: int| 0 <= i < out.len() && (#[trigger] out[i]).0 == q;
                assert(out[i].0 == m[i].0);
            }
            if has_key(m, q) {
                let j = choose|j: int| 0 <= j < m.len() && (#[trigger] m[j]).0 == q;
                assert(out[j].0 == m[j].0);
            }
            if q == k {
                assert(out[0].0 == k);
            }
        }
        assert forall|i: int, j: int| 0 <= i < j < out.len() implies text_lt(
            (#[trigger] out[i]).0,
            (#[trigger] out[j]).0,
        ) by {
            assert(out[i].0 == m[i].0 && out[j].0 == m[j].0);
        }
    } else {
        lemma_text_total(m[0].0, k);
        assert(out == seq![(k, v)] + m);
        assert(out.drop_first() =~= m);
        assert forall|q: Seq<char>| #[trigger] map_lookup(out, q) == if q == k {
            Some(v)
        } else {
            map_lookup(m, q)
        } by {
            assert(out[0] == (k, v));
        }
        assert forall|q: Seq<char>| #[trigger] has_key(out, q) <==> (has_key(m, q) || q == k) by {
            if has_key(out, q) {
                let i = choose|i: int| 0 <= i < out.len() && (#[trigger] out[i]).0 == q;
                if i > 0 {
                    assert(m[i - 1] == out[i]);
                }
            }
            if has_key(m, q) {
                let j = choose|j: int| 0 <= j < m.len() && (#[trigger] m[j]).0 == q;
                assert(out[j + 1] == m[j]);
            }
            if q == k {
                assert(out[0].0 == k);
            }
        }
        assert forall|i: int, j: int| 0 <= i < j < out.len() implies text_lt(
            (#[trigger] out[i]).0,
            (#[trigger] out[j]).0,
        ) by {
            assert(out[j] == m[j - 1]);
            if i == 0 {
                if j > 1 {
                    lemma_bytes_transitive(encode_utf8(k), encode_utf8(m[0].0), encode_utf8(m[j - 1].0));
                }
            } else {
                assert(out[i] == m[i - 1]);
            }
        }
    }
}

/// Adding frames one by one to an ascending set keeps it ascending.
pub proof fn lemma_add_all_keeps_sorted(s: Seq<FrameView>, xs: Seq<FrameView>)
    requires
        frames_sorted(s),
    ensures
        frames_sorted(set_add_all(s, xs)),
    decreases xs.len(),
{
    if xs.len() > 0 {
        lemma_add_all_keeps_sorted(s, xs.drop_last());
        lemma_set_insert_sorted(set_add_all(s, xs.drop_last()), xs.last());
    }
}

} // verus!
