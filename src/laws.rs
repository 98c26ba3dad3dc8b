//! What holds of encoding and decoding together.
use crate::containers::{entries_sorted, frames_sorted};
use crate::model::{
    all_digits, crlf, decode_spec, digits, digits_value, encode_entries, encode_frame,
    encode_items, first_crlf, frame_end, frame_lt, header, is_digit, is_double_text,
    is_minus_one, items_end, line, map_insert, no_cr_lf, parse_count, parse_entries, parse_frame,
    parse_int, parse_items, set_insert, signed_text, text_lt, Fault, FrameView,
};
use vstd::prelude::*;
use vstd::utf8::{
    decode_utf8, encode_utf8, encode_utf8_decode_utf8, encode_utf8_valid_utf8, valid_utf8,
};

verus! {

/// No `\r\n` inside `s`.
pub open spec fn no_crlf_pair(s: Seq<u8>) -> bool {
    forall|k: int| 0 <= k < s.len() - 1 ==> !((#[trigger] s[k]) == 13 && s[k + 1] == 10)
}

/// A frame whose encoding decodes back to it: text without CR or LF, bulk payloads without
/// `\r\n` (their end is found by the next `\r\n`), doubles in the double grammar, maps and
/// sets in ascending order, and counts that fit in `usize`.
pub open spec fn wire_safe(f: FrameView) -> bool
    decreases f,
{
    match f {
        FrameView::Simple(s) => no_cr_lf(encode_utf8(s)),
        FrameView::Error(s) => no_cr_lf(encode_utf8(s)),
        FrameView::Integer(n) => i64::MIN <= n <= i64::MAX,
        FrameView::Bulk(d) => d.len() <= usize::MAX && no_crlf_pair(d),
        FrameView::BulkError(d) => d.len() <= usize::MAX && no_crlf_pair(d),
        FrameView::Double(t) => is_double_text(encode_utf8(t)) && no_cr_lf(encode_utf8(t)),
        FrameView::Array(items) => items.len() <= usize::MAX && forall|k: int|
            0 <= k < items.len() ==> wire_safe(#[trigger] items[k]),
        FrameView::MapOf(es) => es.len() <= usize::MAX && entries_sorted(es) && forall|k: int|
            0 <= k < es.len() ==> no_cr_lf(encode_utf8((#[trigger] es[k]).0)) && wire_safe(
                es[k].1,
            ),
        FrameView::SetOf(items) => items.len() <= usize::MAX && frames_sorted(items) && forall|
            k: int,
        |
            0 <= k < items.len() ==> wire_safe(#[trigger] items[k]),
        _ => true,
    }
}

/// `b` holds `s` from position `i`.
pub open spec fn holds_at(b: Seq<u8>, i: int, s: Seq<u8>) -> bool {
    0 <= i && i + s.len() <= b.len() && forall|k: int| 0 <= k < s.len() ==> b[i + k] == #[trigger] s[k]
}

/// `b` ends inside `s` placed at `i`: all of `b` from `i` is a strict prefix of `s`.
pub open spec fn cut_at(b: Seq<u8>, i: int, s: Seq<u8>) -> bool {
    0 <= i <= b.len() < i + s.len() && forall|k: int| 0 <= k < b.len() - i ==> b[i + k] == #[trigger] s[k]
}

proof fn lemma_holds_split(b: Seq<u8>, i: int, s: Seq<u8>, t: Seq<u8>)
    requires
        holds_at(b, i, s + t),
    ensures
        holds_at(b, i, s),
        holds_at(b, i + s.len(), t),
{
    assert forall|k: int| 0 <= k < s.len() implies b[i + k] == #[trigger] s[k] by {
        assert((s + t)[k] == s[k]);
    }
    assert forall|k: int| 0 <= k < t.len() implies b[i + s.len() + k] == #[trigger] t[k] by {
        assert((s + t)[s.len() + k] == t[k]);
    }
}

proof fn lemma_cut_split(b: Seq<u8>, i: int, s: Seq<u8>, t: Seq<u8>)
    requires
        cut_at(b, i, s + t),
    ensures
        b.len() < i + s.len() ==> cut_at(b, i, s),
        b.len() >= i + s.len() ==> holds_at(b, i, s) && cut_at(b, i + s.len(), t),
{
    assert forall|k: int| 0 <= k < s.len() && k < b.len() - i implies b[i + k] == #[trigger] s[k] by {
        assert((s + t)[k] == s[k]);
    }
    assert forall|k: int| 0 <= k < t.len() && k < b.len() - i - s.len() implies b[i + s.len() + k]
        == #[trigger] t[k] by {
        assert((s + t)[s.len() + k] == t[k]);
    }
}

proof fn lemma_first_crlf_is(b: Seq<u8>, from: int, j: int)
    requires
        0 <= from <= j,
        j + 1 < b.len(),
        b[j] == 13 && b[j + 1] == 10,
        forall|k: int| from <= k < j ==> !((#[trigger] b[k]) == 13 && b[k + 1] == 10),
    ensures
        first_crlf(b, from) == Some(j),
    decreases j - from,
{
    if from < j {
        lemma_first_crlf_is(b, from + 1, j);
    }
}

proof fn lemma_first_crlf_none(b: Seq<u8>, from: int)
    requires
        0 <= from,
        forall|k: int| from <= k < b.len() - 1 ==> !((#[trigger] b[k]) == 13 && b[k + 1] == 10),
    ensures
        first_crlf(b, from) is None,
    decreases b.len() - from,
{
    if from + 1 < b.len() {
        lemma_first_crlf_none(b, from + 1);
    }
}

proof fn lemma_line_index(tag: u8, text: Seq<u8>)
    ensures
        line(tag, text).len() == text.len() + 3,
        line(tag, text)[0] == tag,
        forall|k: int| 0 <= k < text.len() ==> line(tag, text)[1 + k] == #[trigger] text[k],
        line(tag, text)[text.len() + 1int] == 13,
        line(tag, text)[text.len() + 2int] == 10,
{
    let l = line(tag, text);
    assert(l =~= seq![tag] + text + seq![13u8, 10u8]);
    assert forall|k: int| 0 <= k < text.len() implies l[1 + k] == #[trigger] text[k] by {
        assert((seq![tag] + text)[1 + k] == text[k]);
    }
}

/// A whole line at `i`: its tag, where its `\r\n` is, and its text.
proof fn lemma_line_found(b: Seq<u8>, i: int, tag: u8, text: Seq<u8>)
    requires
        holds_at(b, i, line(tag, text)),
        no_cr_lf(text),
    ensures
        b[i] == tag,
        first_crlf(b, i + 1) == Some(i + 1 + text.len()),
        b.subrange(i + 1, i + 1 + text.len()) == text,
{
    lemma_line_index(tag, text);
    let l = line(tag, text);
    assert(b[i + 0] == l[0]);
    assert(b[i + (text.len() + 1)] == l[text.len() + 1int]);
    assert(b[i + (text.len() + 2)] == l[text.len() + 2int]);
    assert forall|k: int| i + 1 <= k < i + 1 + text.len() implies !((#[trigger] b[k]) == 13 && b[k
        + 1] == 10) by {
        assert(b[i + (1 + (k - i - 1))] == l[1 + (k - i - 1)]);
        assert(text[k - i - 1] != 13);
    }
    lemma_first_crlf_is(b, i + 1, i + 1 + text.len());
    assert forall|k: int| 0 <= k < text.len() implies b.subrange(i + 1, i + 1 + text.len())[k]
        == text[k] by {
        assert(b[i + (1 + k)] == l[1 + k]);
    }
    assert(b.subrange(i + 1, i + 1 + text.len()) =~= text);
}

/// A line cut short at `i`: no `\r\n` after its tag.
proof fn lemma_line_cut(b: Seq<u8>, i: int, tag: u8, text: Seq<u8>)
    requires
        cut_at(b, i, line(tag, text)),
        b.len() > i,
        no_cr_lf(text),
    ensures
        b[i] == tag,
        first_crlf(b, i + 1) is None,
{
    lemma_line_index(tag, text);
    let l = line(tag, text);
    assert(b[i + 0] == l[0]);
    assert forall|k: int| i + 1 <= k < b.len() - 1 implies !((#[trigger] b[k]) == 13 && b[k + 1]
        == 10) by {
        let m = k + 1 - i;
        assert(b[i + m] == l[m]);
        if m - 1 < text.len() {
            assert(l[1 + (m - 1)] == text[m - 1]);
        }
    }
    lemma_first_crlf_none(b, i + 1);
}

/// A bulk payload and its `\r\n` at `j`.
proof fn lemma_payload_found(b: Seq<u8>, j: int, d: Seq<u8>)
    requires
        holds_at(b, j, d + crlf()),
        no_crlf_pair(d),
    ensures
        first_crlf(b, j) == Some(j + d.len()),
        b.subrange(j, j + d.len()) == d,
{
    let s = d + crlf();
    assert(s[d.len() as int] == 13 && s[d.len() + 1int] == 10);
    assert(b[j + d.len()] == s[d.len() as int]);
    assert(b[j + (d.len() + 1)] == s[d.len() + 1int]);
    assert forall|k: int| j <= k < j + d.len() implies !((#[trigger] b[k]) == 13 && b[k + 1] == 10) by {
        assert(b[j + (k - j)] == s[k - j]);
        assert(b[j + (k + 1 - j)] == s[k + 1 - j]);
        if k + 1 - j < d.len() {
            assert(d[k - j] == s[k - j] && d[k + 1 - j] == s[k + 1 - j]);
        }
    }
    lemma_first_crlf_is(b, j, j + d.len());
    assert forall|k: int| 0 <= k < d.len() implies b.subrange(j, j + d.len())[k] == d[k] by {
        assert(b[j + k] == s[k]);
    }
    assert(b.subrange(j, j + d.len()) =~= d);
}

proof fn lemma_payload_cut(b: Seq<u8>, j: int, d: Seq<u8>)
    requires
        cut_at(b, j, d + crlf()),
        no_crlf_pair(d),
    ensures
        first_crlf(b, j) is None,
{
    let s = d + crlf();
    assert(s[d.len() as int] == 13);
    assert forall|k: int| j <= k < b.len() - 1 implies !((#[trigger] b[k]) == 13 && b[k + 1] == 10) by {
        assert(b[j + (k - j)] == s[k - j]);
        assert(b[j + (k + 1 - j)] == s[k + 1 - j]);
        if k + 1 - j < d.len() {
            assert(d[k - j] == s[k - j] && d[k + 1 - j] == s[k + 1 - j]);
        }
    }
    lemma_first_crlf_none(b, j);
}

/// What the digits of `n` read back as.
pub proof fn lemma_digits(n: nat)
    ensures
        digits(n).len() >= 1,
        all_digits(digits(n)),
        no_cr_lf(digits(n)),
        digits_value(digits(n)) == n,
    decreases n,
{
    let d = digits(n);
    if n >= 10 {
        lemma_digits(n / 10);
        assert(d.drop_last() =~= digits(n / 10));
        assert(d.last() == (48 + n % 10) as u8);
        assert forall|k: int| 0 <= k < d.len() implies is_digit(#[trigger] d[k]) by {
            if k < d.len() - 1 {
                assert(d[k] == digits(n / 10)[k]);
            }
        }
        vstd::arithmetic::div_mod::lemma_fundamental_div_mod(n as int, 10);
        assert(digits_value(d) == digits_value(d.drop_last()) * 10 + (d.last() - 48) as nat);
    } else {
        assert(d.drop_last() =~= Seq::<u8>::empty());
        assert(digits_value(d) == digits_value(d.drop_last()) * 10 + (d.last() - 48) as nat);
    }
}

proof fn lemma_count_text(n: nat)
    requires
        n <= usize::MAX,
    ensures
        parse_count(digits(n)) == Some(n),
        !is_minus_one(digits(n)),
        no_cr_lf(digits(n)),
{
    lemma_digits(n);
    let d = digits(n);
    assert(is_digit(d[0]));
    if is_minus_one(d) {
        assert(d[0] == seq![45u8, 49u8][0]);
    }
}

proof fn lemma_signed_text(n: int)
    requires
        i64::MIN <= n <= i64::MAX,
    ensures
        parse_int(signed_text(n)) == Some(n),
        no_cr_lf(signed_text(n)),
{
    let m: nat = if n < 0 { (-n) as nat } else { n as nat };
    lemma_digits(m);
    let s = signed_text(n);
    assert(s.subrange(1, s.len() as int) =~= digits(m));
    assert forall|k: int| 0 <= k < s.len() implies (#[trigger] s[k]) != 13 && s[k] != 10 by {
        if k > 0 {
            assert(s[k] == digits(m)[k - 1]);
        }
    }
}

proof fn lemma_text_round_trip(s: Seq<char>)
    ensures
        valid_utf8(encode_utf8(s)),
        decode_utf8(encode_utf8(s)) == s,
{
    encode_utf8_valid_utf8(s);
    encode_utf8_decode_utf8(s);
}

pub proof fn lemma_encode_items_cons(x: FrameView, rest: Seq<FrameView>)
    ensures
        encode_items(seq![x] + rest) == encode_frame(x) + encode_items(rest),
    decreases rest.len(),
{
    let all = seq![x] + rest;
    if rest.len() > 0 {
        lemma_encode_items_cons(x, rest.drop_last());
        assert(all.drop_last() =~= seq![x] + rest.drop_last());
        assert(all.last() == rest.last());
        assert(encode_items(all) == encode_items(all.drop_last()) + encode_frame(all.last()));
        assert(encode_items(rest) == encode_items(rest.drop_last()) + encode_frame(rest.last()));
    } else {
        assert(all.drop_last() =~= Seq::<FrameView>::empty());
        assert(all.last() == x);
        assert(encode_items(all) == encode_items(all.drop_last()) + encode_frame(all.last()));
        assert(rest =~= Seq::<FrameView>::empty());
    }
    assert(encode_items(all) =~= encode_frame(x) + encode_items(rest));
}

pub proof fn lemma_encode_entries_cons(e: (Seq<char>, FrameView), rest: Seq<(Seq<char>, FrameView)>)
    ensures
        encode_entries(seq![e] + rest) == line(43u8, encode_utf8(e.0)) + encode_frame(e.1)
            + encode_entries(rest),
    decreases rest.len(),
{
    let all = seq![e] + rest;
    if rest.len() > 0 {
        lemma_encode_entries_cons(e, rest.drop_last());
        assert(all.drop_last() =~= seq![e] + rest.drop_last());
        assert(all.last() == rest.last());
        assert(encode_entries(all) == encode_entries(all.drop_last()) + line(
            43u8,
            encode_utf8(all.last().0),
        ) + encode_frame(all.last().1));
        assert(encode_entries(rest) == encode_entries(rest.drop_last()) + line(
            43u8,
            encode_utf8(rest.last().0),
        ) + encode_frame(rest.last().1));
    } else {
        assert(all.drop_last() =~= Seq::<(Seq<char>, FrameView)>::empty());
        assert(all.last() == e);
        assert(encode_entries(all) == encode_entries(all.drop_last()) + line(
            43u8,
            encode_utf8(all.last().0),
        ) + encode_frame(all.last().1));
        assert(rest =~= Seq::<(Seq<char>, FrameView)>::empty());
    }
    assert(encode_entries(all) =~= line(43u8, encode_utf8(e.0)) + encode_frame(e.1)
        + encode_entries(rest));
}

proof fn lemma_encode_len(f: FrameView)
    ensures
        encode_frame(f).len() >= 3,
{
    match f {
        FrameView::Simple(s) => lemma_line_index(43u8, encode_utf8(s)),
        FrameView::Error(s) => lemma_line_index(45u8, encode_utf8(s)),
        FrameView::Integer(n) => lemma_line_index(58u8, signed_text(n)),
        FrameView::Double(t) => lemma_line_index(44u8, encode_utf8(t)),
        _ => {},
    }
}

/// Inserting a frame above all others appends it.
proof fn lemma_set_insert_last(s: Seq<FrameView>, x: FrameView)
    requires
        forall|k: int| 0 <= k < s.len() ==> frame_lt(#[trigger] s[k], x),
    ensures
        set_insert(s, x) == s.push(x),
    decreases s.len(),
{
    if s.len() > 0 {
        lemma_set_insert_last(s.drop_first(), x);
        assert(seq![s[0]] + s.drop_first().push(x) =~= s.push(x));
    } else {
        assert(seq![x] =~= s.push(x));
    }
}

/// Inserting a key above all others appends the entry.
proof fn lemma_map_insert_last(m: Seq<(Seq<char>, FrameView)>, k: Seq<char>, v: FrameView)
    requires
        forall|q: int| 0 <= q < m.len() ==> text_lt((#[trigger] m[q]).0, k),
    ensures
        map_insert(m, k, v) == m.push((k, v)),
    decreases m.len(),
{
    if m.len() > 0 {
        lemma_map_insert_last(m.drop_first(), k, v);
        assert(seq![m[0]] + m.drop_first().push((k, v)) =~= m.push((k, v)));
    } else {
        assert(seq![(k, v)] =~= m.push((k, v)));
    }
}

/// A simple string at `i` is sized and decoded as itself.
proof fn lemma_simple_at(b: Seq<u8>, i: int, s: Seq<char>)
    requires
        no_cr_lf(encode_utf8(s)),
        holds_at(b, i, line(43u8, encode_utf8(s))),
    ensures
        frame_end(b, i) == Ok::<int, Fault>(i + line(43u8, encode_utf8(s)).len()),
        parse_frame(b, i) == Ok::<(FrameView, int), Fault>(
            (FrameView::Simple(s), i + line(43u8, encode_utf8(s)).len()),
        ),
{
    lemma_line_index(43u8, encode_utf8(s));
    lemma_line_found(b, i, 43u8, encode_utf8(s));
    lemma_text_round_trip(s);
}

/// A frame written at `i` is sized and decoded as itself, whatever follows it.
pub proof fn lemma_frame_at(b: Seq<u8>, i: int, f: FrameView)
    requires
        wire_safe(f),
        holds_at(b, i, encode_frame(f)),
    ensures
        frame_end(b, i) == Ok::<int, Fault>(i + encode_frame(f).len()),
        parse_frame(b, i) == Ok::<(FrameView, int), Fault>((f, i + encode_frame(f).len())),
    decreases f, 2int,
{
    match f {
        FrameView::Simple(s) => lemma_simple_at(b, i, s),
        FrameView::Error(s) => lemma_error_at(b, i, s),
        FrameView::Integer(n) => lemma_integer_at(b, i, n),
        FrameView::Bulk(d) => lemma_bulk_at(b, i, 36u8, d),
        FrameView::BulkError(d) => lemma_bulk_at(b, i, 33u8, d),
        FrameView::Double(t) => lemma_double_at(b, i, t),
        FrameView::Array(items) => lemma_array_at(b, i, items),
        FrameView::SetOf(items) => lemma_set_at(b, i, items),
        FrameView::MapOf(es) => lemma_map_at(b, i, es),
        _ => lemma_fixed_at(b, i, f),
    }
}

proof fn lemma_error_at(b: Seq<u8>, i: int, s: Seq<char>)
    requires
        no_cr_lf(encode_utf8(s)),
        holds_at(b, i, line(45u8, encode_utf8(s))),
    ensures
        frame_end(b, i) == Ok::<int, Fault>(i + line(45u8, encode_utf8(s)).len()),
        parse_frame(b, i) == Ok::<(FrameView, int), Fault>(
            (FrameView::Error(s), i + line(45u8, encode_utf8(s)).len()),
        ),
{
    lemma_line_index(45u8, encode_utf8(s));
    lemma_line_found(b, i, 45u8, encode_utf8(s));
    lemma_text_round_trip(s);
}

proof fn lemma_integer_at(b: Seq<u8>, i: int, n: int)
    requires
        i64::MIN <= n <= i64::MAX,
        holds_at(b, i, line(58u8, signed_text(n))),
    ensures
        frame_end(b, i) == Ok::<int, Fault>(i + line(58u8, signed_text(n)).len()),
        parse_frame(b, i) == Ok::<(FrameView, int), Fault>(
            (FrameView::Integer(n), i + line(58u8, signed_text(n)).len()),
        ),
{
    lemma_signed_text(n);
    lemma_line_index(58u8, signed_text(n));
    lemma_line_found(b, i, 58u8, signed_text(n));
}

proof fn lemma_double_at(b: Seq<u8>, i: int, t: Seq<char>)
    requires
        is_double_text(encode_utf8(t)),
        no_cr_lf(encode_utf8(t)),
        holds_at(b, i, line(44u8, encode_utf8(t))),
    ensures
        frame_end(b, i) == Ok::<int, Fault>(i + line(44u8, encode_utf8(t)).len()),
        parse_frame(b, i) == Ok::<(FrameView, int), Fault>(
            (FrameView::Double(t), i + line(44u8, encode_utf8(t)).len()),
        ),
{
    lemma_line_index(44u8, encode_utf8(t));
    lemma_line_found(b, i, 44u8, encode_utf8(t));
    lemma_text_round_trip(t);
}

/// The frames without a payload of their own, and booleans.
proof fn lemma_fixed_at(b: Seq<u8>, i: int, f: FrameView)
    requires
        f is NullBulk || f is Null || f is Boolean || f is NullArray,
        holds_at(b, i, encode_frame(f)),
    ensures
        frame_end(b, i) == Ok::<int, Fault>(i + encode_frame(f).len()),
        parse_frame(b, i) == Ok::<(FrameView, int), Fault>((f, i + encode_frame(f).len())),
{
    match f {
        FrameView::NullBulk => {
            let t = seq![45u8, 49u8];
            assert(encode_frame(f) =~= line(36u8, t));
            lemma_line_index(36u8, t);
            lemma_line_found(b, i, 36u8, t);
        },
        FrameView::Null => {
            let t = Seq::<u8>::empty();
            assert(encode_frame(f) =~= line(95u8, t));
            lemma_line_index(95u8, t);
            lemma_line_found(b, i, 95u8, t);
        },
        FrameView::Boolean(v) => {
            let t = seq![if v { 116u8 } else { 102u8 }];
            assert(encode_frame(f) =~= line(35u8, t));
            lemma_line_index(35u8, t);
            lemma_line_found(b, i, 35u8, t);
            if !v {
                assert(t != seq![116u8]) by {
                    assert(t[0] != seq![116u8][0]);
                }
            }
        },
        FrameView::NullArray => {
            let t = seq![45u8, 49u8];
            assert(encode_frame(f) =~= line(42u8, t));
            lemma_line_index(42u8, t);
            lemma_line_found(b, i, 42u8, t);
        },
        _ => {},
    }
}

proof fn lemma_array_at(b: Seq<u8>, i: int, items: Seq<FrameView>)
    requires
        wire_safe(FrameView::Array(items)),
        holds_at(b, i, encode_frame(FrameView::Array(items))),
    ensures
        frame_end(b, i) == Ok::<int, Fault>(i + encode_frame(FrameView::Array(items)).len()),
        parse_frame(b, i) == Ok::<(FrameView, int), Fault>(
            (FrameView::Array(items), i + encode_frame(FrameView::Array(items)).len()),
        ),
    decreases items, 1int,
{
    lemma_items_head(b, i, 42u8, items);
    lemma_items_at(b, i + header(42u8, items.len()).len(), items, seq![], false);
    assert(Seq::<FrameView>::empty() + items =~= items);
}

proof fn lemma_set_at(b: Seq<u8>, i: int, items: Seq<FrameView>)
    requires
        wire_safe(FrameView::SetOf(items)),
        holds_at(b, i, encode_frame(FrameView::SetOf(items))),
    ensures
        frame_end(b, i) == Ok::<int, Fault>(i + encode_frame(FrameView::SetOf(items)).len()),
        parse_frame(b, i) == Ok::<(FrameView, int), Fault>(
            (FrameView::SetOf(items), i + encode_frame(FrameView::SetOf(items)).len()),
        ),
    decreases items, 1int,
{
    lemma_items_head(b, i, 126u8, items);
    assert(Seq::<FrameView>::empty() + items =~= items);
    lemma_items_at(b, i + header(126u8, items.len()).len(), items, seq![], true);
}

proof fn lemma_map_at(b: Seq<u8>, i: int, es: Seq<(Seq<char>, FrameView)>)
    requires
        wire_safe(FrameView::MapOf(es)),
        holds_at(b, i, encode_frame(FrameView::MapOf(es))),
    ensures
        frame_end(b, i) == Ok::<int, Fault>(i + encode_frame(FrameView::MapOf(es)).len()),
        parse_frame(b, i) == Ok::<(FrameView, int), Fault>(
            (FrameView::MapOf(es), i + encode_frame(FrameView::MapOf(es)).len()),
        ),
    decreases es, 1int,
{
    let h = header(37u8, es.len());
    lemma_count_text(es.len());
    assert(h =~= line(37u8, digits(es.len())));
    lemma_line_index(37u8, digits(es.len()));
    lemma_holds_split(b, i, h, encode_entries(es));
    lemma_line_found(b, i, 37u8, digits(es.len()));
    assert(Seq::<(Seq<char>, FrameView)>::empty() + es =~= es);
    lemma_entries_at(b, i + h.len(), es, seq![]);
}

/// The header of an array or a set at `i`, and where its items start.
proof fn lemma_items_head(b: Seq<u8>, i: int, tag: u8, items: Seq<FrameView>)
    requires
        items.len() <= usize::MAX,
        holds_at(b, i, header(tag, items.len()) + encode_items(items)),
    ensures
        b[i] == tag,
        first_crlf(b, i + 1) == Some(i + header(tag, items.len()).len() - 2),
        parse_count(b.subrange(i + 1, i + header(tag, items.len()).len() - 2)) == Some(
            items.len(),
        ),
        !is_minus_one(b.subrange(i + 1, i + header(tag, items.len()).len() - 2)),
        holds_at(b, i + header(tag, items.len()).len(), encode_items(items)),
{
    let h = header(tag, items.len());
    lemma_count_text(items.len());
    assert(h =~= line(tag, digits(items.len())));
    lemma_line_index(tag, digits(items.len()));
    lemma_holds_split(b, i, h, encode_items(items));
    lemma_line_found(b, i, tag, digits(items.len()));
}

/// A bulk string or bulk error at `i`.
proof fn lemma_bulk_at(b: Seq<u8>, i: int, tag: u8, d: Seq<u8>)
    requires
        tag == 36 || tag == 33,
        d.len() <= usize::MAX,
        no_crlf_pair(d),
        holds_at(b, i, header(tag, d.len()) + d + crlf()),
    ensures
        frame_end(b, i) == Ok::<int, Fault>(i + (header(tag, d.len()) + d + crlf()).len()),
        parse_frame(b, i) == Ok::<(FrameView, int), Fault>(
            (
                if tag == 36 {
                    FrameView::Bulk(d)
                } else {
                    FrameView::BulkError(d)
                },
                i + (header(tag, d.len()) + d + crlf()).len(),
            ),
        ),
{
    let h = header(tag, d.len());
    lemma_count_text(d.len());
    assert(h =~= line(tag, digits(d.len())));
    lemma_line_index(tag, digits(d.len()));
    assert(h + d + crlf() =~= h + (d + crlf()));
    lemma_holds_split(b, i, h, d + crlf());
    lemma_line_found(b, i, tag, digits(d.len()));
    lemma_payload_found(b, i + h.len(), d);
}

/// Frames written one after another from `i`: sized and decoded in turn onto `acc`.
pub proof fn lemma_items_at(
    b: Seq<u8>,
    i: int,
    items: Seq<FrameView>,
    acc: Seq<FrameView>,
    as_set: bool,
)
    requires
        forall|k: int| 0 <= k < items.len() ==> wire_safe(#[trigger] items[k]),
        holds_at(b, i, encode_items(items)),
        as_set ==> frames_sorted(acc + items),
    ensures
        items_end(b, i, items.len()) == Ok::<int, Fault>(i + encode_items(items).len()),
        parse_items(b, i, items.len(), acc, as_set) == Ok::<(Seq<FrameView>, int), Fault>(
            (acc + items, i + encode_items(items).len()),
        ),
    decreases items, 0int,
{
    if items.len() == 0 {
        assert(acc + items =~= acc);
    } else {
        let x = items[0];
        let rest = items.subrange(1, items.len() as int);
        assert(items =~= seq![x] + rest);
        lemma_encode_items_cons(x, rest);
        lemma_holds_split(b, i, encode_frame(x), encode_items(rest));
        lemma_frame_at(b, i, x);
        lemma_encode_len(x);
        let j = i + encode_frame(x).len();
        if as_set {
            assert forall|k: int| 0 <= k < acc.len() implies frame_lt(#[trigger] acc[k], x) by {
                assert((acc + items)[k] == acc[k]);
                assert((acc + items)[acc.len() as int] == x);
            }
            lemma_set_insert_last(acc, x);
            assert(acc.push(x) + rest =~= acc + items);
        }
        assert(acc.push(x) + rest =~= acc + items);
        lemma_items_at(b, j, rest, acc.push(x), as_set);
    }
}

/// Map entries written one after another from `i`: sized and decoded in turn into `acc`.
pub proof fn lemma_entries_at(
    b: Seq<u8>,
    i: int,
    es: Seq<(Seq<char>, FrameView)>,
    acc: Seq<(Seq<char>, FrameView)>,
)
    requires
        forall|k: int|
            0 <= k < es.len() ==> no_cr_lf(encode_utf8((#[trigger] es[k]).0)) && wire_safe(
                es[k].1,
            ),
        holds_at(b, i, encode_entries(es)),
        entries_sorted(acc + es),
    ensures
        items_end(b, i, 2 * es.len()) == Ok::<int, Fault>(i + encode_entries(es).len()),
        parse_entries(b, i, es.len(), acc) == Ok::<(Seq<(Seq<char>, FrameView)>, int), Fault>(
            (acc + es, i + encode_entries(es).len()),
        ),
    decreases es, 0int,
{
    if es.len() == 0 {
        assert(acc + es =~= acc);
    } else {
        let e = es[0];
        let rest = es.subrange(1, es.len() as int);
        assert(es =~= seq![e] + rest);
        lemma_encode_entries_cons(e, rest);
        let kl = line(43u8, encode_utf8(e.0));
        assert(kl + encode_frame(e.1) + encode_entries(rest) =~= kl + (encode_frame(e.1)
            + encode_entries(rest)));
        lemma_holds_split(b, i, kl, encode_frame(e.1) + encode_entries(rest));
        lemma_holds_split(b, i + kl.len(), encode_frame(e.1), encode_entries(rest));
        lemma_simple_at(b, i, e.0);
        lemma_line_index(43u8, encode_utf8(e.0));
        let j = i + kl.len();
        lemma_frame_at(b, j, e.1);
        lemma_encode_len(e.1);
        let l = j + encode_frame(e.1).len();
        assert forall|q: int| 0 <= q < acc.len() implies text_lt((#[trigger] acc[q]).0, e.0) by {
            assert((acc + es)[q] == acc[q]);
            assert((acc + es)[acc.len() as int] == e);
        }
        lemma_map_insert_last(acc, e.0, e.1);
        assert(acc.push((e.0, e.1)) + rest =~= acc + es);
        lemma_entries_at(b, l, rest, acc.push((e.0, e.1)));
        assert(items_end(b, j, (2 * es.len() - 1) as nat) == items_end(b, l, 2 * rest.len()));
        assert(items_end(b, i, 2 * es.len()) == items_end(b, j, (2 * es.len() - 1) as nat));
    }
}

/// A frame cut short at `i` asks for more bytes.
pub proof fn lemma_frame_cut(b: Seq<u8>, i: int, f: FrameView)
    requires
        wire_safe(f),
        cut_at(b, i, encode_frame(f)),
    ensures
        frame_end(b, i) == Err::<int, Fault>(Fault::Incomplete),
    decreases f, 2int,
{
    if b.len() > i {
        match f {
            FrameView::Simple(s) => lemma_line_cut(b, i, 43u8, encode_utf8(s)),
            FrameView::Error(s) => lemma_line_cut(b, i, 45u8, encode_utf8(s)),
            FrameView::Integer(n) => {
                lemma_signed_text(n);
                lemma_line_cut(b, i, 58u8, signed_text(n));
            },
            FrameView::Double(t) => lemma_line_cut(b, i, 44u8, encode_utf8(t)),
            FrameView::NullBulk => {
                assert(encode_frame(f) =~= line(36u8, seq![45u8, 49u8]));
                lemma_line_cut(b, i, 36u8, seq![45u8, 49u8]);
            },
            FrameView::Null => {
                assert(encode_frame(f) =~= line(95u8, Seq::<u8>::empty()));
                lemma_line_cut(b, i, 95u8, Seq::<u8>::empty());
            },
            FrameView::Boolean(v) => {
                let t = seq![if v { 116u8 } else { 102u8 }];
                assert(encode_frame(f) =~= line(35u8, t));
                lemma_line_cut(b, i, 35u8, t);
            },
            FrameView::NullArray => {
                assert(encode_frame(f) =~= line(42u8, seq![45u8, 49u8]));
                lemma_line_cut(b, i, 42u8, seq![45u8, 49u8]);
            },
            FrameView::Bulk(d) => lemma_bulk_cut(b, i, 36u8, d),
            FrameView::BulkError(d) => lemma_bulk_cut(b, i, 33u8, d),
            FrameView::Array(items) => lemma_array_cut(b, i, items),
            FrameView::SetOf(items) => lemma_set_cut(b, i, items),
            FrameView::MapOf(es) => lemma_map_cut(b, i, es),
        }
    }
}

proof fn lemma_bulk_cut(b: Seq<u8>, i: int, tag: u8, d: Seq<u8>)
    requires
        tag == 36 || tag == 33,
        d.len() <= usize::MAX,
        no_crlf_pair(d),
        cut_at(b, i, header(tag, d.len()) + d + crlf()),
        b.len() > i,
    ensures
        frame_end(b, i) == Err::<int, Fault>(Fault::Incomplete),
{
    let h = header(tag, d.len());
    lemma_count_text(d.len());
    assert(h =~= line(tag, digits(d.len())));
    lemma_line_index(tag, digits(d.len()));
    assert(h + d + crlf() =~= h + (d + crlf()));
    lemma_cut_split(b, i, h, d + crlf());
    if b.len() < i + h.len() {
        lemma_line_cut(b, i, tag, digits(d.len()));
    } else {
        lemma_line_found(b, i, tag, digits(d.len()));
        lemma_payload_cut(b, i + h.len(), d);
    }
}

/// The header of an aggregate, cut short or whole, and its items cut short.
proof fn lemma_aggregate_cut(b: Seq<u8>, i: int, tag: u8, n: nat, body: Seq<u8>) -> (whole: bool)
    requires
        n <= usize::MAX,
        cut_at(b, i, header(tag, n) + body),
        b.len() > i,
    ensures
        b[i] == tag,
        !whole ==> first_crlf(b, i + 1) is None,
        whole ==> first_crlf(b, i + 1) == Some(i + header(tag, n).len() - 2) && parse_count(
            b.subrange(i + 1, i + header(tag, n).len() - 2),
        ) == Some(n) && !is_minus_one(b.subrange(i + 1, i + header(tag, n).len() - 2))
            && cut_at(b, i + header(tag, n).len(), body),
{
    let h = header(tag, n);
    lemma_count_text(n);
    assert(h =~= line(tag, digits(n)));
    lemma_line_index(tag, digits(n));
    lemma_cut_split(b, i, h, body);
    if b.len() < i + h.len() {
        lemma_line_cut(b, i, tag, digits(n));
        false
    } else {
        lemma_line_found(b, i, tag, digits(n));
        true
    }
}

proof fn lemma_array_cut(b: Seq<u8>, i: int, items: Seq<FrameView>)
    requires
        wire_safe(FrameView::Array(items)),
        cut_at(b, i, encode_frame(FrameView::Array(items))),
        b.len() > i,
    ensures
        frame_end(b, i) == Err::<int, Fault>(Fault::Incomplete),
    decreases items, 1int,
{
    if lemma_aggregate_cut(b, i, 42u8, items.len(), encode_items(items)) {
        lemma_items_cut(b, i + header(42u8, items.len()).len(), items);
    }
}

proof fn lemma_set_cut(b: Seq<u8>, i: int, items: Seq<FrameView>)
    requires
        wire_safe(FrameView::SetOf(items)),
        cut_at(b, i, encode_frame(FrameView::SetOf(items))),
        b.len() > i,
    ensures
        frame_end(b, i) == Err::<int, Fault>(Fault::Incomplete),
    decreases items, 1int,
{
    if lemma_aggregate_cut(b, i, 126u8, items.len(), encode_items(items)) {
        lemma_items_cut(b, i + header(126u8, items.len()).len(), items);
    }
}

proof fn lemma_map_cut(b: Seq<u8>, i: int, es: Seq<(Seq<char>, FrameView)>)
    requires
        wire_safe(FrameView::MapOf(es)),
        cut_at(b, i, encode_frame(FrameView::MapOf(es))),
        b.len() > i,
    ensures
        frame_end(b, i) == Err::<int, Fault>(Fault::Incomplete),
    decreases es, 1int,
{
    if lemma_aggregate_cut(b, i, 37u8, es.len(), encode_entries(es)) {
        lemma_entries_cut(b, i + header(37u8, es.len()).len(), es);
    }
}

/// Frames one after another, cut short: more bytes are needed.
proof fn lemma_items_cut(b: Seq<u8>, i: int, items: Seq<FrameView>)
    requires
        forall|k: int| 0 <= k < items.len() ==> wire_safe(#[trigger] items[k]),
        cut_at(b, i, encode_items(items)),
    ensures
        items_end(b, i, items.len()) == Err::<int, Fault>(Fault::Incomplete),
    decreases items, 0int,
{
    if items.len() == 0 {
        assert(encode_items(items).len() == 0);
    } else {
        let x = items[0];
        let rest = items.subrange(1, items.len() as int);
        assert(items =~= seq![x] + rest);
        lemma_encode_items_cons(x, rest);
        lemma_cut_split(b, i, encode_frame(x), encode_items(rest));
        if b.len() < i + encode_frame(x).len() {
            lemma_frame_cut(b, i, x);
        } else {
            lemma_frame_at(b, i, x);
            lemma_encode_len(x);
            lemma_items_cut(b, i + encode_frame(x).len(), rest);
        }
    }
}

/// Map entries one after another, cut short: more bytes are needed.
proof fn lemma_entries_cut(b: Seq<u8>, i: int, es: Seq<(Seq<char>, FrameView)>)
    requires
        forall|k: int|
            0 <= k < es.len() ==> no_cr_lf(encode_utf8((#[trigger] es[k]).0)) && wire_safe(
                es[k].1,
            ),
        cut_at(b, i, encode_entries(es)),
    ensures
        items_end(b, i, 2 * es.len()) == Err::<int, Fault>(Fault::Incomplete),
    decreases es, 0int,
{
    if es.len() == 0 {
        assert(encode_entries(es).len() == 0);
    } else {
        let e = es[0];
        let rest = es.subrange(1, es.len() as int);
        assert(es =~= seq![e] + rest);
        lemma_encode_entries_cons(e, rest);
        let kl = line(43u8, encode_utf8(e.0));
        lemma_line_index(43u8, encode_utf8(e.0));
        let tail = encode_frame(e.1) + encode_entries(rest);
        assert(kl + encode_frame(e.1) + encode_entries(rest) =~= kl + tail);
        lemma_cut_split(b, i, kl, tail);
        if b.len() < i + kl.len() {
            if b.len() > i {
                lemma_line_cut(b, i, 43u8, encode_utf8(e.0));
            }
        } else {
            lemma_simple_at(b, i, e.0);
            let j = i + kl.len();
            lemma_cut_split(b, j, encode_frame(e.1), encode_entries(rest));
            if b.len() < j + encode_frame(e.1).len() {
                lemma_frame_cut(b, j, e.1);
                assert(items_end(b, j, (2 * es.len() - 1) as nat) == Err::<int, Fault>(
                    Fault::Incomplete,
                ));
            } else {
                lemma_frame_at(b, j, e.1);
                lemma_encode_len(e.1);
                let l = j + encode_frame(e.1).len();
                lemma_entries_cut(b, l, rest);
                assert(items_end(b, j, (2 * es.len() - 1) as nat) == items_end(
                    b,
                    l,
                    2 * rest.len(),
                ));
            }
            assert(items_end(b, i, 2 * es.len()) == items_end(b, j, (2 * es.len() - 1) as nat));
        }
    }
}

/// The encodings of two sequences of frames, one after the other.
pub proof fn lemma_encode_items_append(s: Seq<FrameView>, t: Seq<FrameView>)
    ensures
        encode_items(s + t) == encode_items(s) + encode_items(t),
    decreases t.len(),
{
    if t.len() == 0 {
        assert(s + t =~= s);
        assert(encode_items(s) + encode_items(t) =~= encode_items(s));
    } else {
        lemma_encode_items_append(s, t.drop_last());
        assert((s + t).drop_last() =~= s + t.drop_last());
        assert((s + t).last() == t.last());
        assert(encode_items(s + t) =~= encode_items(s) + encode_items(t));
    }
}

/// Round trip: decoding the encoding of a frame gives the frame back and consumes exactly
/// the bytes of the encoding.
pub proof fn law_round_trip(f: FrameView)
    requires
        wire_safe(f),
    ensures
        decode_spec(encode_frame(f)) == Ok::<(FrameView, int), Fault>(
            (f, encode_frame(f).len() as int),
        ),
{
    let b = encode_frame(f);
    assert(holds_at(b, 0, b));
    lemma_frame_at(b, 0, f);
}

/// Sizing: the length found without decoding is the length of the encoding.
pub proof fn law_sizing(f: FrameView)
    requires
        wire_safe(f),
    ensures
        frame_end(encode_frame(f), 0) == Ok::<int, Fault>(encode_frame(f).len() as int),
{
    let b = encode_frame(f);
    assert(holds_at(b, 0, b));
    lemma_frame_at(b, 0, f);
}

/// Every strict prefix of an encoding decodes as a request for more bytes.
pub proof fn law_prefix_incomplete(f: FrameView, m: int)
    requires
        wire_safe(f),
        0 <= m < encode_frame(f).len(),
    ensures
        decode_spec(encode_frame(f).subrange(0, m)) == Err::<(FrameView, int), Fault>(
            Fault::Incomplete,
        ),
{
    let b = encode_frame(f);
    let p = b.subrange(0, m);
    assert(cut_at(p, 0, b));
    lemma_frame_cut(p, 0, f);
}

/// Concatenation: in the encodings of `fs` one after the other, decoding from where the
/// first `k` end gives `fs[k]` and ends where the first `k + 1` end; after the last,
/// nothing is left.
pub proof fn law_concatenation(fs: Seq<FrameView>, k: int)
    requires
        forall|q: int| 0 <= q < fs.len() ==> wire_safe(#[trigger] fs[q]),
        0 <= k < fs.len(),
    ensures
        ({
            let all = encode_items(fs);
            let at = encode_items(fs.subrange(0, k)).len() as int;
            &&& decode_spec(all.subrange(at, all.len() as int)) == Ok::<(FrameView, int), Fault>(
                (fs[k], encode_frame(fs[k]).len() as int),
            )
            &&& at + encode_frame(fs[k]).len() == encode_items(fs.subrange(0, k + 1)).len()
            &&& encode_items(fs.subrange(0, fs.len() as int)).len() == all.len()
        }),
{
    let all = encode_items(fs);
    let before = fs.subrange(0, k);
    let after = fs.subrange(k + 1, fs.len() as int);
    assert(fs =~= before + (seq![fs[k]] + after));
    assert(fs.subrange(0, k + 1) =~= before + seq![fs[k]]);
    assert(fs.subrange(0, fs.len() as int) =~= fs);
    lemma_encode_items_append(before, seq![fs[k]] + after);
    lemma_encode_items_append(before, seq![fs[k]]);
    lemma_encode_items_cons(fs[k], after);
    lemma_encode_items_cons(fs[k], Seq::empty());
    assert(seq![fs[k]] + Seq::<FrameView>::empty() =~= seq![fs[k]]);
    let at = encode_items(before).len() as int;
    let rest = all.subrange(at, all.len() as int);
    assert(rest =~= encode_frame(fs[k]) + encode_items(after));
    lemma_holds_split(rest, 0, encode_frame(fs[k]), encode_items(after));
    lemma_frame_at(rest, 0, fs[k]);
}

} // verus!
