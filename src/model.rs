//! Mathematical model of RESP frames and of their wire format.
use vstd::prelude::*;
use vstd::utf8::*;

verus! {

/// A frame as a mathematical value.
pub enum FrameView {
    Simple(Seq<char>),
    Error(Seq<char>),
    Integer(int),
    Bulk(Seq<u8>),
    NullBulk,
    BulkError(Seq<u8>),
    Null,
    Boolean(bool),
    Double(Seq<char>),
    Array(Seq<FrameView>),
    NullArray,
    MapOf(Seq<(Seq<char>, FrameView)>),
    SetOf(Seq<FrameView>),
}

/// The four ways a decode can fail.
pub enum Fault {
    Incomplete,
    Invalid,
    InvalidFrameLength,
    InvalidFrameType,
}

pub open spec fn crlf() -> Seq<u8> {
    seq![13u8, 10u8]
}

/// Decimal digits of `n`, most significant first, without leading zeros.
pub open spec fn digits(n: nat) -> Seq<u8>
    decreases n,
{
    if n < 10 {
        seq![(48 + n) as u8]
    } else {
        digits(n / 10) + seq![(48 + n % 10) as u8]
    }
}

/// An integer as `+` or `-` followed by its absolute value.
pub open spec fn signed_text(n: int) -> Seq<u8> {
    if n < 0 {
        seq![45u8] + digits((-n) as nat)
    } else {
        seq![43u8] + digits(n as nat)
    }
}

/// `<sentinel><count>\r\n`
pub open spec fn header(tag: u8, n: nat) -> Seq<u8> {
    seq![tag] + digits(n) + crlf()
}

/// The bytes of a simple line: `<tag><text>\r\n`.
pub open spec fn line(tag: u8, text: Seq<u8>) -> Seq<u8> {
    seq![tag] + text + crlf()
}

pub open spec fn encode_frame(f: FrameView) -> Seq<u8>
    decreases f,
{
    match f {
        FrameView::Simple(s) => line(43u8, encode_utf8(s)),
        FrameView::Error(s) => line(45u8, encode_utf8(s)),
        FrameView::Integer(n) => line(58u8, signed_text(n)),
        FrameView::Bulk(b) => header(36u8, b.len()) + b + crlf(),
        FrameView::NullBulk => seq![36u8, 45u8, 49u8, 13u8, 10u8],
        FrameView::BulkError(b) => header(33u8, b.len()) + b + crlf(),
        FrameView::Null => seq![95u8, 13u8, 10u8],
        FrameView::Boolean(v) => seq![35u8, if v { 116u8 } else { 102u8 }, 13u8, 10u8],
        FrameView::Double(t) => line(44u8, encode_utf8(t)),
        FrameView::Array(items) => header(42u8, items.len()) + encode_items(items),
        FrameView::NullArray => seq![42u8, 45u8, 49u8, 13u8, 10u8],
        FrameView::MapOf(entries) => header(37u8, entries.len()) + encode_entries(entries),
        FrameView::SetOf(items) => header(126u8, items.len()) + encode_items(items),
    }
}

/// The encodings of `items`, one after the other.
pub open spec fn encode_items(items: Seq<FrameView>) -> Seq<u8>
    decreases items,
{
    if items.len() == 0 {
        seq![]
    } else {
        encode_items(items.drop_last()) + encode_frame(items.last())
    }
}

/// Each entry as its key (a simple string) followed by its value.
pub open spec fn encode_entries(entries: Seq<(Seq<char>, FrameView)>) -> Seq<u8>
    decreases entries,
{
    if entries.len() == 0 {
        seq![]
    } else {
        encode_entries(entries.drop_last()) + line(43u8, encode_utf8(entries.last().0))
            + encode_frame(entries.last().1)
    }
}

// ---------------------------------------------------------------------------
// Scanning
/// Index of the first `\r\n` that starts at or after `i`.
pub open spec fn first_crlf(b: Seq<u8>, i: int) -> Option<int>
    decreases b.len() - i,
{
    if i < 0 || i + 1 >= b.len() {
        None
    } else if b[i] == 13 && b[i + 1] == 10 {
        Some(i)
    } else {
        first_crlf(b, i + 1)
    }
}

/// Index of the `n`-th `\r\n` (counting from one) that starts at or after `i`.
pub open spec fn nth_crlf(b: Seq<u8>, n: nat, i: int) -> Option<int>
    decreases n,
{
    if n == 0 {
        None
    } else {
        match first_crlf(b, i) {
            None => None,
            Some(p) => if n == 1 {
                Some(p)
            } else {
                nth_crlf(b, (n - 1) as nat, p + 1)
            },
        }
    }
}

pub open spec fn is_digit(c: u8) -> bool {
    48 <= c <= 57
}

pub open spec fn all_digits(s: Seq<u8>) -> bool {
    forall|k: int| 0 <= k < s.len() ==> is_digit(#[trigger] s[k])
}

/// The number that a run of decimal digits stands for.
pub open spec fn digits_value(s: Seq<u8>) -> nat
    decreases s.len(),
{
    if s.len() == 0 {
        0
    } else {
        digits_value(s.drop_last()) * 10 + (s.last() - 48) as nat
    }
}

/// A count or a length: one or more digits, at most `usize::MAX`.
pub open spec fn parse_count(s: Seq<u8>) -> Option<nat> {
    if s.len() > 0 && all_digits(s) && digits_value(s) <= usize::MAX {
        Some(digits_value(s))
    } else {
        None
    }
}

/// A signed 64-bit integer: an optional sign, then one or more digits.
pub open spec fn parse_int(s: Seq<u8>) -> Option<int> {
    let neg = s.len() > 0 && s[0] == 45;
    let signed = s.len() > 0 && (s[0] == 45 || s[0] == 43);
    let d = if signed { s.subrange(1, s.len() as int) } else { s };
    if d.len() == 0 || !all_digits(d) {
        None
    } else if neg {
        if digits_value(d) <= 0x8000_0000_0000_0000 {
            Some(-digits_value(d))
        } else {
            None
        }
    } else if digits_value(d) <= 0x7fff_ffff_ffff_ffff {
        Some(digits_value(d) as int)
    } else {
        None
    }
}

/// Number of digits in `s` from `i` on, up to the first non-digit.
pub open spec fn digit_run(s: Seq<u8>, i: int) -> nat
    decreases s.len() - i,
{
    if i < 0 || i >= s.len() || !is_digit(s[i]) {
        0
    } else {
        1 + digit_run(s, i + 1)
    }
}

pub open spec fn is_sign(c: u8) -> bool {
    c == 43 || c == 45
}

/// Position after an optional fraction `.<digits>` at `i`; `None` if the fraction is empty.
pub open spec fn after_fraction(s: Seq<u8>, i: int) -> Option<int> {
    if i < s.len() && s[i] == 46 {
        let d = digit_run(s, i + 1);
        if d == 0 {
            None
        } else {
            Some(i + 1 + d)
        }
    } else {
        Some(i)
    }
}

/// Position after an optional exponent `e[sign]<digits>` at `i`; `None` if it has no digits.
pub open spec fn after_exponent(s: Seq<u8>, i: int) -> Option<int> {
    if i < s.len() && (s[i] == 101 || s[i] == 69) {
        let j = if i + 1 < s.len() && is_sign(s[i + 1]) { i + 2 } else { i + 1 };
        let d = digit_run(s, j);
        if d == 0 {
            None
        } else {
            Some(j + d)
        }
    } else {
        Some(i)
    }
}

/// `[sign]<digits>[.<digits>][(e|E)[sign]<digits>]`
pub open spec fn is_double_text(s: Seq<u8>) -> bool {
    let i0: int = if s.len() > 0 && is_sign(s[0]) { 1 } else { 0 };
    let d = digit_run(s, i0);
    d > 0 && match after_fraction(s, i0 + d) {
        None => false,
        Some(i1) => match after_exponent(s, i1) {
            None => false,
            Some(i2) => i2 == s.len(),
        },
    }
}

/// Text of a simple string or simple error: valid UTF-8 without CR or LF.
pub open spec fn simple_text(s: Seq<u8>) -> Option<Seq<char>> {
    if valid_utf8(s) && no_cr_lf(s) {
        Some(decode_utf8(s))
    } else {
        None
    }
}

pub open spec fn no_cr_lf(s: Seq<u8>) -> bool {
    forall|k: int| 0 <= k < s.len() ==> (#[trigger] s[k]) != 13 && s[k] != 10
}

/// Text of a double: valid UTF-8 that follows the double grammar.
pub open spec fn double_text(s: Seq<u8>) -> Option<Seq<char>> {
    if is_double_text(s) && valid_utf8(s) {
        Some(decode_utf8(s))
    } else {
        None
    }
}

pub open spec fn is_sentinel(c: u8) -> bool {
    c == 43 || c == 45 || c == 58 || c == 36 || c == 33 || c == 95 || c == 35 || c == 44 || c
        == 42 || c == 37 || c == 126
}

pub open spec fn is_minus_one(s: Seq<u8>) -> bool {
    s == seq![45u8, 49u8]
}

pub proof fn lemma_first_crlf_bounds(b: Seq<u8>, i: int)
    ensures
        first_crlf(b, i) matches Some(p) ==> i <= p && p + 1 < b.len() && b[p] == 13 && b[p
            + 1] == 10,
    decreases b.len() - i,
{
    if !(i < 0 || i + 1 >= b.len()) && !(b[i] == 13 && b[i + 1] == 10) {
        lemma_first_crlf_bounds(b, i + 1);
    }
}

// ---------------------------------------------------------------------------
// Sizing
/// End (exclusive) of the frame that starts at `i`, found without decoding it.
pub open spec fn frame_end(b: Seq<u8>, i: int) -> Result<int, Fault>
    decreases b.len() - i, 0int,
{
    if i < 0 || i >= b.len() {
        Err(Fault::Incomplete)
    } else if !is_sentinel(b[i]) {
        Err(Fault::InvalidFrameType)
    } else {
        match first_crlf(b, i + 1) {
            None => Err(Fault::Incomplete),
            Some(p) => {
                proof {
                    lemma_first_crlf_bounds(b, i + 1);
                }
                let t = b[i];
                let text = b.subrange(i + 1, p);
                if (t == 36 || t == 42) && is_minus_one(text) {
                    Ok(p + 2)
                } else if t == 36 || t == 33 {
                    match first_crlf(b, p + 2) {
                        None => Err(Fault::Incomplete),
                        Some(q) => Ok(q + 2),
                    }
                } else if t == 42 || t == 37 || t == 126 {
                    match parse_count(text) {
                        None => Err(Fault::Invalid),
                        Some(n) => items_end(b, p + 2, if t == 37 { 2 * n } else { n }),
                    }
                } else {
                    Ok(p + 2)
                }
            },
        }
    }
}

/// End of `n` frames that follow each other from `i`.
pub open spec fn items_end(b: Seq<u8>, i: int, n: nat) -> Result<int, Fault>
    decreases b.len() - i, n + 1,
{
    if n == 0 {
        Ok(i)
    } else {
        match frame_end(b, i) {
            Err(e) => Err(e),
            Ok(j) => if i < j <= b.len() {
                items_end(b, j, (n - 1) as nat)
            } else {
                Err(Fault::Invalid)
            },
        }
    }
}

// ---------------------------------------------------------------------------
// Decoding
/// The frame that starts at `i`, with the position after it.
pub open spec fn parse_frame(b: Seq<u8>, i: int) -> Result<(FrameView, int), Fault>
    decreases b.len() - i, 0int,
{
    if i < 0 || i >= b.len() {
        Err(Fault::Incomplete)
    } else if !is_sentinel(b[i]) {
        Err(Fault::InvalidFrameType)
    } else {
        match first_crlf(b, i + 1) {
            None => Err(Fault::Incomplete),
            Some(p) => {
                proof {
                    lemma_first_crlf_bounds(b, i + 1);
                }
                let t = b[i];
                let text = b.subrange(i + 1, p);
                let next = p + 2;
                if t == 43 || t == 45 {
                    match simple_text(text) {
                        None => Err(Fault::Invalid),
                        Some(s) => Ok(
                            (if t == 43 { FrameView::Simple(s) } else { FrameView::Error(s) }, next),
                        ),
                    }
                } else if t == 58 {
                    match parse_int(text) {
                        None => Err(Fault::Invalid),
                        Some(n) => Ok((FrameView::Integer(n), next)),
                    }
                } else if t == 36 && is_minus_one(text) {
                    Ok((FrameView::NullBulk, next))
                } else if t == 36 || t == 33 {
                    match parse_count(text) {
                        None => Err(Fault::Invalid),
                        Some(n) => match first_crlf(b, next) {
                            None => Err(Fault::Incomplete),
                            Some(q) => if q - next == n {
                                let data = b.subrange(next, q);
                                Ok(
                                    (
                                        if t == 36 {
                                            FrameView::Bulk(data)
                                        } else {
                                            FrameView::BulkError(data)
                                        },
                                        q + 2,
                                    ),
                                )
                            } else {
                                Err(Fault::InvalidFrameLength)
                            },
                        },
                    }
                } else if t == 95 {
                    if text.len() == 0 {
                        Ok((FrameView::Null, next))
                    } else {
                        Err(Fault::Invalid)
                    }
                } else if t == 35 {
                    if text == seq![116u8] {
                        Ok((FrameView::Boolean(true), next))
                    } else if text == seq![102u8] {
                        Ok((FrameView::Boolean(false), next))
                    } else {
                        Err(Fault::Invalid)
                    }
                } else if t == 44 {
                    match double_text(text) {
                        None => Err(Fault::Invalid),
                        Some(s) => Ok((FrameView::Double(s), next)),
                    }
                } else if t == 42 && is_minus_one(text) {
                    Ok((FrameView::NullArray, next))
                } else {
                    match parse_count(text) {
                        None => Err(Fault::Invalid),
                        Some(n) => if t == 37 {
                            match parse_entries(b, next, n, seq![]) {
                                Err(e) => Err(e),
                                Ok((m, j)) => Ok((FrameView::MapOf(m), j)),
                            }
                        } else {
                            match parse_items(b, next, n, seq![], t == 126) {
                                Err(e) => Err(e),
                                Ok((s, j)) => Ok(
                                    (
                                        if t == 126 {
                                            FrameView::SetOf(s)
                                        } else {
                                            FrameView::Array(s)
                                        },
                                        j,
                                    ),
                                ),
                            }
                        },
                    }
                }
            },
        }
    }
}

/// `n` frames from `i`, added to `acc` one by one: pushed, or inserted as into a set.
pub open spec fn parse_items(b: Seq<u8>, i: int, n: nat, acc: Seq<FrameView>, as_set: bool) -> Result<
    (Seq<FrameView>, int),
    Fault,
>
    decreases b.len() - i, n + 1,
{
    if n == 0 {
        Ok((acc, i))
    } else {
        match parse_frame(b, i) {
            Err(e) => Err(e),
            Ok((f, j)) => if i < j <= b.len() {
                parse_items(
                    b,
                    j,
                    (n - 1) as nat,
                    if as_set { set_insert(acc, f) } else { acc.push(f) },
                    as_set,
                )
            } else {
                Err(Fault::Invalid)
            },
        }
    }
}

/// `n` entries from `i` (a simple-string key, then a value), inserted into `acc`.
pub open spec fn parse_entries(b: Seq<u8>, i: int, n: nat, acc: Seq<(Seq<char>, FrameView)>) -> Result<
    (Seq<(Seq<char>, FrameView)>, int),
    Fault,
>
    decreases b.len() - i, n + 1,
{
    if n == 0 {
        Ok((acc, i))
    } else if 0 <= i < b.len() && b[i] != 43 {
        Err(Fault::InvalidFrameType)
    } else {
        match parse_frame(b, i) {
            Err(e) => Err(e),
            Ok((k, j)) => match k {
                FrameView::Simple(key) => if i < j <= b.len() {
                    match parse_frame(b, j) {
                        Err(e) => Err(e),
                        Ok((v, l)) => if j < l <= b.len() {
                            parse_entries(b, l, (n - 1) as nat, map_insert(acc, key, v))
                        } else {
                            Err(Fault::Invalid)
                        },
                    }
                } else {
                    Err(Fault::Invalid)
                },
                _ => Err(Fault::InvalidFrameType),
            },
        }
    }
}

/// Decoding a buffer: size the first frame, then decode it.
pub open spec fn decode_spec(b: Seq<u8>) -> Result<(FrameView, int), Fault> {
    match frame_end(b, 0) {
        Err(e) => Err(e),
        Ok(_) => parse_frame(b, 0),
    }
}

// ---------------------------------------------------------------------------
// Order
/// Lexicographic order on bytes.
pub open spec fn bytes_lt(a: Seq<u8>, b: Seq<u8>) -> bool
    decreases a.len(),
{
    if a.len() == 0 {
        b.len() > 0
    } else if b.len() == 0 {
        false
    } else if a[0] == b[0] {
        bytes_lt(a.drop_first(), b.drop_first())
    } else {
        a[0] < b[0]
    }
}

/// Order on text: that of its UTF-8 bytes.
pub open spec fn text_lt(a: Seq<char>, b: Seq<char>) -> bool {
    bytes_lt(encode_utf8(a), encode_utf8(b))
}

/// Rank of a variant in the order on frames.
pub open spec fn tag_rank(f: FrameView) -> int {
    match f {
        FrameView::Simple(_) => 0,
        FrameView::Error(_) => 1,
        FrameView::Integer(_) => 2,
        FrameView::Bulk(_) => 3,
        FrameView::NullBulk => 4,
        FrameView::BulkError(_) => 5,
        FrameView::Null => 6,
        FrameView::Boolean(_) => 7,
        FrameView::Double(_) => 8,
        FrameView::Array(_) => 9,
        FrameView::NullArray => 10,
        FrameView::MapOf(_) => 11,
        FrameView::SetOf(_) => 12,
    }
}

/// Total order on frames: by variant, then by payload.
pub open spec fn frame_lt(a: FrameView, b: FrameView) -> bool
    decreases a,
{
    if tag_rank(a) != tag_rank(b) {
        tag_rank(a) < tag_rank(b)
    } else {
        match (a, b) {
            (FrameView::Simple(x), FrameView::Simple(y)) => text_lt(x, y),
            (FrameView::Error(x), FrameView::Error(y)) => text_lt(x, y),
            (FrameView::Integer(x), FrameView::Integer(y)) => x < y,
            (FrameView::Bulk(x), FrameView::Bulk(y)) => bytes_lt(x, y),
            (FrameView::BulkError(x), FrameView::BulkError(y)) => bytes_lt(x, y),
            (FrameView::Boolean(x), FrameView::Boolean(y)) => !x && y,
            (FrameView::Double(x), FrameView::Double(y)) => text_lt(x, y),
            (FrameView::Array(x), FrameView::Array(y)) => items_lt(x, y),
            (FrameView::MapOf(x), FrameView::MapOf(y)) => entries_lt(x, y),
            (FrameView::SetOf(x), FrameView::SetOf(y)) => items_lt(x, y),
            _ => false,
        }
    }
}

/// Lexicographic order on sequences of frames.
pub open spec fn items_lt(a: Seq<FrameView>, b: Seq<FrameView>) -> bool
    decreases a,
{
    if a.len() == 0 {
        b.len() > 0
    } else if b.len() == 0 {
        false
    } else if a[0] == b[0] {
        items_lt(a.subrange(1, a.len() as int), b.subrange(1, b.len() as int))
    } else {
        frame_lt(a[0], b[0])
    }
}

/// Lexicographic order on map entries, each compared by key, then by value.
pub open spec fn entries_lt(a: Seq<(Seq<char>, FrameView)>, b: Seq<(Seq<char>, FrameView)>) -> bool
    decreases a,
{
    if a.len() == 0 {
        b.len() > 0
    } else if b.len() == 0 {
        false
    } else if a[0] == b[0] {
        entries_lt(a.subrange(1, a.len() as int), b.subrange(1, b.len() as int))
    } else if a[0].0 != b[0].0 {
        text_lt(a[0].0, b[0].0)
    } else {
        frame_lt(a[0].1, b[0].1)
    }
}

/// Inserting into a set kept in ascending order: nothing changes if `x` is there.
pub open spec fn set_insert(s: Seq<FrameView>, x: FrameView) -> Seq<FrameView>
    decreases s.len(),
{
    if s.len() == 0 {
        seq![x]
    } else if frame_lt(s[0], x) {
        seq![s[0]] + set_insert(s.drop_first(), x)
    } else if s[0] == x {
        s
    } else {
        seq![x] + s
    }
}

/// Inserting into a map kept in ascending key order: an equal key has its value replaced.
pub open spec fn map_insert(m: Seq<(Seq<char>, FrameView)>, k: Seq<char>, v: FrameView) -> Seq<
    (Seq<char>, FrameView),
>
    decreases m.len(),
{
    if m.len() == 0 {
        seq![(k, v)]
    } else if text_lt(m[0].0, k) {
        seq![m[0]] + map_insert(m.drop_first(), k, v)
    } else if m[0].0 == k {
        seq![(k, v)] + m.drop_first()
    } else {
        seq![(k, v)] + m
    }
}

/// The value stored under `k`, if any.
pub open spec fn map_lookup(m: Seq<(Seq<char>, FrameView)>, k: Seq<char>) -> Option<FrameView>
    decreases m.len(),
{
    if m.len() == 0 {
        None
    } else if m[0].0 == k {
        Some(m[0].1)
    } else {
        map_lookup(m.drop_first(), k)
    }
}

} // verus!
