//! Reading lines, numbers and text out of a byte buffer.
use crate::model::{
    after_exponent, after_fraction, all_digits, digit_run, digits_value, double_text, first_crlf,
    is_double_text, no_cr_lf, nth_crlf, parse_count, parse_int, simple_text,
};
use vstd::prelude::*;
use vstd::utf8::{decode_utf8, valid_utf8};

verus! {

pub open spec fn opt_index(r: Option<usize>, s: Option<int>) -> bool {
    match r {
        Some(p) => s == Some(p as int),
        None => s is None,
    }
}

/// The first `\r\n` at or after `start`.
pub(crate) fn next_crlf(buf: &[u8], start: usize) -> (r: Option<usize>)
    ensures
        opt_index(r, first_crlf(buf@, start as int)),
        r matches Some(p) ==> start <= p && p + 1 < buf.len(),
{
    let mut i: usize = start;
    while buf.len() >= 2 && i < buf.len() - 1
        invariant
            start <= i,
            first_crlf(buf@, start as int) == first_crlf(buf@, i as int),
        decreases buf.len() - i,
    {
        if buf[i] == 13 && buf[i + 1] == 10 {
            return Some(i);
        }
        i += 1;
    }
    None
}

/// Index of the `nth` `\r\n` (counting from one) that starts at or after `start`.
pub fn find_crlf(buf: &[u8], nth: usize, start: usize) -> (r: Option<usize>)
    ensures
        opt_index(r, nth_crlf(buf@, nth as nat, start as int)),
{
    if nth == 0 {
        return None;
    }
    let mut left: usize = nth;
    let mut from: usize = start;
    while left > 0
        invariant
            left <= nth,
            nth_crlf(buf@, nth as nat, start as int) == nth_crlf(buf@, left as nat, from as int),
            left > 0 || from == start,
        decreases left,
    {
        match next_crlf(buf, from) {
            None => return None,
            Some(p) => {
                if left == 1 {
                    return Some(p);
                }
                left -= 1;
                from = p + 1;
            },
        }
    }
    None
}

/// A copy of `buf[from..to]`.
pub(crate) fn copy_range(buf: &[u8], from: usize, to: usize) -> (r: Vec<u8>)
    requires
        from <= to <= buf.len(),
    ensures
        r@ == buf@.subrange(from as int, to as int),
{
    let mut out: Vec<u8> = Vec::new();
    let mut i: usize = from;
    while i < to
        invariant
            from <= i <= to,
            to <= buf.len(),
            out@ == buf@.subrange(from as int, i as int),
        decreases to - i,
    {
        out.push(buf[i]);
        i += 1;
        assert(out@ =~= buf@.subrange(from as int, i as int));
    }
    out
}

/// A prefix of a run of digits never stands for more than the whole run.
pub proof fn lemma_value_prefix(s: Seq<u8>, k: int)
    requires
        all_digits(s),
        0 <= k <= s.len(),
    ensures
        digits_value(s.subrange(0, k)) <= digits_value(s),
    decreases s.len(),
{
    if k < s.len() {
        assert(s.drop_last().subrange(0, k) =~= s.subrange(0, k));
        assert(all_digits(s.drop_last()));
        lemma_value_prefix(s.drop_last(), k);
    } else {
        assert(s.subrange(0, k) =~= s);
    }
}

/// The number `buf[from..to]` stands for, if it is one or more digits and at most `limit`.
fn parse_digits(buf: &[u8], from: usize, to: usize, limit: u64) -> (r: Option<u64>)
    requires
        from <= to <= buf.len(),
        limit >= 9,
    ensures
        ({
            let s = buf@.subrange(from as int, to as int);
            match r {
                Some(v) => s.len() > 0 && all_digits(s) && digits_value(s) <= limit && v
                    == digits_value(s),
                None => !(s.len() > 0 && all_digits(s) && digits_value(s) <= limit),
            }
        }),
{
    let ghost s = buf@.subrange(from as int, to as int);
    if from == to {
        return None;
    }
    let mut acc: u64 = 0;
    let mut i: usize = from;
    assert(buf@.subrange(from as int, from as int) =~= Seq::<u8>::empty());
    while i < to
        invariant
            from <= i <= to,
            to <= buf.len(),
            s == buf@.subrange(from as int, to as int),
            acc == digits_value(buf@.subrange(from as int, i as int)),
            all_digits(buf@.subrange(from as int, i as int)),
            acc <= limit,
            limit >= 9,
        decreases to - i,
    {
        let c = buf[i];
        if c < 48 || c > 57 {
            assert(s[i - from] == c);
            return None;
        }
        let d: u64 = (c - 48) as u64;
        let ghost next = buf@.subrange(from as int, i + 1);
        assert(next.drop_last() =~= buf@.subrange(from as int, i as int));
        assert(digits_value(next) == acc * 10 + d);
        assert(all_digits(next));
        if acc > (limit - d) / 10 {
            proof {
                assert(acc * 10 + d > limit) by (nonlinear_arith)
                    requires
                        acc > (limit - d) / 10,
                        d <= 9,
                        limit >= 9,
                ;
                if all_digits(s) {
                    assert(s.subrange(0, i + 1 - from) =~= next);
                    lemma_value_prefix(s, i + 1 - from);
                }
            }
            return None;
        }
        assert(acc * 10 + d <= limit) by (nonlinear_arith)
            requires
                acc <= (limit - d) / 10,
                d <= 9,
                limit >= 9,
        ;
        acc = acc * 10 + d;
        i += 1;
    }
    assert(buf@.subrange(from as int, i as int) =~= s);
    Some(acc)
}

/// A count or a length written in `buf[from..to]`.
pub(crate) fn parse_count_at(buf: &[u8], from: usize, to: usize) -> (r: Option<usize>)
    requires
        from <= to <= buf.len(),
    ensures
        match r {
            Some(n) => parse_count(buf@.subrange(from as int, to as int)) == Some(n as nat),
            None => parse_count(buf@.subrange(from as int, to as int)) is None,
        },
{
    match parse_digits(buf, from, to, usize::MAX as u64) {
        Some(v) => Some(v as usize),
        None => None,
    }
}

/// A signed 64-bit integer written in `buf[from..to]`.
pub(crate) fn parse_int_at(buf: &[u8], from: usize, to: usize) -> (r: Option<i64>)
    requires
        from <= to <= buf.len(),
    ensures
        match r {
            Some(n) => parse_int(buf@.subrange(from as int, to as int)) == Some(n as int),
            None => parse_int(buf@.subrange(from as int, to as int)) is None,
        },
{
    let ghost s = buf@.subrange(from as int, to as int);
    if from == to {
        return None;
    }
    let c = buf[from];
    assert(s[0] == c);
    if c == 45 || c == 43 {
        assert(s.subrange(1, s.len() as int) =~= buf@.subrange(from + 1, to as int));
    }
    if c == 45 {
        match parse_digits(buf, from + 1, to, 0x8000_0000_0000_0000u64) {
            Some(v) => {
                if v == 0x8000_0000_0000_0000u64 {
                    Some(i64::MIN)
                } else {
                    Some(-(v as i64))
                }
            },
            None => None,
        }
    } else if c == 43 {
        match parse_digits(buf, from + 1, to, 0x7fff_ffff_ffff_ffffu64) {
            Some(v) => Some(v as i64),
            None => None,
        }
    } else {
        match parse_digits(buf, from, to, 0x7fff_ffff_ffff_ffffu64) {
            Some(v) => Some(v as i64),
            None => None,
        }
    }
}

/// Relies on `String::from_utf8`: it succeeds exactly on valid UTF-8, with the characters it encodes.
#[verifier::external_body]
pub(crate) fn utf8_to_string(bytes: Vec<u8>) -> (r: Option<String>)
    ensures
        r is Some <==> valid_utf8(bytes@),
        r matches Some(s) ==> s@ == decode_utf8(bytes@),
{
    String::from_utf8(bytes).ok()
}

/// The text of a simple string or error in `buf[from..to]`.
pub(crate) fn simple_text_at(buf: &[u8], from: usize, to: usize) -> (r: Option<String>)
    requires
        from <= to <= buf.len(),
    ensures
        match r {
            Some(s) => simple_text(buf@.subrange(from as int, to as int)) == Some(s@),
            None => simple_text(buf@.subrange(from as int, to as int)) is None,
        },
{
    let text = copy_range(buf, from, to);
    let mut i: usize = 0;
    while i < text.len()
        invariant
            i <= text.len(),
            from <= to <= buf.len(),
            text@ == buf@.subrange(from as int, to as int),
            forall|k: int| 0 <= k < i ==> text@[k] != 13 && text@[k] != 10,
        decreases text.len() - i,
    {
        if text[i] == 13 || text[i] == 10 {
            assert(!no_cr_lf(text@));
            assert(simple_text(text@) is None);
            return None;
        }
        i += 1;
    }
    assert(no_cr_lf(text@));
    utf8_to_string(text)
}

/// Number of digits in `s` from `i` on.
fn digit_run_at(s: &[u8], i: usize) -> (r: usize)
    requires
        i <= s.len(),
    ensures
        r == digit_run(s@, i as int),
        i + r <= s.len(),
{
    let mut j: usize = i;
    while j < s.len() && s[j] >= 48 && s[j] <= 57
        invariant
            i <= j <= s.len(),
            digit_run(s@, i as int) == (j - i) + digit_run(s@, j as int),
        decreases s.len() - j,
    {
        j += 1;
    }
    j - i
}

fn after_fraction_at(s: &[u8], i: usize) -> (r: Option<usize>)
    requires
        i <= s.len(),
    ensures
        opt_index(r, after_fraction(s@, i as int)),
        r matches Some(j) ==> j <= s.len(),
{
    if i < s.len() && s[i] == 46 {
        let d = digit_run_at(s, i + 1);
        if d == 0 {
            None
        } else {
            Some(i + 1 + d)
        }
    } else {
        Some(i)
    }
}

fn after_exponent_at(s: &[u8], i: usize) -> (r: Option<usize>)
    requires
        i <= s.len(),
    ensures
        opt_index(r, after_exponent(s@, i as int)),
{
    if i < s.len() && (s[i] == 101 || s[i] == 69) {
        let j = if i + 1 < s.len() && (s[i + 1] == 43 || s[i + 1] == 45) {
            i + 2
        } else {
            i + 1
        };
        let d = digit_run_at(s, j);
        if d == 0 {
            None
        } else {
            Some(j + d)
        }
    } else {
        Some(i)
    }
}

/// Whether `s` follows the grammar of a double.
pub fn is_double(s: &[u8]) -> (r: bool)
    ensures
        r == is_double_text(s@),
{
    let i0: usize = if s.len() > 0 && (s[0] == 43 || s[0] == 45) {
        1
    } else {
        0
    };
    let d = digit_run_at(s, i0);
    if d == 0 {
        return false;
    }
    match after_fraction_at(s, i0 + d) {
        None => false,
        Some(i1) => match after_exponent_at(s, i1) {
            None => false,
            Some(i2) => i2 == s.len(),
        },
    }
}

/// The text of a double in `buf[from..to]`.
pub(crate) fn double_text_at(buf: &[u8], from: usize, to: usize) -> (r: Option<String>)
    requires
        from <= to <= buf.len(),
    ensures
        match r {
            Some(s) => double_text(buf@.subrange(from as int, to as int)) == Some(s@),
            None => double_text(buf@.subrange(from as int, to as int)) is None,
        },
{
    let text = copy_range(buf, from, to);
    if !is_double(text.as_slice()) {
        return None;
    }
    utf8_to_string(text)
}

} // verus!
