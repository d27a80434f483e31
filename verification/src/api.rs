//! What the calls of the library take and give, apart from the store itself.

use vstd::arithmetic::power::{lemma_pow0, lemma_pow1, lemma_pow_adds, pow};
use vstd::prelude::*;
use vstd::slice::slice_subrange;
use vstd::utf8::{
    decode_first_scalar, is_continuation_byte, length_of_first_scalar, pop_first_scalar,
    valid_first_scalar,
};

use crate::consts::{E_FAILURE, E_SUCCESS, NVRAM_SPACE};

verus! {

// --------------------------------------------------------------- arguments --

/// The bytes of a string that ends at its first zero byte.
pub open spec fn c_bytes_spec(buf: Seq<u8>) -> Seq<u8>
    decreases buf.len(),
{
    if buf.len() == 0 || buf[0] == 0 {
        Seq::empty()
    } else {
        seq![buf[0]] + c_bytes_spec(buf.subrange(1, buf.len() as int))
    }
}

proof fn lemma_c_bytes(buf: Seq<u8>, n: int)
    requires
        0 <= n <= buf.len(),
        forall|k: int| 0 <= k < n ==> #[trigger] buf[k] != 0,
        n < buf.len() ==> buf[n] == 0,
    ensures
        c_bytes_spec(buf) == buf.subrange(0, n),
    decreases n,
{
    if n > 0 {
        let rest = buf.subrange(1, buf.len() as int);
        assert forall|k: int| 0 <= k < n - 1 implies #[trigger] rest[k] != 0 by {
            assert(buf[k + 1] != 0);
        }
        lemma_c_bytes(rest, n - 1);
        assert(buf[0] != 0);
        assert(buf.subrange(0, n) =~= seq![buf[0]] + rest.subrange(0, n - 1));
    } else {
        assert(buf.subrange(0, 0) =~= Seq::<u8>::empty());
    }
}

/// The bytes of a string that ends at its first zero byte.
pub fn c_bytes(buf: &[u8]) -> (r: &[u8])
    ensures
        r@ == c_bytes_spec(buf@),
{
    let mut n: usize = 0;
    while n < buf.len() && buf[n] != 0
        invariant
            n <= buf.len(),
            forall|k: int| 0 <= k < n ==> #[trigger] buf@[k] != 0,
        decreases buf.len() - n,
    {
        n += 1;
    }
    proof {
        lemma_c_bytes(buf@, n as int);
    }
    slice_subrange(buf, 0, n)
}

/// The key that a caller names: nothing if the caller gave none, or an empty
/// one.
pub fn key_bytes(name: Option<&[u8]>) -> (r: Option<&[u8]>)
    ensures
        r is Some <==> name is Some && name->0@.len() > 0,
        r is Some ==> r->0@ == name->0@,
{
    match name {
        Some(s) => if s.len() == 0 {
            None
        } else {
            Some(s)
        },
        None => None,
    }
}

/// The size of a caller's buffer: nothing if there is no buffer, or no room in
/// it.
pub fn buffer_len(given: bool, count: i32) -> (r: Option<usize>)
    ensures
        r == if given && count > 0 {
            Some(count as usize)
        } else {
            None
        },
{
    if !given || count <= 0 {
        None
    } else {
        Some(count as usize)
    }
}

// ----------------------------------------------------------------- results --

/// How a call went, in the numbers that callers know.
pub fn status(ok: bool) -> (r: i32)
    ensures
        ok ==> r == 1,
        !ok ==> r == 0,
{
    if ok {
        E_SUCCESS
    } else {
        E_FAILURE
    }
}

/// The size of the store, in bytes.
pub fn nvram_get_nvramspace() -> (r: i32)
    ensures
        r == 1048576,
        r == NVRAM_SPACE,
{
    NVRAM_SPACE as i32
}

/// What a caller gets that wants an empty string for a variable that does not
/// exist. Both end with a zero byte.
pub fn safe_value(value: Option<&[u8]>) -> (r: &[u8])
    ensures
        r@ == match value {
            Some(v) => v@,
            None => seq![0u8],
        },
{
    match value {
        Some(v) => v,
        None => {
            let empty = &[0u8];
            assert(empty@ =~= seq![0u8]);
            empty.as_slice()
        },
    }
}

// ---------------------------------------------------------------- integers --

/// The number stands for a character that has the Unicode property
/// `White_Space`.
pub open spec fn white_space(u: u32) -> bool {
    ||| 0x9 <= u <= 0xd
    ||| u == 0x20
    ||| u == 0x85
    ||| u == 0xa0
    ||| u == 0x1680
    ||| 0x2000 <= u <= 0x200a
    ||| u == 0x2028
    ||| u == 0x2029
    ||| u == 0x202f
    ||| u == 0x205f
    ||| u == 0x3000
}

/// The bytes start with the UTF-8 encoding of a white space character.
pub open spec fn starts_white(s: Seq<u8>) -> bool {
    s.len() > 0 && valid_first_scalar(s) && white_space(decode_first_scalar(s))
}

/// `s` without the white space that it starts with.
pub open spec fn trimmed(s: Seq<u8>) -> Seq<u8>
    decreases s.len(),
{
    if starts_white(s) {
        trimmed(pop_first_scalar(s))
    } else {
        s
    }
}

/// The byte is a decimal digit.
pub open spec fn is_digit(b: u8) -> bool {
    0x30 <= b <= 0x39
}

/// How many digits `s` starts with.
pub open spec fn digits(s: Seq<u8>) -> int
    decreases s.len(),
{
    if s.len() > 0 && is_digit(s[0]) {
        1 + digits(s.subrange(1, s.len() as int))
    } else {
        0
    }
}

/// The number that decimal digits write.
pub open spec fn number(s: Seq<u8>) -> int
    decreases s.len(),
{
    if s.len() == 0 {
        0
    } else {
        10 * number(s.drop_last()) + (s.last() - 0x30)
    }
}

/// Plus.
pub const PLUS: u8 = 0x2b;

/// Minus.
pub const MINUS: u8 = 0x2d;

/// The integer that `s` starts with: a sign if there is one, and digits. Zero
/// if there are no digits, or the number is out of range.
pub open spec fn leading_int(s: Seq<u8>) -> i32 {
    let signed = s.len() > 0 && (s[0] == MINUS || s[0] == PLUS);
    let rest = if signed {
        s.subrange(1, s.len() as int)
    } else {
        s
    };
    let n = number(rest.subrange(0, digits(rest)));
    let v = if signed && s[0] == MINUS {
        -n
    } else {
        n
    };
    if i32::MIN <= v <= i32::MAX {
        v as i32
    } else {
        0
    }
}

/// The integer that bytes start with, white space aside. What follows the
/// integer does not matter, whether it is text or not.
pub open spec fn parse_int_spec(bytes: Seq<u8>) -> i32 {
    leading_int(trimmed(bytes))
}

/// Whether a number stands for a white space character.
fn is_white(u: u32) -> (r: bool)
    ensures
        r == white_space(u),
{
    (0x9 <= u && u <= 0xd) || u == 0x20 || u == 0x85 || u == 0xa0 || u == 0x1680 || (0x2000 <= u
        && u <= 0x200a) || u == 0x2028 || u == 0x2029 || u == 0x202f || u == 0x205f || u == 0x3000
}

/// Whether a byte continues the encoding of a character.
fn continues(b: u8) -> (r: bool)
    ensures
        r == is_continuation_byte(b),
{
    0x80 <= b && b <= 0xbf
}

/// The length of the white space character that starts at `i`; zero if none
/// does.
fn white_at(s: &[u8], i: usize) -> (n: usize)
    requires
        i < s.len(),
    ensures
        ({
            let rest = s@.subrange(i as int, s@.len() as int);
            if starts_white(rest) {
                n == length_of_first_scalar(rest)
            } else {
                n == 0
            }
        }),
        n <= s.len() - i,
{
    let ghost rest = s@.subrange(i as int, s@.len() as int);
    let left: usize = s.len() - i;
    let a: u8 = s[i];
    assert(rest[0] == a);
    if a <= 0x7f {
        let u: u32 = (a & 0x7f) as u32;
        assert(u <= 0x7f) by (bit_vector)
            requires
                u == (a & 0x7f) as u32,
        ;
        return if is_white(u) {
            1
        } else {
            0
        };
    }
    if 0xc0 <= a && a <= 0xdf {
        if left < 2 || !continues(s[i + 1]) {
            return 0;
        }
        let b: u8 = s[i + 1];
        assert(rest[1] == b);
        let u: u32 = (((a & 0x1f) as u32) << 6) | ((b & 0x3f) as u32);
        return if u >= 0x80 && is_white(u) {
            2
        } else {
            0
        };
    }
    if 0xe0 <= a && a <= 0xef {
        if left < 3 || !continues(s[i + 1]) || !continues(s[i + 2]) {
            return 0;
        }
        let b: u8 = s[i + 1];
        let c: u8 = s[i + 2];
        assert(rest[1] == b && rest[2] == c);
        let u: u32 = (((a & 0x0f) as u32) << 12) | (((b & 0x3f) as u32) << 6) | ((c & 0x3f) as u32);
        return if u >= 0x800 && is_white(u) {
            3
        } else {
            0
        };
    }
    // No white space character takes four bytes.
    0
}

proof fn lemma_digits(s: Seq<u8>, n: int)
    requires
        0 <= n <= s.len(),
        forall|k: int| 0 <= k < n ==> is_digit(#[trigger] s[k]),
        n < s.len() ==> !is_digit(s[n]),
    ensures
        digits(s) == n,
    decreases n,
{
    if n > 0 {
        let rest = s.subrange(1, s.len() as int);
        assert(is_digit(s[0]));
        assert forall|k: int| 0 <= k < n - 1 implies is_digit(#[trigger] rest[k]) by {
            assert(is_digit(s[k + 1]));
        }
        lemma_digits(rest, n - 1);
    }
}

/// Gets the integer that bytes start with, and ignores what follows it.
pub fn parse_int(bytes: &[u8]) -> (r: i32)
    ensures
        r == parse_int_spec(bytes@),
{
    let s = bytes;
    let mut start: usize = 0;
    let mut white: bool = true;
    assert(s@.subrange(0, s@.len() as int) =~= s@);
    while white && start < s.len()
        invariant
            start <= s.len(),
            trimmed(s@) == trimmed(s@.subrange(start as int, s@.len() as int)),
            !white ==> !starts_white(s@.subrange(start as int, s@.len() as int)),
        decreases s.len() - start, white as int,
    {
        let n: usize = white_at(s, start);
        if n == 0 {
            white = false;
        } else {
            assert(pop_first_scalar(s@.subrange(start as int, s@.len() as int)) =~= s@.subrange(
                start + n,
                s@.len() as int,
            ));
            start += n;
        }
    }
    let ghost t = s@.subrange(start as int, s@.len() as int);
    assert(trimmed(s@) == t);
    let mut negative = false;
    let ghost signed = t.len() > 0 && (t[0] == MINUS || t[0] == PLUS);
    let ghost rest = if signed {
        t.subrange(1, t.len() as int)
    } else {
        t
    };
    if start < s.len() && (s[start] == MINUS || s[start] == PLUS) {
        negative = s[start] == MINUS;
        start += 1;
    }
    assert(rest =~= s@.subrange(start as int, s@.len() as int));
    let mut end: usize = start;
    let mut value: i64 = 0;
    let mut big = false;
    while end < s.len() && 0x30 <= s[end] && s[end] <= 0x39
        invariant
            start <= end <= s.len(),
            rest == s@.subrange(start as int, s@.len() as int),
            forall|k: int| 0 <= k < end - start ==> is_digit(#[trigger] rest[k]),
            0 <= value <= 0x8000_0000,
            !big ==> value == number(rest.subrange(0, end - start)),
            big ==> number(rest.subrange(0, end - start)) > 0x8000_0000,
        decreases s.len() - end,
    {
        let d: i64 = s[end] as i64 - 0x30;
        let ghost n: int = end - start;
        assert(rest[n] == s@[end as int]);
        assert(rest.subrange(0, n + 1).drop_last() =~= rest.subrange(0, n));
        let more: i64 = 10 * value + d;
        if more > 0x8000_0000 {
            big = true;
        } else if !big {
            value = more;
        }
        end += 1;
    }
    proof {
        let n: int = end - start;
        assert(n < rest.len() ==> rest[n] == s@[end as int]);
        lemma_digits(rest, n);
    }
    if big {
        return 0;
    }
    let v: i64 = if negative {
        -value
    } else {
        value
    };
    if v > 0x7fff_ffff {
        0
    } else {
        v as i32
    }
}

/// The value of a variable as an integer, or zero if it does not exist.
pub fn get_int(value: Option<&[u8]>) -> (r: i32)
    ensures
        r == match value {
            Some(v) => parse_int_spec(c_bytes_spec(v@)),
            None => 0,
        },
{
    match value {
        Some(v) => parse_int(c_bytes(v)),
        None => 0,
    }
}

// -------------------------------------------------------------------- laws --

/// What a string that ends at its first zero byte is: all the bytes before that
/// byte, and all of them if there is none.
pub proof fn law_c_bytes(buf: Seq<u8>)
    ensures
        ({
            let n = c_bytes_spec(buf).len() as int;
            &&& n <= buf.len()
            &&& forall|k: int| 0 <= k < n ==> #[trigger] c_bytes_spec(buf)[k] == buf[k]
            &&& forall|k: int| 0 <= k < n ==> #[trigger] buf[k] != 0
            &&& n < buf.len() ==> buf[n] == 0
        }),
    decreases buf.len(),
{
    if buf.len() > 0 && buf[0] != 0 {
        let rest = buf.subrange(1, buf.len() as int);
        law_c_bytes(rest);
        let m = c_bytes_spec(rest).len() as int;
        assert(c_bytes_spec(buf).len() == m + 1);
        assert forall|k: int| 0 <= k < m + 1 implies #[trigger] c_bytes_spec(buf)[k] == buf[k]
            && buf[k] != 0 by {
            if k > 0 {
                assert(c_bytes_spec(buf)[k] == c_bytes_spec(rest)[k - 1]);
                assert(rest[k - 1] == buf[k]);
                assert(rest[k - 1] != 0);
            }
        }
        assert forall|k: int| 0 <= k < m + 1 implies #[trigger] buf[k] != 0 by {
            assert(c_bytes_spec(buf)[k] == buf[k]);
        }
        if m < rest.len() {
            assert(rest[m] == buf[m + 1]);
        }
    }
}

/// What the first `n` digits of `ds` add up to, each worth ten to the number of
/// digits behind it.
pub open spec fn worth(ds: Seq<u8>, n: int) -> int
    decreases n,
{
    if n <= 0 {
        0
    } else {
        worth(ds, n - 1) + (ds[n - 1] - 48) * pow(10, (ds.len() - n) as nat)
    }
}

pub proof fn lemma_worth_shift(ds: Seq<u8>, n: int)
    requires
        0 <= n < ds.len(),
    ensures
        worth(ds, n) == 10 * worth(ds.drop_last(), n),
    decreases n,
{
    let rest = ds.drop_last();
    if n > 0 {
        lemma_worth_shift(ds, n - 1);
        let e = (rest.len() - n) as nat;
        let d = rest[n - 1] - 48;
        lemma_pow_adds(10, 1, e);
        lemma_pow1(10);
        assert(ds[n - 1] == rest[n - 1]);
        assert(d * (10 * pow(10, e)) == 10 * (d * pow(10, e))) by (nonlinear_arith);
    }
}

proof fn lemma_number_worth(ds: Seq<u8>)
    ensures
        number(ds) == worth(ds, ds.len() as int),
    decreases ds.len(),
{
    if ds.len() > 0 {
        let n = ds.len() as int;
        lemma_number_worth(ds.drop_last());
        lemma_worth_shift(ds, n - 1);
        lemma_pow0(10);
    }
}

proof fn lemma_not_white(s: Seq<u8>)
    requires
        s.len() > 0,
        33 <= s[0] <= 127,
    ensures
        trimmed(s) == s,
{
    let b = s[0];
    assert((b & 0x7f) as u32 == b as u32) by (bit_vector)
        requires
            b <= 127,
    ;
}

/// The integer that bytes start with is the one that their digits write in
/// decimal, behind a sign if there is one: minus that number after a minus. If
/// it is out of range, or there is no digit, it is zero. What follows the digits
/// does not matter.
pub proof fn law_parse_int(sign: Seq<u8>, ds: Seq<u8>, rest: Seq<u8>)
    requires
        sign.len() == 0 || sign == seq![43u8] || sign == seq![45u8],
        forall|k: int| 0 <= k < ds.len() ==> 48 <= #[trigger] ds[k] <= 57,
        rest.len() > 0 ==> !(48 <= rest[0] <= 57),
        sign.len() == 0 && ds.len() == 0 && rest.len() > 0 ==> 33 <= rest[0] <= 127 && rest[0] != 43
            && rest[0] != 45,
    ensures
        ({
            let n = worth(ds, ds.len() as int);
            let v = if sign == seq![45u8] {
                -n
            } else {
                n
            };
            parse_int_spec(sign + ds + rest) == if -0x8000_0000 <= v <= 0x7fff_ffff {
                v
            } else {
                0
            }
        }),
{
    let s = sign + ds + rest;
    let body = ds + rest;
    if sign.len() == 0 {
        assert(s =~= body);
    } else {
        assert(s.subrange(1, s.len() as int) =~= body);
    }
    if s.len() > 0 {
        if sign.len() > 0 {
            assert(s[0] == sign[0]);
        } else if ds.len() > 0 {
            assert(s[0] == ds[0]);
        } else {
            assert(s[0] == rest[0]);
        }
        lemma_not_white(s);
    }
    assert forall|k: int| 0 <= k < ds.len() implies is_digit(#[trigger] body[k]) by {
        assert(body[k] == ds[k]);
    }
    if rest.len() > 0 {
        assert(body[ds.len() as int] == rest[0]);
    }
    lemma_digits(body, ds.len() as int);
    assert(body.subrange(0, ds.len() as int) =~= ds);
    lemma_number_worth(ds);
}

/// The bytes are one white space character.
pub open spec fn one_white(w: Seq<u8>) -> bool {
    ||| w.len() == 1 && (9 <= w[0] <= 13 || w[0] == 32)
    ||| w == seq![0xc2u8, 0x85]
    ||| w == seq![0xc2u8, 0xa0]
    ||| w == seq![0xe1u8, 0x9a, 0x80]
    ||| w.len() == 3 && w[0] == 0xe2 && w[1] == 0x80 && (0x80 <= w[2] <= 0x8a || w[2] == 0xa8
        || w[2] == 0xa9 || w[2] == 0xaf)
    ||| w == seq![0xe2u8, 0x81, 0x9f]
    ||| w == seq![0xe3u8, 0x80, 0x80]
}

/// White space in front of an integer does not matter.
pub proof fn law_parse_int_after_white(w: Seq<u8>, s: Seq<u8>)
    requires
        one_white(w),
    ensures
        parse_int_spec(w + s) == parse_int_spec(s),
{
    let t = w + s;
    assert forall|k: int| 0 <= k < w.len() implies #[trigger] t[k] == w[k] by {}
    let a = w[0];
    if w.len() == 1 {
        assert((a & 0x7f) as u32 == a as u32) by (bit_vector)
            requires
                a <= 127,
        ;
        assert(decode_first_scalar(t) == a as u32);
    } else if w.len() == 2 {
        let b = w[1];
        assert((((a & 0x1f) as u32) << 6) | ((b & 0x3f) as u32) == (if b == 0x85 {
            0x85u32
        } else {
            0xa0u32
        })) by (bit_vector)
            requires
                a == 0xc2 && (b == 0x85 || b == 0xa0),
        ;
    } else {
        let b = w[1];
        let c = w[2];
        assert(a == 0xe1 && b == 0x9a && c == 0x80 || a == 0xe2 && b == 0x80 && (0x80 <= c <= 0x8a
            || c == 0xa8 || c == 0xa9 || c == 0xaf) || a == 0xe2 && b == 0x81 && c == 0x9f || a
            == 0xe3 && b == 0x80 && c == 0x80);
        let u = (((a & 0x0f) as u32) << 12) | (((b & 0x3f) as u32) << 6) | ((c & 0x3f) as u32);
        assert(u == 0x1680 || 0x2000 <= u <= 0x200a || u == 0x2028 || u == 0x2029 || u == 0x202f
            || u == 0x205f || u == 0x3000) by (bit_vector)
            requires
                u == ((((a & 0x0f) as u32) << 12) | (((b & 0x3f) as u32) << 6) | ((c
                    & 0x3f) as u32)),
                (a == 0xe1 && b == 0x9a && c == 0x80) || (a == 0xe2 && b == 0x80 && ((0x80 <= c
                    && c <= 0x8a) || c == 0xa8 || c == 0xa9 || c == 0xaf)) || (a == 0xe2 && b == 0x81
                    && c == 0x9f) || (a == 0xe3 && b == 0x80 && c == 0x80),
        ;
        assert(decode_first_scalar(t) == u);
    }
    assert(starts_white(t));
    assert(length_of_first_scalar(t) == w.len());
    assert(pop_first_scalar(t) =~= s);
}

/// The bytes start with a white space character.
pub open spec fn white_first(s: Seq<u8>) -> bool {
    ||| s.len() >= 1 && one_white(s.subrange(0, 1))
    ||| s.len() >= 2 && one_white(s.subrange(0, 2))
    ||| s.len() >= 3 && one_white(s.subrange(0, 3))
}

proof fn lemma_starts_white(s: Seq<u8>)
    requires
        starts_white(s),
    ensures
        white_first(s),
{
    let a = s[0];
    let u = decode_first_scalar(s);
    if a <= 0x7f {
        assert((a & 0x7f) as u32 == a as u32) by (bit_vector)
            requires
                a <= 0x7f,
        ;
        assert(s.subrange(0, 1)[0] == a);
    } else if 0xc0 <= a <= 0xdf {
        let b = s[1];
        assert(a == 0xc2 && (b == 0x85 || b == 0xa0)) by (bit_vector)
            requires
                0xc0 <= a && a <= 0xdf,
                0x80 <= b && b <= 0xbf,
                u == ((((a & 0x1f) as u32) << 6) | ((b & 0x3f) as u32)),
                0x80 <= u,
                (9 <= u && u <= 13) || u == 0x20 || u == 0x85 || u == 0xa0 || u == 0x1680 || (0x2000
                    <= u && u <= 0x200a) || u == 0x2028 || u == 0x2029 || u == 0x202f || u == 0x205f
                    || u == 0x3000,
        ;
        let w = s.subrange(0, 2);
        assert(w[0] == a && w[1] == b);
        assert(w =~= seq![0xc2u8, b]);
    } else if 0xe0 <= a <= 0xef {
        let b = s[1];
        let c = s[2];
        assert((a == 0xe1 && b == 0x9a && c == 0x80) || (a == 0xe2 && b == 0x80 && ((0x80 <= c && c
            <= 0x8a) || c == 0xa8 || c == 0xa9 || c == 0xaf)) || (a == 0xe2 && b == 0x81 && c
            == 0x9f) || (a == 0xe3 && b == 0x80 && c == 0x80)) by (bit_vector)
            requires
                0xe0 <= a && a <= 0xef,
                0x80 <= b && b <= 0xbf,
                0x80 <= c && c <= 0xbf,
                u == ((((a & 0x0f) as u32) << 12) | (((b & 0x3f) as u32) << 6) | ((c
                    & 0x3f) as u32)),
                0x800 <= u,
                (9 <= u && u <= 13) || u == 0x20 || u == 0x85 || u == 0xa0 || u == 0x1680 || (0x2000
                    <= u && u <= 0x200a) || u == 0x2028 || u == 0x2029 || u == 0x202f || u == 0x205f
                    || u == 0x3000,
        ;
        let w = s.subrange(0, 3);
        assert(w[0] == a && w[1] == b && w[2] == c);
        assert(w =~= seq![a, b, c]);
    }
}

/// Bytes that start with neither white space, a sign nor a digit give zero, and
/// so do no bytes at all.
pub proof fn law_parse_int_nothing(s: Seq<u8>)
    requires
        s.len() > 0 ==> !white_first(s) && s[0] != 43 && s[0] != 45 && !(48 <= s[0] <= 57),
    ensures
        parse_int_spec(s) == 0,
{
    if starts_white(s) {
        lemma_starts_white(s);
    }
    lemma_digits(s, 0);
    assert(s.subrange(0, 0) =~= Seq::<u8>::empty());
}

} // verus!
