//! Character-level helpers for the line-oriented level format: whitespace
//! trimming, separator search and unsigned decimal parsing, each stated over
//! `Seq<char>` and implemented on windows `[start, end)` of a `Vec<char>`.

use vstd::prelude::*;
use vstd::std_specs::iter::IteratorSpec;

verus! {

/// `char::is_whitespace`: the characters with the Unicode `White_Space` property.
pub open spec fn is_ws(c: char) -> bool {
    let u = c as u32;
    (9 <= u && u <= 13) || u == 32 || u == 0x85 || u == 0xa0 || u == 0x1680
        || (0x2000 <= u && u <= 0x200a) || u == 0x2028 || u == 0x2029 || u == 0x202f
        || u == 0x205f || u == 0x3000
}

/// `s` without its leading whitespace.
pub open spec fn trim_start(s: Seq<char>) -> Seq<char>
    decreases s.len(),
{
    if s.len() > 0 && is_ws(s[0]) {
        trim_start(s.drop_first())
    } else {
        s
    }
}

/// `s` without its trailing whitespace.
pub open spec fn trim_end(s: Seq<char>) -> Seq<char>
    decreases s.len(),
{
    if s.len() > 0 && is_ws(s.last()) {
        trim_end(s.drop_last())
    } else {
        s
    }
}

/// `s` without leading and trailing whitespace, as `str::trim` gives it.
pub open spec fn trim(s: Seq<char>) -> Seq<char> {
    trim_end(trim_start(s))
}

pub open spec fn is_digit(c: char) -> bool {
    48 <= c as u32 && c as u32 <= 57
}

pub open spec fn digit_value(c: char) -> nat {
    (c as u32 - 48) as nat
}

/// The value of a string of decimal digits, most significant first.
pub open spec fn decimal_value(s: Seq<char>) -> nat
    decreases s.len(),
{
    if s.len() == 0 {
        0
    } else {
        10 * decimal_value(s.drop_last()) + digit_value(s.last())
    }
}

pub open spec fn all_digits(s: Seq<char>) -> bool {
    forall|i: int| 0 <= i < s.len() ==> #[trigger] is_digit(s[i])
}

/// The digits of an unsigned numeral: `s` without one leading `+`.
pub open spec fn unsigned_digits(s: Seq<char>) -> Seq<char> {
    if s.len() > 0 && s[0] == '+' {
        s.drop_first()
    } else {
        s
    }
}

/// What `str::parse::<u32>` accepts: an optional `+`, then one or more
/// decimal digits whose value fits in a `u32`.
pub open spec fn parse_u32(s: Seq<char>) -> Option<u32> {
    let d = unsigned_digits(s);
    if d.len() > 0 && all_digits(d) && decimal_value(d) <= u32::MAX {
        Some(decimal_value(d) as u32)
    } else {
        None
    }
}

/// The number of characters before the first `sep` in `s` (all of them if
/// there is none).
pub open spec fn field_len(s: Seq<char>, sep: char) -> nat
    decreases s.len(),
{
    if s.len() == 0 || s[0] == sep {
        0
    } else {
        1 + field_len(s.drop_first(), sep)
    }
}

/// The integers among the `sep`-separated fields of `s`, in order: each field
/// is trimmed, and a field that is not a `u32` numeral is left out.
pub open spec fn int_fields(s: Seq<char>, sep: char) -> Seq<u32>
    decreases s.len(),
{
    let k = field_len(s, sep);
    let here = match parse_u32(trim(s.subrange(0, k as int))) {
        Some(v) => seq![v],
        None => Seq::<u32>::empty(),
    };
    if k >= s.len() {
        here
    } else {
        here + int_fields(s.subrange(k + 1 as int, s.len() as int), sep)
    }
}

pub proof fn lemma_field_len_bound(s: Seq<char>, sep: char)
    ensures
        field_len(s, sep) <= s.len(),
        field_len(s, sep) < s.len() ==> s[field_len(s, sep) as int] == sep,
    decreases s.len(),
{
    if s.len() > 0 && s[0] != sep {
        lemma_field_len_bound(s.drop_first(), sep);
    }
}

proof fn lemma_field_len_window(s: Seq<char>, sep: char, p: int, k: int, e: int)
    requires
        0 <= p <= k <= e <= s.len(),
        forall|q: int| p <= q < k ==> s[q] != sep,
        k == e || s[k] == sep,
    ensures
        field_len(s.subrange(p, e), sep) == k - p,
    decreases k - p,
{
    if p < k {
        assert(s.subrange(p, e).drop_first() =~= s.subrange(p + 1, e));
        lemma_field_len_window(s, sep, p + 1, k, e);
    }
}

proof fn lemma_trim_start_window(s: Seq<char>, p: int, a: int, k: int)
    requires
        0 <= p <= a <= k <= s.len(),
        forall|q: int| p <= q < a ==> is_ws(s[q]),
        a == k || !is_ws(s[a]),
    ensures
        trim_start(s.subrange(p, k)) == s.subrange(a, k),
    decreases a - p,
{
    if p < a {
        assert(s.subrange(p, k).drop_first() =~= s.subrange(p + 1, k));
        lemma_trim_start_window(s, p + 1, a, k);
    }
}

proof fn lemma_trim_end_window(s: Seq<char>, a: int, b: int, k: int)
    requires
        0 <= a <= b <= k <= s.len(),
        forall|q: int| b <= q < k ==> is_ws(s[q]),
        b == a || !is_ws(s[b - 1]),
    ensures
        trim_end(s.subrange(a, k)) == s.subrange(a, b),
    decreases k - b,
{
    if b < k {
        assert(s.subrange(a, k).drop_last() =~= s.subrange(a, k - 1));
        lemma_trim_end_window(s, a, b, k - 1);
    }
}

/// Whether `c` is whitespace, as `char::is_whitespace` decides it.
pub fn is_whitespace(c: char) -> (r: bool)
    ensures
        r == is_ws(c),
{
    let u = c as u32;
    (9 <= u && u <= 13) || u == 32 || u == 0x85 || u == 0xa0 || u == 0x1680
        || (0x2000 <= u && u <= 0x200a) || u == 0x2028 || u == 0x2029 || u == 0x202f
        || u == 0x205f || u == 0x3000
}

/// The position of the first `sep` in `chars[start..end]`, or `end`.
pub fn field_end(chars: &Vec<char>, start: usize, end: usize, sep: char) -> (k: usize)
    requires
        start <= end <= chars@.len(),
    ensures
        start <= k <= end,
        k - start == field_len(chars@.subrange(start as int, end as int), sep),
        k < end ==> chars@[k as int] == sep,
{
    let mut k = start;
    while k < end && chars[k] != sep
        invariant
            start <= k <= end <= chars@.len(),
            forall|q: int| start <= q < k ==> chars@[q] != sep,
        decreases end - k,
    {
        k += 1;
    }
    proof {
        lemma_field_len_window(chars@, sep, start as int, k as int, end as int);
    }
    k
}

/// The bounds of `chars[start..end]` with its surrounding whitespace removed.
pub fn trim_bounds(chars: &Vec<char>, start: usize, end: usize) -> (r: (usize, usize))
    requires
        start <= end <= chars@.len(),
    ensures
        start <= r.0 <= r.1 <= end,
        chars@.subrange(r.0 as int, r.1 as int) == trim(chars@.subrange(start as int, end as int)),
{
    let mut a = start;
    while a < end && is_whitespace(chars[a])
        invariant
            start <= a <= end <= chars@.len(),
            forall|q: int| start <= q < a ==> is_ws(chars@[q]),
        decreases end - a,
    {
        a += 1;
    }
    let mut b = end;
    while b > a && is_whitespace(chars[b - 1])
        invariant
            start <= a <= b <= end <= chars@.len(),
            forall|q: int| b <= q < end ==> is_ws(chars@[q]),
        decreases b - a,
    {
        b -= 1;
    }
    proof {
        lemma_trim_start_window(chars@, start as int, a as int, end as int);
        lemma_trim_end_window(chars@, a as int, b as int, end as int);
    }
    (a, b)
}

/// The `u32` that `chars[start..end]` spells, as `str::parse::<u32>` reads it.
pub fn parse_u32_at(chars: &Vec<char>, start: usize, end: usize) -> (r: Option<u32>)
    requires
        start <= end <= chars@.len(),
    ensures
        r == parse_u32(chars@.subrange(start as int, end as int)),
{
    let ghost s = chars@.subrange(start as int, end as int);
    let mut i = start;
    if i < end && chars[i] == '+' {
        i += 1;
        proof {
            assert(s.drop_first() =~= chars@.subrange(i as int, end as int));
        }
    }
    let ghost d_start = i as int;
    assert(unsigned_digits(s) =~= chars@.subrange(d_start, end as int));
    if i == end {
        return None;
    }
    let mut value: u64 = 0;
    let mut too_big = false;
    while i < end
        invariant
            start <= d_start <= i <= end <= chars@.len(),
            s == chars@.subrange(start as int, end as int),
            unsigned_digits(s) == chars@.subrange(d_start, end as int),
            forall|q: int| d_start <= q < i ==> is_digit(#[trigger] chars@[q]),
            !too_big ==> value == decimal_value(chars@.subrange(d_start, i as int)) && value
                <= u32::MAX,
            too_big ==> decimal_value(chars@.subrange(d_start, i as int)) > u32::MAX,
        decreases end - i,
    {
        let c = chars[i];
        let u = c as u32;
        if u < 48 || u > 57 {
            proof {
                let d = unsigned_digits(s);
                assert(d[i - d_start] == c);
                assert(!is_digit(d[i - d_start]));
                assert(!all_digits(d));
            }
            return None;
        }
        proof {
            let t = chars@.subrange(d_start, i + 1);
            assert(t.drop_last() =~= chars@.subrange(d_start, i as int));
            assert(t.last() == c);
        }
        if !too_big {
            let next = value * 10 + (u - 48) as u64;
            if next > 0xffff_ffff {
                too_big = true;
            } else {
                value = next;
            }
        }
        i += 1;
    }
    proof {
        let d = unsigned_digits(s);
        assert(chars@.subrange(d_start, i as int) =~= d);
        assert forall|q: int| 0 <= q < d.len() implies #[trigger] is_digit(d[q]) by {
            assert(d[q] == chars@[d_start + q]);
        }
    }
    if too_big {
        None
    } else {
        Some(value as u32)
    }
}

/// The integers among the `sep`-separated fields of `chars[start..end]`.
pub fn read_int_fields(chars: &Vec<char>, start: usize, end: usize, sep: char) -> (r: Vec<u32>)
    requires
        start <= end <= chars@.len(),
    ensures
        r@ == int_fields(chars@.subrange(start as int, end as int), sep),
{
    let mut out: Vec<u32> = Vec::new();
    let mut p = start;
    loop
        invariant
            start <= p <= end <= chars@.len(),
            int_fields(chars@.subrange(start as int, end as int), sep) == out@ + int_fields(
                chars@.subrange(p as int, end as int),
                sep,
            ),
        decreases end - p,
    {
        let k = field_end(chars, p, end, sep);
        let (a, b) = trim_bounds(chars, p, k);
        let v = parse_u32_at(chars, a, b);
        let ghost s = chars@.subrange(p as int, end as int);
        let ghost rest = chars@.subrange(k + 1, end as int);
        proof {
            assert(s.subrange(0, (k - p) as int) =~= chars@.subrange(p as int, k as int));
            if k < end {
                assert(s.subrange((k - p) + 1, s.len() as int) =~= rest);
            }
        }
        let ghost before = out@;
        match v {
            Some(x) => {
                out.push(x);
                proof {
                    if k < end {
                        assert(before + (seq![x] + int_fields(rest, sep)) =~= out@ + int_fields(
                            rest,
                            sep,
                        ));
                    }
                }
            },
            None => {
                proof {
                    if k < end {
                        assert(Seq::<u32>::empty() + int_fields(rest, sep) =~= int_fields(
                            rest,
                            sep,
                        ));
                    } else {
                        assert(before + Seq::<u32>::empty() =~= before);
                    }
                }
            },
        }
        if k == end {
            return out;
        }
        p = k + 1;
    }
}

/// The characters of `text`, in order.
pub fn chars_of(text: &str) -> (r: Vec<char>)
    ensures
        r@ == text@,
{
    broadcast use vstd::string::group_string_axioms;

    let mut out: Vec<char> = Vec::new();
    for c in it: text.chars()
        invariant
            out@ == it.seq().subrange(0, it.index() as int),
    {
        out.push(c);
    }
    assert(out@ =~= text@);
    out
}

/// The digit character for `d < 10`.
pub open spec fn digit_char(d: nat) -> char {
    ((d + 48) as u8) as char
}

/// The decimal numeral of `v`, without sign or leading zeros.
pub open spec fn decimal_text(v: nat) -> Seq<char>
    decreases v,
{
    if v < 10 {
        seq![digit_char(v)]
    } else {
        decimal_text(v / 10).push(digit_char(v % 10))
    }
}

proof fn lemma_decimal_text(v: nat)
    ensures
        decimal_text(v).len() > 0,
        all_digits(decimal_text(v)),
        decimal_value(decimal_text(v)) == v,
    decreases v,
{
    assert(digit_char(v % 10) as u32 == v % 10 + 48);
    if v < 10 {
        assert(decimal_text(v).drop_last() =~= Seq::<char>::empty());
        assert(decimal_value(Seq::<char>::empty()) == 0);
        assert(digit_value(decimal_text(v).last()) == v);
        assert(decimal_value(decimal_text(v)) == v);
    } else {
        lemma_decimal_text(v / 10);
        let t = decimal_text(v);
        assert(t.drop_last() =~= decimal_text(v / 10));
        assert(digit_value(t.last()) == v % 10);
        assert(10 * (v / 10) + v % 10 == v);
        assert(decimal_value(t) == v);
        assert forall|i: int| 0 <= i < t.len() implies #[trigger] is_digit(t[i]) by {
            if i < t.len() - 1 {
                assert(t[i] == decimal_text(v / 10)[i]);
            }
        }
    }
}

/// A numeral that `decimal_text` wrote parses back to its value, and holds
/// nothing but digits.
pub proof fn lemma_decimal_round_trip(v: u32)
    ensures
        parse_u32(trim(decimal_text(v as nat))) == Some(v),
        forall|i: int|
            0 <= i < decimal_text(v as nat).len() ==> is_digit(
                #[trigger] decimal_text(v as nat)[i],
            ),
{
    let t = decimal_text(v as nat);
    lemma_decimal_text(v as nat);
    assert(is_digit(t[0]));
    assert(is_digit(t.last()));
    assert(trim_start(t) == t);
    assert(trim(t) == t);
    assert(unsigned_digits(t) == t);
}

/// A field that holds no separator runs to the separator after it.
pub proof fn lemma_field_len_before(a: Seq<char>, sep: char, b: Seq<char>)
    requires
        forall|i: int| 0 <= i < a.len() ==> a[i] != sep,
    ensures
        field_len(a + seq![sep] + b, sep) == a.len(),
        field_len(a, sep) == a.len(),
{
    let s = a + seq![sep] + b;
    assert(s.subrange(0, s.len() as int) =~= s);
    lemma_field_len_window(s, sep, 0, a.len() as int, s.len() as int);
    assert(a.subrange(0, a.len() as int) =~= a);
    lemma_field_len_window(a, sep, 0, a.len() as int, a.len() as int);
}

} // verus!
