//! Text helpers of the front-end menu's host calls: picking a field out of
//! a delimited string.

use vstd::prelude::*;

use crate::text::{chars_of, string_from_chars, trim, trim_chars};

verus! {

/// `d` occurs in `s` at position `i`.
pub open spec fn occurs_at(s: Seq<char>, d: Seq<char>, i: int) -> bool {
    0 <= i && i + d.len() <= s.len() && s.subrange(i, i + d.len()) == d
}

/// The first position at or after `from` where `d` occurs in `s`, or -1.
pub open spec fn find_from(s: Seq<char>, d: Seq<char>, from: int) -> int
    decreases s.len() + 1 - from,
{
    if from < 0 || from + d.len() > s.len() {
        -1
    } else if occurs_at(s, d, from) {
        from
    } else {
        find_from(s, d, from + 1)
    }
}

/// `s` cut at each occurrence of the non-empty delimiter `d`, from the
/// left.
pub open spec fn split_on(s: Seq<char>, d: Seq<char>) -> Seq<Seq<char>>
    decreases s.len(),
{
    let i = find_from(s, d, 0);
    if d.len() == 0 || i < 0 {
        seq![s]
    } else {
        proof {
            lemma_find_from_bounds(s, d, 0);
        }
        seq![s.subrange(0, i)] + split_on(s.subrange(i + d.len(), s.len() as int), d)
    }
}

/// A position found lies where `d` occurs, from `from` on.
pub proof fn lemma_find_from_bounds(s: Seq<char>, d: Seq<char>, from: int)
    ensures
        find_from(s, d, from) >= 0 ==> from <= find_from(s, d, from) && occurs_at(s, d, find_from(s, d, from)),
        find_from(s, d, from) >= 0 || find_from(s, d, from) == -1,
    decreases s.len() + 1 - from,
{
    if from >= 0 && from + d.len() <= s.len() && !occurs_at(s, d, from) {
        lemma_find_from_bounds(s, d, from + 1);
    }
}

/// The number that decimal digits write, if all are digits.
pub open spec fn decimal_value(s: Seq<char>) -> Option<nat>
    decreases s.len(),
{
    if s.len() == 0 {
        Some(0)
    } else {
        match decimal_value(s.drop_last()) {
            Some(v) => if '0' <= s.last() <= '9' {
                Some((v * 10 + (s.last() as nat - '0' as nat)) as nat)
            } else {
                None
            },
            None => None,
        }
    }
}

/// An unsigned number written in decimal with an optional `+`, as Rust
/// reads a `usize`; 0 when it is not one or does not fit.
pub open spec fn usize_or_zero(s: Seq<char>) -> nat {
    let d = if s.len() >= 1 && s[0] == '+' {
        s.subrange(1, s.len() as int)
    } else {
        s
    };
    if d.len() == 0 {
        0
    } else {
        match decimal_value(d) {
            Some(v) => if v <= usize::MAX {
                v
            } else {
                0
            },
            None => 0,
        }
    }
}

/// The field that `field` (a number from 1, spaces around it allowed)
/// names in `source` split on `delim` (the whole of `source` for an empty
/// delimiter); empty when there is no such field.
pub open spec fn sub_field(source: Seq<char>, delim: Seq<char>, field: Seq<char>) -> Seq<char> {
    let n = usize_or_zero(trim(field));
    let fields = if delim.len() == 0 {
        seq![source]
    } else {
        split_on(source, delim)
    };
    if n == 0 || n > fields.len() {
        Seq::empty()
    } else {
        fields[n - 1]
    }
}

/// Reads a decimal `usize` the way Rust parses one, 0 when it does not
/// parse.
fn parse_usize_or_zero(s: &Vec<char>) -> (r: usize)
    ensures
        r == usize_or_zero(s@),
{
    let mut start: usize = 0;
    if s.len() >= 1 && s[0] == '+' {
        start = 1;
    }
    let ghost d = s@.subrange(start as int, s@.len() as int);
    assert(d == (if s@.len() >= 1 && s@[0] == '+' {
        s@.subrange(1, s@.len() as int)
    } else {
        s@
    }));
    if start == s.len() {
        return 0;
    }
    let mut value: usize = 0;
    let mut i: usize = start;
    while i < s.len()
        invariant
            start <= i <= s@.len(),
            start < s@.len(),
            d == s@.subrange(start as int, s@.len() as int),
            usize_or_zero(s@) == match decimal_value(d) {
                Some(v) => if v <= usize::MAX {
                    v
                } else {
                    0
                },
                None => 0,
            },
            decimal_value(s@.subrange(start as int, i as int)) == Some(value as nat),
        decreases s@.len() - i,
    {
        let c = s[i];
        let ghost prefix = s@.subrange(start as int, i as int);
        assert(s@.subrange(start as int, i + 1).drop_last() =~= prefix);
        if !('0' <= c && c <= '9') {
            proof {
                assert(d[i - start] == c);
                lemma_decimal_invalid(d, (i - start) as int);
            }
            return 0;
        }
        let digit = (c as u32 - '0' as u32) as usize;
        if value > (usize::MAX - digit) / 10 {
            proof {
                assert(value * 10 + digit > usize::MAX) by (nonlinear_arith)
                    requires value > (usize::MAX - digit) / 10, digit <= 9;
                lemma_decimal_grows(d, (i - start + 1) as int);
                assert(s@.subrange(start as int, i + 1) =~= d.subrange(0, i - start + 1));
            }
            return 0;
        }
        value = value * 10 + digit;
        i = i + 1;
    }
    assert(s@.subrange(start as int, s@.len() as int) =~= d);
    value
}

/// A non-digit anywhere makes the whole not a number.
proof fn lemma_decimal_invalid(s: Seq<char>, i: int)
    requires
        0 <= i < s.len(),
        !('0' <= s[i] <= '9'),
    ensures
        decimal_value(s) is None,
    decreases s.len(),
{
    if i < s.len() - 1 {
        lemma_decimal_invalid(s.drop_last(), i);
    }
}

/// A number is at least what any of its prefixes write.
proof fn lemma_decimal_grows(s: Seq<char>, k: int)
    requires
        0 <= k <= s.len(),
    ensures
        decimal_value(s) matches Some(v) ==> decimal_value(s.subrange(0, k)) matches Some(w) && w <= v,
    decreases s.len(),
{
    if k < s.len() {
        lemma_decimal_grows(s.drop_last(), k);
        assert(s.drop_last().subrange(0, k) =~= s.subrange(0, k));
    } else {
        assert(s.subrange(0, k) =~= s);
    }
}

/// A signed number written in decimal with an optional `+` or `-`, as
/// Rust reads an `i32`; 0 when it is not one or does not fit.
pub open spec fn i32_or_zero(s: Seq<char>) -> int {
    let neg = s.len() >= 1 && s[0] == '-';
    let d = if s.len() >= 1 && (s[0] == '+' || s[0] == '-') {
        s.subrange(1, s.len() as int)
    } else {
        s
    };
    if d.len() == 0 {
        0
    } else {
        match decimal_value(d) {
            Some(v) => {
                let x = if neg {
                    -v
                } else {
                    v as int
                };
                if i32::MIN <= x <= i32::MAX {
                    x
                } else {
                    0
                }
            },
            None => 0,
        }
    }
}

/// Reads a decimal `i32` the way Rust parses one, 0 when it does not
/// parse.
pub fn parse_i32_or_zero(s: &Vec<char>) -> (r: i32)
    ensures
        r == i32_or_zero(s@),
{
    let neg = s.len() >= 1 && s[0] == '-';
    let mut start: usize = 0;
    if s.len() >= 1 && (s[0] == '+' || s[0] == '-') {
        start = 1;
    }
    let ghost d = s@.subrange(start as int, s@.len() as int);
    assert(d == (if s@.len() >= 1 && (s@[0] == '+' || s@[0] == '-') {
        s@.subrange(1, s@.len() as int)
    } else {
        s@
    }));
    if start == s.len() {
        return 0;
    }
    let mut value: u64 = 0;
    let mut i: usize = start;
    while i < s.len()
        invariant
            start <= i <= s@.len(),
            start < s@.len(),
            d == s@.subrange(start as int, s@.len() as int),
            value <= 0x8000_0000,
            neg == (s@.len() >= 1 && s@[0] == '-'),
            i32_or_zero(s@) == match decimal_value(d) {
                Some(v) => {
                    let x = if neg {
                        -v
                    } else {
                        v as int
                    };
                    if i32::MIN <= x <= i32::MAX {
                        x
                    } else {
                        0
                    }
                },
                None => 0,
            },
            decimal_value(s@.subrange(start as int, i as int)) == Some(value as nat),
        decreases s@.len() - i,
    {
        let c = s[i];
        let ghost prefix = s@.subrange(start as int, i as int);
        assert(s@.subrange(start as int, i + 1).drop_last() =~= prefix);
        if !('0' <= c && c <= '9') {
            proof {
                assert(d[i - start] == c);
                lemma_decimal_invalid(d, (i - start) as int);
            }
            return 0;
        }
        let digit = (c as u32 - '0' as u32) as u64;
        value = value * 10 + digit;
        i = i + 1;
        if value > 0x8000_0000 {
            proof {
                lemma_decimal_grows(d, (i - start) as int);
                assert(s@.subrange(start as int, i as int) =~= d.subrange(0, i - start));
            }
            return 0;
        }
    }
    assert(s@.subrange(start as int, s@.len() as int) =~= d);
    if neg {
        (0 - (value as i64)) as i32
    } else if value <= 0x7fff_ffff {
        value as i32
    } else {
        0
    }
}

/// Whether `d` occurs in `s` at `i`.
fn occurs_here(s: &Vec<char>, d: &Vec<char>, i: usize) -> (r: bool)
    requires
        i + d@.len() <= s@.len(),
    ensures
        r == occurs_at(s@, d@, i as int),
{
    let n = s.len();
    let mut k: usize = 0;
    while k < d.len()
        invariant
            n == s@.len(),
            k <= d@.len(),
            i + d@.len() <= s@.len(),
            forall|j: int| 0 <= j < k ==> s@[i + j] == d@[j],
        decreases d@.len() - k,
    {
        if s[i + k] != d[k] {
            assert(s@.subrange(i as int, i + d@.len())[k as int] == s@[i + k]);
            return false;
        }
        k = k + 1;
    }
    assert(s@.subrange(i as int, i + d@.len()) =~= d@);
    true
}

/// The first position at or after `from` where `d` occurs in `s`.
fn find_delim(s: &Vec<char>, d: &Vec<char>, from: usize) -> (r: Option<usize>)
    requires
        from <= s@.len(),
    ensures
        match r {
            Some(i) => i as int == find_from(s@, d@, from as int),
            None => find_from(s@, d@, from as int) == -1,
        },
{
    let n = s.len();
    let mut i = from;
    while i <= n && n - i >= d.len()
        invariant
            n == s@.len(),
            from <= i,
            i <= n + 1,
            find_from(s@, d@, i as int) == find_from(s@, d@, from as int),
        decreases n + 1 - i,
    {
        if occurs_here(s, d, i) {
            return Some(i);
        }
        assert(i < n) by {
            if i == n {
                assert(s@.subrange(i as int, i + d@.len()) =~= d@);
            }
        }
        i = i + 1;
    }
    None
}

/// Field `field` (from 1) of `source` split on `delim`: the `FHUI_StrSub`
/// host call of the front-end menu.
pub fn str_sub_field(source: &str, delim: &str, field: &str) -> (r: String)
    ensures
        r@ == sub_field(source@, delim@, field@),
{
    let n = parse_usize_or_zero(&trim_chars(&chars_of(field)));
    if n == 0 {
        return String::new();
    }
    let s = chars_of(source);
    let d = chars_of(delim);
    if d.len() == 0 {
        if n == 1 {
            return string_from_chars(s.as_slice());
        }
        return String::new();
    }
    // Walk the fields from the left, counting down to the one wanted.
    let slen = s.len();
    let mut rest_start: usize = 0;
    let mut left = n;
    assert(s@.subrange(0, s@.len() as int) =~= s@);
    loop
        invariant
            d@ == delim@,
            s@ == source@,
            slen == s@.len(),
            d@.len() > 0,
            rest_start <= s@.len(),
            1 <= left <= n,
            n == usize_or_zero(trim(field@)),
            ({
                let all = split_on(s@, d@);
                let rest = split_on(s@.subrange(rest_start as int, s@.len() as int), d@);
                &&& all.len() == (n - left) + rest.len()
                &&& (n <= all.len() ==> all[n - 1] == rest[left - 1])
            }),
        decreases s@.len() - rest_start,
    {
        let ghost rest = s@.subrange(rest_start as int, s@.len() as int);
        match find_delim(&s, &d, rest_start) {
            Some(i) => {
                proof {
                    lemma_find_shift(s@, d@, rest_start as int);
                    lemma_find_from_bounds(s@, d@, rest_start as int);
                    let j = i - rest_start;
                    assert(find_from(rest, d@, 0) == j);
                    assert(rest.subrange(0, j) =~= s@.subrange(rest_start as int, i as int));
                    assert(rest.subrange(j + d@.len(), rest.len() as int) =~= s@.subrange(
                        i + d@.len(),
                        s@.len() as int,
                    ));
                    assert(split_on(rest, d@) == seq![rest.subrange(0, j)] + split_on(
                        rest.subrange(j + d@.len(), rest.len() as int),
                        d@,
                    ));
                }
                if left == 1 {
                    let mut out: Vec<char> = Vec::new();
                    let mut k = rest_start;
                    while k < i
                        invariant
                            rest_start <= k <= i,
                            i <= s@.len(),
                            out@ == s@.subrange(rest_start as int, k as int),
                        decreases i - k,
                    {
                        out.push(s[k]);
                        k = k + 1;
                        assert(out@ =~= s@.subrange(rest_start as int, k as int));
                    }
                    return string_from_chars(out.as_slice());
                }
                rest_start = i + d.len();
                left = left - 1;
            },
            None => {
                proof {
                    lemma_find_shift(s@, d@, rest_start as int);
                    assert(split_on(rest, d@) == seq![rest]);
                }
                if left == 1 {
                    let mut out: Vec<char> = Vec::new();
                    let mut k = rest_start;
                    while k < s.len()
                        invariant
                            rest_start <= k <= s@.len(),
                            out@ == s@.subrange(rest_start as int, k as int),
                        decreases s@.len() - k,
                    {
                        out.push(s[k]);
                        k = k + 1;
                        assert(out@ =~= s@.subrange(rest_start as int, k as int));
                    }
                    return string_from_chars(out.as_slice());
                }
                return String::new();
            },
        }
    }
}

/// Searching a suffix from its start is searching the whole from where the
/// suffix begins, shifted.
proof fn lemma_find_shift(s: Seq<char>, d: Seq<char>, a: int)
    requires
        0 <= a <= s.len(),
    ensures
        find_from(s.subrange(a, s.len() as int), d, 0) == if find_from(s, d, a) >= 0 {
            find_from(s, d, a) - a
        } else {
            -1
        },
{
    lemma_find_shift_from(s, d, a, a);
}

proof fn lemma_find_shift_from(s: Seq<char>, d: Seq<char>, a: int, b: int)
    requires
        0 <= a <= b,
        a <= s.len(),
    ensures
        find_from(s.subrange(a, s.len() as int), d, b - a) == if find_from(s, d, b) >= 0 {
            find_from(s, d, b) - a
        } else {
            -1
        },
    decreases s.len() + 1 - b,
{
    let t = s.subrange(a, s.len() as int);
    lemma_find_from_bounds(s, d, b);
    if b + d.len() <= s.len() {
        assert(t.subrange(b - a, b - a + d.len()) =~= s.subrange(b, b + d.len()));
        if !occurs_at(s, d, b) {
            lemma_find_shift_from(s, d, a, b + 1);
        }
    }
}

} // verus!
