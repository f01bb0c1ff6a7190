//! The servers' options: the values given on the command line, by option
//! name, and reading an integer option with a default.
use vstd::prelude::*;
use crate::text::{
    chars_eq, copy_chars, decimal_chars, law_decimal_chars_is_numeral, numeral_chars_value, views,
};

verus! {

/// The value of a decimal digit character.
pub open spec fn digit_value(c: char) -> int {
    (c as int) - 48
}

pub open spec fn is_digit(c: char) -> bool {
    '0' <= c && c <= '9'
}

/// The value of the digits `s` (all decimal digits), most significant first.
pub open spec fn digits_value(s: Seq<char>) -> int
    decreases s.len(),
{
    if s.len() == 0 {
        0
    } else {
        digits_value(s.drop_last()) * 10 + digit_value(s.last())
    }
}

/// Every character of `d` is a decimal digit.
pub open spec fn all_digits(d: Seq<char>) -> bool {
    forall|i: int| 0 <= i < d.len() ==> is_digit(#[trigger] d[i])
}

/// The length of the sign that `s` starts with (0 or 1).
pub open spec fn sign_len(s: Seq<char>) -> int {
    if s.len() > 0 && (s[0] == '-' || s[0] == '+') {
        1
    } else {
        0
    }
}

/// The integer that `s` writes: an optional `+` or `-`, then at least one
/// decimal digit and nothing else, with a value that fits an `i64`.
pub open spec fn parse_int_spec(s: Seq<char>) -> Option<i64> {
    let digits = s.subrange(sign_len(s), s.len() as int);
    let v = if s.len() > 0 && s[0] == '-' {
        -digits_value(digits)
    } else {
        digits_value(digits)
    };
    if digits.len() > 0 && all_digits(digits) && i64::MIN <= v <= i64::MAX {
        Some(v as i64)
    } else {
        None
    }
}

/// The digits are read as `numeral_chars_value` reads them.
proof fn lemma_digits_value_is_numeral(s: Seq<char>)
    ensures
        digits_value(s) == numeral_chars_value(s),
    decreases s.len(),
{
    if s.len() > 0 {
        lemma_digits_value_is_numeral(s.drop_last());
    }
}

/// Law: an integer written in decimal is read back as itself: its digits,
/// after an optional `+`, give it, and after a `-` give its negation, as
/// far as the result fits an `i64`.
pub proof fn law_parse_int_reads_decimal(n: nat)
    ensures
        n <= i64::MAX ==> parse_int_spec(decimal_chars(n)) == Some(n as i64),
        n <= i64::MAX ==> parse_int_spec(seq!['+'] + decimal_chars(n)) == Some(n as i64),
        n <= i64::MAX + 1 ==> parse_int_spec(seq!['-'] + decimal_chars(n)) == Some((-n) as i64),
        n > i64::MAX ==> parse_int_spec(decimal_chars(n)) is None,
{
    law_decimal_chars_is_numeral(n);
    let d = decimal_chars(n);
    lemma_digits_value_is_numeral(d);
    assert(all_digits(d));
    assert(d.subrange(0, d.len() as int) =~= d);
    assert(sign_len(d) == 0);
    let plus = seq!['+'] + d;
    let minus = seq!['-'] + d;
    assert(plus.subrange(1, plus.len() as int) =~= d);
    assert(minus.subrange(1, minus.len() as int) =~= d);
    assert(sign_len(plus) == 1);
    assert(sign_len(minus) == 1);
}

proof fn lemma_digits_value_nonneg(s: Seq<char>)
    requires
        forall|i: int| 0 <= i < s.len() ==> is_digit(#[trigger] s[i]),
    ensures
        digits_value(s) >= 0,
    decreases s.len(),
{
    if s.len() > 0 {
        lemma_digits_value_nonneg(s.drop_last());
    }
}

proof fn lemma_digits_value_grows(s: Seq<char>, k: int)
    requires
        forall|i: int| 0 <= i < s.len() ==> is_digit(#[trigger] s[i]),
        0 <= k <= s.len(),
    ensures
        digits_value(s.subrange(0, k)) <= digits_value(s),
    decreases s.len() - k,
{
    if k < s.len() {
        lemma_digits_value_grows(s, k + 1);
        assert(s.subrange(0, k + 1).drop_last() =~= s.subrange(0, k));
        lemma_digits_value_nonneg(s.subrange(0, k));
    } else {
        assert(s.subrange(0, k) =~= s);
    }
}

/// Reads `s` as an integer, as `parse_int_spec` says.
pub fn parse_int(s: &[char]) -> (r: Option<i64>)
    ensures
        r == parse_int_spec(s@),
{
    let n = s.len();
    let negative = n > 0 && s[0] == '-';
    let start: usize = if n > 0 && (s[0] == '-' || s[0] == '+') {
        1
    } else {
        0
    };
    let ghost digits = s@.subrange(start as int, n as int);
    assert(digits == s@.subrange(sign_len(s@), s@.len() as int));
    if start >= n {
        return None;
    }
    // The magnitude of the value, which may reach 2^63 for a negative one.
    let limit: u64 = 9223372036854775808;
    let mut mag: u64 = 0;
    let mut i = start;
    while i < n
        invariant
            n == s@.len(),
            start <= i <= n,
            limit == 9223372036854775808,
            start as int == sign_len(s@),
            digits == s@.subrange(start as int, n as int),
            forall|j: int| start <= j < i ==> is_digit(#[trigger] s@[j]),
            mag == digits_value(s@.subrange(start as int, i as int)),
            mag <= limit,
        decreases n - i,
    {
        let c = s[i];
        assert(s@.subrange(start as int, i + 1).drop_last() =~= s@.subrange(start as int, i as int));
        if !('0' <= c && c <= '9') {
            proof {
                assert(digits[i - start] == s@[i as int]);
                assert(!is_digit(digits[i - start]));
                assert(!all_digits(digits));
            }
            return None;
        }
        let d: u64 = (c as u32 - 48) as u64;
        if mag > (limit - d) / 10 {
            proof {
                assert(mag * 10 + d > limit) by (nonlinear_arith)
                    requires
                        mag > (limit - d) / 10,
                        0 <= d <= 9,
                        limit == 9223372036854775808,
                ;
                assert(digits_value(s@.subrange(start as int, i + 1)) == mag * 10 + d);
                if all_digits(digits) {
                    lemma_digits_value_grows(digits, i + 1 - start);
                    assert(digits.subrange(0, i + 1 - start) =~= s@.subrange(start as int, i + 1));
                    assert(digits_value(digits) > 9223372036854775808int);
                }
            }
            return None;
        }
        proof {
            assert(mag * 10 + d <= limit) by (nonlinear_arith)
                requires
                    mag <= (limit - d) / 10,
                    0 <= d <= 9,
                    limit == 9223372036854775808,
            ;
        }
        mag = mag * 10 + d;
        i = i + 1;
    }
    proof {
        assert(s@.subrange(start as int, n as int) =~= digits);
        assert forall|j: int| 0 <= j < digits.len() implies is_digit(#[trigger] digits[j]) by {
            assert(digits[j] == s@[start + j]);
        }
        assert(all_digits(digits));
    }
    if negative {
        if mag == limit {
            Some(i64::MIN)
        } else {
            Some(-(mag as i64))
        }
    } else {
        if mag == limit {
            None
        } else {
            Some(mag as i64)
        }
    }
}

/// The options given on a command line: (name, value) pairs in the order
/// they were given.
pub struct Matches {
    values: Vec<(Vec<char>, Vec<char>)>,
}

/// The first value given for `key`.
pub open spec fn first_value(values: Seq<(Seq<char>, Seq<char>)>, key: Seq<char>) -> Option<
    Seq<char>,
>
    decreases values.len(),
{
    if values.len() == 0 {
        None
    } else if values[0].0 == key {
        Some(values[0].1)
    } else {
        first_value(values.drop_first(), key)
    }
}

impl Matches {
    /// The options, as (name, value) pairs.
    pub closed spec fn options(&self) -> Seq<(Seq<char>, Seq<char>)> {
        self.values@.map_values(|p: (Vec<char>, Vec<char>)| (p.0@, p.1@))
    }

    /// No options.
    pub fn new() -> (m: Matches)
        ensures
            m.options() == Seq::<(Seq<char>, Seq<char>)>::empty(),
    {
        let m = Matches { values: Vec::new() };
        assert(m.options() =~= Seq::<(Seq<char>, Seq<char>)>::empty());
        m
    }

    /// Records that option `name` was given the value `value`.
    pub fn add(&mut self, name: Vec<char>, value: Vec<char>)
        ensures
            final(self).options() == old(self).options().push((name@, value@)),
    {
        self.values.push((name, value));
        assert(self.options() =~= old(self).options().push((name@, value@)));
    }

    /// The first value given to the option `key`, if any.
    pub fn opt_str(&self, key: &[char]) -> (r: Option<Vec<char>>)
        ensures
            match r {
                Some(v) => first_value(self.options(), key@) == Some(v@),
                None => first_value(self.options(), key@) is None,
            },
    {
        let mut i: usize = 0;
        assert(self.options().subrange(0, self.options().len() as int) =~= self.options());
        while i < self.values.len()
            invariant
                i <= self.values@.len(),
                first_value(self.options(), key@) == first_value(
                    self.options().subrange(i as int, self.options().len() as int),
                    key@,
                ),
            decreases self.values@.len() - i,
        {
            let ghost rest = self.options().subrange(i as int, self.options().len() as int);
            assert(rest[0] == (self.values@[i as int].0@, self.values@[i as int].1@));
            if chars_eq(self.values[i].0.as_slice(), key) {
                let v = copy_chars(self.values[i].1.as_slice(), 0, self.values[i].1.len());
                assert(v@ =~= self.values@[i as int].1@);
                return Some(v);
            }
            assert(rest.drop_first() =~= self.options().subrange(
                i + 1,
                self.options().len() as int,
            ));
            i = i + 1;
        }
        assert(self.options().subrange(i as int, self.options().len() as int) =~= Seq::<
            (Seq<char>, Seq<char>),
        >::empty());
        None
    }
}

/// The integer value of the option `key`, or `default` when the option is
/// not given or its value is not an integer.
pub fn get_arg_int_by_key(matches: &Matches, key: &[char], default: i64) -> (r: i64)
    ensures
        r == (match first_value(matches.options(), key@) {
            Some(v) => match parse_int_spec(v) {
                Some(i) => i,
                None => default,
            },
            None => default,
        }),
{
    match matches.opt_str(key) {
        Some(p) => match parse_int(p.as_slice()) {
            Some(i) => i,
            None => default,
        },
        None => default,
    }
}

} // verus!
