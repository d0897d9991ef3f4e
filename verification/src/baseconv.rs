//! Conversion of numerals between bases 2 to 36: parsing of an
//! `digits(base)` input, evaluation of the digits, and rendering in a
//! target base.

use vstd::prelude::*;
use crate::dates::{find_char, lemma_find_char};
use crate::strutil::{
    all_digit_chars,
    base_digit_char,
    base_str,
    chars_of,
    nat_to_base,
    parse_uint,
    parse_uint_bounded,
};

verus! {

/// Digit value of a character as `char::to_digit` reads it: decimal digits,
/// then lowercase and uppercase letters; 36 marks a non-digit.
pub open spec fn char_digit(c: char) -> int {
    if '0' as u32 <= c as u32 <= '9' as u32 {
        c as u32 - '0' as u32
    } else if 'a' as u32 <= c as u32 <= 'z' as u32 {
        c as u32 - 'a' as u32 + 10
    } else if 'A' as u32 <= c as u32 <= 'Z' as u32 {
        c as u32 - 'A' as u32 + 10
    } else {
        36
    }
}

/// Every character is a digit of base `b`.
pub open spec fn all_base_digits(s: Seq<char>, b: int) -> bool {
    forall|i: int| 0 <= i < s.len() ==> char_digit(#[trigger] s[i]) < b
}

/// Value of a digit string in base `b`, most significant digit first; the
/// empty string has value 0.
pub open spec fn digits_value(s: Seq<char>, b: int) -> int
    decreases s.len(),
{
    if s.len() == 0 {
        0
    } else {
        digits_value(s.drop_last(), b) * b + char_digit(s.last())
    }
}

/// `s` with every trailing `)` removed.
pub open spec fn strip_trailing_parens(s: Seq<char>) -> Seq<char>
    decreases s.len(),
{
    if s.len() > 0 && s.last() == ')' {
        strip_trailing_parens(s.drop_last())
    } else {
        s
    }
}

/// How `parse_input` reads `digits(base)` text: the digits before the first
/// `(`, and the base that the rest parses to once trailing `)` are removed.
pub open spec fn spec_parse_input(s: Seq<char>) -> Option<(Seq<char>, int)> {
    let i = find_char(s, '(');
    if i >= s.len() {
        None
    } else {
        let num = s.subrange(0, i);
        let rest = strip_trailing_parens(s.subrange(i + 1, s.len() as int));
        match parse_uint(rest) {
            Some(b) => if b <= u32::MAX {
                Some((num, b))
            } else {
                None
            },
            None => None,
        }
    }
}

/// A digit string's value is not less than the value of any of its
/// prefixes.
proof fn lemma_digits_value_grows(p: Seq<char>, s: Seq<char>, b: int)
    requires
        2 <= b,
        p.len() <= s.len(),
        forall|i: int| 0 <= i < p.len() ==> p[i] == s[i],
    ensures
        digits_value(s, b) >= digits_value(p, b),
        digits_value(p, b) >= 0,
    decreases s.len(),
{
    if p.len() == 0 {
        lemma_digits_value_nonneg(s, b);
    } else if s.len() > p.len() {
        lemma_digits_value_grows(p, s.drop_last(), b);
        lemma_digits_value_nonneg(s.drop_last(), b);
        assert(digits_value(s, b) >= digits_value(s.drop_last(), b) * b) by (nonlinear_arith)
            requires
                digits_value(s, b) == digits_value(s.drop_last(), b) * b + char_digit(s.last()),
                char_digit(s.last()) >= 0,
        ;
        assert(digits_value(s.drop_last(), b) * b >= digits_value(s.drop_last(), b))
            by (nonlinear_arith)
            requires
                digits_value(s.drop_last(), b) >= 0,
                b >= 2,
        ;
    } else {
        assert(p =~= s);
        lemma_digits_value_nonneg(s, b);
    }
}

proof fn lemma_digits_value_nonneg(s: Seq<char>, b: int)
    requires
        2 <= b,
    ensures
        digits_value(s, b) >= 0,
    decreases s.len(),
{
    if s.len() > 0 {
        lemma_digits_value_nonneg(s.drop_last(), b);
        assert(digits_value(s.drop_last(), b) * b >= 0) by (nonlinear_arith)
            requires
                digits_value(s.drop_last(), b) >= 0,
                b >= 2,
        ;
    }
}

/// Round trip: rendering a value in base `b` yields digits of base `b`
/// whose value is the original number, so converting a numeral to any base
/// and back preserves its numeric value.
pub proof fn lemma_base_round_trip(v: int, b: int)
    requires
        0 <= v,
        2 <= b <= 36,
    ensures
        all_base_digits(nat_to_base(v, b), b),
        digits_value(nat_to_base(v, b), b) == v,
    decreases v,
{
    if v < b {
        assert(char_digit(base_digit_char(v)) == v);
        assert(nat_to_base(v, b) =~= seq![base_digit_char(v)]);
        assert(nat_to_base(v, b).drop_last() =~= Seq::<char>::empty());
        assert(digits_value(Seq::<char>::empty(), b) == 0);
        assert(nat_to_base(v, b).last() == base_digit_char(v));
        assert(digits_value(nat_to_base(v, b), b) == 0 * b + char_digit(base_digit_char(v)));
    } else {
        assert(0 <= v / b < v) by (nonlinear_arith)
            requires
                2 <= b <= v,
        ;
        lemma_base_round_trip(v / b, b);
        let r = nat_to_base(v, b);
        assert(r == nat_to_base(v / b, b).push(base_digit_char(v % b)));
        assert(r.drop_last() =~= nat_to_base(v / b, b));
        assert(0 <= v % b < b);
        assert(char_digit(base_digit_char(v % b)) == v % b);
        assert(digits_value(r, b) == (v / b) * b + v % b);
        assert((v / b) * b + v % b == v) by (nonlinear_arith)
            requires
                b != 0,
        ;
        assert forall|i: int| 0 <= i < r.len() implies char_digit(#[trigger] r[i]) < b by {
            if i < r.len() - 1 {
                assert(r[i] == nat_to_base(v / b, b)[i]);
            }
        }
    }
}

/// Digit value of `c` when read in `base`, or `None` when `c` is no digit
/// of that base.
pub fn char_to_digit(c: char, base: u32) -> (r: Option<u32>)
    requires
        2 <= base <= 36,
    ensures
        match r {
            Some(d) => char_digit(c) == d as int && d < base,
            None => char_digit(c) >= base,
        },
{
    let cv = c as u32;
    let d: u32 = if cv >= '0' as u32 && cv <= '9' as u32 {
        cv - '0' as u32
    } else if cv >= 'a' as u32 && cv <= 'z' as u32 {
        cv - 'a' as u32 + 10
    } else if cv >= 'A' as u32 && cv <= 'Z' as u32 {
        cv - 'A' as u32 + 10
    } else {
        return None;
    };
    if d < base {
        Some(d)
    } else {
        None
    }
}

/// The digit character for a value below 36, `None` from 36 up.
pub fn digit_to_char(digit: u32) -> (r: Option<char>)
    ensures
        match r {
            Some(c) => digit < 36 && c == base_digit_char(digit as int),
            None => digit >= 36,
        },
{
    if digit <= 9 {
        Some((('0' as u8) + digit as u8) as char)
    } else if digit <= 35 {
        Some((('a' as u8) + (digit - 10) as u8) as char)
    } else {
        None
    }
}

/// A numeral held as its numeric value.
pub struct BaseConversion {
    pub value: u32,
}

impl BaseConversion {
    /// Reads `num` as digits of `base`.
    pub fn from(num: &str, base: u32) -> (r: BaseConversion)
        requires
            2 <= base <= 36,
            all_base_digits(num@, base as int),
            digits_value(num@, base as int) <= u32::MAX,
        ensures
            r.value == digits_value(num@, base as int),
    {
        let v = chars_of(num);
        let n = v.len();
        let mut value: u64 = 0;
        let mut i: usize = 0;
        while i < n
            invariant
                0 <= i <= n,
                n == num@.len(),
                v@ == num@,
                2 <= base <= 36,
                all_base_digits(num@, base as int),
                digits_value(num@, base as int) <= u32::MAX,
                value == digits_value(num@.take(i as int), base as int),
                value <= u32::MAX,
            decreases n - i,
        {
            let c = v[i];
            let d = match char_to_digit(c, base) {
                Some(d) => d,
                None => {
                    proof {
                        assert(char_digit(num@[i as int]) < base);
                    }
                    0
                },
            };
            proof {
                assert(num@.take(i + 1).drop_last() =~= num@.take(i as int));
                assert(num@.take(i + 1).last() == c);
                lemma_digits_value_grows(num@.take(i + 1), num@, base as int);
            }
            value = value * (base as u64) + (d as u64);
            i = i + 1;
        }
        assert(num@.take(n as int) =~= num@);
        BaseConversion { value: value as u32 }
    }

    /// Renders the value in `target_base` with lowercase digits.
    pub fn to(&self, target_base: u32) -> (r: String)
        requires
            2 <= target_base <= 36,
        ensures
            r@ == nat_to_base(self.value as int, target_base as int),
    {
        base_str(self.value, target_base)
    }
}

/// Splits `digits(base)` text into the digit part and the base.
pub fn parse_input(input: &str) -> (r: (String, u32))
    requires
        spec_parse_input(input@) is Some,
    ensures
        spec_parse_input(input@) == Some((r.0@, r.1 as int)),
{
    let v = chars_of(input);
    let n = v.len();
    let ghost s = input@;
    let mut i: usize = 0;
    while i < n && v[i] != '('
        invariant
            0 <= i <= n,
            n == s.len(),
            v@ == s,
            forall|j: int| 0 <= j < i ==> s[j] != '(',
        decreases n - i,
    {
        i = i + 1;
    }
    proof {
        lemma_find_char(s, '(', i as int);
    }
    let num = String::from_str(input.substring_char(0, i));

    let mut e = n;
    while e > i + 1 && v[e - 1] == ')'
        invariant
            i + 1 <= e <= n,
            n == s.len(),
            v@ == s,
            i < n,
            strip_trailing_parens(s.subrange(i + 1, n as int)) == strip_trailing_parens(
                s.subrange(i + 1, e as int),
            ),
        decreases e,
    {
        proof {
            assert(s.subrange(i + 1, e as int).last() == ')');
            assert(s.subrange(i + 1, e as int).drop_last() =~= s.subrange(i + 1, e - 1));
        }
        e = e - 1;
    }
    proof {
        if e > i + 1 {
            assert(s.subrange(i + 1, e as int).last() != ')');
        } else {
            assert(s.subrange(i + 1, e as int).len() == 0);
        }
        assert(strip_trailing_parens(s.subrange(i + 1, e as int)) == s.subrange(i + 1, e as int));
    }
    let base = match parse_uint_bounded(&v, i + 1, e, 0xFFFF_FFFF) {
        Some(b) => b as u32,
        None => {
            proof {
                assert(false);
            }
            0
        },
    };
    (num, base)
}

/// Converts the numeral `num_str`, written as `digits(base)`, to
/// `to_base`, rendering with lowercase digits.
pub fn convert_base(num_str: &str, to_base: u32) -> (r: String)
    requires
        2 <= to_base <= 36,
        spec_parse_input(num_str@) matches Some((num, b)) && 2 <= b <= 36 && all_base_digits(num, b)
            && digits_value(num, b) <= u32::MAX,
    ensures
        ({
            let (num, b) = spec_parse_input(num_str@)->Some_0;
            r@ == nat_to_base(digits_value(num, b), to_base as int)
        }),
{
    let (num, base) = parse_input(num_str);
    let value = BaseConversion::from(num.as_str(), base);
    value.to(to_base)
}

} // verus!
