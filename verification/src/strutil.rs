//! Shared helpers for reading and writing decimal text: character
//! classification, digit parsing with overflow rejection, and rendering of
//! numbers in a given base.

use vstd::prelude::*;

verus! {

/// The digit characters `0`-`9` followed by `a`-`z`, as used when rendering
/// a number in a base up to 36.
pub open spec fn base_digit_char(d: int) -> char
    recommends
        0 <= d < 36,
{
    if d < 10 {
        (('0' as u8) + d as u8) as char
    } else {
        (('a' as u8) + (d - 10) as u8) as char
    }
}

pub open spec fn is_digit_char(c: char) -> bool {
    '0' as u32 <= c as u32 <= '9' as u32
}

/// Numeric value of a decimal digit character.
pub open spec fn digit_char_val(c: char) -> int {
    c as u32 - '0' as u32
}

pub open spec fn all_digit_chars(s: Seq<char>) -> bool {
    forall|i: int| 0 <= i < s.len() ==> is_digit_char(#[trigger] s[i])
}

/// Value of a nonempty string of decimal digits, most significant first.
pub open spec fn digits_to_int(s: Seq<char>) -> int
    decreases s.len(),
{
    if s.len() == 0 {
        0
    } else {
        digits_to_int(s.drop_last()) * 10 + digit_char_val(s.last())
    }
}

/// The number parsed from `s` the way `str::parse` reads an unsigned
/// integer, ignoring any type bound: one optional leading `+`, then one or
/// more decimal digits; anything else is rejected.
pub open spec fn parse_uint(s: Seq<char>) -> Option<int> {
    let t = if s.len() > 0 && s[0] == '+' {
        s.drop_first()
    } else {
        s
    };
    if t.len() > 0 && all_digit_chars(t) {
        Some(digits_to_int(t))
    } else {
        None
    }
}

/// The digits of `n` in base `b`, most significant first, with no leading
/// zeros; `0` renders as `"0"`.
pub open spec fn nat_to_base(n: int, b: int) -> Seq<char>
    decreases n,
        when 0 <= n && 2 <= b <= 36
        via nat_to_base_decreases
{
    if n < b {
        seq![base_digit_char(n)]
    } else {
        nat_to_base(n / b, b).push(base_digit_char(n % b))
    }
}

#[via_fn]
proof fn nat_to_base_decreases(n: int, b: int) {
    assert(b <= n ==> 0 <= n / b < n) by (nonlinear_arith)
        requires
            0 <= n && 2 <= b,
    ;
}

/// Decimal rendering of `n`.
pub open spec fn dec_str(n: int) -> Seq<char> {
    nat_to_base(n, 10)
}

/// Decimal rendering of `n`, left-padded with zeros to at least `width`
/// characters.
pub open spec fn padded_dec_str(n: int, width: int) -> Seq<char> {
    if dec_str(n).len() >= width {
        dec_str(n)
    } else {
        Seq::new((width - dec_str(n).len()) as nat, |i: int| '0') + dec_str(n)
    }
}

/// The characters of `s`, one by one.
pub fn chars_of(s: &str) -> (v: Vec<char>)
    ensures
        v@ == s@,
{
    let n = s.unicode_len();
    let mut v: Vec<char> = Vec::new();
    for i in 0..n
        invariant
            n == s@.len(),
            v@ == s@.take(i as int),
    {
        v.push(s.get_char(i));
        assert(v@ =~= s@.take(i + 1));
    }
    assert(v@ =~= s@);
    v
}

/// Character-by-character string equality.
pub fn str_eq(a: &str, b: &str) -> (r: bool)
    ensures
        r <==> a@ == b@,
{
    let na = a.unicode_len();
    let nb = b.unicode_len();
    if na != nb {
        return false;
    }
    for i in 0..na
        invariant
            na == a@.len() && na == b@.len(),
            forall|j: int| 0 <= j < i ==> a@[j] == b@[j],
    {
        if a.get_char(i) != b.get_char(i) {
            return false;
        }
    }
    assert(a@ =~= b@);
    true
}

/// Parses `v[from..to]` as an unsigned decimal number the way `str::parse`
/// does, rejecting values above `max`.
pub fn parse_uint_bounded(v: &Vec<char>, from: usize, to: usize, max: u64) -> (r: Option<u64>)
    requires
        from <= to <= v@.len(),
        max <= 0xFFFF_FFFF,
    ensures
        match r {
            Some(n) => parse_uint(v@.subrange(from as int, to as int)) == Some(n as int) && n
                <= max,
            None => match parse_uint(v@.subrange(from as int, to as int)) {
                Some(n) => n > max,
                None => true,
            },
        },
{
    let ghost whole: Seq<char> = v@.subrange(from as int, to as int);
    let mut i = from;
    if i < to && v[i] == '+' {
        i = i + 1;
        assert(whole[0] == '+');
    }
    let ghost t = v@.subrange(i as int, to as int);
    assert(parse_uint(whole) == if t.len() > 0 && all_digit_chars(t) {
        Some(digits_to_int(t))
    } else {
        Option::<int>::None
    }) by {
        if whole.len() > 0 && whole[0] == '+' {
            assert(whole.drop_first() =~= t);
        } else {
            assert(whole =~= t);
        }
    }
    if i == to {
        return None;
    }
    let mut acc: u64 = 0;
    let mut j = i;
    while j < to
        invariant
            i <= j <= to <= v@.len(),
            t == v@.subrange(i as int, to as int),
            t.len() > 0,
            max <= 0xFFFF_FFFF,
            parse_uint(v@.subrange(from as int, to as int)) == (if all_digit_chars(t) {
                Some(digits_to_int(t))
            } else {
                Option::<int>::None
            }),
            all_digit_chars(v@.subrange(i as int, j as int)),
            acc == digits_to_int(v@.subrange(i as int, j as int)),
            acc <= max,
        decreases to - j,
    {
        let c = v[j];
        let cv = c as u32;
        if cv < '0' as u32 || cv > '9' as u32 {
            assert(t[j - i] == c && !is_digit_char(c));
            return None;
        }
        let d = (cv - '0' as u32) as u64;
        let next = acc * 10 + d;
        proof {
            let p = v@.subrange(i as int, (j + 1) as int);
            assert(p.drop_last() =~= v@.subrange(i as int, j as int));
            assert(p.last() == c);
            assert(digit_char_val(c) == d);
            assert(digits_to_int(p) == next);
            assert forall|k: int| 0 <= k < p.len() implies is_digit_char(#[trigger] p[k]) by {
                if k < j - i {
                    assert(p[k] == v@.subrange(i as int, j as int)[k]);
                } else {
                    assert(p[k] == c);
                }
            }
        }
        if next > max {
            proof {
                let p = v@.subrange(i as int, (j + 1) as int);
                if all_digit_chars(t) {
                    digits_to_int_grows(p, t);
                }
            }
            return None;
        }
        acc = next;
        j = j + 1;
    }
    assert(v@.subrange(i as int, to as int) =~= t);
    Some(acc)
}

/// A longer digit string never has a smaller value: `p` is a prefix of `t`,
/// so the value of `t` is at least the value of `p`.
proof fn digits_to_int_grows(p: Seq<char>, t: Seq<char>)
    requires
        p.len() <= t.len(),
        forall|i: int| 0 <= i < p.len() ==> p[i] == t[i],
        all_digit_chars(t),
        p.len() > 0,
    ensures
        digits_to_int(t) >= digits_to_int(p),
        digits_to_int(p) >= 0,
    decreases t.len(),
{
    digits_to_int_nonneg(p);
    if t.len() > p.len() {
        digits_to_int_grows(p, t.drop_last());
        assert(all_digit_chars(t.drop_last()));
        assert(digits_to_int(t.drop_last()) >= digits_to_int(p));
        assert(digit_char_val(t.last()) >= 0);
        assert(digits_to_int(t) >= digits_to_int(t.drop_last()) * 10);
    } else {
        assert(p =~= t);
    }
}

/// The value of a digit string is non-negative.
proof fn digits_to_int_nonneg(s: Seq<char>)
    requires
        all_digit_chars(s),
    ensures
        digits_to_int(s) >= 0,
    decreases s.len(),
{
    if s.len() > 0 {
        assert(all_digit_chars(s.drop_last()));
        digits_to_int_nonneg(s.drop_last());
    }
}

/// A successfully parsed number is never negative.
pub proof fn lemma_parse_uint_nonneg(s: Seq<char>)
    ensures
        parse_uint(s) matches Some(n) ==> n >= 0,
{
    let t = if s.len() > 0 && s[0] == '+' {
        s.drop_first()
    } else {
        s
    };
    if t.len() > 0 && all_digit_chars(t) {
        digits_to_int_nonneg(t);
    }
}

/// The single-character string for digit value `d`.
pub fn digit_str(d: u32) -> (s: &'static str)
    requires
        d < 36,
    ensures
        s@ =~= seq![base_digit_char(d as int)],
        s@.len() == 1,
{
    let s: &'static str = match d {
        0 => "0",
        1 => "1",
        2 => "2",
        3 => "3",
        4 => "4",
        5 => "5",
        6 => "6",
        7 => "7",
        8 => "8",
        9 => "9",
        10 => "a",
        11 => "b",
        12 => "c",
        13 => "d",
        14 => "e",
        15 => "f",
        16 => "g",
        17 => "h",
        18 => "i",
        19 => "j",
        20 => "k",
        21 => "l",
        22 => "m",
        23 => "n",
        24 => "o",
        25 => "p",
        26 => "q",
        27 => "r",
        28 => "s",
        29 => "t",
        30 => "u",
        31 => "v",
        32 => "w",
        33 => "x",
        34 => "y",
        _ => "z",
    };
    proof {
        reveal_strlit("0");
        reveal_strlit("1");
        reveal_strlit("2");
        reveal_strlit("3");
        reveal_strlit("4");
        reveal_strlit("5");
        reveal_strlit("6");
        reveal_strlit("7");
        reveal_strlit("8");
        reveal_strlit("9");
        reveal_strlit("a");
        reveal_strlit("b");
        reveal_strlit("c");
        reveal_strlit("d");
        reveal_strlit("e");
        reveal_strlit("f");
        reveal_strlit("g");
        reveal_strlit("h");
        reveal_strlit("i");
        reveal_strlit("j");
        reveal_strlit("k");
        reveal_strlit("l");
        reveal_strlit("m");
        reveal_strlit("n");
        reveal_strlit("o");
        reveal_strlit("p");
        reveal_strlit("q");
        reveal_strlit("r");
        reveal_strlit("s");
        reveal_strlit("t");
        reveal_strlit("u");
        reveal_strlit("v");
        reveal_strlit("w");
        reveal_strlit("x");
        reveal_strlit("y");
        reveal_strlit("z");
    }
    s
}

/// Renders `n` in base `b` with lowercase digits, as `nat_to_base` states.
pub fn base_str(n: u32, b: u32) -> (s: String)
    requires
        2 <= b <= 36,
    ensures
        s@ == nat_to_base(n as int, b as int),
    decreases n,
{
    if n < b {
        String::from_str(digit_str(n))
    } else {
        proof {
            assert((n as int) / (b as int) < n as int) by (nonlinear_arith)
                requires
                    2 <= b as int,
                    b as int <= n as int,
            ;
        }
        let mut s = base_str(n / b, b);
        let d = n % b;
        s.append(digit_str(d));
        assert(s@ =~= nat_to_base(n as int, b as int));
        s
    }
}

/// Decimal rendering of `n`.
pub fn dec_string(n: u32) -> (s: String)
    ensures
        s@ == dec_str(n as int),
{
    base_str(n, 10)
}

/// Decimal rendering of `n`, zero-padded on the left to at least `width`
/// characters (`width` at most 4).
pub fn padded_dec_string(n: u32, width: u32) -> (s: String)
    requires
        width <= 4,
    ensures
        s@ == padded_dec_str(n as int, width as int),
{
    let digits = dec_string(n);
    let mut s = String::new();
    let len = digits.as_str().unicode_len();
    let mut k = len;
    while k < width as usize
        invariant
            s@ =~= Seq::new((k - len) as nat, |i: int| '0') || k == len,
            k == len ==> s@ =~= Seq::<char>::empty(),
            len == dec_str(n as int).len(),
            len <= k,
            k <= width || k == len,
        decreases width - k,
    {
        proof {
            reveal_strlit("0");
        }
        s.append("0");
        assert(s@ =~= Seq::new((k + 1 - len) as nat, |i: int| '0'));
        k = k + 1;
    }
    s.append(digits.as_str());
    assert(s@ =~= padded_dec_str(n as int, width as int));
    s
}

} // verus!
