//! Counting the distinct tokens of a comma-separated string: tokens are
//! trimmed of surrounding whitespace, empty tokens are dropped, and
//! duplicates count once.

use vstd::prelude::*;
use crate::dates::{find_char, lemma_find_char};
use crate::strutil::chars_of;

verus! {

/// The Unicode whitespace characters, as `char::is_whitespace` knows them.
pub open spec fn is_space(c: char) -> bool {
    ||| c as u32 == 0x20
    ||| (0x9 <= c as u32 <= 0xD)
    ||| c as u32 == 0x85
    ||| c as u32 == 0xA0
    ||| c as u32 == 0x1680
    ||| (0x2000 <= c as u32 <= 0x200A)
    ||| c as u32 == 0x2028
    ||| c as u32 == 0x2029
    ||| c as u32 == 0x202F
    ||| c as u32 == 0x205F
    ||| c as u32 == 0x3000
}

/// `s` without leading whitespace.
pub open spec fn trim_start(s: Seq<char>) -> Seq<char>
    decreases s.len(),
{
    if s.len() > 0 && is_space(s[0]) {
        trim_start(s.drop_first())
    } else {
        s
    }
}

/// `s` without trailing whitespace.
pub open spec fn trim_end(s: Seq<char>) -> Seq<char>
    decreases s.len(),
{
    if s.len() > 0 && is_space(s.last()) {
        trim_end(s.drop_last())
    } else {
        s
    }
}

/// `s` without surrounding whitespace.
pub open spec fn trim(s: Seq<char>) -> Seq<char> {
    trim_end(trim_start(s))
}

/// The trimmed, non-empty tokens of `s`, split at every comma, in order and
/// with duplicates kept.
pub open spec fn norm_tokens(s: Seq<char>) -> Seq<Seq<char>>
    decreases s.len(),
        via norm_tokens_decreases
{
    let i = find_char(s, ',');
    if i >= s.len() {
        if trim(s).len() > 0 {
            seq![trim(s)]
        } else {
            Seq::empty()
        }
    } else {
        let tok = trim(s.subrange(0, i));
        (if tok.len() > 0 {
            seq![tok]
        } else {
            Seq::<Seq<char>>::empty()
        }) + norm_tokens(s.subrange(i + 1, s.len() as int))
    }
}

proof fn lemma_find_char_bounds(s: Seq<char>, c: char)
    ensures
        0 <= find_char(s, c) <= s.len(),
    decreases s.len(),
{
    if s.len() > 0 && s[0] != c {
        lemma_find_char_bounds(s.drop_first(), c);
    }
}

#[via_fn]
proof fn norm_tokens_decreases(s: Seq<char>) {
    lemma_find_char_bounds(s, ',');
}

/// How many distinct tokens `new_count_distinct` reports.
pub open spec fn spec_count_distinct(s: Seq<char>) -> nat {
    norm_tokens(s).to_set().len()
}

/// Trimming takes exactly the interior between the leading and trailing
/// whitespace.
proof fn lemma_trim_start_at(s: Seq<char>, k: int)
    requires
        0 <= k <= s.len(),
        forall|j: int| 0 <= j < k ==> is_space(#[trigger] s[j]),
        k < s.len() ==> !is_space(s[k]),
    ensures
        trim_start(s) =~= s.skip(k),
    decreases s.len(),
{
    if s.len() > 0 && is_space(s[0]) {
        assert(k > 0);
        lemma_trim_start_at(s.drop_first(), k - 1);
        assert(s.drop_first().skip(k - 1) =~= s.skip(k));
    } else {
        assert(k == 0);
    }
}

proof fn lemma_trim_end_at(s: Seq<char>, k: int)
    requires
        0 <= k <= s.len(),
        forall|j: int| k <= j < s.len() ==> is_space(#[trigger] s[j]),
        k > 0 ==> !is_space(s[k - 1]),
    ensures
        trim_end(s) =~= s.take(k),
    decreases s.len(),
{
    if s.len() > 0 && is_space(s.last()) {
        assert(k < s.len());
        lemma_trim_end_at(s.drop_last(), k);
        assert(s.drop_last().take(k) =~= s.take(k));
    } else {
        assert(k == s.len());
    }
}

/// Appending one token to a list adds it to the token set.
proof fn lemma_to_set_push(s: Seq<Seq<char>>, x: Seq<char>)
    ensures
        s.push(x).to_set() =~= s.to_set().insert(x),
        s.push(x).to_set().len() == s.to_set().len() + (if s.contains(x) {
            0int
        } else {
            1
        }),
{
    broadcast use vstd::set::group_set_axioms, vstd::seq_lib::seq_to_set_is_finite;

    assert forall|a: Seq<char>| s.push(x).contains(a) implies (s.contains(a) || a == x) by {
        let i = choose|i: int| 0 <= i < s.push(x).len() && s.push(x)[i] == a;
        if i < s.len() {
            assert(s[i] == a);
        }
    }
    assert forall|a: Seq<char>| s.contains(a) implies s.push(x).contains(a) by {
        let i = choose|i: int| 0 <= i < s.len() && s[i] == a;
        assert(s.push(x)[i] == a);
    }
    assert(s.push(x)[s.len() as int] == x);
    assert(s.push(x).to_set() =~= s.to_set().insert(x));
}

/// Character-by-character equality of two character vectors.
fn chars_eq(a: &Vec<char>, b: &Vec<char>) -> (r: bool)
    ensures
        r <==> a@ == b@,
{
    if a.len() != b.len() {
        return false;
    }
    let n = a.len();
    for i in 0..n
        invariant
            n == a@.len() && n == b@.len(),
            forall|j: int| 0 <= j < i ==> a@[j] == b@[j],
    {
        if a[i] != b[i] {
            return false;
        }
    }
    assert(a@ =~= b@);
    true
}

/// Whether `c` is whitespace, as `is_space` states.
fn is_space_char(c: char) -> (r: bool)
    ensures
        r == is_space(c),
{
    let v = c as u32;
    v == 0x20 || (0x9 <= v && v <= 0xD) || v == 0x85 || v == 0xA0 || v == 0x1680 || (0x2000 <= v
        && v <= 0x200A) || v == 0x2028 || v == 0x2029 || v == 0x202F || v == 0x205F || v == 0x3000
}

/// Counts the distinct non-empty trimmed tokens of the comma-separated
/// `input_str`.
pub fn new_count_distinct(input_str: &str) -> (r: usize)
    ensures
        r == spec_count_distinct(input_str@),
{
    let v = chars_of(input_str);
    let n = v.len();
    let ghost s = input_str@;

    let mut seen: Vec<Vec<char>> = Vec::new();
    let mut count: usize = 0;
    let mut pos: usize = 0;
    let ghost mut collected: Seq<Seq<char>> = Seq::empty();

    proof {
        broadcast use vstd::set::group_set_axioms;

        assert(s.skip(0) =~= s);
        assert(norm_tokens(s) =~= collected + norm_tokens(s.skip(0)));
        assert(collected.to_set() =~= Set::<Seq<char>>::empty());
    }
    loop
        invariant_except_break
            0 <= pos <= n,
            n == s.len(),
            v@ == s,
            norm_tokens(s) =~= collected + norm_tokens(s.skip(pos as int)),
            collected =~= Seq::new(seen@.len(), |q: int| seen@[q]@),
            count == collected.to_set().len(),
            count <= seen.len(),
        ensures
            count == norm_tokens(s).to_set().len(),
        decreases n - pos + 1,
    {
        let ghost collected0 = collected;
        // find the end of the current segment
        let mut i = pos;
        while i < n && v[i] != ','
            invariant
                pos <= i <= n,
                n == s.len(),
                v@ == s,
                forall|j: int| pos <= j < i ==> s[j] != ',',
            decreases n - i,
        {
            i = i + 1;
        }
        proof {
            assert(forall|j: int| 0 <= j < i - pos ==> #[trigger] s.skip(pos as int)[j] != ',');
            assert(i < n ==> s.skip(pos as int)[i - pos] == ',');
            lemma_find_char(s.skip(pos as int), ',', i - pos);
        }
        let ghost seg = s.subrange(pos as int, i as int);
        proof {
            if i < n {
                assert(s.skip(pos as int).subrange(0, i - pos) =~= seg);
            } else {
                assert(s.skip(pos as int) =~= seg);
            }
        }

        // trim the segment
        let mut a = pos;
        while a < i && is_space_char(v[a])
            invariant
                pos <= a <= i <= n,
                n == s.len(),
                v@ == s,
                forall|j: int| pos <= j < a ==> is_space(#[trigger] s[j]),
            decreases i - a,
        {
            a = a + 1;
        }
        let mut b = i;
        while b > a && is_space_char(v[b - 1])
            invariant
                a <= b <= i <= n,
                n == s.len(),
                v@ == s,
                forall|j: int| b <= j < i ==> is_space(#[trigger] s[j]),
            decreases b,
        {
            b = b - 1;
        }
        proof {
            assert(forall|j: int| 0 <= j < a - pos ==> is_space(#[trigger] seg[j]));
            assert(a - pos < seg.len() ==> !is_space(seg[a - pos]));
            lemma_trim_start_at(seg, a - pos);
            let mid = seg.skip(a - pos);
            assert(forall|j: int| b - a <= j < mid.len() ==> is_space(#[trigger] mid[j]));
            assert(b - a > 0 ==> !is_space(mid[b - a - 1]));
            lemma_trim_end_at(mid, b - a);
            assert(trim(seg) =~= s.subrange(a as int, b as int));
        }

        if b > a {
            // collect the token and count it when unseen
            let mut tok: Vec<char> = Vec::new();
            let mut j = a;
            while j < b
                invariant
                    a <= j <= b <= n,
                    n == s.len(),
                    v@ == s,
                    tok@ =~= s.subrange(a as int, j as int),
                decreases b - j,
            {
                tok.push(v[j]);
                assert(tok@ =~= s.subrange(a as int, j + 1));
                j = j + 1;
            }
            assert(tok@ =~= trim(seg));

            let mut found = false;
            let mut t: usize = 0;
            while t < seen.len() && !found
                invariant
                    0 <= t <= seen.len(),
                    collected =~= Seq::new(seen@.len(), |q: int| seen@[q]@),
                    tok@ == trim(seg),
                    !found ==> forall|q: int| 0 <= q < t ==> collected[q] != tok@,
                    found ==> collected.contains(tok@),
                decreases seen.len() - t,
            {
                if chars_eq(&seen[t], &tok) {
                    assert(collected[t as int] == tok@);
                    found = true;
                }
                t = t + 1;
            }
            proof {
                if !found {
                    assert(t == seen.len());
                    if collected.contains(tok@) {
                        let q = choose|q: int| 0 <= q < collected.len() && collected[q] == tok@;
                        assert(false);
                    }
                }
                lemma_to_set_push(collected, tok@);
            }
            let ghost seen_before = seen@.len();
            seen.push(tok);
            proof {
                collected = collected.push(tok@);
                assert(collected =~= Seq::new(seen@.len(), |q: int| seen@[q]@));
            }
            if !found {
                let slen = seen.len();
                assert(count <= seen_before);
                assert(seen_before < slen);
                count = count + 1;
            }
            proof {
                assert(count == collected.to_set().len());
            }
        }

        proof {
            if i < n {
                assert(norm_tokens(s.skip(pos as int)) == (if trim(seg).len() > 0 {
                    seq![trim(seg)]
                } else {
                    Seq::<Seq<char>>::empty()
                }) + norm_tokens(
                    s.skip(pos as int).subrange(i - pos + 1, s.skip(pos as int).len() as int),
                ));
                assert(s.skip(pos as int).subrange(i - pos + 1, s.skip(pos as int).len() as int)
                    =~= s.skip(i + 1));
                if trim(seg).len() > 0 {
                    assert(collected =~= collected0.push(trim(seg)));
                    assert(collected0 + (seq![trim(seg)] + norm_tokens(s.skip(i + 1))) =~= collected
                        + norm_tokens(s.skip(i + 1)));
                } else {
                    assert(collected == collected0);
                }
                assert(norm_tokens(s) =~= collected + norm_tokens(s.skip(i + 1)));
            } else {
                assert(norm_tokens(s.skip(pos as int)) == (if trim(seg).len() > 0 {
                    seq![trim(seg)]
                } else {
                    Seq::<Seq<char>>::empty()
                }));
                if trim(seg).len() > 0 {
                    assert(collected =~= collected0.push(trim(seg)));
                    assert(collected0 + seq![trim(seg)] =~= collected);
                }
                assert(norm_tokens(s) =~= collected);
            }
        }
        if i == n {
            proof {
                assert(norm_tokens(s).to_set() =~= collected.to_set());
            }
            break ;
        }
        pos = i + 1;
    }
    count
}

} // verus!
