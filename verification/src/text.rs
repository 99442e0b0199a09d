//! Verified text utilities: character/string conversions, decimal rendering
//! of counters and timestamps, literal substring replacement and trailing
//! character trimming. These back the cache key derivation, the metadata key
//! schemas and the upstream rewrite rules.

use vstd::prelude::*;
use vstd::string::StrSliceExecFns;

verus! {

/// The decimal digit character for `d` in `0..10`.
pub open spec fn dec_digit(d: int) -> char {
    if d == 0 {
        '0'
    } else if d == 1 {
        '1'
    } else if d == 2 {
        '2'
    } else if d == 3 {
        '3'
    } else if d == 4 {
        '4'
    } else if d == 5 {
        '5'
    } else if d == 6 {
        '6'
    } else if d == 7 {
        '7'
    } else if d == 8 {
        '8'
    } else {
        '9'
    }
}

/// The decimal rendering of a non-negative integer, most significant digit
/// first, without leading zeros (`0` renders as "0").
pub open spec fn spec_u64_dec(n: int) -> Seq<char>
    recommends
        n >= 0,
    decreases n,
{
    if n < 10 {
        seq![dec_digit(n)]
    } else {
        spec_u64_dec(n / 10).push(dec_digit(n % 10))
    }
}

/// The decimal rendering of a signed integer: a leading '-' before the
/// magnitude when negative.
pub open spec fn spec_i64_dec(n: int) -> Seq<char> {
    if n < 0 {
        seq!['-'] + spec_u64_dec(-n)
    } else {
        spec_u64_dec(n)
    }
}

/// Relies on `String: FromIterator<char>` of std: collecting characters
/// yields the string of exactly those characters, in order.
#[verifier::external_body]
pub fn chars_to_string(v: &Vec<char>) -> (r: String)
    ensures
        r@ == v@,
{
    v.iter().collect()
}

/// Copies the characters of a string slice into a vector.
pub fn str_to_chars(s: &str) -> (r: Vec<char>)
    ensures
        r@ == s@,
{
    let n = s.unicode_len();
    let mut r: Vec<char> = Vec::new();
    let mut i: usize = 0;
    while i < n
        invariant
            n == s@.len(),
            i <= n,
            r@ == s@.subrange(0, i as int),
        decreases n - i,
    {
        r.push(s.get_char(i));
        i = i + 1;
        proof {
            assert(r@ =~= s@.subrange(0, i as int));
        }
    }
    proof {
        assert(r@ =~= s@);
    }
    r
}

/// The decimal digits of `n`, as characters.
pub fn u64_to_dec_chars(n: u64) -> (r: Vec<char>)
    ensures
        r@ == spec_u64_dec(n as int),
    decreases n,
{
    let d: u64 = n % 10;
    let c: char = if d == 0 {
        '0'
    } else if d == 1 {
        '1'
    } else if d == 2 {
        '2'
    } else if d == 3 {
        '3'
    } else if d == 4 {
        '4'
    } else if d == 5 {
        '5'
    } else if d == 6 {
        '6'
    } else if d == 7 {
        '7'
    } else if d == 8 {
        '8'
    } else {
        '9'
    };
    if n < 10 {
        let mut r: Vec<char> = Vec::new();
        r.push(c);
        proof {
            assert(r@ =~= spec_u64_dec(n as int));
        }
        r
    } else {
        let mut r = u64_to_dec_chars(n / 10);
        r.push(c);
        proof {
            assert(r@ =~= spec_u64_dec(n as int));
        }
        r
    }
}

/// Renders an unsigned counter in decimal.
pub fn u64_to_string(n: u64) -> (r: String)
    ensures
        r@ == spec_u64_dec(n as int),
{
    let v = u64_to_dec_chars(n);
    chars_to_string(&v)
}

/// Renders a signed timestamp in decimal.
pub fn i64_to_string(n: i64) -> (r: String)
    ensures
        r@ == spec_i64_dec(n as int),
{
    if n >= 0 {
        let v = u64_to_dec_chars(n as u64);
        chars_to_string(&v)
    } else {
        let mag: u64 = if n == i64::MIN {
            9223372036854775808u64
        } else {
            (-n) as u64
        };
        let mut v: Vec<char> = Vec::new();
        v.push('-');
        let mut digits = u64_to_dec_chars(mag);
        v.append(&mut digits);
        proof {
            assert(v@ =~= spec_i64_dec(n as int));
        }
        chars_to_string(&v)
    }
}

/// Concatenation of two string slices.
pub fn concat_str(a: &str, b: &str) -> (r: String)
    ensures
        r@ == a@ + b@,
{
    let mut r = a.to_owned();
    r.append(b);
    r
}

/// The result of replacing every non-overlapping occurrence of `from` in `s`
/// by `to`, scanning left to right, as `str::replace` does. An empty `from`
/// matches at every character boundary.
pub open spec fn spec_replace(s: Seq<char>, from: Seq<char>, to: Seq<char>) -> Seq<char>
    decreases s.len(),
{
    if from.len() == 0 {
        if s.len() == 0 {
            to
        } else {
            to + seq![s[0]] + spec_replace(s.subrange(1, s.len() as int), from, to)
        }
    } else {
        if s.len() < from.len() {
            s
        } else if s.subrange(0, from.len() as int) == from {
            to + spec_replace(s.subrange(from.len() as int, s.len() as int), from, to)
        } else {
            seq![s[0]] + spec_replace(s.subrange(1, s.len() as int), from, to)
        }
    }
}

/// Whether `s` has `from` at position `i`.
pub open spec fn matches_at(s: Seq<char>, from: Seq<char>, i: int) -> bool {
    0 <= i && i + from.len() <= s.len() && s.subrange(i, i + from.len()) == from
}

fn chars_match_at(s: &Vec<char>, from: &Vec<char>, i: usize) -> (r: bool)
    requires
        i + from@.len() <= s@.len(),
    ensures
        r == matches_at(s@, from@, i as int),
{
    let n = s.len();
    let mut j: usize = 0;
    while j < from.len()
        invariant
            i + from@.len() <= s@.len(),
            n == s@.len(),
            j <= from@.len(),
            s@.subrange(i as int, i + j) == from@.subrange(0, j as int),
        decreases from@.len() - j,
    {
        if s[i + j] != from[j] {
            proof {
                assert(s@.subrange(i as int, i + from@.len())[j as int] == s@[i + j]);
                assert(from@[j as int] != s@[i + j]);
            }
            return false;
        }
        j = j + 1;
        proof {
            assert(s@.subrange(i as int, i + j) =~= s@.subrange(i as int, i + j - 1).push(
                s@[i + j - 1],
            ));
            assert(from@.subrange(0, j as int) =~= from@.subrange(0, j - 1).push(from@[j - 1]));
        }
    }
    proof {
        assert(from@.subrange(0, from@.len() as int) =~= from@);
    }
    true
}

/// Replaces every occurrence of `from` by `to` in `s`, over character vectors.
pub fn replace_chars(s: &Vec<char>, from: &Vec<char>, to: &Vec<char>) -> (r: Vec<char>)
    ensures
        r@ == spec_replace(s@, from@, to@),
{
    let mut r: Vec<char> = Vec::new();
    let mut i: usize = 0;
    proof {
        assert(s@.subrange(0, s@.len() as int) =~= s@);
        assert(r@ + spec_replace(s@, from@, to@) =~= spec_replace(s@, from@, to@));
    }
    if from.len() == 0 {
        while i < s.len()
            invariant
                i <= s@.len(),
                spec_replace(s@, from@, to@) == r@ + spec_replace(
                    s@.subrange(i as int, s@.len() as int),
                    from@,
                    to@,
                ),
                from@.len() == 0,
            decreases s@.len() - i,
        {
            proof {
                let rest = s@.subrange(i as int, s@.len() as int);
                assert(rest[0] == s@[i as int]);
                assert(rest.subrange(1, rest.len() as int) =~= s@.subrange(
                    i + 1,
                    s@.len() as int,
                ));
            }
            let mut t = to.clone();
            r.append(&mut t);
            r.push(s[i]);
            i = i + 1;
            proof {
                assert(spec_replace(s@, from@, to@) =~= r@ + spec_replace(
                    s@.subrange(i as int, s@.len() as int),
                    from@,
                    to@,
                ));
            }
        }
        let mut t = to.clone();
        r.append(&mut t);
        proof {
            assert(s@.subrange(i as int, s@.len() as int) =~= Seq::<char>::empty());
            assert(spec_replace(Seq::<char>::empty(), from@, to@) == to@);
        }
        r
    } else {
        while i < s.len()
            invariant
                i <= s@.len(),
                from@.len() > 0,
                spec_replace(s@, from@, to@) == r@ + spec_replace(
                    s@.subrange(i as int, s@.len() as int),
                    from@,
                    to@,
                ),
            decreases s@.len() - i,
        {
            proof {
                let rest = s@.subrange(i as int, s@.len() as int);
                assert(rest[0] == s@[i as int]);
                assert(rest.subrange(1, rest.len() as int) =~= s@.subrange(
                    i + 1,
                    s@.len() as int,
                ));
                if i + from@.len() <= s@.len() {
                    assert(rest.subrange(0, from@.len() as int) =~= s@.subrange(
                        i as int,
                        i + from@.len(),
                    ));
                    assert(rest.subrange(from@.len() as int, rest.len() as int) =~= s@.subrange(
                        i + from@.len(),
                        s@.len() as int,
                    ));
                }
            }
            if from.len() <= s.len() - i && chars_match_at(s, from, i) {
                let mut t = to.clone();
                r.append(&mut t);
                i = i + from.len();
            } else {
                r.push(s[i]);
                i = i + 1;
            }
            proof {
                assert(spec_replace(s@, from@, to@) =~= r@ + spec_replace(
                    s@.subrange(i as int, s@.len() as int),
                    from@,
                    to@,
                ));
            }
        }
        proof {
            assert(s@.subrange(i as int, s@.len() as int) =~= Seq::<char>::empty());
            assert(spec_replace(Seq::<char>::empty(), from@, to@) =~= Seq::<char>::empty());
        }
        r
    }
}

/// Replaces every occurrence of `from` by `to` in `s`, as `str::replace`.
pub fn replace_str(s: &str, from: &str, to: &str) -> (r: String)
    ensures
        r@ == spec_replace(s@, from@, to@),
{
    let sv = str_to_chars(s);
    let fv = str_to_chars(from);
    let tv = str_to_chars(to);
    let rv = replace_chars(&sv, &fv, &tv);
    chars_to_string(&rv)
}

/// `s` without its trailing `c` characters.
pub open spec fn spec_trim_end_char(s: Seq<char>, c: char) -> Seq<char>
    decreases s.len(),
{
    if s.len() > 0 && s.last() == c {
        spec_trim_end_char(s.drop_last(), c)
    } else {
        s
    }
}

/// Removes every trailing occurrence of `c` from `s`, as `str::trim_end_matches`
/// with a single-character pattern.
pub fn trim_end_char(s: &str, c: char) -> (r: String)
    ensures
        r@ == spec_trim_end_char(s@, c),
{
    let v = str_to_chars(s);
    let mut end: usize = v.len();
    proof {
        assert(s@.subrange(0, s@.len() as int) =~= s@);
    }
    while end > 0 && v[end - 1] == c
        invariant
            end <= v@.len(),
            v@ == s@,
            spec_trim_end_char(s@, c) == spec_trim_end_char(s@.subrange(0, end as int), c),
        decreases end,
    {
        proof {
            let cur = s@.subrange(0, end as int);
            assert(cur.last() == s@[end - 1]);
            assert(cur.drop_last() =~= s@.subrange(0, end - 1));
        }
        end = end - 1;
    }
    proof {
        let cur = s@.subrange(0, end as int);
        if end > 0 {
            assert(cur.last() == s@[end - 1]);
        }
        assert(spec_trim_end_char(cur, c) == cur);
    }
    let mut r: Vec<char> = Vec::new();
    let mut i: usize = 0;
    while i < end
        invariant
            i <= end <= v@.len(),
            v@ == s@,
            r@ == s@.subrange(0, i as int),
        decreases end - i,
    {
        r.push(v[i]);
        proof {
            assert(r@ =~= s@.subrange(0, i + 1));
        }
        i = i + 1;
    }
    chars_to_string(&r)
}

} // verus!
