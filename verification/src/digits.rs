//! Decimal rendering and parsing of unsigned numbers, over bytes and chars.

use vstd::prelude::*;

verus! {

/// Decimal digit bytes of `n`, most significant first (ASCII `'0'..='9'`).
pub open spec fn spec_dec_bytes(n: nat) -> Seq<u8>
    decreases n,
{
    if n < 10 {
        seq![(48 + n) as u8]
    } else {
        spec_dec_bytes(n / 10).push((48 + n % 10) as u8)
    }
}

/// Decimal digit characters of `n`, most significant first.
pub open spec fn spec_dec_chars(n: nat) -> Seq<char>
    decreases n,
{
    if n < 10 {
        seq![((48 + n) as u8) as char]
    } else {
        spec_dec_chars(n / 10).push(((48 + n % 10) as u8) as char)
    }
}

/// The decimal digit bytes of `n`, most significant first.
pub fn u64_dec_bytes(n: u64) -> (r: Vec<u8>)
    ensures
        r@ == spec_dec_bytes(n as nat),
{
    let mut rev: Vec<u8> = Vec::new();
    let mut m: u64 = n;
    while m >= 10
        invariant
            spec_dec_bytes(n as nat) == spec_dec_bytes(m as nat) + rev@.reverse(),
        decreases m,
    {
        let d: u8 = (m % 10) as u8 + 48;
        proof {
            let ghost m2 = (m / 10) as nat;
            assert(spec_dec_bytes(m as nat) == spec_dec_bytes(m2).push(d));
            assert(rev@.push(d).reverse() =~= seq![d] + rev@.reverse());
            assert(spec_dec_bytes(m2).push(d) + rev@.reverse() =~= spec_dec_bytes(m2) + rev@.push(
                d,
            ).reverse());
        }
        rev.push(d);
        m = m / 10;
    }
    let mut r: Vec<u8> = Vec::new();
    r.push((m as u8) + 48);
    proof {
        assert(r@ =~= spec_dec_bytes(m as nat));
        assert(rev@.subrange(rev@.len() as int, rev@.len() as int).reverse() =~= Seq::<
            u8,
        >::empty());
        assert(r@ =~= spec_dec_bytes(m as nat) + rev@.subrange(
            rev@.len() as int,
            rev@.len() as int,
        ).reverse());
    }
    let mut i: usize = rev.len();
    while i > 0
        invariant
            i <= rev@.len(),
            spec_dec_bytes(n as nat) == spec_dec_bytes(m as nat) + rev@.reverse(),
            r@ == spec_dec_bytes(m as nat) + rev@.subrange(i as int, rev@.len() as int).reverse(),
        decreases i,
    {
        let d: u8 = rev[i - 1];
        proof {
            assert(rev@.subrange(i - 1, rev@.len() as int) =~= seq![rev@[i - 1]] + rev@.subrange(
                i as int,
                rev@.len() as int,
            ));
            assert(rev@.subrange(i - 1, rev@.len() as int).reverse() =~= rev@.subrange(
                i as int,
                rev@.len() as int,
            ).reverse().push(rev@[i - 1]));
            assert(r@.push(d) =~= spec_dec_bytes(m as nat) + rev@.subrange(
                i - 1,
                rev@.len() as int,
            ).reverse());
        }
        r.push(d);
        i = i - 1;
    }
    proof {
        assert(rev@.subrange(0, rev@.len() as int) =~= rev@);
        assert(r@ =~= spec_dec_bytes(n as nat));
    }
    r
}

/// Appends one decimal digit character to a string.
fn push_digit_char(s: &mut String, d: u8)
    requires
        d < 10,
    ensures
        final(s)@ == old(s)@ + seq![((48 + d) as u8) as char],
{
    proof {
        reveal_strlit("0");
        reveal_strlit("1");
        reveal_strlit("2");
        reveal_strlit("3");
        reveal_strlit("4");
        reveal_strlit("5");
        reveal_strlit("6");
        reveal_strlit("7");
        reveal_strlit("8");
        reveal_strlit("9");
    }
    if d == 0 {
        s.append("0");
    } else if d == 1 {
        s.append("1");
    } else if d == 2 {
        s.append("2");
    } else if d == 3 {
        s.append("3");
    } else if d == 4 {
        s.append("4");
    } else if d == 5 {
        s.append("5");
    } else if d == 6 {
        s.append("6");
    } else if d == 7 {
        s.append("7");
    } else if d == 8 {
        s.append("8");
    } else {
        s.append("9");
    }
}

/// Appends the decimal rendering of `n` to a string.
pub fn push_u64_dec(s: &mut String, n: u64)
    ensures
        final(s)@ == old(s)@ + spec_dec_chars(n as nat),
{
    let digits: Vec<u8> = u64_dec_bytes(n);
    proof {
        lemma_dec_bytes_chars(n as nat);
    }
    let mut i: usize = 0;
    while i < digits.len()
        invariant
            i <= digits@.len(),
            digits@ == spec_dec_bytes(n as nat),
            forall|k: int| 0 <= k < digits@.len() ==> 48 <= #[trigger] digits@[k] < 58,
            s@ == old(s)@ + digits@.subrange(0, i as int).map_values(|b: u8| b as char),
        decreases digits@.len() - i,
    {
        let d: u8 = digits[i];
        push_digit_char(s, d - 48);
        proof {
            assert(digits@.subrange(0, i + 1) =~= digits@.subrange(0, i as int).push(digits@[
                i as int]));
            assert(digits@.subrange(0, i + 1).map_values(|b: u8| b as char) =~= digits@.subrange(
                0,
                i as int,
            ).map_values(|b: u8| b as char).push(digits@[i as int] as char));
            assert((48 + (d - 48)) as u8 == d);
        }
        i = i + 1;
    }
    proof {
        assert(digits@.subrange(0, digits@.len() as int) =~= digits@);
    }
}

/// Every byte of the decimal rendering is an ASCII digit, and the char
/// rendering is the byte rendering read as characters.
pub proof fn lemma_dec_bytes_chars(n: nat)
    ensures
        spec_dec_chars(n) == spec_dec_bytes(n).map_values(|b: u8| b as char),
        forall|k: int| 0 <= k < spec_dec_bytes(n).len() ==> 48 <= #[trigger] spec_dec_bytes(
            n,
        )[k] < 58,
    decreases n,
{
    if n < 10 {
        assert(spec_dec_chars(n) =~= spec_dec_bytes(n).map_values(|b: u8| b as char));
    } else {
        lemma_dec_bytes_chars(n / 10);
        assert(spec_dec_chars(n) =~= spec_dec_bytes(n).map_values(|b: u8| b as char));
    }
}

/// Whether `b` is an ASCII decimal digit.
pub open spec fn is_digit(b: u8) -> bool {
    48 <= b <= 57
}

/// Whether every byte of `s` is an ASCII decimal digit.
pub open spec fn all_digits(s: Seq<u8>) -> bool {
    forall|i: int| 0 <= i < s.len() ==> is_digit(#[trigger] s[i])
}

/// The number denoted by a sequence of ASCII digit bytes.
pub open spec fn digits_val(s: Seq<u8>) -> nat
    decreases s.len(),
{
    if s.len() == 0 {
        0
    } else {
        (digits_val(s.drop_last()) * 10 + (s.last() - 48)) as nat
    }
}

/// The number denoted by `s` under `usize::from_str` conventions: an
/// optional leading `+`, then one or more ASCII digits, denoting a value
/// that fits in `usize`; anything else is `None`.
pub open spec fn spec_parse_usize(s: Seq<u8>) -> Option<usize> {
    let t = if s.len() > 0 && s[0] == 43 {
        s.drop_first()
    } else {
        s
    };
    if t.len() > 0 && all_digits(t) && digits_val(t) <= usize::MAX {
        Some(digits_val(t) as usize)
    } else {
        None
    }
}

/// The number denoted by `s` under `u64::from_str` conventions: an optional
/// leading `+`, then one or more ASCII digits, denoting a value that fits in
/// `u64`; anything else is `None`.
pub open spec fn spec_parse_u64(s: Seq<u8>) -> Option<u64> {
    let t = if s.len() > 0 && s[0] == 43 {
        s.drop_first()
    } else {
        s
    };
    if t.len() > 0 && all_digits(t) && digits_val(t) <= u64::MAX {
        Some(digits_val(t) as u64)
    } else {
        None
    }
}

proof fn lemma_digits_val_take(s: Seq<u8>, i: int)
    requires
        0 <= i < s.len(),
        is_digit(s[i]),
    ensures
        digits_val(s.subrange(0, i + 1)) == digits_val(s.subrange(0, i)) * 10 + (s[i] - 48),
{
    assert(s.subrange(0, i + 1).drop_last() =~= s.subrange(0, i));
    assert(s.subrange(0, i + 1).last() == s[i]);
}

proof fn lemma_digits_val_grows(s: Seq<u8>, i: int, j: int)
    requires
        0 <= i <= j <= s.len(),
        all_digits(s),
    ensures
        digits_val(s.subrange(0, i)) <= digits_val(s.subrange(0, j)),
    decreases j - i,
{
    if i < j {
        lemma_digits_val_grows(s, i, j - 1);
        lemma_digits_val_take(s, j - 1);
    }
}

/// Parses `v[start..end]` as a `u64`, exactly as `u64::from_str` would.
pub fn parse_u64_range(v: &Vec<u8>, start: usize, end: usize) -> (r: Option<u64>)
    requires
        start <= end <= v@.len(),
    ensures
        r == spec_parse_u64(v@.subrange(start as int, end as int)),
{
    let ghost s = v@.subrange(start as int, end as int);
    let mut lo: usize = start;
    if lo < end && v[lo] == 43 {
        lo = lo + 1;
        proof {
            assert(v@.subrange(lo as int, end as int) =~= s.drop_first());
        }
    }
    let ghost t = v@.subrange(lo as int, end as int);
    proof {
        if s.len() > 0 && s[0] == 43 {
            assert(t =~= s.drop_first());
        } else {
            assert(t =~= s);
        }
    }
    if lo == end {
        proof {
            assert(t.len() == 0);
        }
        return None;
    }
    let mut acc: u64 = 0;
    let mut i: usize = lo;
    while i < end
        invariant
            start <= lo <= i <= end <= v@.len(),
            s == v@.subrange(start as int, end as int),
            t == (if s.len() > 0 && s[0] == 43 {
                s.drop_first()
            } else {
                s
            }),
            t == v@.subrange(lo as int, end as int),
            t.len() > 0,
            forall|k: int| 0 <= k < i - lo ==> is_digit(#[trigger] t[k]),
            acc == digits_val(t.subrange(0, i - lo)),
        decreases end - i,
    {
        let b: u8 = v[i];
        proof {
            assert(t[i - lo] == v@[i as int]);
        }
        if b < 48 || b > 57 {
            proof {
                assert(!is_digit(t[i - lo]));
                assert(!all_digits(t));
            }
            return None;
        }
        let d: u64 = (b - 48) as u64;
        if acc > (u64::MAX - d) / 10 {
            proof {
                lemma_digits_val_take(t, i - lo);
                assert(acc * 10 + d > u64::MAX) by (nonlinear_arith)
                    requires
                        acc > (u64::MAX - d) / 10,
                        d < 10,
                        acc >= 0,
                ;
                if all_digits(t) {
                    lemma_digits_val_grows(t, i - lo + 1, t.len() as int);
                    assert(t.subrange(0, t.len() as int) =~= t);
                    assert(digits_val(t) > u64::MAX);
                }
            }
            return None;
        }
        proof {
            lemma_digits_val_take(t, i - lo);
            assert(acc * 10 + d <= u64::MAX) by (nonlinear_arith)
                requires
                    acc <= (u64::MAX - d) / 10,
                    d < 10,
                    acc >= 0,
            ;
        }
        acc = acc * 10 + d;
        i = i + 1;
    }
    proof {
        assert(t.subrange(0, t.len() as int) =~= t);
        assert(all_digits(t));
    }
    Some(acc)
}

/// Parses `v[start..end]` as a `usize`, exactly as `usize::from_str` would.
pub fn parse_usize_range(v: &Vec<u8>, start: usize, end: usize) -> (r: Option<usize>)
    requires
        start <= end <= v@.len(),
    ensures
        r == spec_parse_usize(v@.subrange(start as int, end as int)),
{
    let r64: Option<u64> = parse_u64_range(v, start, end);
    proof {
        assert(usize::MAX as nat <= u64::MAX as nat);
    }
    match r64 {
        Some(val) => if val <= usize::MAX as u64 {
            Some(val as usize)
        } else {
            None
        },
        None => None,
    }
}

/// The decimal rendering of a signed number: a leading `-` for negatives.
pub open spec fn spec_dec_i64(v: int) -> Seq<char> {
    if v < 0 {
        "-"@ + spec_dec_chars((-v) as nat)
    } else {
        spec_dec_chars(v as nat)
    }
}

/// Appends the decimal rendering of `v`, with a leading `-` when negative.
pub fn push_i64_dec(s: &mut String, v: i64)
    ensures
        final(s)@ == old(s)@ + spec_dec_i64(v as int),
{
    if v < 0 {
        s.append("-");
        let m: u64 = (-(v as i128)) as u64;
        push_u64_dec(s, m);
        proof {
            assert(old(s)@ + "-"@ + spec_dec_chars(m as nat) =~= old(s)@ + ("-"@ + spec_dec_chars(
                m as nat,
            )));
        }
    } else {
        push_u64_dec(s, v as u64);
    }
}

} // verus!
