//! Parsing of size inputs: a number of bytes with an optional `KB`, `MB` or
//! `GB` suffix, or a number of tokens with an optional `K` suffix.

use crate::digits::spec_parse_usize;
use crate::digits::parse_usize_range;
use vstd::prelude::*;
use vstd::string::StrSliceExecFns;
use vstd::string::StringSliceAdditionalSpecFns;

verus! {

/// A size input that does not denote a representable size.
#[derive(Debug, PartialEq, Eq, Structural)]
pub struct SizeError;

/// Whether `b` is an ASCII whitespace byte.
pub open spec fn is_ws_byte(b: u8) -> bool {
    b == 32 || b == 9 || b == 10 || b == 13 || b == 11 || b == 12
}

/// `s` with leading ASCII whitespace removed.
pub open spec fn trim_front(s: Seq<u8>) -> Seq<u8>
    decreases s.len(),
{
    if s.len() > 0 && is_ws_byte(s[0]) {
        trim_front(s.drop_first())
    } else {
        s
    }
}

/// `s` with trailing ASCII whitespace removed.
pub open spec fn trim_back(s: Seq<u8>) -> Seq<u8>
    decreases s.len(),
{
    if s.len() > 0 && is_ws_byte(s.last()) {
        trim_back(s.drop_last())
    } else {
        s
    }
}

/// `s` with surrounding ASCII whitespace removed.
pub open spec fn spec_trim(s: Seq<u8>) -> Seq<u8> {
    trim_back(trim_front(s))
}

/// `b` lowercased when it is an ASCII capital.
pub open spec fn ascii_lower(b: u8) -> u8 {
    if 65 <= b <= 90 {
        (b + 32) as u8
    } else {
        b
    }
}

/// A parsed number scaled by a suffix multiplier, when the product is
/// representable.
pub open spec fn scaled(v: Option<usize>, mult: nat) -> Option<usize> {
    match v {
        Some(n) => if n * mult <= usize::MAX {
            Some((n * mult) as usize)
        } else {
            None
        },
        None => None,
    }
}

/// The size denoted by the input, or `None` when it is malformed or not
/// representable. In token mode a trailing `k` or `K` multiplies by 1000;
/// otherwise a trailing `KB`, `MB` or `GB` (in any letter case) multiplies
/// by the matching power of 1024. The number itself follows `usize`
/// parsing, with whitespace allowed around it.
pub open spec fn spec_parse_size(s: Seq<u8>, is_tokens: bool) -> Option<usize> {
    let t = spec_trim(s);
    if is_tokens {
        if t.len() > 0 && ascii_lower(t.last()) == 107 {
            scaled(spec_parse_usize(spec_trim(t.drop_last())), 1000)
        } else {
            spec_parse_usize(t)
        }
    } else {
        if t.len() >= 2 && ascii_lower(t.last()) == 98 {
            let tag = ascii_lower(t[t.len() - 2]);
            let head = spec_trim(t.take(t.len() - 2));
            if tag == 107 {
                scaled(spec_parse_usize(head), 1024)
            } else if tag == 109 {
                scaled(spec_parse_usize(head), 1024 * 1024)
            } else if tag == 103 {
                scaled(spec_parse_usize(head), 1024 * 1024 * 1024)
            } else {
                spec_parse_usize(t)
            }
        } else {
            spec_parse_usize(t)
        }
    }
}

proof fn lemma_trim_front_at(s: Seq<u8>, lo: int)
    requires
        0 <= lo <= s.len(),
        forall|k: int| 0 <= k < lo ==> is_ws_byte(#[trigger] s[k]),
        lo == s.len() || !is_ws_byte(s[lo]),
    ensures
        trim_front(s) == s.skip(lo),
    decreases lo,
{
    if lo == 0 {
        assert(s.skip(0) =~= s);
    } else {
        assert(is_ws_byte(s[0]));
        assert(s.drop_first() =~= s.skip(1));
        assert forall|k: int| 0 <= k < lo - 1 implies is_ws_byte(#[trigger] s.skip(1)[k]) by {
            assert(s.skip(1)[k] == s[k + 1]);
        }
        if lo - 1 < s.skip(1).len() {
            assert(s.skip(1)[lo - 1] == s[lo]);
        }
        lemma_trim_front_at(s.skip(1), lo - 1);
        assert(s.skip(1).skip(lo - 1) =~= s.skip(lo));
    }
}

proof fn lemma_trim_back_at(s: Seq<u8>, hi: int)
    requires
        0 <= hi <= s.len(),
        forall|k: int| hi <= k < s.len() ==> is_ws_byte(#[trigger] s[k]),
        hi == 0 || !is_ws_byte(s[hi - 1]),
    ensures
        trim_back(s) == s.take(hi),
    decreases s.len() - hi,
{
    if hi == s.len() {
        assert(s.take(hi) =~= s);
    } else {
        assert(is_ws_byte(s.last()));
        assert(s.drop_last() =~= s.take(s.len() - 1));
        assert forall|k: int| hi <= k < s.take(s.len() - 1).len() implies is_ws_byte(
            #[trigger] s.take(s.len() - 1)[k],
        ) by {
            assert(s.take(s.len() - 1)[k] == s[k]);
        }
        lemma_trim_back_at(s.take(s.len() - 1), hi);
        assert(s.take(s.len() - 1).take(hi) =~= s.take(hi));
    }
}

/// The bounds of `v[start..end]` with surrounding ASCII whitespace removed.
pub(crate) fn trim_range(v: &Vec<u8>, start: usize, end: usize) -> (r: (usize, usize))
    requires
        start <= end <= v@.len(),
    ensures
        start <= r.0 <= r.1 <= end,
        spec_trim(v@.subrange(start as int, end as int)) == v@.subrange(r.0 as int, r.1 as int),
{
    let ghost s = v@.subrange(start as int, end as int);
    let mut lo: usize = start;
    while lo < end
        invariant_except_break
            start <= lo <= end <= v@.len(),
            s == v@.subrange(start as int, end as int),
            forall|k: int| 0 <= k < lo - start ==> is_ws_byte(#[trigger] s[k]),
        ensures
            start <= lo <= end <= v@.len(),
            s == v@.subrange(start as int, end as int),
            forall|k: int| 0 <= k < lo - start ==> is_ws_byte(#[trigger] s[k]),
            lo == end || !is_ws_byte(s[lo - start]),
        decreases end - lo,
    {
        let b: u8 = v[lo];
        proof {
            assert(s[lo - start] == v@[lo as int]);
        }
        if !(b == 32 || b == 9 || b == 10 || b == 13 || b == 11 || b == 12) {
            break ;
        }
        lo = lo + 1;
    }
    proof {
        lemma_trim_front_at(s, lo - start);
        assert(s.skip(lo - start) =~= v@.subrange(lo as int, end as int));
        assert(trim_front(s) =~= v@.subrange(lo as int, end as int));
    }
    let mut hi: usize = end;
    while hi > lo
        invariant_except_break
            lo <= hi <= end <= v@.len(),
            forall|k: int|
                hi - lo <= k < end - lo ==> is_ws_byte(
                    #[trigger] v@.subrange(lo as int, end as int)[k],
                ),
        ensures
            lo <= hi <= end <= v@.len(),
            forall|k: int|
                hi - lo <= k < end - lo ==> is_ws_byte(
                    #[trigger] v@.subrange(lo as int, end as int)[k],
                ),
            hi == lo || !is_ws_byte(v@.subrange(lo as int, end as int)[hi - 1 - lo]),
        decreases hi,
    {
        let b: u8 = v[hi - 1];
        proof {
            assert(v@.subrange(lo as int, end as int)[hi - 1 - lo] == v@[hi - 1]);
        }
        if !(b == 32 || b == 9 || b == 10 || b == 13 || b == 11 || b == 12) {
            break ;
        }
        hi = hi - 1;
    }
    proof {
        let t = v@.subrange(lo as int, end as int);
        lemma_trim_back_at(t, hi - lo);
        assert(t.take(hi - lo) =~= v@.subrange(lo as int, hi as int));
        assert(trim_front(s) == t);
        assert(spec_trim(s) == v@.subrange(lo as int, hi as int));
    }
    (lo, hi)
}

fn lower_byte(b: u8) -> (r: u8)
    ensures
        r == ascii_lower(b),
{
    if 65 <= b && b <= 90 {
        b + 32
    } else {
        b
    }
}

/// Scales a parsed number by `mult`, or reports an unrepresentable size.
fn scale(v: Option<usize>, mult: usize) -> (r: Result<usize, SizeError>)
    requires
        mult >= 1,
    ensures
        ({
            match scaled(v, mult as nat) {
                Some(n) => r == Ok::<usize, SizeError>(n),
                None => r == Err::<usize, SizeError>(SizeError),
            }
        }),
{
    match v {
        Some(n) => {
            if n <= usize::MAX / mult {
                proof {
                    assert(n * mult <= usize::MAX) by (nonlinear_arith)
                        requires
                            n <= usize::MAX / mult,
                            mult >= 1,
                    ;
                }
                Ok(n * mult)
            } else {
                proof {
                    assert(n * mult > usize::MAX) by (nonlinear_arith)
                        requires
                            n > usize::MAX / mult,
                            mult >= 1,
                    ;
                }
                Err(SizeError)
            }
        },
        None => Err(SizeError),
    }
}

/// Parses a size input: in token mode a number of tokens with an optional
/// `K` (thousands) suffix, otherwise a number of bytes with an optional
/// `KB`, `MB` or `GB` suffix in any letter case. Whitespace around the
/// number is ignored. Returns an error exactly when the input is malformed
/// or the size does not fit the platform's address range.
pub fn parse_size_input(input: &str, is_tokens: bool) -> (r: Result<usize, SizeError>)
    ensures
        ({
            match spec_parse_size(input.spec_bytes(), is_tokens) {
                Some(n) => r == Ok::<usize, SizeError>(n),
                None => r == Err::<usize, SizeError>(SizeError),
            }
        }),
{
    let v: Vec<u8> = input.as_bytes_vec();
    let (lo, hi) = trim_range(&v, 0, v.len());
    proof {
        assert(v@.subrange(0, v@.len() as int) =~= v@);
    }
    let ghost t = spec_trim(v@);
    if is_tokens {
        if hi > lo && lower_byte(v[hi - 1]) == 107 {
            proof {
                assert(t.last() == v@[hi - 1]);
                assert(t.drop_last() =~= v@.subrange(lo as int, hi - 1));
            }
            let (l2, h2) = trim_range(&v, lo, hi - 1);
            let n: Option<usize> = parse_usize_range(&v, l2, h2);
            scale(n, 1000)
        } else {
            proof {
                if hi > lo {
                    assert(t.last() == v@[hi - 1]);
                }
            }
            match parse_usize_range(&v, lo, hi) {
                Some(n) => Ok(n),
                None => Err(SizeError),
            }
        }
    } else {
        if hi - lo >= 2 && lower_byte(v[hi - 1]) == 98 {
            proof {
                assert(t.last() == v@[hi - 1]);
                assert(t[t.len() - 2] == v@[hi - 2]);
                assert(t.take(t.len() - 2) =~= v@.subrange(lo as int, hi - 2));
            }
            let tag: u8 = lower_byte(v[hi - 2]);
            if tag == 107 || tag == 109 || tag == 103 {
                let (l2, h2) = trim_range(&v, lo, hi - 2);
                let n: Option<usize> = parse_usize_range(&v, l2, h2);
                if tag == 107 {
                    scale(n, 1024)
                } else if tag == 109 {
                    scale(n, 1024 * 1024)
                } else {
                    scale(n, 1024 * 1024 * 1024)
                }
            } else {
                match parse_usize_range(&v, lo, hi) {
                    Some(n) => Ok(n),
                    None => Err(SizeError),
                }
            }
        } else {
            proof {
                if hi > lo {
                    assert(t.last() == v@[hi - 1]);
                }
                if hi - lo >= 2 {
                    assert(t[t.len() - 2] == v@[hi - 2]);
                }
            }
            match parse_usize_range(&v, lo, hi) {
                Some(n) => Ok(n),
                None => Err(SizeError),
            }
        }
    }
}

} // verus!
