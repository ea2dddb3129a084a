//! Recency ranking: converts per-path last-change timestamps into a
//! rank-normalized boost per path. Oldest path gets boost zero, newest the
//! configured maximum; only the relative order of timestamps matters.

use crate::digits::parse_u64_range;
use crate::digits::spec_parse_u64;
use vstd::prelude::*;
use vstd::string::StrSliceExecFns;
use vstd::utf8::encode_utf8;

verus! {

/// Stable insertion of one `(path, timestamp)` pair into a sequence already
/// ordered ascending by timestamp: the pair goes after every pair whose
/// timestamp is not larger.
pub open spec fn insert_by_time(s: Seq<(String, u64)>, x: (String, u64)) -> Seq<(String, u64)>
    decreases s.len(),
{
    if s.len() == 0 {
        seq![x]
    } else if s.last().1 <= x.1 {
        s.push(x)
    } else {
        insert_by_time(s.drop_last(), x).push(s.last())
    }
}

/// Stable sort of `(path, timestamp)` pairs ascending by timestamp: pairs
/// with equal timestamps keep their input order.
pub open spec fn spec_sort_by_time(s: Seq<(String, u64)>) -> Seq<(String, u64)>
    decreases s.len(),
{
    if s.len() == 0 {
        Seq::empty()
    } else {
        insert_by_time(spec_sort_by_time(s.drop_last()), s.last())
    }
}

/// The rank-normalized boost of the path at rank `i` among `n` ranked
/// paths: `(i / (n - 1)) * max`, rounded half away from zero.
pub open spec fn spec_boost(i: int, n: int, max: int) -> int
    recommends
        n >= 2,
{
    (2 * i * max + (n - 1)) / (2 * (n - 1))
}

proof fn lemma_insert_by_time_len(s: Seq<(String, u64)>, x: (String, u64))
    ensures
        insert_by_time(s, x).len() == s.len() + 1,
    decreases s.len(),
{
    if s.len() > 0 && !(s.last().1 <= x.1) {
        lemma_insert_by_time_len(s.drop_last(), x);
    }
}

/// The stable sort keeps the number of pairs.
pub proof fn lemma_sort_by_time_len(s: Seq<(String, u64)>)
    ensures
        spec_sort_by_time(s).len() == s.len(),
    decreases s.len(),
{
    if s.len() > 0 {
        lemma_sort_by_time_len(s.drop_last());
        lemma_insert_by_time_len(spec_sort_by_time(s.drop_last()), s.last());
    }
}

/// Whether the pairs are ordered ascending by timestamp.
pub open spec fn time_sorted(s: Seq<(String, u64)>) -> bool {
    forall|i: int, j: int| 0 <= i <= j < s.len() ==> (#[trigger] s[i]).1 <= (#[trigger] s[j]).1
}

proof fn lemma_insert_by_time_sorted(s: Seq<(String, u64)>, x: (String, u64))
    requires
        time_sorted(s),
    ensures
        time_sorted(insert_by_time(s, x)),
    decreases s.len(),
{
    lemma_insert_by_time_len(s, x);
    if s.len() == 0 {
    } else if s.last().1 <= x.1 {
        assert forall|i: int, j: int|
            0 <= i <= j < s.push(x).len() implies (#[trigger] s.push(x)[i]).1 <= (#[trigger] s.push(
            x,
        )[j]).1 by {
            if j == s.len() {
                if i < j {
                    assert(s[i].1 <= s[s.len() - 1].1);
                }
            }
        }
    } else {
        lemma_insert_by_time_sorted(s.drop_last(), x);
        let t = insert_by_time(s.drop_last(), x);
        lemma_insert_by_time_len(s.drop_last(), x);
        assert forall|k: int| 0 <= k < t.len() implies (#[trigger] t[k]).1 <= s.last().1 by {
            lemma_insert_by_time_members(s.drop_last(), x, k);
            if t[k].1 == x.1 || t[k] == x {
            }
        }
        assert forall|i: int, j: int|
            0 <= i <= j < t.push(s.last()).len() implies (#[trigger] t.push(s.last())[i]).1 <= (
        #[trigger] t.push(s.last())[j]).1 by {
            if j == t.len() {
                if i < t.len() {
                    assert(t[i].1 <= s.last().1);
                }
            }
        }
    }
}

proof fn lemma_insert_by_time_members(s: Seq<(String, u64)>, x: (String, u64), k: int)
    requires
        0 <= k < insert_by_time(s, x).len(),
    ensures
        insert_by_time(s, x)[k] == x || exists|i: int|
            0 <= i < s.len() && insert_by_time(s, x)[k] == #[trigger] s[i],
    decreases s.len(),
{
    lemma_insert_by_time_len(s, x);
    if s.len() == 0 {
    } else if s.last().1 <= x.1 {
        if k < s.len() {
            assert(insert_by_time(s, x)[k] == s[k]);
        }
    } else {
        let t = insert_by_time(s.drop_last(), x);
        lemma_insert_by_time_len(s.drop_last(), x);
        if k < t.len() {
            lemma_insert_by_time_members(s.drop_last(), x, k);
            if t[k] != x {
                let i = choose|i: int| 0 <= i < s.drop_last().len() && t[k] == #[trigger] s.drop_last()[i];
                assert(s.drop_last()[i] == s[i]);
            }
        } else {
            assert(t.push(s.last())[k] == s.last());
            assert(s.last() == s[s.len() - 1]);
        }
    }
}

/// The stable sort orders the pairs ascending by timestamp.
pub proof fn lemma_sort_by_time_sorted(s: Seq<(String, u64)>)
    ensures
        time_sorted(spec_sort_by_time(s)),
        spec_sort_by_time(s).len() == s.len(),
    decreases s.len(),
{
    lemma_sort_by_time_len(s);
    if s.len() > 0 {
        lemma_sort_by_time_sorted(s.drop_last());
        lemma_insert_by_time_sorted(spec_sort_by_time(s.drop_last()), s.last());
    }
}

/// The extremes of the rank normalization: the oldest of `n >= 2` ranked
/// paths gets boost `0`, the newest the full `max`, whatever the absolute
/// timestamps were.
pub proof fn lemma_boost_extremes(n: int, max: int)
    requires
        n >= 2,
        max >= 0,
    ensures
        spec_boost(0, n, max) == 0,
        spec_boost(n - 1, n, max) == max,
{
    let d = 2 * (n - 1);
    assert(2 * 0 * max == 0) by (nonlinear_arith);
    assert(spec_boost(0, n, max) == (n - 1) / d);
    assert((n - 1) / d == 0) by {
        vstd::arithmetic::div_mod::lemma_basic_div(n - 1, d);
    }
    assert(2 * (n - 1) * max + (n - 1) == d * max + (n - 1)) by (nonlinear_arith)
        requires
            d == 2 * (n - 1),
    ;
    vstd::arithmetic::div_mod::lemma_div_multiples_vanish_fancy(max, n - 1, d);
}

/// Every boost lies between zero and `max`.
pub proof fn lemma_boost_bounds(i: int, n: int, max: int)
    requires
        n >= 2,
        max >= 0,
        0 <= i <= n - 1,
    ensures
        0 <= spec_boost(i, n, max) <= max,
{
    let d = 2 * (n - 1);
    vstd::arithmetic::div_mod::lemma_div_pos_is_pos(2 * i * max + (n - 1), d);
    assert(2 * i * max >= 0) by (nonlinear_arith)
        requires
            i >= 0,
            max >= 0,
    ;
    assert(2 * i * max + (n - 1) <= d * max + (n - 1)) by (nonlinear_arith)
        requires
            i <= n - 1,
            max >= 0,
            d == 2 * (n - 1),
    ;
    vstd::arithmetic::div_mod::lemma_div_is_ordered(2 * i * max + (n - 1), d * max + (n - 1), d);
    vstd::arithmetic::div_mod::lemma_div_multiples_vanish_fancy(max, n - 1, d);
}

/// Computes how recent each path is, as a boost: the paths are ranked by
/// ascending timestamp (stably, so equal timestamps keep input order) and
/// each path at rank `i` of `n` gets `round((i / (n - 1)) * max_boost)`.
/// With fewer than two paths every boost is zero.
pub fn compute_recentness_boost(commit_times: &Vec<(String, u64)>, max_boost: i32) -> (r: Vec<
    (String, i32),
>)
    requires
        max_boost >= 0,
    ensures
        r@.len() == commit_times@.len(),
        commit_times@.len() < 2 ==> forall|i: int|
            0 <= i < r@.len() ==> (#[trigger] r@[i]).0 == commit_times@[i].0 && r@[i].1 == 0,
        commit_times@.len() >= 2 ==> forall|i: int|
            0 <= i < r@.len() ==> {
                &&& (#[trigger] r@[i]).0 == spec_sort_by_time(commit_times@)[i].0
                &&& r@[i].1 as int == spec_boost(
                    i,
                    commit_times@.len() as int,
                    max_boost as int,
                )
            },
        forall|i: int| 0 <= i < r@.len() ==> (#[trigger] r@[i]).1 >= 0,
{
    let n: usize = commit_times.len();
    if n < 2 {
        let mut r: Vec<(String, i32)> = Vec::new();
        let mut i: usize = 0;
        while i < commit_times.len()
            invariant
                i <= commit_times@.len(),
                r@.len() == i,
                forall|k: int|
                    0 <= k < i ==> (#[trigger] r@[k]).0 == commit_times@[k].0 && r@[k].1 == 0,
            decreases commit_times@.len() - i,
        {
            let p: String = commit_times[i].0.clone();
            r.push((p, 0));
            i = i + 1;
        }
        return r;
    }
    let sorted: Vec<(String, u64)> = sort_pairs_by_time(commit_times);
    proof {
        lemma_sort_by_time_len(commit_times@);
    }
    let mut r: Vec<(String, i32)> = Vec::new();
    let mut i: usize = 0;
    while i < sorted.len()
        invariant
            i <= sorted@.len(),
            sorted@ == spec_sort_by_time(commit_times@),
            sorted@.len() == commit_times@.len(),
            n == commit_times@.len(),
            n >= 2,
            max_boost >= 0,
            r@.len() == i,
            forall|k: int|
                0 <= k < i ==> {
                    &&& (#[trigger] r@[k]).0 == spec_sort_by_time(commit_times@)[k].0
                    &&& r@[k].1 as int == spec_boost(k, n as int, max_boost as int)
                },
        decreases sorted@.len() - i,
    {
        let p: String = sorted[i].0.clone();
        let i128: u128 = i as u128;
        let m128: u128 = max_boost as u128;
        let t1: u128 = 2 * i128;
        proof {
            assert(t1 * m128 <= 0x1_0000_0000_0000_0000_0000_0000u128) by (nonlinear_arith)
                requires
                    t1 <= 0x2_0000_0000_0000_0000u128,
                    m128 <= 0x8000_0000u128,
            ;
        }
        let t2: u128 = t1 * m128;
        let num: u128 = t2 + ((n - 1) as u128);
        let den: u128 = 2u128 * ((n - 1) as u128);
        let b: u128 = num / den;
        proof {
            lemma_boost_bounds(i as int, n as int, max_boost as int);
            assert(num as int == 2 * (i as int) * (max_boost as int) + ((n as int) - 1))
                by (nonlinear_arith)
                requires
                    t1 as int == 2 * (i128 as int),
                    t2 as int == (t1 as int) * (m128 as int),
                    num as int == (t2 as int) + (n as int) - 1,
                    i128 as int == i as int,
                    m128 as int == max_boost as int,
                    n >= 2,
            ;
            assert(den as int == 2 * ((n as int) - 1));
            assert(b as int == spec_boost(i as int, n as int, max_boost as int));
            assert(b <= max_boost as u128);
        }
        r.push((p, b as i32));
        i = i + 1;
    }
    proof {
        assert forall|k: int| 0 <= k < r@.len() implies (#[trigger] r@[k]).1 >= 0 by {
            lemma_boost_bounds(k, n as int, max_boost as int);
        }
    }
    r
}

/// Stable insertion sort of `(path, timestamp)` pairs ascending by
/// timestamp.
fn sort_pairs_by_time(pairs: &Vec<(String, u64)>) -> (r: Vec<(String, u64)>)
    ensures
        r@ == spec_sort_by_time(pairs@),
{
    let mut r: Vec<(String, u64)> = Vec::new();
    let mut i: usize = 0;
    while i < pairs.len()
        invariant
            i <= pairs@.len(),
            r@ == spec_sort_by_time(pairs@.take(i as int)),
        decreases pairs@.len() - i,
    {
        proof {
            lemma_sort_by_time_len(pairs@.take(i as int));
        }
        let x: (String, u64) = (pairs[i].0.clone(), pairs[i].1);
        proof {
            assert(x == pairs@[i as int]);
        }
        let mut j: usize = r.len();
        while j > 0
            invariant_except_break
                j <= r@.len(),
                forall|k: int| j <= k < r@.len() ==> (#[trigger] r@[k]).1 > x.1,
            ensures
                j <= r@.len(),
                forall|k: int| j <= k < r@.len() ==> (#[trigger] r@[k]).1 > x.1,
                j > 0 ==> r@[j - 1].1 <= x.1,
            decreases j,
        {
            if r[j - 1].1 <= x.1 {
                break ;
            }
            j = j - 1;
        }
        proof {
            lemma_insert_at_pos(r@, x, j as int);
            assert(pairs@.take(i + 1).drop_last() =~= pairs@.take(i as int));
            assert(pairs@.take(i + 1).last() == pairs@[i as int]);
            assert(r@.subrange(0, j as int) + seq![x] + r@.subrange(j as int, r@.len() as int)
                =~= r@.insert(j as int, x));
        }
        r.insert(j, x);
        i = i + 1;
    }
    proof {
        assert(pairs@.take(pairs@.len() as int) =~= pairs@);
    }
    r
}

/// The index of the first newline character in `s`, or `s.len()` when
/// there is none.
pub open spec fn first_nl_char(s: Seq<char>) -> int
    decreases s.len(),
{
    if s.len() == 0 {
        0
    } else if s[0] == '\n' {
        0
    } else {
        1 + first_nl_char(s.drop_first())
    }
}

/// The lines of the text: split at every newline, with a carriage return
/// directly before a newline removed; a final line ending produces no extra
/// empty line, and a carriage return not followed by a newline stays.
pub open spec fn spec_lines(s: Seq<char>) -> Seq<Seq<char>>
    decreases s.len(),
{
    if s.len() == 0 {
        Seq::empty()
    } else {
        let i = first_nl_char(s);
        if 0 <= i < s.len() {
            let line = s.take(i);
            let line2 = if line.len() > 0 && line.last() == '\r' {
                line.drop_last()
            } else {
                line
            };
            seq![line2] + spec_lines(s.skip(i + 1))
        } else {
            seq![s]
        }
    }
}

proof fn lemma_first_nl_char_at(s: Seq<char>, a: int, b: int)
    requires
        0 <= a <= b <= s.len(),
        forall|k: int| a <= k < b ==> s[k] != '\n',
        b == s.len() || s[b] == '\n',
    ensures
        first_nl_char(s.skip(a)) == b - a,
    decreases b - a,
{
    if a == b {
        if b < s.len() {
            assert(s.skip(a)[0] == s[b]);
        }
    } else {
        assert(s.skip(a)[0] == s[a]);
        assert(s.skip(a).drop_first() =~= s.skip(a + 1));
        lemma_first_nl_char_at(s, a + 1, b);
    }
}

/// The lines of the text, each as its own string.
fn split_lines(s: &str) -> (r: Vec<String>)
    ensures
        r.deep_view() == spec_lines(s@),
{
    let n: usize = s.unicode_len();
    let mut r: Vec<String> = Vec::new();
    let mut line_start: usize = 0;
    let mut i: usize = 0;
    proof {
        assert(s@.skip(0) =~= s@);
        assert(r.deep_view() =~= Seq::<Seq<char>>::empty());
    }
    while i < n
        invariant
            line_start <= i <= n == s@.len(),
            spec_lines(s@) == r.deep_view() + spec_lines(s@.skip(line_start as int)),
            forall|k: int| line_start <= k < i ==> s@[k] != '\n',
        decreases n - i,
    {
        let c: char = s.get_char(i);
        if c == '\n' {
            let line_end: usize = if i > line_start && s.get_char(i - 1) == '\r' {
                i - 1
            } else {
                i
            };
            let seg: String = s.substring_char(line_start, line_end).to_owned();
            proof {
                lemma_first_nl_char_at(s@, line_start as int, i as int);
                let rest = s@.skip(line_start as int);
                assert(rest.len() > 0);
                assert(rest.take(i - line_start) =~= s@.subrange(line_start as int, i as int));
                assert(rest.skip(i - line_start + 1) =~= s@.skip(i + 1));
                let line = rest.take(i - line_start);
                if i > line_start && s@[i - 1] == '\r' {
                    assert(line.len() > 0 && line.last() == '\r');
                    assert(line.drop_last() =~= s@.subrange(
                        line_start as int,
                        line_end as int,
                    ));
                } else {
                    if line.len() > 0 {
                        assert(line.last() == s@[i - 1]);
                    }
                    assert(line =~= s@.subrange(line_start as int, line_end as int));
                }
                assert(spec_lines(rest) == seq![
                    s@.subrange(line_start as int, line_end as int),
                ] + spec_lines(s@.skip(i + 1)));
                assert(seg@ == s@.subrange(line_start as int, line_end as int));
            }
            r.push(seg);
            proof {
                assert(r.deep_view() =~= r.deep_view().drop_last().push(
                    s@.subrange(line_start as int, line_end as int),
                ));
                assert(spec_lines(s@) =~= r.deep_view() + spec_lines(s@.skip(i + 1)));
            }
            line_start = i + 1;
        }
        i = i + 1;
    }
    if line_start < n {
        let seg: String = s.substring_char(line_start, n).to_owned();
        proof {
            lemma_first_nl_char_at(s@, line_start as int, n as int);
            let rest = s@.skip(line_start as int);
            assert(rest.len() > 0);
            assert(spec_lines(rest) == seq![rest]);
            assert(rest =~= s@.subrange(line_start as int, n as int));
        }
        r.push(seg);
        proof {
            assert(r.deep_view() =~= r.deep_view().drop_last().push(
                s@.subrange(line_start as int, n as int),
            ));
            assert(spec_lines(s@) =~= r.deep_view());
        }
    } else {
        proof {
            assert(s@.skip(line_start as int).len() == 0);
            assert(spec_lines(s@.skip(line_start as int)) =~= Seq::<Seq<char>>::empty());
            assert(spec_lines(s@) =~= r.deep_view());
        }
    }
    r
}

/// The path and timestamp of each stored pair.
pub open spec fn pairs_view(v: Seq<(String, u64)>) -> Seq<(Seq<char>, u64)> {
    v.map_values(|p: (String, u64)| (p.0@, p.1))
}

/// Stores `v` under `k`: overwrites the first pair already keyed by `k` in
/// place, or appends a new pair. Keeps keys unique.
pub open spec fn upsert(m: Seq<(Seq<char>, u64)>, k: Seq<char>, v: u64) -> Seq<(Seq<char>, u64)>
    decreases m.len(),
{
    if m.len() == 0 {
        seq![(k, v)]
    } else if m.first().0 == k {
        seq![(k, v)] + m.drop_first()
    } else {
        seq![m.first()] + upsert(m.drop_first(), k, v)
    }
}

/// The state after reading the first `i` lines of version-history output:
/// the timestamp most recently seen, and the map built so far. A line that
/// parses as a number sets the current timestamp; any other non-empty line
/// is a file path stored under the current timestamp; empty lines are
/// skipped.
pub open spec fn commits_state(lines: Seq<Seq<char>>, i: int) -> (u64, Seq<(Seq<char>, u64)>)
    decreases i,
{
    if i <= 0 {
        (0u64, Seq::empty())
    } else {
        let prev = commits_state(lines, i - 1);
        let line = lines[i - 1];
        if line.len() == 0 {
            prev
        } else {
            match spec_parse_u64(encode_utf8(line)) {
                Some(ts) => (ts, prev.1),
                None => (prev.0, upsert(prev.1, line, prev.0)),
            }
        }
    }
}

proof fn lemma_upsert_hit(m: Seq<(Seq<char>, u64)>, k: Seq<char>, v: u64, i: int)
    requires
        0 <= i < m.len(),
        m[i].0 == k,
        forall|j: int| 0 <= j < i ==> (#[trigger] m[j]).0 != k,
    ensures
        upsert(m, k, v) == m.update(i, (k, v)),
    decreases m.len(),
{
    if i == 0 {
        assert(upsert(m, k, v) =~= m.update(0, (k, v)));
    } else {
        assert(m.first().0 != k);
        assert(m.drop_first()[i - 1].0 == k);
        assert forall|j: int| 0 <= j < i - 1 implies (#[trigger] m.drop_first()[j]).0 != k by {
            assert(m.drop_first()[j] == m[j + 1]);
        }
        lemma_upsert_hit(m.drop_first(), k, v, i - 1);
        assert(upsert(m, k, v) =~= m.update(i, (k, v)));
    }
}

proof fn lemma_upsert_miss(m: Seq<(Seq<char>, u64)>, k: Seq<char>, v: u64)
    requires
        forall|j: int| 0 <= j < m.len() ==> (#[trigger] m[j]).0 != k,
    ensures
        upsert(m, k, v) == m.push((k, v)),
    decreases m.len(),
{
    if m.len() == 0 {
        assert(upsert(m, k, v) =~= m.push((k, v)));
    } else {
        assert forall|j: int| 0 <= j < m.drop_first().len() implies (#[trigger] m.drop_first()[j]).0
            != k by {
            assert(m.drop_first()[j] == m[j + 1]);
        }
        lemma_upsert_miss(m.drop_first(), k, v);
        assert(upsert(m, k, v) =~= m.push((k, v)));
    }
}

/// Stores `val` under `key` in the pair list, overwriting in place or
/// appending.
fn upsert_pair(map: &mut Vec<(String, u64)>, key: &String, val: u64)
    ensures
        pairs_view(final(map)@) == upsert(pairs_view(old(map)@), key@, val),
{
    let mut i: usize = 0;
    while i < map.len()
        invariant
            i <= map@.len(),
            map@ == old(map)@,
            forall|k: int| 0 <= k < i ==> (#[trigger] map@[k]).0@ != key@,
        decreases map@.len() - i,
    {
        if map[i].0 == *key {
            proof {
                assert(pairs_view(map@)[i as int].0 == key@);
                assert forall|j: int| 0 <= j < i implies (#[trigger] pairs_view(map@)[j]).0 != key@
                    by {}
                lemma_upsert_hit(pairs_view(map@), key@, val, i as int);
            }
            map[i] = (key.clone(), val);
            proof {
                assert(pairs_view(map@) =~= upsert(pairs_view(old(map)@), key@, val));
            }
            return ;
        }
        i = i + 1;
    }
    proof {
        assert forall|j: int| 0 <= j < pairs_view(map@).len() implies (#[trigger] pairs_view(
            map@,
        )[j]).0 != key@ by {}
        lemma_upsert_miss(pairs_view(map@), key@, val);
    }
    map.push((key.clone(), val));
    proof {
        assert(pairs_view(map@) =~= upsert(pairs_view(old(map)@), key@, val));
    }
}

/// Parses version-history output into a map from file path to the timestamp
/// most recently announced above it. A line that parses as a number becomes
/// the current timestamp; any other non-empty line is a file path stored
/// under that timestamp, later occurrences overwriting earlier ones; empty
/// lines are skipped. Returns `None` when no file path was found.
#[verifier::rlimit(60)]
pub fn parse_commit_times(text: &str) -> (r: Option<Vec<(String, u64)>>)
    ensures
        ({
            let m = commits_state(
                spec_lines(text@),
                spec_lines(text@).len() as int,
            ).1;
            &&& (r is Some <==> m.len() > 0)
            &&& (r is Some ==> pairs_view(r->0@) == m)
        }),
{
    let ghost lv = spec_lines(text@);
    let lines: Vec<String> = split_lines(text);
    proof {
        assert(lines.deep_view().len() == lines@.len());
    }
    let mut cur: u64 = 0;
    let mut map: Vec<(String, u64)> = Vec::new();
    let mut i: usize = 0;
    while i < lines.len()
        invariant
            i <= lines@.len(),
            lines.deep_view() == lv,
            lines@.len() == lv.len(),
            cur == commits_state(lv, i as int).0,
            pairs_view(map@) == commits_state(lv, i as int).1,
        decreases lines@.len() - i,
    {
        proof {
            assert(lv[i as int] == lines@[i as int]@);
        }
        let line: &String = &lines[i];
        if !line.as_str().is_empty() {
            let bytes: Vec<u8> = line.as_str().as_bytes_vec();
            proof {
                assert(bytes@.subrange(0, bytes@.len() as int) =~= bytes@);
            }
            let parsed: Option<u64> = parse_u64_range(&bytes, 0, bytes.len());
            match parsed {
                Some(ts) => {
                    cur = ts;
                },
                None => {
                    upsert_pair(&mut map, line, cur);
                },
            }
        }
        i = i + 1;
    }
    if map.len() == 0 {
        None
    } else {
        proof {
            assert(pairs_view(map@).len() == map@.len());
        }
        Some(map)
    }
}

proof fn lemma_insert_at_pos(s: Seq<(String, u64)>, x: (String, u64), j: int)
    requires
        0 <= j <= s.len(),
        forall|k: int| j <= k < s.len() ==> (#[trigger] s[k]).1 > x.1,
        j > 0 ==> s[j - 1].1 <= x.1,
    ensures
        insert_by_time(s, x) == s.subrange(0, j) + seq![x] + s.subrange(j, s.len() as int),
    decreases s.len(),
{
    if s.len() == 0 {
        assert(insert_by_time(s, x) =~= s.subrange(0, j) + seq![x] + s.subrange(
            j,
            s.len() as int,
        ));
    } else if s.last().1 <= x.1 {
        assert(j == s.len());
        assert(insert_by_time(s, x) =~= s.subrange(0, j) + seq![x] + s.subrange(
            j,
            s.len() as int,
        ));
    } else {
        assert(j <= s.len() - 1);
        lemma_insert_at_pos(s.drop_last(), x, j);
        assert(s.drop_last().subrange(0, j) =~= s.subrange(0, j));
        assert(s.drop_last().subrange(j, s.drop_last().len() as int) =~= s.subrange(
            j,
            s.len() - 1,
        ));
        assert(insert_by_time(s, x) =~= s.subrange(0, j) + seq![x] + s.subrange(
            j,
            s.len() as int,
        ));
    }
}

} // verus!
