//! Helpers for the scan phase and the file sink: text detection on sampled
//! bytes, binary-extension matching, and deriving a chunk's file name from
//! its first record header.

use crate::digits::spec_dec_bytes;
use crate::digits::u64_dec_bytes;
use crate::pack::push_range;
use crate::size::spec_trim;
use crate::size::trim_range;
use vstd::prelude::*;
use vstd::string::StrSliceExecFns;
use vstd::string::StringExecFns;

verus! {

/// Whether the sampled bytes look like text: text never contains a null
/// byte.
pub fn is_text_content(sample: &Vec<u8>) -> (r: bool)
    ensures
        r == (forall|i: int| 0 <= i < sample@.len() ==> sample@[i] != 0),
{
    let mut i: usize = 0;
    while i < sample.len()
        invariant
            i <= sample@.len(),
            forall|k: int| 0 <= k < i ==> sample@[k] != 0,
        decreases sample@.len() - i,
    {
        if sample[i] == 0 {
            return false;
        }
        i = i + 1;
    }
    true
}

/// `s` with every leading `.` removed.
pub open spec fn strip_dots(s: Seq<char>) -> Seq<char>
    decreases s.len(),
{
    if s.len() > 0 && s[0] == '.' {
        strip_dots(s.drop_first())
    } else {
        s
    }
}

proof fn lemma_strip_dots_at(s: Seq<char>, d: int)
    requires
        0 <= d <= s.len(),
        forall|k: int| 0 <= k < d ==> s[k] == '.',
        d == s.len() || s[d] != '.',
    ensures
        strip_dots(s) == s.skip(d),
    decreases d,
{
    if d == 0 {
        assert(s.skip(0) =~= s);
    } else {
        assert(s.drop_first() =~= s.skip(1));
        assert forall|k: int| 0 <= k < d - 1 implies s.skip(1)[k] == '.' by {
            assert(s.skip(1)[k] == s[k + 1]);
        }
        if d - 1 < s.skip(1).len() {
            assert(s.skip(1)[d - 1] == s[d]);
        }
        lemma_strip_dots_at(s.skip(1), d - 1);
        assert(s.skip(1).skip(d - 1) =~= s.skip(d));
    }
}

/// Whether `ext` equals one of the listed extensions, each taken with its
/// leading dots removed.
pub fn extension_in_list(ext: &String, exts: &Vec<String>) -> (r: bool)
    ensures
        r == (exists|i: int|
            0 <= i < exts@.len() && strip_dots(#[trigger] exts@[i]@) == ext@),
{
    let mut i: usize = 0;
    while i < exts.len()
        invariant
            i <= exts@.len(),
            forall|k: int| 0 <= k < i ==> strip_dots(#[trigger] exts@[k]@) != ext@,
        decreases exts@.len() - i,
    {
        let e: &String = &exts[i];
        let n: usize = e.as_str().unicode_len();
        let mut d: usize = 0;
        while d < n
            invariant_except_break
                d <= n == e@.len(),
                forall|k: int| 0 <= k < d ==> e@[k] == '.',
            ensures
                d <= n == e@.len(),
                forall|k: int| 0 <= k < d ==> e@[k] == '.',
                d == n || e@[d as int] != '.',
            decreases n - d,
        {
            if !(e.as_str().get_char(d) == '.') {
                break ;
            }
            d = d + 1;
        }
        proof {
            lemma_strip_dots_at(e@, d as int);
        }
        let stripped: String = e.as_str().substring_char(d, n).to_owned();
        proof {
            assert(stripped@ =~= e@.skip(d as int));
        }
        if stripped == *ext {
            proof {
                assert(strip_dots(exts@[i as int]@) == ext@);
            }
            return true;
        }
        i = i + 1;
    }
    false
}

/// The index of the first newline in `s`, or `s.len()` when there is none.
pub open spec fn first_nl(s: Seq<u8>) -> int
    decreases s.len(),
{
    if s.len() == 0 {
        0
    } else if s[0] == 10 {
        0
    } else {
        1 + first_nl(s.drop_first())
    }
}

/// The pieces of `s`, split on every newline; empty pieces are kept.
pub open spec fn split_nl(s: Seq<u8>) -> Seq<Seq<u8>>
    decreases s.len(),
{
    let i = first_nl(s);
    if 0 <= i < s.len() {
        seq![s.take(i)] + split_nl(s.skip(i + 1))
    } else {
        seq![s]
    }
}

/// A line with one trailing carriage return removed.
pub open spec fn strip_cr(l: Seq<u8>) -> Seq<u8> {
    if l.len() > 0 && l.last() == 13 {
        l.drop_last()
    } else {
        l
    }
}

/// The bytes of the record marker `>>>>`.
pub open spec fn marker() -> Seq<u8> {
    seq![62u8, 62u8, 62u8, 62u8]
}

/// Whether the line begins with the record marker.
pub open spec fn is_marker_line(l: Seq<u8>) -> bool {
    l.len() >= 4 && l.subrange(0, 4) == marker()
}

/// The first line that begins with the record marker, if any.
pub open spec fn find_marker_line(lines: Seq<Seq<u8>>) -> Option<Seq<u8>>
    decreases lines.len(),
{
    if lines.len() == 0 {
        None
    } else if is_marker_line(lines.first()) {
        Some(lines.first())
    } else {
        find_marker_line(lines.drop_first())
    }
}

/// A marker line with every leading `>>>>` removed.
pub open spec fn strip_markers(l: Seq<u8>) -> Seq<u8>
    decreases l.len(),
{
    if l.len() >= 4 && l.subrange(0, 4) == marker() {
        strip_markers(l.skip(4))
    } else {
        l
    }
}

/// The index of the first `:` in `s`, or `s.len()` when there is none.
pub open spec fn first_colon(s: Seq<u8>) -> int
    decreases s.len(),
{
    if s.len() == 0 {
        0
    } else if s[0] == 58 {
        0
    } else {
        1 + first_colon(s.drop_first())
    }
}

/// The name a marker line carries: everything after the leading markers,
/// trimmed of surrounding whitespace, up to the first `:`.
pub open spec fn marker_line_name(l: Seq<u8>) -> Seq<u8> {
    let t = spec_trim(strip_markers(l));
    t.take(first_colon(t))
}

/// The file name a chunk is stored under: the name carried by its first
/// record header, or `chunk-<index>` when no header is found.
pub open spec fn spec_chunk_file_name(payload: Seq<u8>, index: nat) -> Seq<u8> {
    match find_marker_line(split_nl(payload).map_values(|l: Seq<u8>| strip_cr(l))) {
        Some(l) => marker_line_name(l),
        None => seq![99u8, 104u8, 117u8, 110u8, 107u8, 45u8] + spec_dec_bytes(index),
    }
}

proof fn lemma_first_nl_at(s: Seq<u8>, a: int, b: int)
    requires
        0 <= a <= b <= s.len(),
        forall|k: int| a <= k < b ==> s[k] != 10,
        b == s.len() || s[b] == 10,
    ensures
        first_nl(s.skip(a)) == b - a,
    decreases b - a,
{
    if a == b {
        if b < s.len() {
            assert(s.skip(a)[0] == s[b]);
        }
    } else {
        assert(s.skip(a)[0] == s[a]);
        assert(s.skip(a).drop_first() =~= s.skip(a + 1));
        lemma_first_nl_at(s, a + 1, b);
    }
}

proof fn lemma_first_colon_at(s: Seq<u8>, b: int)
    requires
        0 <= b <= s.len(),
        forall|k: int| 0 <= k < b ==> s[k] != 58,
        b == s.len() || s[b] == 58,
    ensures
        first_colon(s) == b,
    decreases b,
{
    if b > 0 {
        assert(s.drop_first() =~= s.skip(1));
        assert forall|k: int| 0 <= k < b - 1 implies s.skip(1)[k] != 58 by {
            assert(s.skip(1)[k] == s[k + 1]);
        }
        if b - 1 < s.skip(1).len() {
            assert(s.skip(1)[b - 1] == s[b]);
        }
        lemma_first_colon_at(s.skip(1), b - 1);
    }
}

/// Whether `v[start..start+4]` is the record marker.
fn marker_at(v: &Vec<u8>, start: usize, end: usize) -> (r: bool)
    requires
        start <= end <= v@.len(),
    ensures
        r == is_marker_line(v@.subrange(start as int, end as int)),
{
    if end - start < 4 {
        return false;
    }
    let r: bool = v[start] == 62 && v[start + 1] == 62 && v[start + 2] == 62 && v[start + 3] == 62;
    proof {
        let l = v@.subrange(start as int, end as int);
        if r {
            assert(l.subrange(0, 4) =~= marker());
        } else {
            assert(l.subrange(0, 4)[0] == v@[start as int]);
            assert(l.subrange(0, 4)[1] == v@[start as int + 1]);
            assert(l.subrange(0, 4)[2] == v@[start as int + 2]);
            assert(l.subrange(0, 4)[3] == v@[start as int + 3]);
            assert(l.subrange(0, 4) != marker());
        }
    }
    r
}

/// Extracts the stored name from the marker line `v[start..end]`.
fn extract_marker_name(v: &Vec<u8>, start: usize, end: usize) -> (name: Vec<u8>)
    requires
        start <= end <= v@.len(),
    ensures
        name@ == marker_line_name(v@.subrange(start as int, end as int)),
{
    let ghost line = v@.subrange(start as int, end as int);
    let mut off: usize = start;
    while off <= end
        invariant_except_break
            start <= off <= end <= v@.len(),
            line == v@.subrange(start as int, end as int),
            strip_markers(line) == strip_markers(v@.subrange(off as int, end as int)),
        ensures
            start <= off <= end <= v@.len(),
            line == v@.subrange(start as int, end as int),
            strip_markers(line) == v@.subrange(off as int, end as int),
        decreases end - off,
    {
        let m: bool = marker_at(v, off, end);
        if !m {
            proof {
                let cur = v@.subrange(off as int, end as int);
                assert(!(cur.len() >= 4 && cur.subrange(0, 4) == marker()));
                assert(strip_markers(line) == cur);
            }
            break ;
        }
        proof {
            let cur = v@.subrange(off as int, end as int);
            assert(cur.skip(4) =~= v@.subrange(off as int + 4, end as int));
        }
        off = off + 4;
    }
    let (l2, h2) = trim_range(v, off, end);
    let ghost t = spec_trim(v@.subrange(off as int, end as int));
    let mut c: usize = l2;
    while c < h2
        invariant_except_break
            l2 <= c <= h2 <= v@.len(),
            t == v@.subrange(l2 as int, h2 as int),
            forall|k: int| 0 <= k < c - l2 ==> t[k] != 58,
        ensures
            l2 <= c <= h2 <= v@.len(),
            t == v@.subrange(l2 as int, h2 as int),
            forall|k: int| 0 <= k < c - l2 ==> t[k] != 58,
            c == h2 || t[c - l2] == 58,
        decreases h2 - c,
    {
        proof {
            assert(t[c - l2] == v@[c as int]);
        }
        if v[c] == 58 {
            break ;
        }
        c = c + 1;
    }
    proof {
        lemma_first_colon_at(t, c - l2);
    }
    let mut name: Vec<u8> = Vec::new();
    push_range(&mut name, v, l2, c);
    proof {
        assert(t.take(c - l2) =~= v@.subrange(l2 as int, c as int));
        assert(name@ =~= marker_line_name(line));
    }
    name
}

/// Derives the file name a chunk is stored under: the name carried by the
/// first `>>>>` header line (up to any `:` marker), or `chunk-<index>` when
/// the payload holds no header line.
pub fn derive_chunk_file_name(payload: &Vec<u8>, index: usize) -> (name: Vec<u8>)
    ensures
        name@ == spec_chunk_file_name(payload@, index as nat),
{
    let ghost all = split_nl(payload@).map_values(|l: Seq<u8>| strip_cr(l));
    let n: usize = payload.len();
    let mut line_start: usize = 0;
    let mut i: usize = 0;
    proof {
        assert(payload@.skip(0) =~= payload@);
    }
    while i < n
        invariant
            line_start <= i <= n == payload@.len(),
            all == split_nl(payload@).map_values(|l: Seq<u8>| strip_cr(l)),
            find_marker_line(all) == find_marker_line(
                split_nl(payload@.skip(line_start as int)).map_values(|l: Seq<u8>| strip_cr(l)),
            ),
            forall|k: int| line_start <= k < i ==> payload@[k] != 10,
        decreases n - i,
    {
        if payload[i] == 10 {
            let line_end: usize = if i > line_start && payload[i - 1] == 13 {
                i - 1
            } else {
                i
            };
            proof {
                lemma_first_nl_at(payload@, line_start as int, i as int);
                let rest = payload@.skip(line_start as int);
                assert(rest.take(i - line_start) =~= payload@.subrange(
                    line_start as int,
                    i as int,
                ));
                assert(rest.skip(i - line_start + 1) =~= payload@.skip(i + 1));
                assert(split_nl(rest) == seq![
                    payload@.subrange(line_start as int, i as int),
                ] + split_nl(payload@.skip(i + 1)));
                let piece = payload@.subrange(line_start as int, i as int);
                assert(strip_cr(piece) =~= payload@.subrange(line_start as int, line_end as int));
                assert(split_nl(rest).map_values(|l: Seq<u8>| strip_cr(l)) =~= seq![
                    strip_cr(piece),
                ] + split_nl(payload@.skip(i + 1)).map_values(|l: Seq<u8>| strip_cr(l)));
            }
            if marker_at(payload, line_start, line_end) {
                proof {
                    let rest = payload@.skip(line_start as int);
                    let mapped = split_nl(rest).map_values(|l: Seq<u8>| strip_cr(l));
                    assert(mapped.first() == payload@.subrange(line_start as int, line_end as int));
                    assert(is_marker_line(mapped.first()));
                    assert(find_marker_line(all) == Some(
                        payload@.subrange(line_start as int, line_end as int),
                    ));
                }
                return extract_marker_name(payload, line_start, line_end);
            }
            proof {
                let rest = payload@.skip(line_start as int);
                let mapped = split_nl(rest).map_values(|l: Seq<u8>| strip_cr(l));
                let rest2 = split_nl(payload@.skip(i + 1)).map_values(|l: Seq<u8>| strip_cr(l));
                assert(mapped.first() == payload@.subrange(line_start as int, line_end as int));
                assert(!is_marker_line(mapped.first()));
                assert(mapped.drop_first() =~= rest2);
                assert(find_marker_line(mapped) == find_marker_line(rest2));
            }
            line_start = i + 1;
        }
        i = i + 1;
    }
    let line_end: usize = if n > line_start && payload[n - 1] == 13 {
        n - 1
    } else {
        n
    };
    proof {
        lemma_first_nl_at(payload@, line_start as int, n as int);
        let rest = payload@.skip(line_start as int);
        assert(split_nl(rest) == seq![rest]);
        assert(rest =~= payload@.subrange(line_start as int, n as int));
        assert(split_nl(rest).map_values(|l: Seq<u8>| strip_cr(l)) =~= seq![strip_cr(rest)]);
        assert(strip_cr(rest) =~= payload@.subrange(line_start as int, line_end as int));
        let mapped = split_nl(rest).map_values(|l: Seq<u8>| strip_cr(l));
        assert(mapped.first() == payload@.subrange(line_start as int, line_end as int));
        assert(mapped.drop_first() =~= Seq::<Seq<u8>>::empty());
        assert(find_marker_line(Seq::<Seq<u8>>::empty()) is None);
    }
    if marker_at(payload, line_start, line_end) {
        proof {
            let rest = payload@.skip(line_start as int);
            let mapped = split_nl(rest).map_values(|l: Seq<u8>| strip_cr(l));
            assert(is_marker_line(mapped.first()));
            assert(find_marker_line(all) == Some(
                payload@.subrange(line_start as int, line_end as int),
            ));
        }
        return extract_marker_name(payload, line_start, line_end);
    }
    proof {
        let rest = payload@.skip(line_start as int);
        let mapped = split_nl(rest).map_values(|l: Seq<u8>| strip_cr(l));
        assert(!is_marker_line(mapped.first()));
        assert(find_marker_line(all) is None);
    }
    let mut name: Vec<u8> = Vec::new();
    name.push(99);
    name.push(104);
    name.push(117);
    name.push(110);
    name.push(107);
    name.push(45);
    let digits: Vec<u8> = u64_dec_bytes(index as u64);
    let mut j: usize = 0;
    while j < digits.len()
        invariant
            j <= digits@.len(),
            name@ == seq![99u8, 104u8, 117u8, 110u8, 107u8, 45u8] + digits@.subrange(0, j as int),
        decreases digits@.len() - j,
    {
        let d: u8 = digits[j];
        proof {
            assert(digits@.subrange(0, j + 1) =~= digits@.subrange(0, j as int).push(digits@[
                j as int]));
            assert((seq![99u8, 104u8, 117u8, 110u8, 107u8, 45u8] + digits@.subrange(
                0,
                j as int,
            )).push(d) =~= seq![99u8, 104u8, 117u8, 110u8, 107u8, 45u8] + digits@.subrange(
                0,
                j + 1,
            ));
        }
        name.push(d);
        j = j + 1;
    }
    proof {
        assert(digits@.subrange(0, digits@.len() as int) =~= digits@);
    }
    name
}

} // verus!
