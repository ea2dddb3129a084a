//! The chunk packer: a single greedy pass over the priority-ordered file
//! sequence, packing contents into capacity-bounded chunks and force-splitting
//! files that exceed one chunk's capacity on their own.
//!
//! The packing is modelled by a small state machine over ghost records
//! ([`ChunkRecord`], [`PackState`], [`pack`]); the executable packer produces
//! exactly the rendering of that model.

use crate::config::YekConfig;
use crate::digits::spec_dec_bytes;
use crate::digits::u64_dec_bytes;
use vstd::prelude::*;
use vstd::string::StrSliceExecFns;
use vstd::utf8::decode_utf8;
use vstd::utf8::encode_utf8;

verus! {

/// Whether the character counts as whitespace when splitting text into
/// tokens.
pub uninterp spec fn char_is_whitespace(c: char) -> bool;

/// Relies on `char::is_whitespace`: a property of the character alone.
#[verifier::external_body]
fn is_ws_char(c: char) -> (r: bool)
    ensures
        r == char_is_whitespace(c),
{
    c.is_whitespace()
}

/// The first position at or after `i` holding a whitespace character, or
/// the end of the text.
pub open spec fn next_token_end(s: Seq<char>, i: int) -> int
    decreases s.len() - i,
{
    if i < 0 || i >= s.len() {
        s.len() as int
    } else if char_is_whitespace(s[i]) {
        i
    } else {
        next_token_end(s, i + 1)
    }
}

/// The whitespace-delimited tokens of the text from position `i` on, each
/// as its character span `(start, end)`, in text order.
pub open spec fn token_spans_from(s: Seq<char>, i: int) -> Seq<(int, int)>
    decreases s.len() - i,
{
    if i < 0 || i >= s.len() {
        Seq::empty()
    } else if char_is_whitespace(s[i]) {
        token_spans_from(s, i + 1)
    } else {
        let e0 = next_token_end(s, i + 1);
        let e = if e0 < i + 1 {
            i + 1
        } else if e0 > s.len() {
            s.len() as int
        } else {
            e0
        };
        seq![(i, e)] + token_spans_from(s, e)
    }
}

/// The whitespace-delimited tokens of the text, as their character spans.
pub open spec fn token_spans(s: Seq<char>) -> Seq<(int, int)> {
    token_spans_from(s, 0)
}

proof fn lemma_next_token_end_bounds(s: Seq<char>, i: int)
    requires
        0 <= i <= s.len(),
    ensures
        i <= next_token_end(s, i) <= s.len(),
    decreases s.len() - i,
{
    if i < s.len() && !char_is_whitespace(s[i]) {
        lemma_next_token_end_bounds(s, i + 1);
    }
}

proof fn lemma_next_token_end_at(s: Seq<char>, a: int, b: int)
    requires
        0 <= a <= b <= s.len(),
        forall|k: int| a <= k < b ==> !char_is_whitespace(#[trigger] s[k]),
        b == s.len() || char_is_whitespace(s[b]),
    ensures
        next_token_end(s, a) == b,
    decreases b - a,
{
    if a < b {
        lemma_next_token_end_at(s, a + 1, b);
    }
}

/// The token spans are well formed: each span lies inside the text with a
/// positive width, and the spans come in increasing positions.
pub proof fn lemma_token_spans_wf(s: Seq<char>, i: int)
    requires
        0 <= i,
    ensures
        forall|k: int|
            0 <= k < token_spans_from(s, i).len() ==> {
                let sp = #[trigger] token_spans_from(s, i)[k];
                &&& i <= sp.0 < sp.1 <= s.len()
                &&& (k + 1 < token_spans_from(s, i).len() ==> sp.1 <= token_spans_from(
                    s,
                    i,
                )[k + 1].0)
            },
    decreases s.len() - i,
{
    if i >= s.len() {
    } else if char_is_whitespace(s[i]) {
        lemma_token_spans_wf(s, i + 1);
        assert(token_spans_from(s, i) == token_spans_from(s, i + 1));
        assert forall|k: int| 0 <= k < token_spans_from(s, i).len() implies {
            let sp = #[trigger] token_spans_from(s, i)[k];
            &&& i <= sp.0 < sp.1 <= s.len()
            &&& (k + 1 < token_spans_from(s, i).len() ==> sp.1 <= token_spans_from(s, i)[k
                + 1].0)
        } by {
            assert(token_spans_from(s, i)[k] == token_spans_from(s, i + 1)[k]);
            if k + 1 < token_spans_from(s, i).len() {
                assert(token_spans_from(s, i)[k + 1] == token_spans_from(s, i + 1)[k + 1]);
            }
        }
    } else {
        lemma_next_token_end_bounds(s, i + 1);
        let e = next_token_end(s, i + 1);
        assert(i + 1 <= e <= s.len());
        lemma_token_spans_wf(s, e);
        let spans = token_spans_from(s, i);
        let rest = token_spans_from(s, e);
        assert(spans == seq![(i, e)] + rest);
        assert forall|k: int| 0 <= k < spans.len() implies {
            let sp = #[trigger] spans[k];
            &&& i <= sp.0 < sp.1 <= s.len()
            &&& (k + 1 < spans.len() ==> sp.1 <= spans[k + 1].0)
        } by {
            if k == 0 {
                assert(spans[0] == (i, e));
                if spans.len() > 1 {
                    assert(spans[1] == rest[0]);
                }
            } else {
                assert(spans[k] == rest[k - 1]);
                if k + 1 < spans.len() {
                    assert(spans[k + 1] == rest[k]);
                }
            }
        }
    }
}

/// Token starts never decrease along the span list.
pub proof fn lemma_token_starts_mono(s: Seq<char>, j1: int, j2: int)
    requires
        0 <= j1 <= j2 < token_spans(s).len(),
    ensures
        token_spans(s)[j1].0 <= token_spans(s)[j2].0,
    decreases j2 - j1,
{
    lemma_token_spans_wf(s, 0);
    if j1 < j2 {
        lemma_token_starts_mono(s, j1 + 1, j2);
    }
}

/// The tokens of the text, as `(start, end)` character index pairs.
pub fn compute_token_spans(s: &str) -> (r: Vec<(usize, usize)>)
    ensures
        r@.map_values(|p: (usize, usize)| (p.0 as int, p.1 as int)) == token_spans(s@),
{
    let n: usize = s.unicode_len();
    let mut r: Vec<(usize, usize)> = Vec::new();
    let mut i: usize = 0;
    proof {
        assert(r@.map_values(|p: (usize, usize)| (p.0 as int, p.1 as int))
            =~= Seq::<(int, int)>::empty());
    }
    while i < n
        invariant
            i <= n == s@.len(),
            token_spans(s@) == r@.map_values(|p: (usize, usize)| (p.0 as int, p.1 as int))
                + token_spans_from(s@, i as int),
        decreases n - i,
    {
        let c: char = s.get_char(i);
        if is_ws_char(c) {
            proof {
                assert(token_spans_from(s@, i as int) == token_spans_from(s@, i + 1));
            }
            i = i + 1;
        } else {
            let mut j: usize = i + 1;
            while j < n
                invariant_except_break
                    i + 1 <= j <= n == s@.len(),
                    forall|k: int| i + 1 <= k < j ==> !char_is_whitespace(#[trigger] s@[k]),
                ensures
                    i + 1 <= j <= n == s@.len(),
                    forall|k: int| i + 1 <= k < j ==> !char_is_whitespace(#[trigger] s@[k]),
                    j == n || char_is_whitespace(s@[j as int]),
                decreases n - j,
            {
                let c2: char = s.get_char(j);
                if is_ws_char(c2) {
                    break ;
                }
                j = j + 1;
            }
            proof {
                lemma_next_token_end_at(s@, i + 1, j as int);
                assert(token_spans_from(s@, i as int) == seq![(i as int, j as int)]
                    + token_spans_from(s@, j as int));
            }
            r.push((i, j));
            proof {
                assert(r@.map_values(|p: (usize, usize)| (p.0 as int, p.1 as int))
                    =~= r@.drop_last().map_values(|p: (usize, usize)| (p.0 as int, p.1 as int)).push(
                    (i as int, j as int)));
                assert(token_spans(s@) =~= r@.map_values(
                    |p: (usize, usize)| (p.0 as int, p.1 as int),
                ) + token_spans_from(s@, j as int));
            }
            i = j;
        }
    }
    proof {
        assert(token_spans_from(s@, n as int) =~= Seq::<(int, int)>::empty());
        assert(token_spans(s@) =~= r@.map_values(|p: (usize, usize)| (p.0 as int, p.1 as int)));
    }
    r
}

/// One record inside a chunk: the slot of one file, or of one forced-split
/// part of a file. `src` is the index of the file in the packer's input,
/// `body` the bytes emitted under the record's header, and `size` the
/// record's measured size under the active measurement mode.
pub struct ChunkRecord {
    pub src: int,
    pub path: Seq<u8>,
    pub part: Option<int>,
    pub body: Seq<u8>,
    pub size: nat,
}

/// The measured size of a file body: its token count in token mode, its byte
/// count otherwise.
pub open spec fn measure_of(content: Seq<u8>, token_mode: bool) -> nat {
    if token_mode {
        token_spans(decode_utf8(content)).len()
    } else {
        content.len()
    }
}

/// How many forced-split parts a file of measured size `m` produces under
/// capacity `cap`: the ceiling of `m / cap`.
pub open spec fn num_parts(m: nat, cap: nat) -> nat
    recommends
        cap > 0,
{
    ((m + cap - 1) / cap as int) as nat
}

/// The measured size of forced-split part `k`: `cap` for every part but
/// possibly the last.
pub open spec fn part_size(m: nat, cap: nat, k: int) -> nat {
    if k * cap + cap <= m {
        cap
    } else {
        (m - k * cap) as nat
    }
}

/// The character position where forced-split part `k` begins: the start of
/// its first token, with the first part reaching back to the start of the
/// text and the last part reaching to its end, so that the parts partition
/// the text.
pub open spec fn part_char_bound(chars: Seq<char>, k: int, cap: nat, np: nat) -> int {
    if k <= 0 {
        0
    } else if k >= np {
        chars.len() as int
    } else {
        token_spans(chars)[k * cap].0
    }
}

/// The body bytes of forced-split part `k`: the next `cap`-sized slice of
/// the content. In byte mode the slice is taken at raw byte offsets; in
/// token mode it is the contiguous slice of the text covering the part's
/// tokens, cut at token boundaries, so that the parts concatenate back to
/// the content.
pub open spec fn part_body(content: Seq<u8>, token_mode: bool, k: int, cap: nat, m: nat) -> Seq<
    u8,
> {
    if token_mode {
        let chars = decode_utf8(content);
        let np = num_parts(m, cap);
        encode_utf8(
            chars.subrange(
                part_char_bound(chars, k, cap, np),
                part_char_bound(chars, k + 1, cap, np),
            ),
        )
    } else {
        let start = k * cap;
        let end = if start + cap <= m {
            start + cap
        } else {
            m as int
        };
        content.subrange(start, end)
    }
}

/// The records that the file at input position `src` contributes: a single
/// whole-file record when it fits (split triggers only on strict excess of
/// the capacity), else one record per forced-split part.
pub open spec fn records_of(
    src: int,
    path: Seq<u8>,
    content: Seq<u8>,
    cap: nat,
    token_mode: bool,
) -> Seq<ChunkRecord> {
    let m = measure_of(content, token_mode);
    if m > cap {
        Seq::new(
            num_parts(m, cap),
            |k: int|
                ChunkRecord {
                    src,
                    path,
                    part: Some(k),
                    body: part_body(content, token_mode, k, cap, m),
                    size: part_size(m, cap, k),
                },
        )
    } else {
        seq![ChunkRecord { src, path, part: None, body: content, size: m }]
    }
}

/// The packer's running state: the chunks already emitted, the records
/// buffered for the next chunk, and the buffer's accumulated size (body
/// sizes plus per-record header overhead).
pub struct PackState {
    pub chunks: Seq<Seq<ChunkRecord>>,
    pub buf: Seq<ChunkRecord>,
    pub used: nat,
}

/// The packer's state before any file is consumed.
pub open spec fn init_state() -> PackState {
    PackState { chunks: Seq::empty(), buf: Seq::empty(), used: 0 }
}

/// One step of the packer: consume the file at input position `src`. An
/// oversized file first flushes any buffered records, then emits each of its
/// parts as a chunk of its own; a fitting file flushes the non-empty buffer
/// first if it would overflow the capacity, then is buffered.
pub open spec fn pack_step(
    st: PackState,
    src: int,
    path: Seq<u8>,
    content: Seq<u8>,
    cap: nat,
    token_mode: bool,
) -> PackState {
    let m = measure_of(content, token_mode);
    let recs = records_of(src, path, content, cap, token_mode);
    if m > cap {
        let flushed = if st.buf.len() > 0 {
            st.chunks.push(st.buf)
        } else {
            st.chunks
        };
        PackState {
            chunks: flushed + recs.map_values(|r: ChunkRecord| seq![r]),
            buf: Seq::empty(),
            used: 0,
        }
    } else {
        let add = m + 10 + path.len();
        if st.used + add > cap && st.buf.len() > 0 {
            PackState { chunks: st.chunks.push(st.buf), buf: recs, used: add }
        } else {
            PackState { chunks: st.chunks, buf: st.buf + recs, used: st.used + add }
        }
    }
}

/// The packer's state after the first `i` files of `ents` (each a pair of
/// path bytes and content bytes).
pub open spec fn pack_prefix(
    ents: Seq<(Seq<u8>, Seq<u8>)>,
    i: int,
    cap: nat,
    token_mode: bool,
) -> PackState
    decreases i,
{
    if i <= 0 {
        init_state()
    } else {
        let st = pack_prefix(ents, i - 1, cap, token_mode);
        pack_step(st, i - 1, ents[i - 1].0, ents[i - 1].1, cap, token_mode)
    }
}

/// A final non-empty buffer is flushed as the last chunk; an empty buffer is
/// never flushed.
pub open spec fn finish_state(st: PackState) -> Seq<Seq<ChunkRecord>> {
    if st.buf.len() > 0 {
        st.chunks.push(st.buf)
    } else {
        st.chunks
    }
}

/// The full packing of `ents`: every chunk, as its sequence of records, in
/// emission order. A chunk's index is its position in this sequence.
pub open spec fn pack(ents: Seq<(Seq<u8>, Seq<u8>)>, cap: nat, token_mode: bool) -> Seq<
    Seq<ChunkRecord>,
> {
    finish_state(pack_prefix(ents, ents.len() as int, cap, token_mode))
}

/// The path bytes and content bytes of each packer input entry.
pub open spec fn entry_views(entries: Seq<(String, String, i32)>) -> Seq<(Seq<u8>, Seq<u8>)> {
    entries.map_values(|t: (String, String, i32)| (encode_utf8(t.0@), encode_utf8(t.1@)))
}

/// The bytes of `"chunk "`.
pub open spec fn lit_chunk() -> Seq<u8> {
    seq![99u8, 104u8, 117u8, 110u8, 107u8, 32u8]
}

/// The bytes of `">>>> "`.
pub open spec fn lit_mark() -> Seq<u8> {
    seq![62u8, 62u8, 62u8, 62u8, 32u8]
}

/// The bytes of `":part "`.
pub open spec fn lit_part() -> Seq<u8> {
    seq![58u8, 112u8, 97u8, 114u8, 116u8, 32u8]
}

/// The exact bytes one record contributes to the chunk at index `idx`:
/// `chunk <idx>`, then `>>>> <path>` with `:part <n>` appended for a forced
/// split, then the body, each section ending in a newline.
pub open spec fn render_rec(idx: int, r: ChunkRecord) -> Seq<u8> {
    lit_chunk() + spec_dec_bytes(idx as nat) + seq![10u8] + lit_mark() + r.path + (match r.part {
        Some(k) => lit_part() + spec_dec_bytes(k as nat),
        None => Seq::<u8>::empty(),
    }) + seq![10u8] + r.body + seq![10u8]
}

/// The exact text of the chunk at index `idx`: its records' renderings in
/// order.
pub open spec fn render_chunk(idx: int, recs: Seq<ChunkRecord>) -> Seq<u8>
    decreases recs.len(),
{
    if recs.len() == 0 {
        Seq::<u8>::empty()
    } else {
        render_rec(idx, recs[0]) + render_chunk(idx, recs.drop_first())
    }
}

proof fn lemma_render_push(idx: int, recs: Seq<ChunkRecord>, r: ChunkRecord)
    ensures
        render_chunk(idx, recs.push(r)) == render_chunk(idx, recs) + render_rec(idx, r),
    decreases recs.len(),
{
    if recs.len() == 0 {
        let s = recs.push(r);
        assert(s[0] == r);
        assert(s.drop_first() =~= Seq::<ChunkRecord>::empty());
        assert(render_chunk(idx, s) == render_rec(idx, r) + render_chunk(
            idx,
            Seq::<ChunkRecord>::empty(),
        ));
        assert(render_chunk(idx, Seq::<ChunkRecord>::empty()) =~= Seq::<u8>::empty());
        assert(render_chunk(idx, recs) =~= Seq::<u8>::empty());
        assert(render_chunk(idx, s) =~= render_chunk(idx, recs) + render_rec(idx, r));
    } else {
        assert(recs.push(r).drop_first() =~= recs.drop_first().push(r));
        assert(recs.push(r)[0] == recs[0]);
        lemma_render_push(idx, recs.drop_first(), r);
        assert(render_chunk(idx, recs.push(r)) =~= render_chunk(idx, recs) + render_rec(idx, r));
    }
}

proof fn lemma_render_nonempty(idx: int, recs: Seq<ChunkRecord>)
    requires
        recs.len() > 0,
    ensures
        render_chunk(idx, recs).len() > 0,
{
}

/// The effective chunk capacity: the configured `max_size`, or the default.
pub open spec fn spec_capacity(config: YekConfig) -> nat {
    match config.max_size {
        Some(s) => s as nat,
        None => crate::DEFAULT_CHUNK_SIZE as nat,
    }
}

pub proof fn lemma_lt_num_parts(m: nat, cap: nat, k: int)
    requires
        cap > 0,
        0 <= k,
        k * cap < m,
    ensures
        k < num_parts(m, cap),
{
    assert(cap as int * (k + 1) == k * cap + cap) by (nonlinear_arith);
    vstd::arithmetic::div_mod::lemma_div_multiples_vanish(k + 1, cap as int);
    vstd::arithmetic::div_mod::lemma_div_is_ordered(
        cap as int * (k + 1),
        m + cap - 1,
        cap as int,
    );
}

pub proof fn lemma_eq_num_parts(m: nat, cap: nat, k: int)
    requires
        cap > 0,
        1 <= k,
        k * cap >= m,
        (k - 1) * cap < m,
    ensures
        k == num_parts(m, cap),
{
    lemma_lt_num_parts(m, cap, k - 1);
    assert(cap as int * k + (cap - 1) == k * cap + cap - 1) by (nonlinear_arith);
    vstd::arithmetic::div_mod::lemma_div_multiples_vanish_fancy(k, cap as int - 1, cap as int);
    vstd::arithmetic::div_mod::lemma_div_is_ordered(
        m + cap - 1,
        cap as int * k + (cap - 1),
        cap as int,
    );
}

pub proof fn lemma_ge_num_parts(m: nat, cap: nat, k: int)
    requires
        cap > 0,
        0 <= k,
        k * cap >= m,
        m > 0,
    ensures
        num_parts(m, cap) <= k,
{
    assert(cap as int * k + (cap - 1) == k * cap + cap - 1) by (nonlinear_arith);
    vstd::arithmetic::div_mod::lemma_div_multiples_vanish_fancy(k, cap as int - 1, cap as int);
    vstd::arithmetic::div_mod::lemma_div_is_ordered(
        m + cap - 1,
        cap as int * k + (cap - 1),
        cap as int,
    );
}

/// Appends all of `src` to `out`.
fn push_all(out: &mut Vec<u8>, src: &Vec<u8>)
    ensures
        final(out)@ == old(out)@ + src@,
{
    let mut i: usize = 0;
    while i < src.len()
        invariant
            i <= src@.len(),
            out@ == old(out)@ + src@.subrange(0, i as int),
        decreases src@.len() - i,
    {
        let b: u8 = src[i];
        proof {
            assert(src@.subrange(0, i + 1) =~= src@.subrange(0, i as int).push(src@[i as int]));
            assert((old(out)@ + src@.subrange(0, i as int)).push(b) =~= old(out)@ + src@.subrange(
                0,
                i + 1,
            ));
        }
        out.push(b);
        i = i + 1;
    }
    proof {
        assert(src@.subrange(0, src@.len() as int) =~= src@);
    }
}

/// Appends `src[start..end]` to `out`.
pub(crate) fn push_range(out: &mut Vec<u8>, src: &Vec<u8>, start: usize, end: usize)
    requires
        start <= end <= src@.len(),
    ensures
        final(out)@ == old(out)@ + src@.subrange(start as int, end as int),
{
    let mut i: usize = start;
    while i < end
        invariant
            start <= i <= end <= src@.len(),
            out@ == old(out)@ + src@.subrange(start as int, i as int),
        decreases end - i,
    {
        let b: u8 = src[i];
        proof {
            assert(src@.subrange(start as int, i + 1) =~= src@.subrange(start as int, i as int).push(
                src@[i as int],
            ));
            assert((old(out)@ + src@.subrange(start as int, i as int)).push(b) =~= old(out)@
                + src@.subrange(start as int, i + 1));
        }
        out.push(b);
        i = i + 1;
    }
}

/// Appends the record header `chunk <idx>\n>>>> <path>[:part <n>]\n` to
/// `out`.
fn push_record_header(out: &mut Vec<u8>, idx: usize, path: &Vec<u8>, part: Option<usize>)
    ensures
        final(out)@ == old(out)@ + lit_chunk() + spec_dec_bytes(idx as nat) + seq![10u8]
            + lit_mark() + path@ + (match part {
            Some(k) => lit_part() + spec_dec_bytes(k as nat),
            None => Seq::<u8>::empty(),
        }) + seq![10u8],
{
    out.push(99);
    out.push(104);
    out.push(117);
    out.push(110);
    out.push(107);
    out.push(32);
    proof {
        assert(out@ =~= old(out)@ + lit_chunk());
    }
    let digits: Vec<u8> = u64_dec_bytes(idx as u64);
    push_all(out, &digits);
    out.push(10);
    proof {
        assert(out@ =~= old(out)@ + lit_chunk() + spec_dec_bytes(idx as nat) + seq![10u8]);
    }
    out.push(62);
    out.push(62);
    out.push(62);
    out.push(62);
    out.push(32);
    proof {
        assert(out@ =~= old(out)@ + lit_chunk() + spec_dec_bytes(idx as nat) + seq![10u8]
            + lit_mark());
    }
    push_all(out, path);
    match part {
        Some(k) => {
            out.push(58);
            out.push(112);
            out.push(97);
            out.push(114);
            out.push(116);
            out.push(32);
            let kdigits: Vec<u8> = u64_dec_bytes(k as u64);
            push_all(out, &kdigits);
            proof {
                assert(out@ =~= old(out)@ + lit_chunk() + spec_dec_bytes(idx as nat) + seq![10u8]
                    + lit_mark() + path@ + (lit_part() + spec_dec_bytes(k as nat)));
            }
        },
        None => {
            proof {
                assert(out@ =~= old(out)@ + lit_chunk() + spec_dec_bytes(idx as nat) + seq![10u8]
                    + lit_mark() + path@ + Seq::<u8>::empty());
            }
        },
    }
    out.push(10);
    proof {
        assert(out@ =~= old(out)@ + lit_chunk() + spec_dec_bytes(idx as nat) + seq![10u8]
            + lit_mark() + path@ + (match part {
            Some(k) => lit_part() + spec_dec_bytes(k as nat),
            None => Seq::<u8>::empty(),
        }) + seq![10u8]);
    }
}

/// Packs the ordered `entries` (triples of relative path, content and
/// priority, already sorted ascending by priority) into chunk payloads,
/// returning the exact payload bytes of every chunk in emission order.
///
/// The result is precisely the rendering of the ghost packing model
/// [`pack`]: files are consumed in order, buffered up to the configured
/// capacity (under the configured measurement mode), and a file whose
/// measured size strictly exceeds the capacity is emitted as consecutive
/// capacity-sized part chunks of its own.
#[verifier::rlimit(100)]
pub fn write_chunks(entries: &Vec<(String, String, i32)>, config: &YekConfig) -> (chunks: Vec<
    Vec<u8>,
>)
    requires
        spec_capacity(*config) > 0,
    ensures
        chunks@.len() == pack(
            entry_views(entries@),
            spec_capacity(*config),
            config.token_mode,
        ).len(),
        forall|i: int|
            0 <= i < chunks@.len() ==> #[trigger] chunks@[i]@ == render_chunk(
                i,
                pack(entry_views(entries@), spec_capacity(*config), config.token_mode)[i],
            ),
{
    let chunk_size: usize = match config.max_size {
        Some(s) => s,
        None => crate::DEFAULT_CHUNK_SIZE,
    };
    let token_mode: bool = config.token_mode;
    let ghost ev = entry_views(entries@);
    let ghost cap = spec_capacity(*config);
    let mut chunks: Vec<Vec<u8>> = Vec::new();
    let mut buf: Vec<u8> = Vec::new();
    let mut used_size: usize = 0;
    let mut used_fits: bool = true;
    let mut e: usize = 0;
    while e < entries.len()
        invariant
            e <= entries@.len(),
            ev == entry_views(entries@),
            ev.len() == entries@.len(),
            cap == spec_capacity(*config),
            cap > 0,
            chunk_size as nat == cap,
            token_mode == config.token_mode,
            chunks@.len() == pack_prefix(ev, e as int, cap, token_mode).chunks.len(),
            forall|i: int|
                0 <= i < chunks@.len() ==> #[trigger] chunks@[i]@ == render_chunk(
                    i,
                    pack_prefix(ev, e as int, cap, token_mode).chunks[i],
                ),
            buf@ == render_chunk(
                chunks@.len() as int,
                pack_prefix(ev, e as int, cap, token_mode).buf,
            ),
            (buf@.len() > 0) == (pack_prefix(ev, e as int, cap, token_mode).buf.len() > 0),
            pack_prefix(ev, e as int, cap, token_mode).buf.len() == 0 ==> pack_prefix(
                ev,
                e as int,
                cap,
                token_mode,
            ).used == 0,
            used_fits == (pack_prefix(ev, e as int, cap, token_mode).used <= cap),
            used_fits ==> used_size as nat == pack_prefix(ev, e as int, cap, token_mode).used,
        decreases entries@.len() - e,
    {
        let ghost st = pack_prefix(ev, e as int, cap, token_mode);
        let ghost st2 = pack_prefix(ev, e + 1, cap, token_mode);
        proof {
            assert(st2 == pack_step(st, e as int, ev[e as int].0, ev[e as int].1, cap, token_mode));
        }
        let rel_path: &String = &entries[e].0;
        let content: &String = &entries[e].1;
        let pbytes: Vec<u8> = rel_path.as_str().as_bytes_vec();
        let cbytes: Vec<u8> = content.as_str().as_bytes_vec();
        proof {
            assert(ev[e as int] == (
                encode_utf8(entries@[e as int].0@),
                encode_utf8(entries@[e as int].1@),
            ));
            assert(pbytes@ == ev[e as int].0);
            assert(cbytes@ == ev[e as int].1);
        }
        let spans: Option<Vec<(usize, usize)>> = if token_mode {
            Some(compute_token_spans(content.as_str()))
        } else {
            None
        };
        let n_chars: usize = content.as_str().unicode_len();
        let file_size: usize = match &spans {
            Some(sp) => sp.len(),
            None => cbytes.len(),
        };
        let ghost m = measure_of(ev[e as int].1, token_mode);
        let ghost chars = decode_utf8(ev[e as int].1);
        proof {
            vstd::utf8::encode_utf8_decode_utf8(entries@[e as int].1@);
            assert(chars == entries@[e as int].1@);
            assert(content@ == chars);
            match &spans {
                Some(sp) => {
                    assert(sp@.map_values(|p: (usize, usize)| (p.0 as int, p.1 as int))
                        == token_spans(chars));
                    assert(sp@.map_values(|p: (usize, usize)| (p.0 as int, p.1 as int)).len()
                        == sp@.len());
                },
                None => {},
            }
            assert(file_size as nat == m);
        }
        let ghost recs = records_of(e as int, ev[e as int].0, ev[e as int].1, cap, token_mode);
        if file_size > chunk_size {
            // An oversized file: flush the buffered records, then emit each
            // capacity-sized slice as a chunk of its own.
            if buf.len() > 0 {
                chunks.push(buf);
                buf = Vec::new();
                used_size = 0;
                used_fits = true;
            }
            let ghost flushed = if st.buf.len() > 0 {
                st.chunks.push(st.buf)
            } else {
                st.chunks
            };
            proof {
                assert(chunks@.len() == flushed.len());
                assert(render_chunk(chunks@.len() as int, Seq::<ChunkRecord>::empty()).len() == 0);
                assert forall|i: int| 0 <= i < chunks@.len() implies #[trigger] chunks@[i]@
                    == render_chunk(i, flushed[i]) by {
                    if st.buf.len() > 0 && i == flushed.len() - 1 {
                        assert(flushed[i] == st.buf);
                    }
                }
            }
            let mut start: usize = 0;
            let mut part: usize = 0;
            while start < file_size
                invariant
                    cap > 0,
                    chunk_size as nat == cap,
                    token_mode == config.token_mode,
                    e < ev.len(),
                    file_size as nat == m,
                    m > cap,
                    m == measure_of(ev[e as int].1, token_mode),
                    pbytes@ == ev[e as int].0,
                    cbytes@ == ev[e as int].1,
                    chars == decode_utf8(ev[e as int].1),
                    content@ == chars,
                    n_chars as int == chars.len(),
                    spans is Some <==> token_mode,
                    token_mode ==> spans->0@.map_values(
                        |p: (usize, usize)| (p.0 as int, p.1 as int),
                    ) == token_spans(chars),
                    token_mode ==> spans->0@.len() == file_size,
                    !token_mode ==> cbytes@.len() == file_size,
                    recs == records_of(e as int, ev[e as int].0, ev[e as int].1, cap, token_mode),
                    recs.len() == num_parts(m, cap),
                    start as int == (if part as int * cap <= m as int {
                        part as int * cap
                    } else {
                        m as int
                    }),
                    part <= start,
                    part == 0 || (part - 1) * cap < m,
                    part as int <= recs.len(),
                    start <= file_size,
                    chunks@.len() == flushed.len() + part,
                    forall|i: int|
                        0 <= i < flushed.len() ==> #[trigger] chunks@[i]@ == render_chunk(
                            i,
                            flushed[i],
                        ),
                    forall|j: int|
                        0 <= j < part ==> #[trigger] chunks@[flushed.len() + j]@ == render_chunk(
                            flushed.len() + j,
                            seq![recs[j]],
                        ),
                decreases file_size - start,
            {
                let end: usize = if file_size - start > chunk_size {
                    start + chunk_size
                } else {
                    file_size
                };
                proof {
                    lemma_lt_num_parts(m, cap, part as int);
                }
                let mut piece: Vec<u8> = Vec::new();
                push_record_header(&mut piece, chunks.len(), &pbytes, Some(part));
                match &spans {
                    Some(sp) => {
                        let b1: usize = if part == 0 {
                            0
                        } else {
                            sp[start].0
                        };
                        let b2: usize = if end < file_size {
                            sp[end].0
                        } else {
                            n_chars
                        };
                        proof {
                            lemma_token_spans_wf(chars, 0);
                            let spv = token_spans(chars);
                            let np = num_parts(m, cap);
                            assert((part as int + 1) * cap == part as int * cap + cap)
                                by (nonlinear_arith);
                            if part > 0 {
                                assert(spv[start as int]
                                    == (sp@[start as int].0 as int, sp@[start as int].1 as int));
                            }
                            if end < file_size {
                                assert(spv[end as int]
                                    == (sp@[end as int].0 as int, sp@[end as int].1 as int));
                            }
                            assert(b1 as int == part_char_bound(chars, part as int, cap, np));
                            if end < file_size {
                                assert(end as int == (part as int + 1) * cap);
                                lemma_lt_num_parts(m, cap, part as int + 1);
                            } else {
                                lemma_ge_num_parts(m, cap, part as int + 1);
                            }
                            assert(b2 as int == part_char_bound(
                                chars,
                                part as int + 1,
                                cap,
                                np,
                            ));
                            if part > 0 {
                                if end < file_size {
                                    lemma_token_starts_mono(chars, start as int, end as int);
                                }
                            }
                            assert(b1 <= b2 <= n_chars);
                        }
                        let piece_str: &str = content.as_str().substring_char(b1, b2);
                        let body: Vec<u8> = piece_str.as_bytes_vec();
                        push_all(&mut piece, &body);
                        proof {
                            assert(body@ == encode_utf8(chars.subrange(b1 as int, b2 as int)));
                        }
                    },
                    None => {
                        push_range(&mut piece, &cbytes, start, end);
                    },
                }
                piece.push(10);
                proof {
                    let idx = chunks@.len() as int;
                    let rec = recs[part as int];
                    assert(rec == ChunkRecord {
                        src: e as int,
                        path: ev[e as int].0,
                        part: Some(part as int),
                        body: part_body(ev[e as int].1, token_mode, part as int, cap, m),
                        size: part_size(m, cap, part as int),
                    });
                    assert(rec.body == (if token_mode {
                        encode_utf8(
                            chars.subrange(
                                part_char_bound(chars, part as int, cap, num_parts(m, cap)),
                                part_char_bound(chars, part as int + 1, cap, num_parts(m, cap)),
                            ),
                        )
                    } else {
                        cbytes@.subrange(start as int, end as int)
                    }));
                    assert(piece@ =~= render_rec(idx, rec));
                    assert(seq![rec].drop_first() =~= Seq::<ChunkRecord>::empty());
                    assert(render_chunk(idx, Seq::<ChunkRecord>::empty()).len() == 0);
                    assert(render_chunk(idx, seq![rec]) =~= piece@);
                }
                chunks.push(piece);
                proof {
                    assert((part as int + 1) * cap == part as int * cap + cap) by (nonlinear_arith);
                }
                start = end;
                part = part + 1;
            }
            proof {
                lemma_eq_num_parts(m, cap, part as int);
                let mapped = recs.map_values(|r: ChunkRecord| seq![r]);
                assert(st2.chunks =~= flushed + mapped);
                assert(chunks@.len() == st2.chunks.len());
                assert forall|i: int| 0 <= i < chunks@.len() implies #[trigger] chunks@[i]@
                    == render_chunk(i, st2.chunks[i]) by {
                    if i < flushed.len() {
                        assert(st2.chunks[i] == flushed[i]);
                    } else {
                        let j = i - flushed.len();
                        assert(chunks@[flushed.len() + j]@ == render_chunk(
                            flushed.len() + j,
                            seq![recs[j]],
                        ));
                        assert(mapped[j] == seq![recs[j]]);
                        assert(st2.chunks[i] == mapped[j]);
                    }
                }
                assert(st2.buf.len() == 0);
                assert(buf@ == render_chunk(chunks@.len() as int, st2.buf));
            }
        } else {
            // A fitting file: flush first if it would overflow the capacity,
            // then buffer its record.
            let plen: usize = pbytes.len();
            let need_flush: bool = if !used_fits {
                true
            } else {
                let rem: usize = chunk_size - used_size;
                if file_size > rem {
                    true
                } else {
                    let rem2: usize = rem - file_size;
                    if rem2 < 10 {
                        true
                    } else {
                        plen > rem2 - 10
                    }
                }
            };
            proof {
                assert(need_flush == (st.used + m + 10 + pbytes@.len() > cap));
            }
            if need_flush && buf.len() > 0 {
                chunks.push(buf);
                buf = Vec::new();
            }
            let idx: usize = chunks.len();
            push_record_header(&mut buf, idx, &pbytes, None);
            push_all(&mut buf, &cbytes);
            buf.push(10);
            if need_flush {
                let add_fits: bool = if chunk_size - file_size >= 10 {
                    plen <= chunk_size - file_size - 10
                } else {
                    false
                };
                if add_fits {
                    used_size = file_size + 10 + plen;
                } else {
                    used_size = 0;
                }
                used_fits = add_fits;
            } else {
                used_size = used_size + file_size + 10 + plen;
            }
            proof {
                let rec = ChunkRecord {
                    src: e as int,
                    path: ev[e as int].0,
                    part: None,
                    body: ev[e as int].1,
                    size: m,
                };
                assert(recs =~= seq![rec]);
                assert(seq![rec].drop_first() =~= Seq::<ChunkRecord>::empty());
                assert(render_chunk(idx as int, Seq::<ChunkRecord>::empty()).len() == 0);
                if need_flush && st.buf.len() > 0 {
                    assert(st2.chunks == st.chunks.push(st.buf));
                    assert(st2.buf == recs);
                    assert(chunks@.len() == st2.chunks.len());
                    assert forall|i: int| 0 <= i < chunks@.len() implies #[trigger] chunks@[i]@
                        == render_chunk(i, st2.chunks[i]) by {
                        if i == st2.chunks.len() - 1 {
                            assert(st2.chunks[i] == st.buf);
                        }
                    }
                    assert(buf@ =~= render_rec(idx as int, rec));
                    assert(buf@ =~= render_chunk(idx as int, st2.buf));
                } else {
                    assert(st2.chunks == st.chunks);
                    assert(st2.buf == st.buf + recs);
                    assert(st2.buf =~= st.buf.push(rec));
                    lemma_render_push(idx as int, st.buf, rec);
                    if st.buf.len() == 0 {
                        assert(render_chunk(idx as int, st.buf).len() == 0);
                        assert(buf@ =~= render_chunk(idx as int, st.buf) + render_rec(
                            idx as int,
                            rec,
                        ));
                    } else {
                        assert(buf@ =~= render_chunk(idx as int, st.buf) + render_rec(
                            idx as int,
                            rec,
                        ));
                    }
                    assert(buf@ =~= render_chunk(idx as int, st2.buf));
                }
                assert(buf@.len() > 0);
                assert(st2.buf.len() > 0);
            }
        }
        e = e + 1;
    }
    let ghost stf = pack_prefix(ev, ev.len() as int, cap, token_mode);
    if buf.len() > 0 {
        chunks.push(buf);
        proof {
            assert(pack(ev, cap, token_mode) == stf.chunks.push(stf.buf));
            assert forall|i: int| 0 <= i < chunks@.len() implies #[trigger] chunks@[i]@
                == render_chunk(i, pack(ev, cap, token_mode)[i]) by {
                if i == chunks@.len() - 1 {
                    assert(pack(ev, cap, token_mode)[i] == stf.buf);
                }
            }
        }
    } else {
        proof {
            assert(pack(ev, cap, token_mode) == stf.chunks);
        }
    }
    chunks
}

} // verus!
