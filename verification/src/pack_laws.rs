//! The packer's guarantees, proved over the packing model: order
//! preservation, reconstruction of the inputs, the capacity bound, the
//! exact-fit rule, and the shape of a forced split.

use crate::pack::ChunkRecord;
use crate::pack::PackState;
use crate::pack::entry_views;
use crate::pack::lemma_ge_num_parts;
use crate::pack::lemma_lt_num_parts;
use crate::pack::measure_of;
use crate::pack::num_parts;
use crate::pack::pack;
use crate::pack::pack_prefix;
use crate::pack::pack_step;
use crate::pack::part_body;
use crate::pack::part_size;
use crate::pack::records_of;
use vstd::prelude::*;
use crate::pack::lemma_token_spans_wf;
use crate::pack::lemma_token_starts_mono;
use crate::pack::part_char_bound;
use crate::pack::token_spans;
use vstd::seq_lib::lemma_flatten_concat;
use vstd::utf8::decode_utf8;
use vstd::utf8::decode_utf8_encode_utf8;
use vstd::utf8::encode_utf8;
use vstd::utf8::valid_utf8;

verus! {

/// The records the packer emits for the first `i` entries, per entry in
/// input order.
pub open spec fn flat_records(
    ents: Seq<(Seq<u8>, Seq<u8>)>,
    i: int,
    cap: nat,
    token_mode: bool,
) -> Seq<ChunkRecord>
    decreases i,
{
    if i <= 0 {
        Seq::empty()
    } else {
        flat_records(ents, i - 1, cap, token_mode) + records_of(
            i - 1,
            ents[i - 1].0,
            ents[i - 1].1,
            cap,
            token_mode,
        )
    }
}

proof fn lemma_flatten_map_singleton(recs: Seq<ChunkRecord>)
    ensures
        recs.map_values(|r: ChunkRecord| seq![r]).flatten() == recs,
    decreases recs.len(),
{
    let mapped = recs.map_values(|r: ChunkRecord| seq![r]);
    if recs.len() == 0 {
        assert(mapped.len() == 0);
        assert(mapped.flatten() =~= recs);
    } else {
        let prefix = recs.drop_last();
        lemma_flatten_map_singleton(prefix);
        let pm = prefix.map_values(|r: ChunkRecord| seq![r]);
        assert(pm.push(seq![recs.last()]) =~= mapped);
        pm.lemma_flatten_push(seq![recs.last()]);
        assert(mapped.flatten() =~= recs);
    }
}

proof fn lemma_prefix_flatten(ents: Seq<(Seq<u8>, Seq<u8>)>, i: int, cap: nat, token_mode: bool)
    requires
        0 <= i,
    ensures
        pack_prefix(ents, i, cap, token_mode).chunks.flatten() + pack_prefix(
            ents,
            i,
            cap,
            token_mode,
        ).buf == flat_records(ents, i, cap, token_mode),
    decreases i,
{
    if i == 0 {
        assert(Seq::<Seq<ChunkRecord>>::empty().flatten() =~= Seq::<ChunkRecord>::empty());
        assert(pack_prefix(ents, i, cap, token_mode).chunks.flatten() + pack_prefix(
            ents,
            i,
            cap,
            token_mode,
        ).buf =~= flat_records(ents, i, cap, token_mode));
    } else {
        lemma_prefix_flatten(ents, i - 1, cap, token_mode);
        let st = pack_prefix(ents, i - 1, cap, token_mode);
        let st2 = pack_prefix(ents, i, cap, token_mode);
        let recs = records_of(i - 1, ents[i - 1].0, ents[i - 1].1, cap, token_mode);
        let m = measure_of(ents[i - 1].1, token_mode);
        assert(st2 == pack_step(st, i - 1, ents[i - 1].0, ents[i - 1].1, cap, token_mode));
        if m > cap {
            let flushed = if st.buf.len() > 0 {
                st.chunks.push(st.buf)
            } else {
                st.chunks
            };
            if st.buf.len() > 0 {
                st.chunks.lemma_flatten_push(st.buf);
            }
            assert(flushed.flatten() =~= st.chunks.flatten() + st.buf);
            let mapped = recs.map_values(|r: ChunkRecord| seq![r]);
            lemma_flatten_concat(flushed, mapped);
            lemma_flatten_map_singleton(recs);
            assert(st2.chunks.flatten() + st2.buf =~= flat_records(ents, i, cap, token_mode));
        } else {
            let add = m + 10 + ents[i - 1].0.len();
            if st.used + add > cap && st.buf.len() > 0 {
                st.chunks.lemma_flatten_push(st.buf);
                assert(st2.chunks.flatten() + st2.buf =~= flat_records(ents, i, cap, token_mode));
            } else {
                assert(st2.chunks.flatten() + st2.buf =~= flat_records(ents, i, cap, token_mode));
            }
        }
    }
}

/// Order and reconstruction, in one statement: the records of the emitted
/// chunks, read in emission order, are exactly the records of the input
/// files, per file in input order. No content is lost, duplicated or
/// reordered by the packer.
pub proof fn lemma_pack_flatten(ents: Seq<(Seq<u8>, Seq<u8>)>, cap: nat, token_mode: bool)
    ensures
        pack(ents, cap, token_mode).flatten() == flat_records(
            ents,
            ents.len() as int,
            cap,
            token_mode,
        ),
{
    lemma_prefix_flatten(ents, ents.len() as int, cap, token_mode);
    let st = pack_prefix(ents, ents.len() as int, cap, token_mode);
    if st.buf.len() > 0 {
        st.chunks.lemma_flatten_push(st.buf);
        assert(pack(ents, cap, token_mode).flatten() =~= flat_records(
            ents,
            ents.len() as int,
            cap,
            token_mode,
        ));
    } else {
        assert(pack(ents, cap, token_mode).flatten() =~= flat_records(
            ents,
            ents.len() as int,
            cap,
            token_mode,
        ));
    }
}

/// A file whose measured size does not strictly exceed the capacity — in
/// particular one of size exactly the capacity — is never split: it
/// contributes a single whole record without a part marker.
pub proof fn lemma_exact_fit_not_split(
    src: int,
    path: Seq<u8>,
    content: Seq<u8>,
    cap: nat,
    token_mode: bool,
)
    requires
        measure_of(content, token_mode) <= cap,
    ensures
        records_of(src, path, content, cap, token_mode) == seq![
            ChunkRecord {
                src,
                path,
                part: None,
                body: content,
                size: measure_of(content, token_mode),
            },
        ],
{
}

/// The shape of a forced split: a file of measured size `m > cap` produces
/// exactly `ceil(m / cap)` parts, numbered from zero, each measuring exactly
/// `cap` except the last, which carries the remainder.
pub proof fn lemma_forced_split_shape(
    src: int,
    path: Seq<u8>,
    content: Seq<u8>,
    cap: nat,
    token_mode: bool,
)
    requires
        cap > 0,
        measure_of(content, token_mode) > cap,
    ensures
        ({
            let m = measure_of(content, token_mode);
            let recs = records_of(src, path, content, cap, token_mode);
            let np = num_parts(m, cap);
            &&& recs.len() == np
            &&& np >= 2
            &&& forall|k: int| 0 <= k < np ==> (#[trigger] recs[k]).part == Some(k)
            &&& forall|k: int| 0 <= k < np - 1 ==> (#[trigger] recs[k]).size == cap
            &&& recs[np - 1].size == m - (np - 1) * cap
            &&& forall|k: int| 0 <= k < np ==> (#[trigger] recs[k]).size <= cap
            &&& forall|k: int| 0 <= k < np ==> (#[trigger] recs[k]).size > 0
        }),
{
    let m = measure_of(content, token_mode);
    let recs = records_of(src, path, content, cap, token_mode);
    let np = num_parts(m, cap);
    lemma_lt_num_parts(m, cap, 1);
    assert(1 * cap == cap) by (nonlinear_arith);
    assert(np >= 2);
    assert forall|k: int| 0 <= k < np implies {
        &&& (#[trigger] recs[k]).part == Some(k)
        &&& recs[k].size <= cap
        &&& recs[k].size > 0
        &&& (k < np - 1 ==> recs[k].size == cap)
    } by {
        lemma_part_in_range(m, cap, k);
        if k < np - 1 {
            if k * cap + cap > m {
                assert((k + 1) * cap == k * cap + cap) by (nonlinear_arith);
                lemma_ge_num_parts(m, cap, k + 1);
                assert(false);
            }
        }
    }
    lemma_part_in_range(m, cap, np - 1);
    assert(np as int * cap == (np - 1) * cap + cap) by (nonlinear_arith);
    if (np - 1) * cap + cap <= m {
        if np as int * cap < m {
            lemma_lt_num_parts(m, cap, np as int);
            assert(false);
        }
        assert(recs[np - 1].size == cap);
        assert(m - (np - 1) * cap == cap);
    } else {
        assert(recs[np - 1].size == m - (np - 1) * cap);
    }
}

/// The bodies of a record sequence, concatenated in order.
pub open spec fn concat_bodies(recs: Seq<ChunkRecord>) -> Seq<u8>
    decreases recs.len(),
{
    if recs.len() == 0 {
        Seq::<u8>::empty()
    } else {
        concat_bodies(recs.drop_last()) + recs.last().body
    }
}

/// The contents of the first `i` entries, concatenated in input order.
pub open spec fn concat_contents(ents: Seq<(Seq<u8>, Seq<u8>)>, i: int) -> Seq<u8>
    decreases i,
{
    if i <= 0 {
        Seq::<u8>::empty()
    } else {
        concat_contents(ents, i - 1) + ents[i - 1].1
    }
}

proof fn lemma_concat_bodies_append(a: Seq<ChunkRecord>, b: Seq<ChunkRecord>)
    ensures
        concat_bodies(a + b) == concat_bodies(a) + concat_bodies(b),
    decreases b.len(),
{
    if b.len() == 0 {
        assert(a + b =~= a);
        assert(concat_bodies(b) =~= Seq::<u8>::empty());
        assert(concat_bodies(a + b) =~= concat_bodies(a) + concat_bodies(b));
    } else {
        lemma_concat_bodies_append(a, b.drop_last());
        assert((a + b).drop_last() =~= a + b.drop_last());
        assert((a + b).last() == b.last());
        assert(concat_bodies(a + b) =~= concat_bodies(a) + concat_bodies(b));
    }
}

proof fn lemma_parts_prefix_bytes(src: int, path: Seq<u8>, content: Seq<u8>, cap: nat, j: int)
    requires
        cap > 0,
        content.len() > cap,
        0 <= j <= num_parts(content.len(), cap),
    ensures
        concat_bodies(records_of(src, path, content, cap, false).take(j)) == content.subrange(
            0,
            if j * cap <= content.len() {
                j * cap
            } else {
                content.len() as int
            },
        ),
    decreases j,
{
    let m = content.len();
    let recs = records_of(src, path, content, cap, false);
    if j == 0 {
        assert(j * cap == 0) by (nonlinear_arith)
            requires
                j == 0,
        ;
        assert(recs.take(0) =~= Seq::<ChunkRecord>::empty());
        assert(concat_bodies(recs.take(0)) =~= content.subrange(0, 0));
    } else {
        lemma_parts_prefix_bytes(src, path, content, cap, j - 1);
        lemma_part_in_range(m, cap, j - 1);
        assert(recs.take(j).drop_last() =~= recs.take(j - 1));
        assert(recs.take(j).last() == recs[j - 1]);
        assert(j * cap == (j - 1) * cap + cap) by (nonlinear_arith);
        let prev = (j - 1) * cap;
        let end = if prev + cap <= m {
            prev + cap
        } else {
            m as int
        };
        assert(recs[j - 1].body == part_body(content, false, j - 1, cap, m));
        assert(recs[j - 1].body == content.subrange(prev, end));
        assert(concat_bodies(recs.take(j)) == concat_bodies(recs.take(j - 1)) + recs[j - 1].body);
        assert(concat_bodies(recs.take(j - 1)) == content.subrange(0, prev));
        assert(content.subrange(0, prev) + content.subrange(prev, end) =~= content.subrange(
            0,
            end,
        ));
        assert(concat_bodies(recs.take(j)) == content.subrange(0, end));
    }
}

/// In byte mode the packer loses no byte: concatenating every emitted record
/// body, in emission order, reproduces the concatenation of all input
/// contents in input order; a forced-split file is reassembled by its parts
/// in increasing part order.
pub proof fn lemma_reconstruction_bytes(ents: Seq<(Seq<u8>, Seq<u8>)>, cap: nat)
    requires
        cap > 0,
    ensures
        concat_bodies(pack(ents, cap, false).flatten()) == concat_contents(
            ents,
            ents.len() as int,
        ),
{
    lemma_pack_flatten(ents, cap, false);
    lemma_flat_records_bodies(ents, ents.len() as int, cap);
}

/// One file's records reassemble exactly its content in byte mode.
pub proof fn lemma_records_reassemble_bytes(src: int, path: Seq<u8>, content: Seq<u8>, cap: nat)
    requires
        cap > 0,
    ensures
        concat_bodies(records_of(src, path, content, cap, false)) == content,
{
    let m = content.len();
    let recs = records_of(src, path, content, cap, false);
    if m > cap {
        let np = num_parts(m, cap);
        if np as int * cap < m {
            lemma_lt_num_parts(m, cap, np as int);
            assert(false);
        }
        lemma_parts_prefix_bytes(src, path, content, cap, np as int);
        assert(recs.take(np as int) =~= recs);
        assert(content.subrange(0, m as int) =~= content);
    } else {
        assert(recs.drop_last() =~= Seq::<ChunkRecord>::empty());
        assert(concat_bodies(Seq::<ChunkRecord>::empty()) =~= Seq::<u8>::empty());
        assert(concat_bodies(recs) =~= content);
    }
}

proof fn lemma_encode_concat(a: Seq<char>, b: Seq<char>)
    ensures
        encode_utf8(a + b) == encode_utf8(a) + encode_utf8(b),
    decreases a.len(),
{
    if a.len() == 0 {
        assert(a + b =~= b);
        assert(encode_utf8(a) =~= Seq::<u8>::empty());
        assert(encode_utf8(a + b) =~= encode_utf8(a) + encode_utf8(b));
    } else {
        assert((a + b)[0] == a[0]);
        assert((a + b).drop_first() =~= a.drop_first() + b);
        lemma_encode_concat(a.drop_first(), b);
        assert(encode_utf8(a + b) =~= encode_utf8(a) + encode_utf8(b));
    }
}

proof fn lemma_bound_in_range(chars: Seq<char>, cap: nat, m: nat, k: int)
    requires
        cap > 0,
        m == token_spans(chars).len(),
        m > cap,
        0 <= k <= num_parts(m, cap),
    ensures
        0 <= part_char_bound(chars, k, cap, num_parts(m, cap)) <= chars.len(),
        k < num_parts(m, cap) ==> part_char_bound(chars, k, cap, num_parts(m, cap))
            <= part_char_bound(chars, k + 1, cap, num_parts(m, cap)),
{
    let np = num_parts(m, cap);
    lemma_token_spans_wf(chars, 0);
    if 0 < k < np {
        if k * cap >= m {
            lemma_ge_num_parts(m, cap, k);
            assert(false);
        }
    }
    if k < np {
        if 0 < k + 1 < np {
            if (k + 1) * cap >= m {
                lemma_ge_num_parts(m, cap, k + 1);
                assert(false);
            }
        }
        if 0 < k && k + 1 < np {
            assert(k * cap <= (k + 1) * cap) by (nonlinear_arith)
                requires
                    cap > 0,
                    k >= 0,
            ;
            lemma_token_starts_mono(chars, k * cap, (k + 1) * cap);
        }
    }
}

proof fn lemma_parts_prefix_tokens(src: int, path: Seq<u8>, content: Seq<u8>, cap: nat, j: int)
    requires
        cap > 0,
        measure_of(content, true) > cap,
        0 <= j <= num_parts(measure_of(content, true), cap),
    ensures
        concat_bodies(records_of(src, path, content, cap, true).take(j)) == encode_utf8(
            decode_utf8(content).take(
                part_char_bound(
                    decode_utf8(content),
                    j,
                    cap,
                    num_parts(measure_of(content, true), cap),
                ),
            ),
        ),
    decreases j,
{
    let m = measure_of(content, true);
    let chars = decode_utf8(content);
    let np = num_parts(m, cap);
    let recs = records_of(src, path, content, cap, true);
    if j == 0 {
        assert(recs.take(0) =~= Seq::<ChunkRecord>::empty());
        assert(chars.take(0) =~= Seq::<char>::empty());
        assert(encode_utf8(Seq::<char>::empty()) =~= Seq::<u8>::empty());
        assert(concat_bodies(recs.take(0)) =~= encode_utf8(chars.take(0)));
    } else {
        lemma_parts_prefix_tokens(src, path, content, cap, j - 1);
        lemma_bound_in_range(chars, cap, m, j - 1);
        lemma_bound_in_range(chars, cap, m, j);
        let b1 = part_char_bound(chars, j - 1, cap, np);
        let b2 = part_char_bound(chars, j, cap, np);
        assert(recs.take(j).drop_last() =~= recs.take(j - 1));
        assert(recs.take(j).last() == recs[j - 1]);
        assert(recs[j - 1].body == encode_utf8(chars.subrange(b1, b2)));
        lemma_encode_concat(chars.take(b1), chars.subrange(b1, b2));
        assert(chars.take(b1) + chars.subrange(b1, b2) =~= chars.take(b2));
        assert(concat_bodies(recs.take(j)) == concat_bodies(recs.take(j - 1)) + recs[j
            - 1].body);
        assert(concat_bodies(recs.take(j)) == encode_utf8(chars.take(b2)));
    }
}

/// One file's records reassemble exactly its content in token mode too: the
/// parts are contiguous slices of the text cut at token boundaries.
pub proof fn lemma_records_reassemble_tokens(src: int, path: Seq<u8>, content: Seq<u8>, cap: nat)
    requires
        cap > 0,
        valid_utf8(content),
    ensures
        concat_bodies(records_of(src, path, content, cap, true)) == content,
{
    let m = measure_of(content, true);
    let chars = decode_utf8(content);
    let recs = records_of(src, path, content, cap, true);
    decode_utf8_encode_utf8(content);
    if m > cap {
        let np = num_parts(m, cap);
        assert(0 * cap == 0) by (nonlinear_arith);
        lemma_lt_num_parts(m, cap, 0);
        assert(np >= 1);
        lemma_parts_prefix_tokens(src, path, content, cap, np as int);
        assert(recs.take(np as int) =~= recs);
        assert(part_char_bound(chars, np as int, cap, np) == chars.len());
        assert(chars.take(chars.len() as int) =~= chars);
        assert(concat_bodies(recs) == encode_utf8(chars));
    } else {
        assert(recs.drop_last() =~= Seq::<ChunkRecord>::empty());
        assert(concat_bodies(Seq::<ChunkRecord>::empty()) =~= Seq::<u8>::empty());
        assert(concat_bodies(recs) =~= content);
    }
}

/// In token mode the packer loses no byte either: when the contents are
/// valid UTF-8 text (as every content handed over as a string is),
/// concatenating every emitted record body in emission order reproduces the
/// concatenation of all input contents, forced splits included.
pub proof fn lemma_reconstruction_tokens(ents: Seq<(Seq<u8>, Seq<u8>)>, cap: nat)
    requires
        cap > 0,
        forall|i: int| 0 <= i < ents.len() ==> valid_utf8(#[trigger] ents[i].1),
    ensures
        concat_bodies(pack(ents, cap, true).flatten()) == concat_contents(
            ents,
            ents.len() as int,
        ),
{
    lemma_pack_flatten(ents, cap, true);
    lemma_flat_records_bodies_tokens(ents, ents.len() as int, cap);
}

/// Every content that reaches the packer through a string is valid UTF-8,
/// so the token-mode reconstruction law applies to the whole pipeline.
pub proof fn lemma_entry_views_valid(entries: Seq<(String, String, i32)>)
    ensures
        forall|i: int|
            0 <= i < entry_views(entries).len() ==> valid_utf8(
                #[trigger] entry_views(entries)[i].1,
            ),
{
    assert forall|i: int| 0 <= i < entry_views(entries).len() implies valid_utf8(
        #[trigger] entry_views(entries)[i].1,
    ) by {
        vstd::utf8::encode_utf8_valid_utf8(entries[i].1@);
    }
}

proof fn lemma_flat_records_bodies_tokens(ents: Seq<(Seq<u8>, Seq<u8>)>, i: int, cap: nat)
    requires
        cap > 0,
        0 <= i <= ents.len(),
        forall|k: int| 0 <= k < ents.len() ==> valid_utf8(#[trigger] ents[k].1),
    ensures
        concat_bodies(flat_records(ents, i, cap, true)) == concat_contents(ents, i),
    decreases i,
{
    if i > 0 {
        lemma_flat_records_bodies_tokens(ents, i - 1, cap);
        lemma_concat_bodies_append(
            flat_records(ents, i - 1, cap, true),
            records_of(i - 1, ents[i - 1].0, ents[i - 1].1, cap, true),
        );
        lemma_records_reassemble_tokens(i - 1, ents[i - 1].0, ents[i - 1].1, cap);
    }
}

proof fn lemma_flat_records_bodies(ents: Seq<(Seq<u8>, Seq<u8>)>, i: int, cap: nat)
    requires
        cap > 0,
        0 <= i,
    ensures
        concat_bodies(flat_records(ents, i, cap, false)) == concat_contents(ents, i),
    decreases i,
{
    if i > 0 {
        lemma_flat_records_bodies(ents, i - 1, cap);
        lemma_concat_bodies_append(
            flat_records(ents, i - 1, cap, false),
            records_of(i - 1, ents[i - 1].0, ents[i - 1].1, cap, false),
        );
        lemma_records_reassemble_bytes(i - 1, ents[i - 1].0, ents[i - 1].1, cap);
    }
}

/// The measured sizes of the records inside one chunk, summed.
pub open spec fn chunk_total_size(recs: Seq<ChunkRecord>) -> nat
    decreases recs.len(),
{
    if recs.len() == 0 {
        0
    } else {
        chunk_total_size(recs.drop_last()) + recs.last().size
    }
}

spec fn caps_inv(st: PackState, cap: nat) -> bool {
    &&& forall|c: int|
        0 <= c < st.chunks.len() ==> #[trigger] chunk_total_size(st.chunks[c]) <= cap
    &&& chunk_total_size(st.buf) <= st.used
    &&& chunk_total_size(st.buf) <= cap
}

proof fn lemma_total_push(recs: Seq<ChunkRecord>, r: ChunkRecord)
    ensures
        chunk_total_size(recs.push(r)) == chunk_total_size(recs) + r.size,
{
    assert(recs.push(r).drop_last() =~= recs);
    assert(recs.push(r).last() == r);
}

proof fn lemma_prefix_caps(ents: Seq<(Seq<u8>, Seq<u8>)>, i: int, cap: nat, token_mode: bool)
    requires
        cap > 0,
        0 <= i,
    ensures
        caps_inv(pack_prefix(ents, i, cap, token_mode), cap),
    decreases i,
{
    if i == 0 {
        assert(chunk_total_size(Seq::<ChunkRecord>::empty()) == 0);
    } else {
        lemma_prefix_caps(ents, i - 1, cap, token_mode);
        let st = pack_prefix(ents, i - 1, cap, token_mode);
        let st2 = pack_prefix(ents, i, cap, token_mode);
        let path = ents[i - 1].0;
        let content = ents[i - 1].1;
        let recs = records_of(i - 1, path, content, cap, token_mode);
        let m = measure_of(content, token_mode);
        assert(st2 == pack_step(st, i - 1, path, content, cap, token_mode));
        assert(chunk_total_size(Seq::<ChunkRecord>::empty()) == 0);
        if m > cap {
            let flushed = if st.buf.len() > 0 {
                st.chunks.push(st.buf)
            } else {
                st.chunks
            };
            let mapped = recs.map_values(|r: ChunkRecord| seq![r]);
            assert forall|c: int| 0 <= c < st2.chunks.len() implies #[trigger] chunk_total_size(
                st2.chunks[c],
            ) <= cap by {
                if c < flushed.len() {
                    assert(st2.chunks[c] == flushed[c]);
                    if st.buf.len() > 0 && c == flushed.len() - 1 {
                        assert(flushed[c] == st.buf);
                    }
                } else {
                    let k = c - flushed.len();
                    assert(st2.chunks[c] == mapped[k]);
                    assert(mapped[k] == seq![recs[k]]);
                    lemma_part_in_range(m, cap, k);
                    assert(recs[k].size <= cap);
                    assert(seq![recs[k]].drop_last() =~= Seq::<ChunkRecord>::empty());
                    assert(chunk_total_size(seq![recs[k]]) == recs[k].size);
                }
            }
        } else {
            let rec = ChunkRecord { src: i - 1, path, part: None, body: content, size: m };
            assert(recs =~= seq![rec]);
            assert(recs.drop_last() =~= Seq::<ChunkRecord>::empty());
            assert(chunk_total_size(recs) == m);
            let add = m + 10 + path.len();
            if st.used + add > cap && st.buf.len() > 0 {
                assert forall|c: int| 0 <= c < st2.chunks.len() implies #[trigger] chunk_total_size(
                    st2.chunks[c],
                ) <= cap by {
                    if c == st2.chunks.len() - 1 {
                        assert(st2.chunks[c] == st.buf);
                    }
                }
            } else {
                assert(st2.buf =~= st.buf.push(rec));
                lemma_total_push(st.buf, rec);
                if st.buf.len() == 0 {
                    assert(chunk_total_size(st.buf) == 0);
                    assert(chunk_total_size(st2.buf) == m);
                } else {
                    assert(st.used + add <= cap);
                    assert(chunk_total_size(st2.buf) <= st.used + add);
                }
            }
        }
    }
}

/// The capacity bound: under the active measurement mode, the measured sizes
/// of the records packed into any one chunk never sum to more than the
/// capacity; in particular each forced-split chunk itself measures at most
/// the capacity.
pub proof fn lemma_chunk_capacity(ents: Seq<(Seq<u8>, Seq<u8>)>, cap: nat, token_mode: bool)
    requires
        cap > 0,
    ensures
        forall|c: int|
            0 <= c < pack(ents, cap, token_mode).len() ==> #[trigger] chunk_total_size(
                pack(ents, cap, token_mode)[c],
            ) <= cap,
{
    lemma_prefix_caps(ents, ents.len() as int, cap, token_mode);
    let st = pack_prefix(ents, ents.len() as int, cap, token_mode);
    let packed = pack(ents, cap, token_mode);
    assert forall|c: int| 0 <= c < packed.len() implies #[trigger] chunk_total_size(packed[c])
        <= cap by {
        if st.buf.len() > 0 && c == packed.len() - 1 {
            assert(packed[c] == st.buf);
        } else {
            assert(packed[c] == st.chunks[c]);
        }
    }
}

/// Every part index of a forced split addresses a real slice: its start lies
/// strictly inside the content and its measured size is positive and at most
/// the capacity.
proof fn lemma_part_in_range(m: nat, cap: nat, k: int)
    requires
        cap > 0,
        m > cap,
        0 <= k < num_parts(m, cap),
    ensures
        k * cap < m,
        part_size(m, cap, k) <= cap,
        part_size(m, cap, k) > 0,
        part_size(m, cap, k) == (if k * cap + cap <= m {
            cap as int
        } else {
            m - k * cap
        }),
{
    if k * cap >= m {
        lemma_ge_num_parts(m, cap, k);
        assert(false);
    }
}


/// In byte mode a record's measured size is exactly its body's byte count,
/// so the capacity bound speaks directly of emitted bytes.
pub proof fn lemma_byte_size_is_body_len(src: int, path: Seq<u8>, content: Seq<u8>, cap: nat)
    requires
        cap > 0,
    ensures
        forall|k: int|
            0 <= k < records_of(src, path, content, cap, false).len() ==> (#[trigger] records_of(
                src,
                path,
                content,
                cap,
                false,
            )[k]).size == records_of(src, path, content, cap, false)[k].body.len(),
{
    let recs = records_of(src, path, content, cap, false);
    let m = content.len();
    if m > cap {
        assert forall|k: int| 0 <= k < recs.len() implies (#[trigger] recs[k]).size
            == recs[k].body.len() by {
            lemma_part_in_range(m, cap, k);
        }
    }
}


spec fn chunks_nonempty(chunks: Seq<Seq<ChunkRecord>>) -> bool {
    forall|c: int| 0 <= c < chunks.len() ==> (#[trigger] chunks[c]).len() > 0
}

proof fn lemma_prefix_nonempty(ents: Seq<(Seq<u8>, Seq<u8>)>, i: int, cap: nat, token_mode: bool)
    requires
        0 <= i,
    ensures
        chunks_nonempty(pack_prefix(ents, i, cap, token_mode).chunks),
    decreases i,
{
    if i > 0 {
        lemma_prefix_nonempty(ents, i - 1, cap, token_mode);
        let st = pack_prefix(ents, i - 1, cap, token_mode);
        let st2 = pack_prefix(ents, i, cap, token_mode);
        let recs = records_of(i - 1, ents[i - 1].0, ents[i - 1].1, cap, token_mode);
        let m = measure_of(ents[i - 1].1, token_mode);
        assert(st2 == pack_step(st, i - 1, ents[i - 1].0, ents[i - 1].1, cap, token_mode));
        if m > cap {
            let flushed = if st.buf.len() > 0 {
                st.chunks.push(st.buf)
            } else {
                st.chunks
            };
            let mapped = recs.map_values(|r: ChunkRecord| seq![r]);
            assert forall|c: int| 0 <= c < st2.chunks.len() implies (#[trigger] st2.chunks[c]).len()
                > 0 by {
                if c < flushed.len() {
                    assert(st2.chunks[c] == flushed[c]);
                    if st.buf.len() > 0 && c == flushed.len() - 1 {
                        assert(flushed[c] == st.buf);
                    }
                } else {
                    assert(st2.chunks[c] == mapped[c - flushed.len()]);
                    assert(st2.chunks[c] == seq![recs[c - flushed.len()]]);
                }
            }
        } else {
            let add = m + 10 + ents[i - 1].0.len();
            if st.used + add > cap && st.buf.len() > 0 {
                assert forall|c: int|
                    0 <= c < st2.chunks.len() implies (#[trigger] st2.chunks[c]).len() > 0 by {
                    if c == st2.chunks.len() - 1 {
                        assert(st2.chunks[c] == st.buf);
                    }
                }
            }
        }
    }
}

/// No zero-content chunk is ever emitted: every chunk of the packing holds
/// at least one record, because an empty buffer is never flushed.
pub proof fn lemma_no_empty_chunks(ents: Seq<(Seq<u8>, Seq<u8>)>, cap: nat, token_mode: bool)
    ensures
        forall|c: int|
            0 <= c < pack(ents, cap, token_mode).len() ==> (#[trigger] pack(
                ents,
                cap,
                token_mode,
            )[c]).len() > 0,
{
    lemma_prefix_nonempty(ents, ents.len() as int, cap, token_mode);
    let st = pack_prefix(ents, ents.len() as int, cap, token_mode);
    let packed = pack(ents, cap, token_mode);
    assert forall|c: int| 0 <= c < packed.len() implies (#[trigger] packed[c]).len() > 0 by {
        if st.buf.len() > 0 && c == packed.len() - 1 {
            assert(packed[c] == st.buf);
        } else {
            assert(packed[c] == st.chunks[c]);
        }
    }
}

spec fn srcs_bounded(st: PackState, n: int) -> bool {
    &&& forall|c: int, k: int|
        #![trigger st.chunks[c][k]]
        0 <= c < st.chunks.len() && 0 <= k < st.chunks[c].len() ==> 0 <= st.chunks[c][k].src < n
    &&& forall|k: int|
        #![trigger st.buf[k]]
        0 <= k < st.buf.len() ==> 0 <= st.buf[k].src < n
}

spec fn srcs_ordered(st: PackState) -> bool {
    &&& forall|c1: int, k1: int, c2: int, k2: int|
        #![trigger st.chunks[c1][k1], st.chunks[c2][k2]]
        (0 <= c1 <= c2 < st.chunks.len() && 0 <= k1 < st.chunks[c1].len() && 0 <= k2
            < st.chunks[c2].len() && (c1 < c2 || k1 <= k2)) ==> st.chunks[c1][k1].src
            <= st.chunks[c2][k2].src
    &&& forall|c: int, k: int, k2: int|
        #![trigger st.chunks[c][k], st.buf[k2]]
        (0 <= c < st.chunks.len() && 0 <= k < st.chunks[c].len() && 0 <= k2 < st.buf.len())
            ==> st.chunks[c][k].src <= st.buf[k2].src
    &&& forall|k1: int, k2: int|
        #![trigger st.buf[k1], st.buf[k2]]
        0 <= k1 <= k2 < st.buf.len() ==> st.buf[k1].src <= st.buf[k2].src
}

proof fn lemma_prefix_srcs(ents: Seq<(Seq<u8>, Seq<u8>)>, i: int, cap: nat, token_mode: bool)
    requires
        0 <= i,
    ensures
        srcs_bounded(pack_prefix(ents, i, cap, token_mode), i),
        srcs_ordered(pack_prefix(ents, i, cap, token_mode)),
    decreases i,
{
    if i > 0 {
        lemma_prefix_srcs(ents, i - 1, cap, token_mode);
        let st = pack_prefix(ents, i - 1, cap, token_mode);
        let st2 = pack_prefix(ents, i, cap, token_mode);
        let path = ents[i - 1].0;
        let content = ents[i - 1].1;
        let recs = records_of(i - 1, path, content, cap, token_mode);
        let m = measure_of(content, token_mode);
        assert(st2 == pack_step(st, i - 1, path, content, cap, token_mode));
        assert forall|k: int| 0 <= k < recs.len() implies (#[trigger] recs[k]).src == i - 1 by {}
        if m > cap {
            let flushed = if st.buf.len() > 0 {
                st.chunks.push(st.buf)
            } else {
                st.chunks
            };
            let mapped = recs.map_values(|r: ChunkRecord| seq![r]);
            assert forall|c: int, k: int|
                0 <= c < st2.chunks.len() && 0 <= k < st2.chunks[c].len() implies 0 <= (
            #[trigger] st2.chunks[c][k]).src < i by {
                if c < flushed.len() {
                    assert(st2.chunks[c] == flushed[c]);
                    if st.buf.len() > 0 && c == flushed.len() - 1 {
                        assert(flushed[c] == st.buf);
                    }
                } else {
                    assert(st2.chunks[c] == mapped[c - flushed.len()]);
                    assert(st2.chunks[c] == seq![recs[c - flushed.len()]]);
                }
            }
            assert forall|c1: int, k1: int, c2: int, k2: int|
                (0 <= c1 <= c2 < st2.chunks.len() && 0 <= k1 < st2.chunks[c1].len() && 0 <= k2
                    < st2.chunks[c2].len() && (c1 < c2 || k1 <= k2)) implies (
            #[trigger] st2.chunks[c1][k1]).src <= (#[trigger] st2.chunks[c2][k2]).src by {
                if c1 < flushed.len() {
                    assert(st2.chunks[c1] == flushed[c1]);
                    if st.buf.len() > 0 && c1 == flushed.len() - 1 {
                        assert(flushed[c1] == st.buf);
                    }
                } else {
                    assert(st2.chunks[c1] == seq![recs[c1 - flushed.len()]]);
                }
                if c2 < flushed.len() {
                    assert(st2.chunks[c2] == flushed[c2]);
                    if st.buf.len() > 0 && c2 == flushed.len() - 1 {
                        assert(flushed[c2] == st.buf);
                    }
                } else {
                    assert(st2.chunks[c2] == seq![recs[c2 - flushed.len()]]);
                }
            }
        } else {
            let rec = ChunkRecord { src: i - 1, path, part: None, body: content, size: m };
            assert(recs =~= seq![rec]);
            let add = m + 10 + path.len();
            if st.used + add > cap && st.buf.len() > 0 {
                assert forall|c: int, k: int|
                    0 <= c < st2.chunks.len() && 0 <= k < st2.chunks[c].len() implies 0 <= (
                #[trigger] st2.chunks[c][k]).src < i by {
                    if c == st2.chunks.len() - 1 {
                        assert(st2.chunks[c] == st.buf);
                    }
                }
                assert forall|c1: int, k1: int, c2: int, k2: int|
                    (0 <= c1 <= c2 < st2.chunks.len() && 0 <= k1 < st2.chunks[c1].len() && 0 <= k2
                        < st2.chunks[c2].len() && (c1 < c2 || k1 <= k2)) implies (
                #[trigger] st2.chunks[c1][k1]).src <= (#[trigger] st2.chunks[c2][k2]).src by {
                    if c1 == st2.chunks.len() - 1 {
                        assert(st2.chunks[c1] == st.buf);
                    }
                    if c2 == st2.chunks.len() - 1 {
                        assert(st2.chunks[c2] == st.buf);
                    }
                }
                assert forall|c: int, k: int, k2: int|
                    (0 <= c < st2.chunks.len() && 0 <= k < st2.chunks[c].len() && 0 <= k2
                        < st2.buf.len()) implies (#[trigger] st2.chunks[c][k]).src <= (
                #[trigger] st2.buf[k2]).src by {
                    assert(st2.buf[k2] == rec);
                    if c == st2.chunks.len() - 1 {
                        assert(st2.chunks[c] == st.buf);
                    }
                }
            } else {
                assert(st2.buf =~= st.buf.push(rec));
                assert forall|k: int| 0 <= k < st2.buf.len() implies 0 <= (
                #[trigger] st2.buf[k]).src < i by {
                    if k == st2.buf.len() - 1 {
                        assert(st2.buf[k] == rec);
                    } else {
                        assert(st2.buf[k] == st.buf[k]);
                    }
                }
                assert forall|c: int, k: int, k2: int|
                    (0 <= c < st2.chunks.len() && 0 <= k < st2.chunks[c].len() && 0 <= k2
                        < st2.buf.len()) implies (#[trigger] st2.chunks[c][k]).src <= (
                #[trigger] st2.buf[k2]).src by {
                    if k2 == st2.buf.len() - 1 {
                        assert(st2.buf[k2] == rec);
                    } else {
                        assert(st2.buf[k2] == st.buf[k2]);
                    }
                }
                assert forall|k1: int, k2: int| 0 <= k1 <= k2 < st2.buf.len() implies (
                #[trigger] st2.buf[k1]).src <= (#[trigger] st2.buf[k2]).src by {
                    if k2 == st2.buf.len() - 1 {
                        assert(st2.buf[k2] == rec);
                        if k1 < k2 {
                            assert(st2.buf[k1] == st.buf[k1]);
                        }
                    } else {
                        assert(st2.buf[k1] == st.buf[k1]);
                        assert(st2.buf[k2] == st.buf[k2]);
                    }
                }
            }
        }
    }
}

/// Which input file each record of the finished packing came from: the
/// sources are valid input positions, and they never decrease along the
/// emitted sequence — a record in a later chunk (or later within the same
/// chunk) never comes from an earlier-sorted file than one before it.
pub proof fn lemma_pack_sources(ents: Seq<(Seq<u8>, Seq<u8>)>, cap: nat, token_mode: bool)
    ensures
        forall|c: int, k: int|
            #![trigger pack(ents, cap, token_mode)[c][k]]
            (0 <= c < pack(ents, cap, token_mode).len() && 0 <= k < pack(ents, cap, token_mode)[c].len())
                ==> 0 <= pack(ents, cap, token_mode)[c][k].src < ents.len(),
        forall|c1: int, k1: int, c2: int, k2: int|
            #![trigger pack(ents, cap, token_mode)[c1][k1], pack(ents, cap, token_mode)[c2][k2]]
            (0 <= c1 <= c2 < pack(ents, cap, token_mode).len() && 0 <= k1 < pack(
                ents,
                cap,
                token_mode,
            )[c1].len() && 0 <= k2 < pack(ents, cap, token_mode)[c2].len() && (c1 < c2 || k1 <= k2))
                ==> pack(ents, cap, token_mode)[c1][k1].src <= pack(ents, cap, token_mode)[c2][k2].src,
{
    let n = ents.len() as int;
    lemma_prefix_srcs(ents, n, cap, token_mode);
    let st = pack_prefix(ents, n, cap, token_mode);
    let packed = pack(ents, cap, token_mode);
    assert forall|c: int, k: int|
        (0 <= c < packed.len() && 0 <= k < packed[c].len()) implies 0 <= (
    #[trigger] packed[c][k]).src < n by {
        if st.buf.len() > 0 && c == packed.len() - 1 {
            assert(packed[c] == st.buf);
        } else {
            assert(packed[c] == st.chunks[c]);
        }
    }
    assert forall|c1: int, k1: int, c2: int, k2: int|
        (0 <= c1 <= c2 < packed.len() && 0 <= k1 < packed[c1].len() && 0 <= k2 < packed[c2].len()
            && (c1 < c2 || k1 <= k2)) implies (#[trigger] packed[c1][k1]).src <= (
    #[trigger] packed[c2][k2]).src by {
        if st.buf.len() > 0 && c1 == packed.len() - 1 {
            assert(packed[c1] == st.buf);
        } else {
            assert(packed[c1] == st.chunks[c1]);
        }
        if st.buf.len() > 0 && c2 == packed.len() - 1 {
            assert(packed[c2] == st.buf);
        } else {
            assert(packed[c2] == st.chunks[c2]);
        }
    }
}

/// The ordering guarantee: when the input is sorted ascending by priority,
/// no record emitted at or after another record's position comes from a file
/// of strictly lower priority — lower-priority content is never observable
/// strictly after higher-priority content across the emitted chunk sequence.
pub proof fn lemma_priority_order(
    entries: Seq<(String, String, i32)>,
    cap: nat,
    token_mode: bool,
    c1: int,
    k1: int,
    c2: int,
    k2: int,
)
    requires
        forall|i: int, j: int|
            0 <= i <= j < entries.len() ==> (#[trigger] entries[i]).2 <= (#[trigger] entries[j]).2,
        0 <= c1 <= c2 < pack(entry_views(entries), cap, token_mode).len(),
        0 <= k1 < pack(entry_views(entries), cap, token_mode)[c1].len(),
        0 <= k2 < pack(entry_views(entries), cap, token_mode)[c2].len(),
        c1 < c2 || k1 <= k2,
    ensures
        ({
            let packed = pack(entry_views(entries), cap, token_mode);
            &&& 0 <= packed[c1][k1].src < entries.len()
            &&& 0 <= packed[c2][k2].src < entries.len()
            &&& entries[packed[c1][k1].src].2 <= entries[packed[c2][k2].src].2
        }),
{
    let ev = entry_views(entries);
    lemma_pack_sources(ev, cap, token_mode);
    assert(ev.len() == entries.len());
}

} // verus!
