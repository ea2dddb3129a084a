//! Priority assignment and the stable ordering of the file set: every file
//! gets its static score plus its recency boost, and the set is stably
//! sorted ascending by that priority before packing.

use crate::config::PriorityRule;
use crate::config::YekConfig;
use crate::pack::entry_views;
use crate::pack::pack;
use crate::pack::render_chunk;
use crate::pack::spec_capacity;
use crate::pack::write_chunks;
use crate::priority::get_file_priority;
use crate::priority::rule_views;
use crate::priority::spec_file_priority;
use crate::recency::compute_recentness_boost;
use crate::recency::spec_boost;
use crate::recency::spec_sort_by_time;
use vstd::multiset::Multiset;
use vstd::prelude::*;

verus! {

/// The fixed maximum recency boost: the newest file in the version history
/// gains this much priority.
pub const MAX_RECENCY_BOOST: i32 = 50;

/// Stable insertion of one scored entry into a sequence already ordered
/// ascending by priority: the entry goes after every entry whose priority is
/// not larger.
pub open spec fn insert_by_priority(s: Seq<(String, String, i32)>, x: (String, String, i32)) -> Seq<
    (String, String, i32),
>
    decreases s.len(),
{
    if s.len() == 0 {
        seq![x]
    } else if s.last().2 <= x.2 {
        s.push(x)
    } else {
        insert_by_priority(s.drop_last(), x).push(s.last())
    }
}

/// Stable sort of scored entries ascending by priority: entries with equal
/// priority keep their discovery order.
pub open spec fn spec_sort_by_priority(s: Seq<(String, String, i32)>) -> Seq<(String, String, i32)>
    decreases s.len(),
{
    if s.len() == 0 {
        Seq::empty()
    } else {
        insert_by_priority(spec_sort_by_priority(s.drop_last()), s.last())
    }
}

/// Whether the entries are ordered ascending by priority.
pub open spec fn priority_sorted(s: Seq<(String, String, i32)>) -> bool {
    forall|i: int, j: int| 0 <= i <= j < s.len() ==> (#[trigger] s[i]).2 <= (#[trigger] s[j]).2
}

proof fn lemma_insert_by_priority_len(s: Seq<(String, String, i32)>, x: (String, String, i32))
    ensures
        insert_by_priority(s, x).len() == s.len() + 1,
    decreases s.len(),
{
    if s.len() > 0 && !(s.last().2 <= x.2) {
        lemma_insert_by_priority_len(s.drop_last(), x);
    }
}

/// The stable sort keeps the number of entries.
pub proof fn lemma_sort_by_priority_len(s: Seq<(String, String, i32)>)
    ensures
        spec_sort_by_priority(s).len() == s.len(),
    decreases s.len(),
{
    if s.len() > 0 {
        lemma_sort_by_priority_len(s.drop_last());
        lemma_insert_by_priority_len(spec_sort_by_priority(s.drop_last()), s.last());
    }
}

proof fn lemma_insert_by_priority_members(
    s: Seq<(String, String, i32)>,
    x: (String, String, i32),
    k: int,
)
    requires
        0 <= k < insert_by_priority(s, x).len(),
    ensures
        insert_by_priority(s, x)[k] == x || exists|i: int|
            0 <= i < s.len() && insert_by_priority(s, x)[k] == #[trigger] s[i],
    decreases s.len(),
{
    lemma_insert_by_priority_len(s, x);
    if s.len() == 0 {
    } else if s.last().2 <= x.2 {
        if k < s.len() {
            assert(insert_by_priority(s, x)[k] == s[k]);
        }
    } else {
        let t = insert_by_priority(s.drop_last(), x);
        lemma_insert_by_priority_len(s.drop_last(), x);
        if k < t.len() {
            lemma_insert_by_priority_members(s.drop_last(), x, k);
            if t[k] != x {
                let i = choose|i: int|
                    0 <= i < s.drop_last().len() && t[k] == #[trigger] s.drop_last()[i];
                assert(s.drop_last()[i] == s[i]);
            }
        } else {
            assert(t.push(s.last())[k] == s.last());
            assert(s.last() == s[s.len() - 1]);
        }
    }
}

proof fn lemma_insert_by_priority_sorted(s: Seq<(String, String, i32)>, x: (String, String, i32))
    requires
        priority_sorted(s),
    ensures
        priority_sorted(insert_by_priority(s, x)),
    decreases s.len(),
{
    lemma_insert_by_priority_len(s, x);
    if s.len() == 0 {
    } else if s.last().2 <= x.2 {
        assert forall|i: int, j: int|
            0 <= i <= j < s.push(x).len() implies (#[trigger] s.push(x)[i]).2 <= (#[trigger] s.push(
            x,
        )[j]).2 by {
            if j == s.len() {
                if i < j {
                    assert(s[i].2 <= s[s.len() - 1].2);
                }
            }
        }
    } else {
        lemma_insert_by_priority_sorted(s.drop_last(), x);
        let t = insert_by_priority(s.drop_last(), x);
        lemma_insert_by_priority_len(s.drop_last(), x);
        assert forall|k: int| 0 <= k < t.len() implies (#[trigger] t[k]).2 <= s.last().2 by {
            lemma_insert_by_priority_members(s.drop_last(), x, k);
        }
        assert forall|i: int, j: int|
            0 <= i <= j < t.push(s.last()).len() implies (#[trigger] t.push(s.last())[i]).2 <= (
        #[trigger] t.push(s.last())[j]).2 by {
            if j == t.len() {
                if i < t.len() {
                    assert(t[i].2 <= s.last().2);
                }
            }
        }
    }
}

/// The stable sort orders the entries ascending by priority.
pub proof fn lemma_sort_by_priority_sorted(s: Seq<(String, String, i32)>)
    ensures
        priority_sorted(spec_sort_by_priority(s)),
        spec_sort_by_priority(s).len() == s.len(),
    decreases s.len(),
{
    lemma_sort_by_priority_len(s);
    if s.len() > 0 {
        lemma_sort_by_priority_sorted(s.drop_last());
        lemma_insert_by_priority_sorted(spec_sort_by_priority(s.drop_last()), s.last());
    }
}

proof fn lemma_insert_pri_at_pos(s: Seq<(String, String, i32)>, x: (String, String, i32), j: int)
    requires
        0 <= j <= s.len(),
        forall|k: int| j <= k < s.len() ==> (#[trigger] s[k]).2 > x.2,
        j > 0 ==> s[j - 1].2 <= x.2,
    ensures
        insert_by_priority(s, x) == s.subrange(0, j) + seq![x] + s.subrange(j, s.len() as int),
    decreases s.len(),
{
    if s.len() == 0 {
        assert(insert_by_priority(s, x) =~= s.subrange(0, j) + seq![x] + s.subrange(
            j,
            s.len() as int,
        ));
    } else if s.last().2 <= x.2 {
        assert(j == s.len());
        assert(insert_by_priority(s, x) =~= s.subrange(0, j) + seq![x] + s.subrange(
            j,
            s.len() as int,
        ));
    } else {
        assert(j <= s.len() - 1);
        lemma_insert_pri_at_pos(s.drop_last(), x, j);
        assert(s.drop_last().subrange(0, j) =~= s.subrange(0, j));
        assert(s.drop_last().subrange(j, s.drop_last().len() as int) =~= s.subrange(
            j,
            s.len() - 1,
        ));
        assert(insert_by_priority(s, x) =~= s.subrange(0, j) + seq![x] + s.subrange(
            j,
            s.len() as int,
        ));
    }
}

/// Stable insertion sort of scored entries ascending by priority: entries
/// with equal priority keep their input order, so output is reproducible.
pub fn sort_entries_by_priority(entries: &Vec<(String, String, i32)>) -> (r: Vec<
    (String, String, i32),
>)
    ensures
        r@ == spec_sort_by_priority(entries@),
{
    let mut r: Vec<(String, String, i32)> = Vec::new();
    let mut i: usize = 0;
    while i < entries.len()
        invariant
            i <= entries@.len(),
            r@ == spec_sort_by_priority(entries@.take(i as int)),
        decreases entries@.len() - i,
    {
        proof {
            lemma_sort_by_priority_len(entries@.take(i as int));
        }
        let x: (String, String, i32) = (entries[i].0.clone(), entries[i].1.clone(), entries[i].2);
        proof {
            assert(x == entries@[i as int]);
        }
        let mut j: usize = r.len();
        while j > 0
            invariant_except_break
                j <= r@.len(),
                forall|k: int| j <= k < r@.len() ==> (#[trigger] r@[k]).2 > x.2,
            ensures
                j <= r@.len(),
                forall|k: int| j <= k < r@.len() ==> (#[trigger] r@[k]).2 > x.2,
                j > 0 ==> r@[j - 1].2 <= x.2,
            decreases j,
        {
            if r[j - 1].2 <= x.2 {
                break ;
            }
            j = j - 1;
        }
        proof {
            lemma_insert_pri_at_pos(r@, x, j as int);
            assert(entries@.take(i + 1).drop_last() =~= entries@.take(i as int));
            assert(entries@.take(i + 1).last() == entries@[i as int]);
            assert(r@.subrange(0, j as int) + seq![x] + r@.subrange(j as int, r@.len() as int)
                =~= r@.insert(j as int, x));
        }
        r.insert(j, x);
        i = i + 1;
    }
    proof {
        assert(entries@.take(entries@.len() as int) =~= entries@);
    }
    r
}

/// The recency boost of each ranked path, keyed by path.
pub open spec fn spec_boost_map(times: Seq<(String, u64)>, max: int) -> Seq<(Seq<char>, int)> {
    if times.len() < 2 {
        times.map_values(|p: (String, u64)| (p.0@, 0int))
    } else {
        Seq::new(
            times.len(),
            |i: int| (spec_sort_by_time(times)[i].0@, spec_boost(i, times.len() as int, max)),
        )
    }
}

/// The first value stored under `k`, if any.
pub open spec fn spec_lookup(m: Seq<(Seq<char>, int)>, k: Seq<char>) -> Option<int>
    decreases m.len(),
{
    if m.len() == 0 {
        None
    } else if m.first().0 == k {
        Some(m.first().1)
    } else {
        spec_lookup(m.drop_first(), k)
    }
}

/// The final priority of one file: its static score from the rules, plus
/// its recency boost when version history knows the path, saturating at the
/// top of the priority range.
pub open spec fn spec_final_priority(
    path: String,
    rules: Seq<PriorityRule>,
    times: Option<Seq<(String, u64)>>,
) -> int {
    let s = spec_file_priority(path@, rule_views(rules));
    let b = match times {
        Some(ts) => match spec_lookup(spec_boost_map(ts, MAX_RECENCY_BOOST as int), path@) {
            Some(b) => b,
            None => 0,
        },
        None => 0,
    };
    if s + b > i32::MAX {
        i32::MAX as int
    } else {
        s + b
    }
}

/// Every file paired with its final priority, in discovery order.
pub open spec fn scored_entries(
    files: Seq<(String, String)>,
    rules: Seq<PriorityRule>,
    times: Option<Seq<(String, u64)>>,
) -> Seq<(String, String, i32)> {
    Seq::new(
        files.len(),
        |i: int|
            (files[i].0, files[i].1, spec_final_priority(files[i].0, rules, times) as i32),
    )
}

/// The view of an optional commit-time list.
pub open spec fn times_view(times: Option<Vec<(String, u64)>>) -> Option<Seq<(String, u64)>> {
    match times {
        Some(v) => Some(v@),
        None => None,
    }
}

fn lookup_boost(boosts: &Vec<(String, i32)>, path: &String) -> (r: Option<i32>)
    ensures
        ({
            let m = boosts@.map_values(|p: (String, i32)| (p.0@, p.1 as int));
            match r {
                Some(b) => spec_lookup(m, path@) == Some(b as int) && exists|k: int|
                    0 <= k < boosts@.len() && b == (#[trigger] boosts@[k]).1,
                None => spec_lookup(m, path@) is None,
            }
        }),
{
    let ghost m = boosts@.map_values(|p: (String, i32)| (p.0@, p.1 as int));
    proof {
        assert(m.skip(0) =~= m);
    }
    let mut i: usize = 0;
    while i < boosts.len()
        invariant
            i <= boosts@.len(),
            m == boosts@.map_values(|p: (String, i32)| (p.0@, p.1 as int)),
            m.len() == boosts@.len(),
            spec_lookup(m, path@) == spec_lookup(m.skip(i as int), path@),
        decreases boosts@.len() - i,
    {
        proof {
            assert(m.skip(i as int).first() == m[i as int]);
            assert(m.skip(i as int).drop_first() =~= m.skip(i + 1));
        }
        if boosts[i].0 == *path {
            proof {
                assert(boosts@[i as int].1 == (#[trigger] boosts@[i as int]).1);
            }
            return Some(boosts[i].1);
        }
        i = i + 1;
    }
    proof {
        assert(m.skip(m.len() as int).len() == 0);
    }
    None
}

/// Scores every file: the static pattern score plus the recency boost of
/// paths known to the version history (none when no history is available),
/// saturating at the top of the priority range.
pub fn assign_priorities(
    files: &Vec<(String, String)>,
    rules: &Vec<PriorityRule>,
    commit_times: &Option<Vec<(String, u64)>>,
) -> (r: Vec<(String, String, i32)>)
    ensures
        r@ == scored_entries(files@, rules@, times_view(*commit_times)),
{
    let ghost tv = times_view(*commit_times);
    let boosts: Option<Vec<(String, i32)>> = match commit_times {
        Some(times) => Some(compute_recentness_boost(times, MAX_RECENCY_BOOST)),
        None => None,
    };
    proof {
        match &boosts {
            Some(b) => {
                let times = commit_times->0;
                assert(b@.map_values(|p: (String, i32)| (p.0@, p.1 as int)) =~= spec_boost_map(
                    times@,
                    MAX_RECENCY_BOOST as int,
                ));
            },
            None => {},
        }
    }
    let mut r: Vec<(String, String, i32)> = Vec::new();
    let mut i: usize = 0;
    while i < files.len()
        invariant
            i <= files@.len(),
            tv == times_view(*commit_times),
            boosts is Some <==> commit_times is Some,
            boosts is Some ==> boosts->0@.map_values(|p: (String, i32)| (p.0@, p.1 as int))
                == spec_boost_map(commit_times->0@, MAX_RECENCY_BOOST as int),
            boosts is Some ==> forall|k: int|
                0 <= k < boosts->0@.len() ==> (#[trigger] boosts->0@[k]).1 >= 0,
            r@.len() == i,
            forall|k: int|
                0 <= k < i ==> #[trigger] r@[k] == (
                    files@[k].0,
                    files@[k].1,
                    spec_final_priority(files@[k].0, rules@, tv) as i32,
                ),
        decreases files@.len() - i,
    {
        let path: String = files[i].0.clone();
        let content: String = files[i].1.clone();
        let score: i32 = get_file_priority(path.as_str(), rules);
        let boost: i32 = match &boosts {
            Some(b) => match lookup_boost(b, &path) {
                Some(v) => v,
                None => 0,
            },
            None => 0,
        };
        let total64: i64 = score as i64 + boost as i64;
        let total: i32 = if total64 > i32::MAX as i64 {
            i32::MAX
        } else {
            total64 as i32
        };
        proof {
            assert(path == files@[i as int].0);
            assert(total as int == spec_final_priority(files@[i as int].0, rules@, tv));
        }
        r.push((path, content, total));
        i = i + 1;
    }
    proof {
        assert(r@ =~= scored_entries(files@, rules@, tv));
    }
    r
}

/// The whole planning pipeline on in-memory values: scores every file,
/// stably sorts ascending by priority, and packs the ordered sequence into
/// chunk payloads.
pub fn plan_chunks(
    files: &Vec<(String, String)>,
    config: &YekConfig,
    commit_times: &Option<Vec<(String, u64)>>,
) -> (chunks: Vec<Vec<u8>>)
    requires
        spec_capacity(*config) > 0,
    ensures
        ({
            let sorted = spec_sort_by_priority(
                scored_entries(files@, config.priority_rules@, times_view(*commit_times)),
            );
            let packed = pack(entry_views(sorted), spec_capacity(*config), config.token_mode);
            &&& chunks@.len() == packed.len()
            &&& forall|i: int|
                0 <= i < chunks@.len() ==> #[trigger] chunks@[i]@ == render_chunk(i, packed[i])
        }),
{
    let entries: Vec<(String, String, i32)> = assign_priorities(
        files,
        &config.priority_rules,
        commit_times,
    );
    let sorted: Vec<(String, String, i32)> = sort_entries_by_priority(&entries);
    write_chunks(&sorted, config)
}

/// The pipeline's ordering guarantee, end to end: after scoring and the
/// stable sort, a record that the packer emits in a later chunk (or later
/// within the same chunk) never comes from a file of strictly lower final
/// priority — lower-priority content is never observable after
/// higher-priority content.
pub proof fn lemma_plan_respects_priority(
    files: Seq<(String, String)>,
    rules: Seq<PriorityRule>,
    times: Option<Seq<(String, u64)>>,
    cap: nat,
    token_mode: bool,
    c1: int,
    k1: int,
    c2: int,
    k2: int,
)
    requires
        ({
            let packed = pack(
                entry_views(spec_sort_by_priority(scored_entries(files, rules, times))),
                cap,
                token_mode,
            );
            &&& 0 <= c1 <= c2 < packed.len()
            &&& 0 <= k1 < packed[c1].len()
            &&& 0 <= k2 < packed[c2].len()
            &&& (c1 < c2 || k1 <= k2)
        }),
    ensures
        ({
            let sorted = spec_sort_by_priority(scored_entries(files, rules, times));
            let packed = pack(entry_views(sorted), cap, token_mode);
            &&& 0 <= packed[c1][k1].src < sorted.len()
            &&& 0 <= packed[c2][k2].src < sorted.len()
            &&& sorted[packed[c1][k1].src].2 <= sorted[packed[c2][k2].src].2
        }),
{
    let sorted = spec_sort_by_priority(scored_entries(files, rules, times));
    lemma_sort_by_priority_sorted(scored_entries(files, rules, times));
    crate::pack_laws::lemma_priority_order(sorted, cap, token_mode, c1, k1, c2, k2);
}

proof fn lemma_insert_by_priority_multiset(s: Seq<(String, String, i32)>, x: (String, String, i32))
    ensures
        insert_by_priority(s, x).to_multiset() == s.to_multiset().insert(x),
    decreases s.len(),
{
    broadcast use vstd::seq_lib::group_to_multiset_ensures;

    if s.len() == 0 {
        assert(seq![x] =~= Seq::<(String, String, i32)>::empty().push(x));
        assert(Seq::<(String, String, i32)>::empty().to_multiset() =~= Multiset::empty());
    } else if s.last().2 <= x.2 {
    } else {
        lemma_insert_by_priority_multiset(s.drop_last(), x);
        assert(s.drop_last().push(s.last()) =~= s);
        assert(insert_by_priority(s.drop_last(), x).push(s.last()).to_multiset()
            =~= insert_by_priority(s.drop_last(), x).to_multiset().insert(s.last()));
        assert(s.drop_last().to_multiset().insert(x).insert(s.last())
            =~= s.drop_last().to_multiset().insert(s.last()).insert(x));
        assert(s.drop_last().push(s.last()).to_multiset() =~= s.drop_last().to_multiset().insert(
            s.last(),
        ));
    }
}

/// The stable sort is a permutation: it neither loses, duplicates nor
/// invents entries.
pub proof fn lemma_sort_by_priority_permutes(s: Seq<(String, String, i32)>)
    ensures
        spec_sort_by_priority(s).to_multiset() == s.to_multiset(),
    decreases s.len(),
{
    broadcast use vstd::seq_lib::group_to_multiset_ensures;

    if s.len() > 0 {
        lemma_sort_by_priority_permutes(s.drop_last());
        lemma_insert_by_priority_multiset(spec_sort_by_priority(s.drop_last()), s.last());
        assert(s.drop_last().push(s.last()) =~= s);
        assert(s.drop_last().push(s.last()).to_multiset() =~= s.drop_last().to_multiset().insert(
            s.last(),
        ));
    }
}

/// The entries carrying exactly priority `v`, in order.
pub open spec fn with_priority(s: Seq<(String, String, i32)>, v: i32) -> Seq<(String, String, i32)> {
    s.filter(|e: (String, String, i32)| e.2 == v)
}

proof fn lemma_insert_by_priority_filter(
    s: Seq<(String, String, i32)>,
    x: (String, String, i32),
    v: i32,
)
    ensures
        with_priority(insert_by_priority(s, x), v) == if x.2 == v {
            with_priority(s, v).push(x)
        } else {
            with_priority(s, v)
        },
    decreases s.len(),
{
    reveal(Seq::filter);
    if s.len() == 0 {
        let t = insert_by_priority(s, x);
        assert(t =~= seq![x]);
        assert(t.drop_last() =~= Seq::<(String, String, i32)>::empty());
        assert(with_priority(t, v) == if x.2 == v {
            with_priority(t.drop_last(), v).push(x)
        } else {
            with_priority(t.drop_last(), v)
        });
        assert(with_priority(s, v) =~= Seq::<(String, String, i32)>::empty());
    } else if s.last().2 <= x.2 {
        let t = s.push(x);
        assert(t.drop_last() =~= s);
        assert(t.last() == x);
    } else {
        lemma_insert_by_priority_filter(s.drop_last(), x, v);
        let u = insert_by_priority(s.drop_last(), x);
        let t = u.push(s.last());
        assert(t.drop_last() =~= u);
        assert(t.last() == s.last());
        assert(s.drop_last().push(s.last()) =~= s);
        assert(s.drop_last() == s.drop_last().push(s.last()).drop_last());
        assert(with_priority(s, v) == if s.last().2 == v {
            with_priority(s.drop_last(), v).push(s.last())
        } else {
            with_priority(s.drop_last(), v)
        });
        assert(s.last().2 != x.2 || x.2 != v || s.last().2 == v);
        if x.2 == v {
            assert(s.last().2 > v);
            assert(with_priority(t, v) =~= with_priority(s, v).push(x));
        } else {
            assert(with_priority(t, v) =~= with_priority(s, v));
        }
    }
}

/// Stability of the sort: for every priority value, the entries carrying
/// that priority appear in the sorted output in exactly their input order.
pub proof fn lemma_sort_by_priority_stable(s: Seq<(String, String, i32)>, v: i32)
    ensures
        with_priority(spec_sort_by_priority(s), v) == with_priority(s, v),
    decreases s.len(),
{
    reveal(Seq::filter);
    if s.len() > 0 {
        lemma_sort_by_priority_stable(s.drop_last(), v);
        lemma_insert_by_priority_filter(spec_sort_by_priority(s.drop_last()), s.last(), v);
        assert(with_priority(s, v) == if s.last().2 == v {
            with_priority(s.drop_last(), v).push(s.last())
        } else {
            with_priority(s.drop_last(), v)
        });
    }
}

} // verus!
