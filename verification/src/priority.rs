//! Static priority scoring: a file's score is the maximum score among the
//! rules that match its path, or zero when none matches. A rule matches
//! when its pattern occurs in the path as a substring, or when the pattern
//! is a valid regular expression that matches the path; an invalid pattern
//! can still match as a plain substring, and never raises an error.

use crate::config::PriorityRule;
use crate::config::regex_match_of;
use crate::config::regex_valid;
use vstd::prelude::*;
use vstd::string::StringSliceAdditionalSpecFns;
use vstd::utf8::encode_utf8;

verus! {

/// Whether `needle` occurs as a contiguous substring of `hay`.
pub open spec fn spec_contains(hay: Seq<u8>, needle: Seq<u8>) -> bool {
    exists|i: int|
        0 <= i <= hay.len() - needle.len() && #[trigger] hay.subrange(i, i + needle.len())
            == needle
}

/// Relies on `str::contains`: returns whether the pattern occurs as a
/// substring of the haystack. On UTF-8 text a byte-level occurrence and a
/// character-level occurrence coincide, so the claim is stated over bytes.
#[verifier::external_body]
fn str_contains(hay: &str, needle: &str) -> (r: bool)
    ensures
        r == spec_contains(hay.spec_bytes(), needle.spec_bytes()),
{
    hay.contains(needle)
}

/// Whether a rule's pattern matches a path: by substring containment, or as
/// a valid regular expression that matches. An invalid expression matches
/// only as a substring, never errors.
pub open spec fn rule_matches(path: Seq<char>, pat: Seq<char>) -> bool {
    spec_contains(encode_utf8(path), encode_utf8(pat)) || (regex_valid(pat) && regex_match_of(
        pat,
        path,
    ))
}

/// The pattern and score of each rule.
pub open spec fn rule_views(rules: Seq<PriorityRule>) -> Seq<(Seq<char>, int)> {
    rules.map_values(|r: PriorityRule| (r.pattern@, r.score as int))
}

/// Offers a rule's score against the best score so far: a matching rule's
/// score wins if it is larger (or nothing matched yet); a non-matching rule
/// changes nothing.
pub open spec fn combine_rule(path: Seq<char>, rule: (Seq<char>, int), rest: Option<int>) -> Option<
    int,
> {
    if rule_matches(path, rule.0) {
        match rest {
            Some(b) => if b >= rule.1 {
                Some(b)
            } else {
                Some(rule.1)
            },
            None => Some(rule.1),
        }
    } else {
        rest
    }
}

/// The maximum score among the rules that match `path`, or `None` when no
/// rule matches.
pub open spec fn spec_max_matching(path: Seq<char>, rules: Seq<(Seq<char>, int)>) -> Option<int>
    decreases rules.len(),
{
    if rules.len() == 0 {
        None
    } else {
        combine_rule(path, rules.last(), spec_max_matching(path, rules.drop_last()))
    }
}

/// The static score of `path` under `rules`: the maximum matching score, or
/// zero when no rule matches.
pub open spec fn spec_file_priority(path: Seq<char>, rules: Seq<(Seq<char>, int)>) -> int {
    match spec_max_matching(path, rules) {
        Some(s) => s,
        None => 0,
    }
}

/// Determine the final static priority of a file path by scanning the rule
/// list: the maximum score among the rules that match the path — by
/// substring containment, or as a valid regular expression — or zero when
/// no rule matches.
pub fn get_file_priority(path: &str, rules: &Vec<PriorityRule>) -> (score: i32)
    ensures
        score as int == spec_file_priority(path@, rule_views(rules@)),
{
    let ghost rv = rule_views(rules@);
    let mut best: Option<i32> = None;
    let mut i: usize = 0;
    while i < rules.len()
        invariant
            i <= rules@.len(),
            rv == rule_views(rules@),
            rv.len() == rules@.len(),
            best is Some <==> spec_max_matching(path@, rv.take(i as int)) is Some,
            best is Some ==> best->0 as int == spec_max_matching(path@, rv.take(i as int))->0,
        decreases rules@.len() - i,
    {
        proof {
            assert(rv.take(i + 1).drop_last() =~= rv.take(i as int));
            assert(rv.take(i + 1).last() == rv[i as int]);
            assert(rv[i as int] == (rules@[i as int].pattern@, rules@[i as int].score as int));
        }
        let matched: bool = str_contains(path, rules[i].pattern.as_str()) || rules[i].matches(
            path,
        );
        if matched {
            let s: i32 = rules[i].score;
            best = match best {
                Some(b) => if b >= s {
                    Some(b)
                } else {
                    Some(s)
                },
                None => Some(s),
            };
        }
        i = i + 1;
    }
    proof {
        assert(rv.take(rv.len() as int) =~= rv);
    }
    match best {
        Some(b) => b,
        None => 0,
    }
}

proof fn lemma_combine_comm(
    path: Seq<char>,
    a: (Seq<char>, int),
    b: (Seq<char>, int),
    rest: Option<int>,
)
    ensures
        combine_rule(path, a, combine_rule(path, b, rest)) == combine_rule(
            path,
            b,
            combine_rule(path, a, rest),
        ),
{
}

proof fn lemma_max_matching_remove(path: Seq<char>, rules: Seq<(Seq<char>, int)>, j: int)
    requires
        0 <= j < rules.len(),
    ensures
        spec_max_matching(path, rules) == combine_rule(
            path,
            rules[j],
            spec_max_matching(path, rules.remove(j)),
        ),
    decreases rules.len(),
{
    if j == rules.len() - 1 {
        assert(rules.remove(j) =~= rules.drop_last());
    } else {
        let s2 = rules.remove(j);
        assert(s2.last() == rules.last());
        assert(s2.drop_last() =~= rules.drop_last().remove(j));
        lemma_max_matching_remove(path, rules.drop_last(), j);
        lemma_combine_comm(
            path,
            rules.last(),
            rules[j],
            spec_max_matching(path, rules.drop_last().remove(j)),
        );
    }
}

proof fn lemma_max_matching_perm(
    path: Seq<char>,
    rules1: Seq<(Seq<char>, int)>,
    rules2: Seq<(Seq<char>, int)>,
)
    requires
        rules1.to_multiset() == rules2.to_multiset(),
    ensures
        spec_max_matching(path, rules1) == spec_max_matching(path, rules2),
    decreases rules1.len(),
{
    broadcast use vstd::seq_lib::group_to_multiset_ensures;

    if rules1.len() == 0 {
        assert(rules1.to_multiset().len() == rules2.to_multiset().len());
        assert(rules1.len() == rules1.to_multiset().len());
        assert(rules2.len() == rules2.to_multiset().len());
        assert(rules2.len() == 0);
    } else {
        let x = rules1.last();
        assert(rules1.contains(x));
        assert(rules1.to_multiset().count(x) > 0);
        assert(rules2.to_multiset().count(x) > 0);
        assert(rules2.contains(x));
        let j = choose|j: int| 0 <= j < rules2.len() && rules2[j] == x;
        lemma_max_matching_remove(path, rules2, j);
        assert(rules1.drop_last() =~= rules1.remove(rules1.len() - 1));
        assert(rules1.remove(rules1.len() - 1).to_multiset() =~= rules1.to_multiset().remove(x));
        assert(rules2.remove(j).to_multiset() =~= rules2.to_multiset().remove(x));
        lemma_max_matching_perm(path, rules1.drop_last(), rules2.remove(j));
    }
}

/// Order independence of the scorer: shuffling the rule list never changes a
/// file's computed static score, because taking the maximum matching score
/// is commutative.
pub proof fn lemma_priority_order_independent(
    path: Seq<char>,
    rules1: Seq<(Seq<char>, int)>,
    rules2: Seq<(Seq<char>, int)>,
)
    requires
        rules1.to_multiset() == rules2.to_multiset(),
    ensures
        spec_file_priority(path, rules1) == spec_file_priority(path, rules2),
{
    lemma_max_matching_perm(path, rules1, rules2);
}

} // verus!
