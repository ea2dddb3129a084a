//! Path normalization: strips a base prefix and joins the remaining
//! components with forward slashes, marking paths that are absolute but not
//! under the base.

use vstd::prelude::*;
use vstd::string::StrSliceExecFns;
use vstd::string::StringExecFns;

verus! {

/// The index of the first `/` in `s`, or `s.len()` when there is none.
pub open spec fn first_slash(s: Seq<char>) -> int
    decreases s.len(),
{
    if s.len() == 0 {
        0
    } else if s[0] == '/' {
        0
    } else {
        1 + first_slash(s.drop_first())
    }
}

/// The raw segments of `s`, split on every `/`; empty segments are kept.
pub open spec fn split_slash(s: Seq<char>) -> Seq<Seq<char>>
    decreases s.len(),
{
    let i = first_slash(s);
    if 0 <= i < s.len() {
        seq![s.take(i)] + split_slash(s.skip(i + 1))
    } else {
        seq![s]
    }
}

/// Whether the path begins at the root.
pub open spec fn root_of(s: Seq<char>) -> bool {
    s.len() > 0 && s[0] == '/'
}

/// The segments that survive normalization: empty segments and `.` are
/// dropped.
pub open spec fn filter_segs(raw: Seq<Seq<char>>) -> Seq<Seq<char>> {
    raw.filter(|seg: Seq<char>| seg.len() > 0 && seg != seq!['.'])
}

/// The normalized components of a path: its surviving segments, with one
/// leading `.` kept when a relative path begins with it.
pub open spec fn comps_of(s: Seq<char>) -> Seq<Seq<char>> {
    let raw = split_slash(s);
    if !root_of(s) && raw.len() > 0 && raw[0] == seq!['.'] {
        seq![seq!['.']] + filter_segs(raw)
    } else {
        filter_segs(raw)
    }
}

/// Components joined by `/`.
pub open spec fn join_comps(cs: Seq<Seq<char>>) -> Seq<char>
    decreases cs.len(),
{
    if cs.len() == 0 {
        Seq::<char>::empty()
    } else if cs.len() == 1 {
        cs[0]
    } else {
        cs[0] + seq!['/'] + join_comps(cs.drop_first())
    }
}

/// The normalized relative rendering of `path` against `base`: the
/// components left after stripping `base` as a component-wise prefix (or all
/// of `path`'s components when it is not under `base`), joined by `/`; `.`
/// when nothing is left; with a leading `/` when `path` is absolute and not
/// under `base`.
pub open spec fn spec_normalize_path(base: Seq<char>, path: Seq<char>) -> Seq<char> {
    let bc = comps_of(base);
    let pc = comps_of(path);
    let stripped = (bc.len() == 0 && !root_of(base)) || (root_of(base) == root_of(path)
        && bc.is_prefix_of(pc));
    let rel = if stripped {
        pc.skip(bc.len() as int)
    } else {
        pc
    };
    if rel.len() == 0 {
        seq!['.']
    } else if root_of(path) && !stripped {
        seq!['/'] + join_comps(rel)
    } else {
        join_comps(rel)
    }
}

proof fn lemma_first_slash_at(s: Seq<char>, a: int, b: int)
    requires
        0 <= a <= b <= s.len(),
        forall|k: int| a <= k < b ==> s[k] != '/',
        b == s.len() || s[b] == '/',
    ensures
        first_slash(s.skip(a)) == b - a,
    decreases b - a,
{
    if a == b {
        if b < s.len() {
            assert(s.skip(a)[0] == s[b]);
        }
    } else {
        assert(s.skip(a)[0] == s[a]);
        assert(s.skip(a).drop_first() =~= s.skip(a + 1));
        lemma_first_slash_at(s, a + 1, b);
    }
}

/// The raw segments of `s`, each as its own string, in order.
fn split_on_slash(s: &str) -> (r: Vec<String>)
    ensures
        r.deep_view() == split_slash(s@),
{
    let n: usize = s.unicode_len();
    let mut r: Vec<String> = Vec::new();
    let mut seg_start: usize = 0;
    let mut i: usize = 0;
    proof {
        assert(s@.skip(0) =~= s@);
        assert(split_slash(s@) =~= r.deep_view() + split_slash(s@.skip(0)));
    }
    while i < n
        invariant
            seg_start <= i <= n == s@.len(),
            split_slash(s@) == r.deep_view() + split_slash(s@.skip(seg_start as int)),
            forall|k: int| seg_start <= k < i ==> s@[k] != '/',
        decreases n - i,
    {
        let c: char = s.get_char(i);
        if c == '/' {
            let seg: &str = s.substring_char(seg_start, i);
            proof {
                lemma_first_slash_at(s@, seg_start as int, i as int);
                assert(s@.skip(seg_start as int).take(i - seg_start) =~= s@.subrange(
                    seg_start as int,
                    i as int,
                ));
                assert(s@.skip(seg_start as int).skip(i - seg_start + 1) =~= s@.skip(i + 1));
                assert(split_slash(s@.skip(seg_start as int)) == seq![
                    s@.subrange(seg_start as int, i as int),
                ] + split_slash(s@.skip(i + 1)));
            }
            let owned: String = seg.to_owned();
            r.push(owned);
            proof {
                assert(r.deep_view() =~= r.deep_view().drop_last().push(
                    s@.subrange(seg_start as int, i as int),
                ));
                assert(split_slash(s@) =~= r.deep_view() + split_slash(s@.skip(i + 1)));
            }
            seg_start = i + 1;
        }
        i = i + 1;
    }
    let seg: &str = s.substring_char(seg_start, n);
    proof {
        lemma_first_slash_at(s@, seg_start as int, n as int);
        assert(s@.skip(seg_start as int) =~= s@.subrange(seg_start as int, n as int));
        assert(split_slash(s@.skip(seg_start as int)) == seq![s@.skip(seg_start as int)]);
    }
    let owned: String = seg.to_owned();
    r.push(owned);
    proof {
        assert(r.deep_view() =~= r.deep_view().drop_last().push(s@.skip(seg_start as int)));
        assert(split_slash(s@) =~= r.deep_view());
    }
    r
}

/// Whether the segment is exactly `.`.
fn seg_is_dot(seg: &String) -> (r: bool)
    ensures
        r == (seg@ == seq!['.']),
{
    proof {
        reveal_strlit(".");
    }
    if seg.as_str().unicode_len() == 1 {
        let c: char = seg.as_str().get_char(0);
        proof {
            if c == '.' {
                assert(seg@ =~= seq!['.']);
            } else {
                assert(seg@ != seq!['.']);
            }
        }
        c == '.'
    } else {
        proof {
            assert(seg@ != seq!['.']);
        }
        false
    }
}

/// The normalized components of a path, with whether it is rooted.
fn components_of(s: &str) -> (r: (bool, Vec<String>))
    ensures
        r.0 == root_of(s@),
        r.1.deep_view() == comps_of(s@),
{
    let raw: Vec<String> = split_on_slash(s);
    let root: bool = !s.is_empty() && s.get_char(0) == '/';
    let mut comps: Vec<String> = Vec::new();
    if !root && raw.len() > 0 && seg_is_dot(&raw[0]) {
        proof {
            reveal_strlit(".");
        }
        let dot: String = String::from_str(".");
        proof {
            assert(dot@ =~= seq!['.']);
        }
        comps.push(dot);
        proof {
            assert(comps.deep_view() =~~= seq![seq!['.']]);
        }
    }
    let ghost lead = comps.deep_view();
    let mut i: usize = 0;
    proof {
        reveal(Seq::filter);
        assert(filter_segs(raw.deep_view().take(0)) =~= Seq::<Seq<char>>::empty());
        assert(comps.deep_view() =~~= lead + filter_segs(raw.deep_view().take(0)));
    }
    while i < raw.len()
        invariant
            i <= raw@.len(),
            raw.deep_view().len() == raw@.len(),
            lead.len() <= 1,
            comps.deep_view() == lead + filter_segs(raw.deep_view().take(i as int)),
        decreases raw@.len() - i,
    {
        proof {
            reveal(Seq::filter);
            assert(raw.deep_view().take(i + 1).drop_last() =~= raw.deep_view().take(i as int));
            assert(raw.deep_view().take(i + 1).last() == raw@[i as int]@);
        }
        let keep: bool = if raw[i].as_str().is_empty() {
            false
        } else {
            !seg_is_dot(&raw[i])
        };
        if keep {
            let ghost old_dv = comps.deep_view();
            let seg: String = raw[i].clone();
            proof {
                assert(seg@ == raw@[i as int]@);
            }
            comps.push(seg);
            proof {
                reveal(Seq::filter);
                let dv = raw.deep_view();
                assert(comps.deep_view() =~~= old_dv.push(raw@[i as int]@));
                assert(dv.take(i + 1).last() == raw@[i as int]@);
                assert(dv.take(i + 1).last().len() > 0 && dv.take(i + 1).last() != seq!['.']);
                assert(filter_segs(dv.take(i + 1)) == filter_segs(dv.take(i + 1).drop_last()).push(
                    dv.take(i + 1).last(),
                ));
                assert(filter_segs(dv.take(i + 1).drop_last()) == filter_segs(dv.take(i as int)));
                assert(comps.deep_view() =~~= lead + filter_segs(dv.take(i + 1)));
            }
        } else {
            proof {
                reveal(Seq::filter);
                assert(comps.deep_view() =~~= lead + filter_segs(raw.deep_view().take(i + 1)));
            }
        }
        i = i + 1;
    }
    proof {
        assert(raw.deep_view().take(raw.deep_view().len() as int) =~= raw.deep_view());
        assert(comps.deep_view() =~~= comps_of(s@));
    }
    (root, comps)
}

/// Whether the components of `a` are a prefix of those of `b`.
fn comps_prefix(a: &Vec<String>, b: &Vec<String>) -> (r: bool)
    ensures
        r == a.deep_view().is_prefix_of(b.deep_view()),
{
    if a.len() > b.len() {
        proof {
            assert(!a.deep_view().is_prefix_of(b.deep_view()));
        }
        return false;
    }
    let mut i: usize = 0;
    while i < a.len()
        invariant
            i <= a@.len() <= b@.len(),
            a.deep_view().len() == a@.len(),
            b.deep_view().len() == b@.len(),
            forall|k: int| 0 <= k < i ==> a.deep_view()[k] == b.deep_view()[k],
        decreases a@.len() - i,
    {
        if !(a[i] == b[i]) {
            proof {
                assert(a.deep_view()[i as int] != b.deep_view()[i as int]);
                assert(!a.deep_view().is_prefix_of(b.deep_view()));
            }
            return false;
        }
        i = i + 1;
    }
    proof {
        assert(a.deep_view() =~= b.deep_view().subrange(0, a.deep_view().len() as int));
    }
    true
}

proof fn lemma_join_comps_push(cs: Seq<Seq<char>>, c: Seq<char>)
    ensures
        join_comps(cs.push(c)) == if cs.len() == 0 {
            c
        } else {
            join_comps(cs) + seq!['/'] + c
        },
    decreases cs.len(),
{
    let s = cs.push(c);
    if cs.len() == 0 {
        assert(s.len() == 1);
        assert(s[0] == c);
    } else if cs.len() == 1 {
        assert(s.drop_first() =~= seq![c]);
        assert(s[0] == cs[0]);
        assert(join_comps(seq![c]) == c);
        assert(join_comps(cs) == cs[0]);
    } else {
        assert(s.drop_first() =~= cs.drop_first().push(c));
        assert(s[0] == cs[0]);
        lemma_join_comps_push(cs.drop_first(), c);
        assert(join_comps(s) =~= join_comps(cs) + seq!['/'] + c);
    }
}

/// Returns a relative, normalized path string joined by forward slashes:
/// `path` with `base` stripped when it lies under `base`, `.` when nothing
/// remains, and a leading `/` when `path` is absolute but not under `base`.
pub fn normalize_path(base: &str, path: &str) -> (r: String)
    ensures
        r@ == spec_normalize_path(base@, path@),
{
    proof {
        reveal_strlit(".");
        reveal_strlit("/");
    }
    let (broot, bcomps) = components_of(base);
    let (proot, pcomps) = components_of(path);
    let stripped: bool = (bcomps.len() == 0 && !broot) || (broot == proot && comps_prefix(
        &bcomps,
        &pcomps,
    ));
    let rel_start: usize = if stripped {
        bcomps.len()
    } else {
        0
    };
    let ghost rel = if stripped {
        comps_of(path@).skip(comps_of(base@).len() as int)
    } else {
        comps_of(path@)
    };
    proof {
        if stripped {
            assert(bcomps.deep_view().is_prefix_of(pcomps.deep_view()) || bcomps.deep_view().len()
                == 0);
        }
        assert(rel =~= pcomps.deep_view().skip(rel_start as int));
    }
    let mut out: String = String::new();
    if pcomps.len() == rel_start {
        proof {
            assert(rel.len() == 0);
        }
        out.append(".");
        return out;
    }
    if proot && !stripped {
        out.append("/");
    }
    let ghost head = out@;
    proof {
        assert(rel.subrange(0, 0).len() == 0);
        assert(join_comps(rel.subrange(0, 0)) =~= Seq::<char>::empty());
        assert(out@ =~= head + join_comps(rel.subrange(0, 0)));
    }
    let mut k: usize = rel_start;
    while k < pcomps.len()
        invariant
            rel_start <= k <= pcomps@.len(),
            pcomps.deep_view().len() == pcomps@.len(),
            rel == pcomps.deep_view().skip(rel_start as int),
            out@ == head + join_comps(rel.subrange(0, k - rel_start)),
        decreases pcomps@.len() - k,
    {
        proof {
            reveal_strlit("/");
        }
        if k > rel_start {
            out.append("/");
        }
        out.append(pcomps[k].as_str());
        proof {
            assert(pcomps.deep_view()[k as int] == pcomps@[k as int]@);
            assert(rel[k - rel_start] == pcomps@[k as int]@);
            lemma_join_comps_push(rel.subrange(0, k - rel_start), rel[k - rel_start]);
            assert(rel.subrange(0, k - rel_start + 1) =~= rel.subrange(0, k - rel_start).push(
                rel[k - rel_start],
            ));
            if k > rel_start {
                assert(rel.subrange(0, k - rel_start).len() > 0);
                assert(out@ =~= head + join_comps(rel.subrange(0, k - rel_start + 1)));
            } else {
                assert(rel.subrange(0, k - rel_start).len() == 0);
                assert(out@ =~= head + join_comps(rel.subrange(0, k - rel_start + 1)));
            }
        }
        k = k + 1;
    }
    proof {
        assert(rel.subrange(0, rel.len() as int) =~= rel);
        assert(out@ =~= spec_normalize_path(base@, path@));
    }
    out
}

/// Whether the path is taken as absolute: on this platform, whether it
/// begins at the root.
pub fn is_effectively_absolute(path: &str) -> (r: bool)
    ensures
        r == root_of(path@),
{
    proof {
        reveal_strlit("/");
    }
    !path.is_empty() && path.get_char(0) == '/'
}

/// A rooted or relative path rendered from its components.
pub open spec fn render_path(root: bool, cs: Seq<Seq<char>>) -> Seq<char> {
    if root {
        seq!['/'] + join_comps(cs)
    } else {
        join_comps(cs)
    }
}

/// The parent of a path: the path without its last normalized component;
/// nothing is left above a bare root or an empty path.
pub open spec fn spec_parent(s: Seq<char>) -> Option<Seq<char>> {
    let cs = comps_of(s);
    if cs.len() == 0 {
        None
    } else {
        Some(render_path(root_of(s), cs.drop_last()))
    }
}

/// The parent directory of `path`, or `None` when nothing is above it.
pub fn parent_path(path: &str) -> (r: Option<String>)
    ensures
        ({
            match r {
                Some(p) => spec_parent(path@) == Some(p@),
                None => spec_parent(path@) is None,
            }
        }),
{
    proof {
        reveal_strlit("/");
    }
    let (root, comps) = components_of(path);
    if comps.len() == 0 {
        return None;
    }
    let ghost cs = comps_of(path@);
    let upto: usize = comps.len() - 1;
    let mut out: String = String::new();
    if root {
        out.append("/");
    }
    let ghost head = out@;
    proof {
        assert(cs.drop_last() =~= comps.deep_view().subrange(0, upto as int));
        assert(join_comps(cs.drop_last().subrange(0, 0)) =~= Seq::<char>::empty());
        assert(out@ =~= head + join_comps(cs.drop_last().subrange(0, 0)));
    }
    let mut k: usize = 0;
    while k < upto
        invariant
            k <= upto < comps@.len(),
            comps.deep_view().len() == comps@.len(),
            cs == comps_of(path@),
            cs.drop_last() == comps.deep_view().subrange(0, upto as int),
            out@ == head + join_comps(cs.drop_last().subrange(0, k as int)),
        decreases upto - k,
    {
        proof {
            reveal_strlit("/");
        }
        if k > 0 {
            out.append("/");
        }
        out.append(comps[k].as_str());
        proof {
            let part = cs.drop_last();
            assert(comps.deep_view()[k as int] == comps@[k as int]@);
            assert(part[k as int] == comps@[k as int]@);
            lemma_join_comps_push(part.subrange(0, k as int), part[k as int]);
            assert(part.subrange(0, k + 1) =~= part.subrange(0, k as int).push(part[k as int]));
            if k > 0 {
                assert(part.subrange(0, k as int).len() > 0);
                assert(out@ =~= head + join_comps(part.subrange(0, k + 1)));
            } else {
                assert(part.subrange(0, k as int).len() == 0);
                assert(out@ =~= head + join_comps(part.subrange(0, k + 1)));
            }
        }
        k = k + 1;
    }
    proof {
        assert(cs.drop_last().subrange(0, upto as int) =~= cs.drop_last());
        assert(out@ =~= render_path(root_of(path@), cs.drop_last()));
    }
    Some(out)
}

/// The path of the configuration file `yek.toml` inside `dir`.
pub open spec fn spec_config_path_in(dir: Seq<char>) -> Seq<char> {
    if dir.len() == 0 {
        "yek.toml"@
    } else if dir.last() == '/' {
        dir + "yek.toml"@
    } else {
        dir + seq!['/'] + "yek.toml"@
    }
}

/// Joins `dir` with the configuration file name `yek.toml`, adding a
/// separator only where one is needed.
pub fn config_path_in(dir: &str) -> (r: String)
    ensures
        r@ == spec_config_path_in(dir@),
{
    proof {
        reveal_strlit("/");
    }
    let n: usize = dir.unicode_len();
    let mut out: String = String::new();
    out.append(dir);
    if n == 0 {
        out.append("yek.toml");
        return out;
    }
    if !(dir.get_char(n - 1) == '/') {
        out.append("/");
        proof {
            assert(out@ =~= dir@ + seq!['/']);
        }
    }
    out.append("yek.toml");
    proof {
        if dir@.last() != '/' {
            assert(out@ =~= dir@ + seq!['/'] + "yek.toml"@);
        }
    }
    out
}

} // verus!
