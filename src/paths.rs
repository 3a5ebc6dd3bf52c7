//! Relative identities: paths as sequences of components, and the names a
//! skill file takes in a flat destination.

use vstd::prelude::*;
use crate::transform::chars_of;

verus! {

broadcast use vstd::string::group_string_axioms;

/// A path given as its components.
pub open spec fn path_view(p: Seq<String>) -> Seq<Seq<char>> {
    p.map_values(|s: String| s@)
}

/// `a` is `b` or an ancestor of it.
pub open spec fn is_prefix(a: Seq<Seq<char>>, b: Seq<Seq<char>>) -> bool {
    a.len() <= b.len() && b.take(a.len() as int) == a
}

/// The pieces of `s` between `/` characters.
pub open spec fn segments(s: Seq<char>) -> Seq<Seq<char>>
    decreases s.len(),
{
    if s.len() == 0 {
        seq![seq![]]
    } else {
        let p = segments(s.drop_last());
        if s.last() == '/' {
            p.push(seq![])
        } else {
            p.update(p.len() - 1, p.last().push(s.last()))
        }
    }
}

/// A segment that names something: neither empty nor `.`.
pub open spec fn is_named(c: Seq<char>) -> bool {
    c.len() > 0 && c != seq!['.']
}

pub open spec fn keep_named(cs: Seq<Seq<char>>) -> Seq<Seq<char>>
    decreases cs.len(),
{
    if cs.len() == 0 {
        seq![]
    } else if is_named(cs.last()) {
        keep_named(cs.drop_last()).push(cs.last())
    } else {
        keep_named(cs.drop_last())
    }
}

/// The components of a path written with `/`: repeated separators and `.`
/// segments name nothing.
pub open spec fn components(s: Seq<char>) -> Seq<Seq<char>> {
    keep_named(segments(s))
}

pub proof fn lemma_segments_nonempty(s: Seq<char>)
    ensures
        segments(s).len() >= 1,
    decreases s.len(),
{
    if s.len() > 0 {
        lemma_segments_nonempty(s.drop_last());
    }
}

fn push_segment(out: &mut Vec<String>, s: &str, cs: &Vec<char>, b: usize, e: usize)
    requires
        cs@ == s@,
        b <= e <= cs.len(),
    ensures
        path_view(final(out)@) == if is_named(cs@.subrange(b as int, e as int)) {
            path_view(old(out)@).push(cs@.subrange(b as int, e as int))
        } else {
            path_view(old(out)@)
        },
{
    let ghost seg = cs@.subrange(b as int, e as int);
    let dot = e - b == 1 && cs[b] == '.';
    assert(dot == (seg == seq!['.'])) by {
        if seg == seq!['.'] {
            assert(seq!['.'].len() == 1 && seq!['.'][0] == '.');
            assert(seg.len() == 1 && seg[0] == cs@[b as int]);
        }
        if dot {
            assert(seg =~= seq!['.']);
        }
    }
    if e > b && !dot {
        out.push(String::from_str(s.substring_char(b, e)));
        assert(path_view(out@) =~= path_view(old(out)@).push(seg));
    }
}

/// Splits a `/`-separated path into its components.
pub fn split_path(s: &str) -> (r: Vec<String>)
    ensures
        path_view(r@) == components(s@),
{
    let cs = chars_of(s);
    let n = cs.len();
    let mut out: Vec<String> = Vec::new();
    let mut start: usize = 0;
    let mut k: usize = 0;
    assert(cs@.take(0) =~= Seq::<char>::empty());
    assert(cs@.subrange(0, 0) =~= Seq::<char>::empty());
    assert(path_view(out@) =~= Seq::<Seq<char>>::empty());
    while k < n
        invariant
            n == cs.len(),
            cs@ == s@,
            start <= k <= n,
            segments(cs@.take(k as int)).len() >= 1,
            path_view(out@) == keep_named(segments(cs@.take(k as int)).drop_last()),
            segments(cs@.take(k as int)).last() == cs@.subrange(start as int, k as int),
        decreases n - k,
    {
        let c = cs[k];
        let ghost old_p = segments(cs@.take(k as int));
        assert(cs@.take(k + 1).drop_last() =~= cs@.take(k as int));
        if c == '/' {
            push_segment(&mut out, s, &cs, start, k);
            proof {
                let np = segments(cs@.take(k + 1));
                assert(np == old_p.push(seq![]));
                assert(np.drop_last() =~= old_p);
                assert(old_p =~= old_p.drop_last().push(old_p.last()));
            }
            start = k + 1;
            assert(cs@.subrange(start as int, k + 1) =~= Seq::<char>::empty());
        } else {
            proof {
                let np = segments(cs@.take(k + 1));
                assert(np.drop_last() =~= old_p.drop_last());
            }
            assert(cs@.subrange(start as int, k + 1) =~= cs@.subrange(start as int, k as int).push(
                c,
            ));
        }
        k = k + 1;
    }
    assert(cs@.take(n as int) =~= cs@);
    push_segment(&mut out, s, &cs, start, n);
    proof {
        let p = segments(cs@);
        assert(p =~= p.drop_last().push(p.last()));
    }
    out
}

/// Whether two paths have the same components.
pub fn same_path(a: &Vec<String>, b: &Vec<String>) -> (r: bool)
    ensures
        r == (path_view(a@) == path_view(b@)),
{
    if a.len() != b.len() {
        assert(path_view(a@).len() != path_view(b@).len());
        return false;
    }
    let mut i: usize = 0;
    while i < a.len()
        invariant
            i <= a.len() == b.len(),
            forall|j: int| 0 <= j < i ==> a@[j]@ == b@[j]@,
        decreases a.len() - i,
    {
        if a[i] != b[i] {
            assert(path_view(a@)[i as int] != path_view(b@)[i as int]);
            return false;
        }
        i = i + 1;
    }
    assert(path_view(a@) =~= path_view(b@));
    true
}

/// The path of `p` below `root`, if `p` is `root` or lies under it.
pub fn relative_to(root: &Vec<String>, p: &Vec<String>) -> (r: Option<Vec<String>>)
    ensures
        r is Some <==> is_prefix(path_view(root@), path_view(p@)),
        r matches Some(rel) ==> path_view(rel@) == path_view(p@).skip(root.len() as int),
{
    if root.len() > p.len() {
        return None;
    }
    let mut i: usize = 0;
    while i < root.len()
        invariant
            i <= root.len() <= p.len(),
            forall|j: int| 0 <= j < i ==> root@[j]@ == p@[j]@,
        decreases root.len() - i,
    {
        if root[i] != p[i] {
            assert(path_view(p@).take(root.len() as int)[i as int] != path_view(root@)[i as int]);
            return None;
        }
        i = i + 1;
    }
    assert(path_view(p@).take(root.len() as int) =~= path_view(root@));
    let mut rel: Vec<String> = Vec::new();
    let mut k: usize = root.len();
    while k < p.len()
        invariant
            root.len() <= k <= p.len(),
            rel@ == p@.subrange(root.len() as int, k as int),
        decreases p.len() - k,
    {
        rel.push(p[k].clone());
        assert(rel@ =~= p@.subrange(root.len() as int, k + 1));
        k = k + 1;
    }
    assert(path_view(rel@) =~= path_view(p@).skip(root.len() as int));
    Some(rel)
}

/// A copy of `p`.
pub fn copy_path(p: &Vec<String>) -> (r: Vec<String>)
    ensures
        path_view(r@) == path_view(p@),
{
    let mut out: Vec<String> = Vec::new();
    let mut i: usize = 0;
    while i < p.len()
        invariant
            i <= p.len(),
            out@ == p@.take(i as int),
        decreases p.len() - i,
    {
        out.push(p[i].clone());
        assert(out@ =~= p@.take(i + 1));
        i = i + 1;
    }
    assert(out@ =~= p@);
    out
}

/// `p` followed by the components of `q`.
pub fn join_path(p: &Vec<String>, q: &Vec<String>) -> (r: Vec<String>)
    ensures
        path_view(r@) == path_view(p@) + path_view(q@),
{
    let mut out: Vec<String> = Vec::new();
    let mut i: usize = 0;
    while i < p.len()
        invariant
            i <= p.len(),
            out@ == p@.take(i as int),
        decreases p.len() - i,
    {
        out.push(p[i].clone());
        assert(out@ =~= p@.take(i + 1));
        i = i + 1;
    }
    let mut j: usize = 0;
    while j < q.len()
        invariant
            i == p.len(),
            j <= q.len(),
            out@ == p@ + q@.take(j as int),
        decreases q.len() - j,
    {
        out.push(q[j].clone());
        assert(out@ =~= p@ + q@.take(j + 1));
        j = j + 1;
    }
    assert(out@ =~= p@ + q@);
    assert(path_view(out@) =~= path_view(p@) + path_view(q@));
    out
}

pub open spec fn skill_file_name() -> Seq<char> {
    "SKILL.md"@
}

pub open spec fn toml_extension() -> Seq<char> {
    ".toml"@
}

/// The source files a flat destination takes: those named exactly `SKILL.md`.
pub open spec fn is_skill_file(rel: Seq<Seq<char>>) -> bool {
    rel.len() > 0 && rel.last() == skill_file_name()
}

/// The name of the skill a file belongs to: the name of its parent
/// directory, or `skill` where the path has no parent directory.
pub open spec fn skill_name_of(rel: Seq<Seq<char>>) -> Seq<char> {
    if rel.len() >= 2 {
        rel[rel.len() - 2]
    } else {
        "skill"@
    }
}

/// Where a skill file lands in a flat destination: `<skill>.toml` at its top.
pub open spec fn flat_path(rel: Seq<Seq<char>>) -> Seq<Seq<char>> {
    seq![skill_name_of(rel) + toml_extension()]
}

/// The stem of a `.toml` file name; a name that is only `.toml` has none.
pub open spec fn toml_stem(name: Seq<char>) -> Option<Seq<char>> {
    if name.len() > 5 && name.skip(name.len() - 5) == toml_extension() {
        Some(name.take(name.len() - 5))
    } else {
        None
    }
}

/// The source file whose command file is `<stem>.toml`.
pub open spec fn skill_source_of(stem: Seq<char>) -> Seq<Seq<char>> {
    seq![stem, skill_file_name()]
}

pub fn is_skill_path(rel: &Vec<String>) -> (r: bool)
    ensures
        r == is_skill_file(path_view(rel@)),
{
    if rel.len() == 0 {
        return false;
    }
    let name = String::from_str("SKILL.md");
    rel[rel.len() - 1] == name
}

/// The name of the command file that `rel` becomes in a flat destination.
pub fn flat_name(rel: &Vec<String>) -> (r: String)
    ensures
        seq![r@] == flat_path(path_view(rel@)),
{
    let mut name = if rel.len() >= 2 {
        rel[rel.len() - 2].clone()
    } else {
        String::from_str("skill")
    };
    name.append(".toml");
    name
}

/// The stem of a `.toml` file name.
pub fn stem_of_toml(name: &String) -> (r: Option<String>)
    ensures
        opt_str_view(r) == toml_stem(name@),
{
    let n = name.as_str().unicode_len();
    proof {
        reveal_strlit(".toml");
    }
    if n <= 5 {
        return None;
    }
    let tail = name.as_str().substring_char(n - 5, n);
    let ext = String::from_str(".toml");
    let tail_s = String::from_str(tail);
    assert(name@.skip(name@.len() - 5) =~= tail@);
    if tail_s == ext {
        let stem = name.as_str().substring_char(0, n - 5);
        assert(name@.take(name@.len() - 5) =~= stem@);
        Some(String::from_str(stem))
    } else {
        None
    }
}

pub open spec fn opt_str_view(o: Option<String>) -> Option<Seq<char>> {
    match o {
        Some(s) => Some(s@),
        None => None,
    }
}

} // verus!
