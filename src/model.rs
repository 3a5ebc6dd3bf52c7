//! A model of destination trees and of what a plan does to them, and the
//! laws that a full sync obeys in it.
//!
//! A tree maps each path below a destination's base to a directory or to a
//! file with its text. Destination `i` sees the steps of a plan addressed to
//! it, in order.

use vstd::prelude::*;
use crate::destination::{Destination, DestinationType};
use crate::paths::{flat_path, is_prefix, is_skill_file, skill_source_of, toml_stem};
use crate::sync::{
    dest_sweep_steps, dest_write_steps, file_write_steps, is_orphan, rendered, source_has,
    sweep_steps, walk_steps, EntryView, Step,
};

verus! {

/// What stands at a path of a destination tree.
pub enum Node {
    Dir,
    File(Seq<char>),
}

/// A destination tree: each path below the base, with what stands there.
pub type Tree = Map<Seq<Seq<char>>, Node>;

/// A step of a plan as the destination it is addressed to sees it.
pub enum TreeOp {
    Write(Seq<Seq<char>>, Seq<char>),
    Remove(Seq<Seq<char>>),
}

/// Writing `c` at `p`: the directories above `p` are created where missing.
pub open spec fn write_tree(t: Tree, p: Seq<Seq<char>>, c: Seq<char>) -> Tree {
    Map::new(
        |k: Seq<Seq<char>>| t.contains_key(k) || k == p || (0 < k.len() < p.len() && is_prefix(k, p)),
        |k: Seq<Seq<char>>|
            if k == p {
                Node::File(c)
            } else if t.contains_key(k) {
                t[k]
            } else {
                Node::Dir
            },
    )
}

/// Removing `p` and everything under it.
pub open spec fn remove_tree(t: Tree, p: Seq<Seq<char>>) -> Tree {
    Map::new(|k: Seq<Seq<char>>| t.contains_key(k) && !is_prefix(p, k), |k: Seq<Seq<char>>| t[k])
}

pub open spec fn apply_op(t: Tree, op: TreeOp) -> Tree {
    match op {
        TreeOp::Write(p, c) => write_tree(t, p, c),
        TreeOp::Remove(p) => remove_tree(t, p),
    }
}

pub open spec fn apply_ops(t: Tree, ops: Seq<TreeOp>) -> Tree
    decreases ops.len(),
{
    if ops.len() == 0 {
        t
    } else {
        apply_op(apply_ops(t, ops.drop_last()), ops.last())
    }
}

/// What a step asks of destination `i`, if it is addressed to it.
pub open spec fn op_of(st: Step, i: nat) -> Option<TreeOp> {
    match st {
        Step::Write(d, p, c) => if d == i {
            Some(TreeOp::Write(p, c))
        } else {
            None
        },
        Step::Remove(d, p) => if d == i {
            Some(TreeOp::Remove(p))
        } else {
            None
        },
    }
}

/// The steps of a plan addressed to destination `i`, in order.
pub open spec fn ops_for(steps: Seq<Step>, i: nat) -> Seq<TreeOp>
    decreases steps.len(),
{
    if steps.len() == 0 {
        seq![]
    } else {
        ops_for(steps.drop_last(), i) + match op_of(steps.last(), i) {
            Some(op) => seq![op],
            None => seq![],
        }
    }
}

/// Every directory above an entry of the tree is an entry too.
pub open spec fn is_closed(t: Tree) -> bool {
    forall|k: Seq<Seq<char>>, m: int|
        #![trigger t.contains_key(k), k.take(m)]
        t.contains_key(k) && 1 <= m < k.len() ==> t.contains_key(k.take(m))
}

/// What a full walk of a source root can find: no path twice, and every
/// directory above an entry found too.
pub open spec fn source_well_formed(es: Seq<EntryView>) -> bool {
    &&& forall|a: int, b: int|
        0 <= a < es.len() && 0 <= b < es.len() && (#[trigger] es[a]).0 == (#[trigger] es[b]).0
            ==> a == b
    &&& forall|j: int, m: int|
        #![trigger es[j], es[j].0.take(m)]
        0 <= j < es.len() && 1 <= m < es[j].0.len() ==> source_has(es, es[j].0.take(m))
}

/// Every entry of the tree is among the listed paths.
pub open spec fn lists(listing: Seq<Seq<Seq<char>>>, t: Tree) -> bool {
    forall|k: Seq<Seq<char>>| #[trigger] t.contains_key(k) ==> exists|y: int| 0 <= y < listing.len() && listing[y] == k
}

/// The writes of a full sync of a source walk `es`, as destination `i` sees them.
pub open spec fn sync_writes(ds: Seq<Destination>, es: Seq<EntryView>, i: nat) -> Seq<TreeOp> {
    ops_for(walk_steps(ds, seq![], es, es.len() as int), i)
}

/// The removals of the sweep over `listings`, as destination `i` sees them.
pub open spec fn sweep_removals(
    ds: Seq<Destination>,
    es: Seq<EntryView>,
    listings: Seq<Seq<Seq<Seq<char>>>>,
    i: nat,
) -> Seq<TreeOp> {
    ops_for(sweep_steps(ds, es, listings, ds.len() as int), i)
}

/// Where a write of a source file `rel` with text `content` lands in a
/// destination of kind `kind`, and with what.
pub open spec fn write_of(
    kind: DestinationType,
    rel: Seq<Seq<char>>,
    content: Seq<char>,
    p: Seq<Seq<char>>,
    c: Seq<char>,
) -> bool {
    match kind {
        DestinationType::ClaudeStyle => p == rel && c == content,
        DestinationType::GeminiToml => is_skill_file(rel) && p == flat_path(rel) && c == rendered(
            content,
        ),
    }
}

/// A step that a walk of `base` may ask for: a write, on account of a file it found.
pub open spec fn write_from(ds: Seq<Destination>, base: Seq<Seq<char>>, es: Seq<EntryView>, st: Step) -> bool {
    match st {
        Step::Write(d, p, c) => d < ds.len() && exists|j: int|
            0 <= j < es.len() && (#[trigger] es[j]).1 is Some && write_of(
                ds[d as int].dest_type,
                base + es[j].0,
                es[j].1->0,
                p,
                c,
            ),
        Step::Remove(_, _) => false,
    }
}

proof fn lemma_file_write_steps(ds: Seq<Destination>, k: int, rel: Seq<Seq<char>>, content: Seq<char>)
    requires
        0 <= k <= ds.len(),
    ensures
        forall|x: int|
            0 <= x < file_write_steps(ds, k, rel, content).len() ==> match #[trigger] file_write_steps(
                ds,
                k,
                rel,
                content,
            )[x] {
                Step::Write(d, p, c) => d < k && write_of(ds[d as int].dest_type, rel, content, p, c),
                Step::Remove(_, _) => false,
            },
    decreases k,
{
    if k > 0 {
        lemma_file_write_steps(ds, k - 1, rel, content);
        let a = file_write_steps(ds, k - 1, rel, content);
        let b = dest_write_steps(ds[k - 1].dest_type, (k - 1) as nat, rel, content);
        assert forall|x: int| 0 <= x < (a + b).len() implies match #[trigger] (a + b)[x] {
            Step::Write(d, p, c) => d < k && write_of(ds[d as int].dest_type, rel, content, p, c),
            Step::Remove(_, _) => false,
        } by {
            if x < a.len() {
                assert((a + b)[x] == a[x]);
            } else {
                assert((a + b)[x] == b[x - a.len()]);
            }
        }
    }
}

/// Every step that pushing a walk asks for is a write on account of a file
/// that the walk found; in a flat destination, of a file named `SKILL.md`.
pub proof fn law_walk_writes_only_found_files(
    ds: Seq<Destination>,
    base: Seq<Seq<char>>,
    es: Seq<EntryView>,
)
    ensures
        forall|x: int|
            0 <= x < walk_steps(ds, base, es, es.len() as int).len() ==> write_from(
                ds,
                base,
                es,
                #[trigger] walk_steps(ds, base, es, es.len() as int)[x],
            ),
{
    lemma_walk_writes(ds, base, es, es.len() as int);
}

proof fn lemma_walk_writes(ds: Seq<Destination>, base: Seq<Seq<char>>, es: Seq<EntryView>, m: int)
    requires
        0 <= m <= es.len(),
    ensures
        forall|x: int|
            0 <= x < walk_steps(ds, base, es, m).len() ==> write_from(
                ds,
                base,
                es,
                #[trigger] walk_steps(ds, base, es, m)[x],
            ),
    decreases m,
{
    if m > 0 {
        lemma_walk_writes(ds, base, es, m - 1);
        let a = walk_steps(ds, base, es, m - 1);
        let b = match es[m - 1].1 {
            Some(c) => file_write_steps(ds, ds.len() as int, base + es[m - 1].0, c),
            None => seq![],
        };
        assert(walk_steps(ds, base, es, m) == a + b);
        if es[m - 1].1 is Some {
            lemma_file_write_steps(ds, ds.len() as int, base + es[m - 1].0, es[m - 1].1->0);
        }
        assert forall|x: int| 0 <= x < (a + b).len() implies write_from(ds, base, es, #[trigger] (a + b)[x]) by {
            if x < a.len() {
                assert((a + b)[x] == a[x]);
            } else {
                assert((a + b)[x] == b[x - a.len()]);
                assert(es[m - 1].1 is Some);
            }
        }
    }
}

proof fn lemma_file_write_member(
    ds: Seq<Destination>,
    k: int,
    d: int,
    rel: Seq<Seq<char>>,
    content: Seq<char>,
)
    requires
        0 <= d < k <= ds.len(),
        ds[d].dest_type == DestinationType::ClaudeStyle,
    ensures
        exists|x: int|
            0 <= x < file_write_steps(ds, k, rel, content).len() && #[trigger] file_write_steps(
                ds,
                k,
                rel,
                content,
            )[x] == Step::Write(d as nat, rel, content),
    decreases k,
{
    let a = file_write_steps(ds, k - 1, rel, content);
    let b = dest_write_steps(ds[k - 1].dest_type, (k - 1) as nat, rel, content);
    assert(file_write_steps(ds, k, rel, content) == a + b);
    if d == k - 1 {
        assert((a + b)[a.len() as int] == Step::Write(d as nat, rel, content));
    } else {
        lemma_file_write_member(ds, k - 1, d, rel, content);
        let x = choose|x: int| 0 <= x < a.len() && #[trigger] a[x] == Step::Write(d as nat, rel, content);
        assert((a + b)[x] == a[x]);
    }
}

proof fn lemma_walk_member(
    ds: Seq<Destination>,
    base: Seq<Seq<char>>,
    es: Seq<EntryView>,
    m: int,
    j: int,
    d: int,
)
    requires
        0 <= j < m <= es.len(),
        es[j].1 is Some,
        0 <= d < ds.len(),
        ds[d].dest_type == DestinationType::ClaudeStyle,
    ensures
        exists|x: int|
            0 <= x < walk_steps(ds, base, es, m).len() && #[trigger] walk_steps(ds, base, es, m)[x]
                == Step::Write(d as nat, base + es[j].0, es[j].1->0),
    decreases m,
{
    let a = walk_steps(ds, base, es, m - 1);
    let b = match es[m - 1].1 {
        Some(c) => file_write_steps(ds, ds.len() as int, base + es[m - 1].0, c),
        None => seq![],
    };
    let st = Step::Write(d as nat, base + es[j].0, es[j].1->0);
    assert(walk_steps(ds, base, es, m) == a + b);
    if j == m - 1 {
        lemma_file_write_member(ds, ds.len() as int, d, base + es[j].0, es[j].1->0);
        let x = choose|x: int| 0 <= x < b.len() && #[trigger] b[x] == st;
        assert((a + b)[a.len() + x] == b[x]);
    } else {
        lemma_walk_member(ds, base, es, m - 1, j, d);
        let x = choose|x: int| 0 <= x < a.len() && #[trigger] a[x] == st;
        assert((a + b)[x] == a[x]);
    }
}

/// Each step of `ops_for(steps, i)` is what some step of `steps` asks of `i`,
/// and each step of `steps` addressed to `i` appears there.
proof fn lemma_ops_for(steps: Seq<Step>, i: nat)
    ensures
        forall|y: int|
            0 <= y < ops_for(steps, i).len() ==> exists|x: int|
                0 <= x < steps.len() && op_of(#[trigger] steps[x], i) == Some(
                    #[trigger] ops_for(steps, i)[y],
                ),
        forall|x: int|
            0 <= x < steps.len() && #[trigger] op_of(steps[x], i) is Some ==> exists|y: int|
                0 <= y < ops_for(steps, i).len() && ops_for(steps, i)[y] == op_of(steps[x], i)->0,
    decreases steps.len(),
{
    if steps.len() > 0 {
        let pre = steps.drop_last();
        lemma_ops_for(pre, i);
        let a = ops_for(pre, i);
        let b: Seq<TreeOp> = match op_of(steps.last(), i) {
            Some(op) => seq![op],
            None => seq![],
        };
        assert(ops_for(steps, i) == a + b);
        assert forall|y: int| 0 <= y < (a + b).len() implies exists|x: int|
            0 <= x < steps.len() && op_of(#[trigger] steps[x], i) == Some(#[trigger] (a + b)[y]) by {
            if y < a.len() {
                assert((a + b)[y] == a[y]);
                let x = choose|x: int| 0 <= x < pre.len() && op_of(#[trigger] pre[x], i) == Some(a[y]);
                assert(steps[x] == pre[x]);
            } else {
                assert(steps[steps.len() - 1] == steps.last());
            }
        }
        assert forall|x: int| 0 <= x < steps.len() && #[trigger] op_of(steps[x], i) is Some implies exists|y: int|
            0 <= y < (a + b).len() && (a + b)[y] == op_of(steps[x], i)->0 by {
            if x < pre.len() {
                assert(steps[x] == pre[x]);
                let y = choose|y: int| 0 <= y < a.len() && a[y] == op_of(pre[x], i)->0;
                assert((a + b)[y] == a[y]);
            } else {
                assert((a + b)[a.len() as int] == b[0]);
            }
        }
    }
}

/// A file at `p` (already there, or written by one of `ops`) keeps its text
/// `c` when every write to `p` writes `c` and nothing above `p` is removed.
proof fn lemma_file_kept(t: Tree, ops: Seq<TreeOp>, p: Seq<Seq<char>>, c: Seq<char>)
    requires
        (t.contains_key(p) && t[p] == Node::File(c)) || exists|x: int|
            0 <= x < ops.len() && #[trigger] ops[x] == TreeOp::Write(p, c),
        forall|x: int|
            0 <= x < ops.len() ==> match #[trigger] ops[x] {
                TreeOp::Write(q, c2) => q == p ==> c2 == c,
                TreeOp::Remove(q) => !is_prefix(q, p),
            },
    ensures
        apply_ops(t, ops).contains_key(p),
        apply_ops(t, ops)[p] == Node::File(c),
    decreases ops.len(),
{
    if ops.len() > 0 {
        let pre = ops.drop_last();
        if ops.last() == TreeOp::Write(p, c) {
        } else {
            if !(t.contains_key(p) && t[p] == Node::File(c)) {
                let x = choose|x: int| 0 <= x < ops.len() && #[trigger] ops[x] == TreeOp::Write(p, c);
                assert(x < ops.len() - 1);
                assert(pre[x] == ops[x]);
            }
            assert forall|x: int| 0 <= x < pre.len() implies match #[trigger] pre[x] {
                TreeOp::Write(q, c2) => q == p ==> c2 == c,
                TreeOp::Remove(q) => !is_prefix(q, p),
            } by {
                assert(pre[x] == ops[x]);
            }
            lemma_file_kept(t, pre, p, c);
            let last = ops.last();
            assert(ops[ops.len() - 1] == last);
        }
    }
}

/// After a full sync, every file that the walk of the source found stands,
/// with the same text, at the same path in every mirror destination.
pub proof fn law_full_sync_mirrors_files(
    ds: Seq<Destination>,
    es: Seq<EntryView>,
    listings: Seq<Seq<Seq<Seq<char>>>>,
    t0: Tree,
    i: nat,
    j: int,
)
    requires
        i < ds.len(),
        ds[i as int].dest_type == DestinationType::ClaudeStyle,
        listings.len() == ds.len(),
        source_well_formed(es),
        0 <= j < es.len(),
        es[j].1 is Some,
    ensures
        full_sync(ds, es, listings, t0, i).contains_key(es[j].0),
        full_sync(ds, es, listings, t0, i)[es[j].0] == Node::File(es[j].1->0),
{
    let p = es[j].0;
    let c = es[j].1->0;
    let w = walk_steps(ds, seq![], es, es.len() as int);
    let wo = sync_writes(ds, es, i);
    assert(seq![] + p =~= p);
    lemma_walk_member(ds, seq![], es, es.len() as int, j, i as int);
    lemma_walk_writes(ds, seq![], es, es.len() as int);
    lemma_ops_for(w, i);
    let x = choose|x: int| 0 <= x < w.len() && #[trigger] w[x] == Step::Write(i, p, c);
    assert(op_of(w[x], i) is Some);
    assert forall|y: int| 0 <= y < wo.len() implies match #[trigger] wo[y] {
        TreeOp::Write(q, c2) => q == p ==> c2 == c,
        TreeOp::Remove(q) => !is_prefix(q, p),
    } by {
        let x2 = choose|x2: int| 0 <= x2 < w.len() && op_of(#[trigger] w[x2], i) == Some(wo[y]);
        assert(write_from(ds, seq![], es, w[x2]));
        if let Step::Write(d, q, c2) = w[x2] {
            let j2 = choose|j2: int| 0 <= j2 < es.len() && (#[trigger] es[j2]).1 is Some && write_of(
                ds[d as int].dest_type,
                seq![] + es[j2].0,
                es[j2].1->0,
                q,
                c2,
            );
            assert(seq![] + es[j2].0 =~= es[j2].0);
            if q == p {
                assert(es[j2].0 == es[j].0);
            }
        }
    }
    lemma_file_kept(t0, wo, p, c);
    let t1 = apply_ops(t0, wo);
    let r = sweep_steps(ds, es, listings, ds.len() as int);
    let ro = sweep_removals(ds, es, listings, i);
    lemma_sweep_removes_orphans(ds, es, listings, ds.len() as int);
    lemma_ops_for(r, i);
    assert forall|y: int| 0 <= y < ro.len() implies match #[trigger] ro[y] {
        TreeOp::Write(q, c2) => q == p ==> c2 == c,
        TreeOp::Remove(q) => !is_prefix(q, p),
    } by {
        let x2 = choose|x2: int| 0 <= x2 < r.len() && op_of(#[trigger] r[x2], i) == Some(ro[y]);
        if let Step::Remove(d, q) = r[x2] {
            assert(d == i);
            assert(is_orphan(ds[d as int].dest_type, es, q));
            if is_prefix(q, p) {
                assert(source_has(es, p));
                if q.len() < p.len() {
                    assert(p.take(q.len() as int) == q);
                    if q.len() > 0 {
                        assert(source_has(es, es[j].0.take(q.len() as int)));
                    }
                } else {
                    assert(q =~= p);
                }
            }
        }
    }
    lemma_file_kept(t1, ro, p, c);
}

/// Every step of a sweep removes an orphan of the destination it is addressed to.
proof fn lemma_sweep_removes_orphans(
    ds: Seq<Destination>,
    es: Seq<EntryView>,
    listings: Seq<Seq<Seq<Seq<char>>>>,
    k: int,
)
    requires
        0 <= k <= ds.len(),
        listings.len() == ds.len(),
    ensures
        forall|x: int|
            0 <= x < sweep_steps(ds, es, listings, k).len() ==> match #[trigger] sweep_steps(
                ds,
                es,
                listings,
                k,
            )[x] {
                Step::Remove(d, q) => d < k && is_orphan(ds[d as int].dest_type, es, q),
                Step::Write(_, _, _) => false,
            },
    decreases k,
{
    if k > 0 {
        lemma_sweep_removes_orphans(ds, es, listings, k - 1);
        let a = sweep_steps(ds, es, listings, k - 1);
        let l = listings[k - 1];
        let b = dest_sweep_steps(ds[k - 1].dest_type, (k - 1) as nat, es, l, l.len() as int);
        lemma_dest_sweep(ds[k - 1].dest_type, (k - 1) as nat, es, l, l.len() as int);
        assert(sweep_steps(ds, es, listings, k) == a + b);
        assert forall|x: int| 0 <= x < (a + b).len() implies match #[trigger] (a + b)[x] {
            Step::Remove(d, q) => d < k && is_orphan(ds[d as int].dest_type, es, q),
            Step::Write(_, _, _) => false,
        } by {
            if x < a.len() {
                assert((a + b)[x] == a[x]);
            } else {
                assert((a + b)[x] == b[x - a.len()]);
            }
        }
    }
}

proof fn lemma_dest_sweep(
    kind: DestinationType,
    i: nat,
    es: Seq<EntryView>,
    l: Seq<Seq<Seq<char>>>,
    m: int,
)
    requires
        0 <= m <= l.len(),
    ensures
        forall|x: int|
            0 <= x < dest_sweep_steps(kind, i, es, l, m).len() ==> match #[trigger] dest_sweep_steps(
                kind,
                i,
                es,
                l,
                m,
            )[x] {
                Step::Remove(d, q) => d == i && is_orphan(kind, es, q),
                Step::Write(_, _, _) => false,
            },
        forall|y: int|
            0 <= y < m && is_orphan(kind, es, #[trigger] l[y]) ==> exists|x: int|
                0 <= x < dest_sweep_steps(kind, i, es, l, m).len() && dest_sweep_steps(kind, i, es, l, m)[x]
                    == Step::Remove(i, l[y]),
    decreases m,
{
    if m > 0 {
        lemma_dest_sweep(kind, i, es, l, m - 1);
        let a = dest_sweep_steps(kind, i, es, l, m - 1);
        let b: Seq<Step> = if is_orphan(kind, es, l[m - 1]) {
            seq![Step::Remove(i, l[m - 1])]
        } else {
            seq![]
        };
        assert(dest_sweep_steps(kind, i, es, l, m) == a + b);
        assert forall|x: int| 0 <= x < (a + b).len() implies match #[trigger] (a + b)[x] {
            Step::Remove(d, q) => d == i && is_orphan(kind, es, q),
            Step::Write(_, _, _) => false,
        } by {
            if x < a.len() {
                assert((a + b)[x] == a[x]);
            } else {
                assert((a + b)[x] == b[x - a.len()]);
            }
        }
        assert forall|y: int| 0 <= y < m && is_orphan(kind, es, #[trigger] l[y]) implies exists|x: int|
            0 <= x < (a + b).len() && (a + b)[x] == Step::Remove(i, l[y]) by {
            if y < m - 1 {
                let x = choose|x: int| 0 <= x < a.len() && a[x] == Step::Remove(i, l[y]);
                assert((a + b)[x] == a[x]);
            } else {
                assert((a + b)[a.len() as int] == b[0]);
            }
        }
    }
}

proof fn lemma_op_keeps_closed(t: Tree, op: TreeOp)
    requires
        is_closed(t),
    ensures
        is_closed(apply_op(t, op)),
{
    let n = apply_op(t, op);
    match op {
        TreeOp::Write(p, c) => {
            assert forall|k: Seq<Seq<char>>, m: int|
                #![trigger n.contains_key(k), k.take(m)]
                n.contains_key(k) && 1 <= m < k.len() implies n.contains_key(k.take(m)) by {
                if t.contains_key(k) {
                    assert(t.contains_key(k.take(m)));
                } else if k == p {
                    assert(p.take(m) =~= k.take(m));
                } else {
                    assert(p.take(k.len() as int) == k);
                    assert(p.take(m) =~= k.take(m));
                }
            }
        },
        TreeOp::Remove(q) => {
            assert forall|k: Seq<Seq<char>>, m: int|
                #![trigger n.contains_key(k), k.take(m)]
                n.contains_key(k) && 1 <= m < k.len() implies n.contains_key(k.take(m)) by {
                assert(t.contains_key(k.take(m)));
                if is_prefix(q, k.take(m)) {
                    assert(k.take(q.len() as int) =~= k.take(m).take(q.len() as int));
                }
            }
        },
    }
}

proof fn lemma_ops_keep_closed(t: Tree, ops: Seq<TreeOp>)
    requires
        is_closed(t),
    ensures
        is_closed(apply_ops(t, ops)),
    decreases ops.len(),
{
    if ops.len() > 0 {
        lemma_ops_keep_closed(t, ops.drop_last());
        lemma_op_keeps_closed(apply_ops(t, ops.drop_last()), ops.last());
    }
}

/// Removals only take entries away, and take away all that lies under a removed path.
proof fn lemma_removals(t: Tree, ops: Seq<TreeOp>)
    requires
        forall|x: int| 0 <= x < ops.len() ==> (#[trigger] ops[x]) is Remove,
    ensures
        forall|k: Seq<Seq<char>>| #[trigger] apply_ops(t, ops).contains_key(k) ==> t.contains_key(k),
        forall|k: Seq<Seq<char>>, x: int|
            0 <= x < ops.len() && #[trigger] apply_ops(t, ops).contains_key(k) && #[trigger] ops[x] is Remove
                ==> !is_prefix(ops[x]->Remove_0, k),
        forall|k: Seq<Seq<char>>| #[trigger] apply_ops(t, ops).contains_key(k) ==> apply_ops(t, ops)[k] == t[k],
        forall|k: Seq<Seq<char>>|
            #![trigger apply_ops(t, ops).contains_key(k)]
            t.contains_key(k) && (forall|x: int| 0 <= x < ops.len() ==> !is_prefix(#[trigger] ops[x]->Remove_0, k))
                ==> apply_ops(t, ops).contains_key(k),
    decreases ops.len(),
{
    if ops.len() > 0 {
        let pre = ops.drop_last();
        assert forall|x: int| 0 <= x < pre.len() implies (#[trigger] pre[x]) is Remove by {
            assert(pre[x] == ops[x]);
        }
        lemma_removals(t, pre);
        assert(ops[ops.len() - 1] == ops.last());
        let u = apply_ops(t, pre);
        assert forall|k: Seq<Seq<char>>, x: int|
            0 <= x < ops.len() && #[trigger] apply_ops(t, ops).contains_key(k) && #[trigger] ops[x] is Remove
            implies !is_prefix(ops[x]->Remove_0, k) by {
            if x < pre.len() {
                assert(pre[x] == ops[x]);
                assert(u.contains_key(k));
            }
        }
        assert forall|k: Seq<Seq<char>>|
            #![trigger apply_ops(t, ops).contains_key(k)]
            t.contains_key(k) && (forall|x: int| 0 <= x < ops.len() ==> !is_prefix(#[trigger] ops[x]->Remove_0, k))
            implies apply_ops(t, ops).contains_key(k) by {
            assert forall|x: int| 0 <= x < pre.len() implies !is_prefix(#[trigger] pre[x]->Remove_0, k) by {
                assert(pre[x] == ops[x]);
            }
            assert(!is_prefix(ops[ops.len() - 1]->Remove_0, k));
        }
    }
}

/// In a closed tree, an entry with no source counterpart lies under (or is)
/// an entry that a sweep of a mirror removes.
proof fn lemma_top_orphan(es: Seq<EntryView>, t: Tree, k: Seq<Seq<char>>) -> (q: Seq<Seq<char>>)
    requires
        is_closed(t),
        t.contains_key(k),
        !source_has(es, k),
    ensures
        is_prefix(q, k),
        t.contains_key(q),
        is_orphan(DestinationType::ClaudeStyle, es, q),
    decreases k.len(),
{
    if forall|m: int| 1 <= m < k.len() ==> source_has(es, #[trigger] k.take(m)) {
        assert(k.take(k.len() as int) =~= k);
        k
    } else {
        let m = choose|m: int| 1 <= m < k.len() && !source_has(es, #[trigger] k.take(m));
        let k2 = k.take(m);
        assert(t.contains_key(k2));
        let q = lemma_top_orphan(es, t, k2);
        assert(k.take(q.len() as int) =~= k2.take(q.len() as int));
        q
    }
}

/// After a full sync, whose sweep was handed a listing of every entry that the
/// writes left, no destination holds an orphan: every entry of a mirror has
/// a source counterpart, and every top-level `<stem>.toml` of a flat
/// destination has a `<stem>/SKILL.md` in the source.
pub proof fn law_full_sync_leaves_no_orphans(
    ds: Seq<Destination>,
    es: Seq<EntryView>,
    listings: Seq<Seq<Seq<Seq<char>>>>,
    t0: Tree,
    i: nat,
    k: Seq<Seq<char>>,
)
    requires
        i < ds.len(),
        listings.len() == ds.len(),
        is_closed(t0),
        lists(listings[i as int], apply_ops(t0, sync_writes(ds, es, i))),
        full_sync(ds, es, listings, t0, i).contains_key(k),
    ensures
        ds[i as int].dest_type == DestinationType::ClaudeStyle ==> source_has(es, k),
        ds[i as int].dest_type == DestinationType::GeminiToml && k.len() == 1 && toml_stem(k[0]) is Some
            ==> source_has(es, skill_source_of(toml_stem(k[0])->0)),
{
    let t1 = apply_ops(t0, sync_writes(ds, es, i));
    let r = sweep_steps(ds, es, listings, ds.len() as int);
    let ro = sweep_removals(ds, es, listings, i);
    let kind = ds[i as int].dest_type;
    lemma_sweep_removes_orphans(ds, es, listings, ds.len() as int);
    lemma_ops_for(r, i);
    assert forall|y: int| 0 <= y < ro.len() implies (#[trigger] ro[y]) is Remove by {
        let x = choose|x: int| 0 <= x < r.len() && op_of(#[trigger] r[x], i) == Some(ro[y]);
        assert(r[x] is Remove);
    }
    lemma_removals(t1, ro);
    assert(t1.contains_key(k));
    // The sweep of destination `i` removes every listed orphan.
    let l = listings[i as int];
    assert forall|q: Seq<Seq<char>>| t1.contains_key(q) && is_orphan(kind, es, q) implies exists|y: int|
        0 <= y < ro.len() && ro[y] == TreeOp::Remove(q) by {
        let yl = choose|yl: int| 0 <= yl < l.len() && l[yl] == q;
        lemma_sweep_member(ds, es, listings, ds.len() as int, i as int, yl);
        let x = choose|x: int| 0 <= x < r.len() && r[x] == Step::Remove(i, q);
        assert(op_of(r[x], i) is Some);
    }
    if kind == DestinationType::ClaudeStyle && !source_has(es, k) {
        lemma_ops_keep_closed(t0, sync_writes(ds, es, i));
        let q = lemma_top_orphan(es, t1, k);
        let y = choose|y: int| 0 <= y < ro.len() && ro[y] == TreeOp::Remove(q);
        assert(!is_prefix(ro[y]->Remove_0, k));
    }
    if kind == DestinationType::GeminiToml && k.len() == 1 && toml_stem(k[0]) is Some && !source_has(
        es,
        skill_source_of(toml_stem(k[0])->0),
    ) {
        assert(is_orphan(kind, es, k));
        let y = choose|y: int| 0 <= y < ro.len() && ro[y] == TreeOp::Remove(k);
        assert(k.take(k.len() as int) =~= k);
        assert(!is_prefix(ro[y]->Remove_0, k));
    }
}

proof fn lemma_sweep_member(
    ds: Seq<Destination>,
    es: Seq<EntryView>,
    listings: Seq<Seq<Seq<Seq<char>>>>,
    k: int,
    d: int,
    y: int,
)
    requires
        0 <= d < k <= ds.len(),
        listings.len() == ds.len(),
        0 <= y < listings[d].len(),
        is_orphan(ds[d].dest_type, es, listings[d][y]),
    ensures
        exists|x: int|
            0 <= x < sweep_steps(ds, es, listings, k).len() && sweep_steps(ds, es, listings, k)[x]
                == Step::Remove(d as nat, listings[d][y]),
    decreases k,
{
    let a = sweep_steps(ds, es, listings, k - 1);
    let l = listings[k - 1];
    let b = dest_sweep_steps(ds[k - 1].dest_type, (k - 1) as nat, es, l, l.len() as int);
    assert(sweep_steps(ds, es, listings, k) == a + b);
    if d == k - 1 {
        lemma_dest_sweep(ds[k - 1].dest_type, (k - 1) as nat, es, l, l.len() as int);
        let x = choose|x: int| 0 <= x < b.len() && b[x] == Step::Remove(d as nat, l[y]);
        assert((a + b)[a.len() + x] == b[x]);
    } else {
        lemma_sweep_member(ds, es, listings, k - 1, d, y);
        let x = choose|x: int| 0 <= x < a.len() && a[x] == Step::Remove(d as nat, listings[d][y]);
        assert((a + b)[x] == a[x]);
    }
}

/// A destination tree after a full sync: the writes of the walk, then the
/// sweep over what `listings` found once they were done.
pub open spec fn full_sync(
    ds: Seq<Destination>,
    es: Seq<EntryView>,
    listings: Seq<Seq<Seq<Seq<char>>>>,
    t: Tree,
    i: nat,
) -> Tree {
    apply_ops(apply_ops(t, sync_writes(ds, es, i)), sweep_removals(ds, es, listings, i))
}

/// No path at or above `k` is an orphan for a destination of kind `kind`.
pub open spec fn survives(kind: DestinationType, es: Seq<EntryView>, k: Seq<Seq<char>>) -> bool {
    forall|m: int| 0 <= m <= k.len() ==> !is_orphan(kind, es, #[trigger] k.take(m))
}

pub open spec fn surviving(t: Tree, kind: DestinationType, es: Seq<EntryView>) -> Tree {
    Map::new(|k: Seq<Seq<char>>| t.contains_key(k) && survives(kind, es, k), |k: Seq<Seq<char>>| t[k])
}

/// The content last written at `k`, if any write of `ws` is to `k`.
pub open spec fn last_write(ws: Seq<TreeOp>, k: Seq<Seq<char>>) -> Option<Seq<char>>
    decreases ws.len(),
{
    if ws.len() == 0 {
        None
    } else {
        match ws.last() {
            TreeOp::Write(p, c) => if p == k {
                Some(c)
            } else {
                last_write(ws.drop_last(), k)
            },
            TreeOp::Remove(_) => last_write(ws.drop_last(), k),
        }
    }
}

/// Whether `k` is a directory above the path of some write of `ws`.
pub open spec fn covered(ws: Seq<TreeOp>, k: Seq<Seq<char>>) -> bool
    decreases ws.len(),
{
    if ws.len() == 0 {
        false
    } else {
        covered(ws.drop_last(), k) || match ws.last() {
            TreeOp::Write(p, c) => 0 < k.len() < p.len() && is_prefix(k, p),
            TreeOp::Remove(_) => false,
        }
    }
}

pub open spec fn writes_only(ws: Seq<TreeOp>) -> bool {
    forall|x: int| 0 <= x < ws.len() ==> (#[trigger] ws[x]) is Write
}

proof fn lemma_writes_closed_form(t: Tree, ws: Seq<TreeOp>, k: Seq<Seq<char>>)
    requires
        writes_only(ws),
    ensures
        apply_ops(t, ws).contains_key(k) <==> (t.contains_key(k) || last_write(ws, k) is Some
            || covered(ws, k)),
        apply_ops(t, ws).contains_key(k) ==> apply_ops(t, ws)[k] == match last_write(ws, k) {
            Some(c) => Node::File(c),
            None => if t.contains_key(k) {
                t[k]
            } else {
                Node::Dir
            },
        },
    decreases ws.len(),
{
    if ws.len() > 0 {
        let pre = ws.drop_last();
        assert forall|x: int| 0 <= x < pre.len() implies (#[trigger] pre[x]) is Write by {
            assert(pre[x] == ws[x]);
        }
        assert(ws[ws.len() - 1] == ws.last());
        lemma_writes_closed_form(t, pre, k);
    }
}

/// Writing the same sequence twice leaves what writing it once left.
proof fn lemma_writes_twice(t: Tree, ws: Seq<TreeOp>)
    requires
        writes_only(ws),
    ensures
        apply_ops(apply_ops(t, ws), ws) == apply_ops(t, ws),
{
    let u = apply_ops(t, ws);
    assert forall|k: Seq<Seq<char>>| #[trigger] apply_ops(u, ws).contains_key(k) <==> u.contains_key(k) by {
        lemma_writes_closed_form(t, ws, k);
        lemma_writes_closed_form(u, ws, k);
    }
    assert forall|k: Seq<Seq<char>>| #[trigger] apply_ops(u, ws).contains_key(k) implies apply_ops(u, ws)[k] == u[k] by {
        lemma_writes_closed_form(t, ws, k);
        lemma_writes_closed_form(u, ws, k);
    }
    assert(apply_ops(u, ws) =~= u);
}

/// Dropping the entries that do not survive before or after a write makes no difference.
proof fn lemma_writes_commute_with_surviving(t: Tree, ws: Seq<TreeOp>, kind: DestinationType, es: Seq<EntryView>)
    requires
        writes_only(ws),
    ensures
        surviving(apply_ops(surviving(t, kind, es), ws), kind, es) == surviving(apply_ops(t, ws), kind, es),
    decreases ws.len(),
{
    if ws.len() > 0 {
        let pre = ws.drop_last();
        assert forall|x: int| 0 <= x < pre.len() implies (#[trigger] pre[x]) is Write by {
            assert(pre[x] == ws[x]);
        }
        lemma_writes_commute_with_surviving(t, pre, kind, es);
        let a = apply_ops(surviving(t, kind, es), pre);
        let b = apply_ops(t, pre);
        let op = ws.last();
        assert(ws[ws.len() - 1] == op);
        // surviving(a) == surviving(b), and one write keeps that so.
        assert(surviving(a, kind, es) == surviving(b, kind, es));
        assert forall|k: Seq<Seq<char>>| survives(kind, es, k) implies (#[trigger] a.contains_key(k) <==> b.contains_key(k))
            && (a.contains_key(k) ==> a[k] == b[k]) by {
            assert(surviving(a, kind, es).contains_key(k) == surviving(b, kind, es).contains_key(k));
            if a.contains_key(k) {
                assert(surviving(a, kind, es)[k] == surviving(b, kind, es)[k]);
            }
        }
        assert(surviving(apply_op(a, op), kind, es) =~= surviving(apply_op(b, op), kind, es));
    }
}

/// The sweep of a closed tree, handed a listing of all its entries, leaves
/// exactly the entries that survive.
proof fn lemma_sweep_is_surviving(
    ds: Seq<Destination>,
    es: Seq<EntryView>,
    listings: Seq<Seq<Seq<Seq<char>>>>,
    t1: Tree,
    i: nat,
)
    requires
        i < ds.len(),
        listings.len() == ds.len(),
        is_closed(t1),
        lists(listings[i as int], t1),
    ensures
        apply_ops(t1, sweep_removals(ds, es, listings, i)) == surviving(t1, ds[i as int].dest_type, es),
{
    let r = sweep_steps(ds, es, listings, ds.len() as int);
    let ro = sweep_removals(ds, es, listings, i);
    let kind = ds[i as int].dest_type;
    let t2 = apply_ops(t1, ro);
    lemma_sweep_removes_orphans(ds, es, listings, ds.len() as int);
    lemma_ops_for(r, i);
    assert forall|y: int| 0 <= y < ro.len() implies (#[trigger] ro[y]) is Remove && is_orphan(kind, es, ro[y]->Remove_0) by {
        let x = choose|x: int| 0 <= x < r.len() && op_of(#[trigger] r[x], i) == Some(ro[y]);
        assert(r[x] is Remove);
    }
    lemma_removals(t1, ro);
    let l = listings[i as int];
    assert forall|k: Seq<Seq<char>>| #[trigger] t2.contains_key(k) <==> (t1.contains_key(k) && survives(kind, es, k)) by {
        if t1.contains_key(k) && survives(kind, es, k) {
            assert forall|x: int| 0 <= x < ro.len() implies !is_prefix(#[trigger] ro[x]->Remove_0, k) by {
                let q = ro[x]->Remove_0;
                if is_prefix(q, k) {
                    assert(k.take(q.len() as int) == q);
                }
            }
        }
        if t2.contains_key(k) && !survives(kind, es, k) {
            let m = choose|m: int| 0 <= m <= k.len() && is_orphan(kind, es, #[trigger] k.take(m));
            let q = k.take(m);
            if m < k.len() {
                if m == 0 {
                    assert(q =~= Seq::<Seq<char>>::empty());
                    assert(source_has(es, q));
                }
                assert(t1.contains_key(q));
            } else {
                assert(q =~= k);
            }
            let yl = choose|yl: int| 0 <= yl < l.len() && l[yl] == q;
            lemma_sweep_member(ds, es, listings, ds.len() as int, i as int, yl);
            let x = choose|x: int| 0 <= x < r.len() && r[x] == Step::Remove(i, q);
            assert(op_of(r[x], i) is Some);
            let y = choose|y: int| 0 <= y < ro.len() && ro[y] == op_of(r[x], i)->0;
            assert(!is_prefix(ro[y]->Remove_0, k));
            assert(q.take(q.len() as int) =~= q);
        }
    }
    assert(t2 =~= surviving(t1, kind, es));
}

/// A second full sync with no change to the source in between leaves every
/// destination tree as the first one left it.
pub proof fn law_full_sync_idempotent(
    ds: Seq<Destination>,
    es: Seq<EntryView>,
    first: Seq<Seq<Seq<Seq<char>>>>,
    second: Seq<Seq<Seq<Seq<char>>>>,
    t0: Tree,
    i: nat,
)
    requires
        i < ds.len(),
        first.len() == ds.len(),
        second.len() == ds.len(),
        is_closed(t0),
        lists(first[i as int], apply_ops(t0, sync_writes(ds, es, i))),
        lists(second[i as int], apply_ops(full_sync(ds, es, first, t0, i), sync_writes(ds, es, i))),
    ensures
        full_sync(ds, es, second, full_sync(ds, es, first, t0, i), i) == full_sync(ds, es, first, t0, i),
{
    let ws = sync_writes(ds, es, i);
    let w = walk_steps(ds, seq![], es, es.len() as int);
    let kind = ds[i as int].dest_type;
    lemma_walk_writes(ds, seq![], es, es.len() as int);
    lemma_ops_for(w, i);
    assert forall|y: int| 0 <= y < ws.len() implies (#[trigger] ws[y]) is Write by {
        let x = choose|x: int| 0 <= x < w.len() && op_of(#[trigger] w[x], i) == Some(ws[y]);
        assert(write_from(ds, seq![], es, w[x]));
    }
    let t1w = apply_ops(t0, ws);
    lemma_ops_keep_closed(t0, ws);
    lemma_sweep_is_surviving(ds, es, first, t1w, i);
    let t1 = full_sync(ds, es, first, t0, i);
    assert(t1 == surviving(t1w, kind, es));
    assert(is_closed(t1)) by {
        assert forall|k: Seq<Seq<char>>, m: int|
            #![trigger t1.contains_key(k), k.take(m)]
            t1.contains_key(k) && 1 <= m < k.len() implies t1.contains_key(k.take(m)) by {
            assert(t1w.contains_key(k.take(m)));
            assert forall|n: int| 0 <= n <= k.take(m).len() implies !is_orphan(kind, es, #[trigger] k.take(m).take(n)) by {
                assert(k.take(m).take(n) =~= k.take(n));
            }
        }
    }
    let t2w = apply_ops(t1, ws);
    lemma_ops_keep_closed(t1, ws);
    lemma_sweep_is_surviving(ds, es, second, t2w, i);
    lemma_writes_commute_with_surviving(t1w, ws, kind, es);
    lemma_writes_twice(t0, ws);
    assert(surviving(t1w, kind, es) =~= surviving(surviving(t1w, kind, es), kind, es));
}

} // verus!