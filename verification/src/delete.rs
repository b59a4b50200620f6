//! Recursive deletion of a remote subtree.
//!
//! Traversal state is an explicit plan, not call recursion at run time on
//! the remote side: files are removed first and a directory is removed
//! only after everything below it, so no removal ever meets a non-empty
//! directory.  The plan is computed over a snapshot of the subtree; the
//! caller issues one remote call per operation, in plan order.

use vstd::prelude::*;

use crate::files::EntryKind;
use crate::paths::{join_path, spec_join, spec_starts_with};
use crate::walker::DirTree;

verus! {

/// One remote removal.
#[derive(Debug, Clone, PartialEq, Eq)]
pub enum DeleteOp {
    RemoveFile(String),
    RemoveDir(String),
}

/// One removal, stated over character sequences.
pub struct DeleteOpV {
    pub dir: bool,
    pub path: Seq<char>,
}

/// What a removal states.
pub open spec fn op_view(op: DeleteOp) -> DeleteOpV {
    match op {
        DeleteOp::RemoveFile(p) => DeleteOpV { dir: false, path: p@ },
        DeleteOp::RemoveDir(p) => DeleteOpV { dir: true, path: p@ },
    }
}

/// What the plan's operations state.
pub open spec fn ops_view(ops: Seq<DeleteOp>) -> Seq<DeleteOpV> {
    ops.map_values(|op: DeleteOp| op_view(op))
}

/// The removals a subtree calls for: everything below a directory first,
/// in child order, then the directory itself; a plain entry is one file
/// removal.
pub open spec fn spec_delete_plan(t: DirTree, path: Seq<char>) -> Seq<DeleteOpV>
    decreases t,
{
    if t.entry.type_ == EntryKind::Dir {
        spec_delete_children(t.children@, path) + seq![DeleteOpV { dir: true, path }]
    } else {
        seq![DeleteOpV { dir: false, path }]
    }
}

/// The removals a forest calls for, child by child.
pub open spec fn spec_delete_children(cs: Seq<DirTree>, path: Seq<char>) -> Seq<DeleteOpV>
    decreases cs,
{
    if cs.len() == 0 {
        Seq::empty()
    } else {
        spec_delete_children(cs.drop_last(), path) + spec_delete_plan(
            cs.last(),
            spec_join(path, cs.last().entry.name@),
        )
    }
}

/// Append a subtree's removal plan.
pub fn plan_delete(t: &DirTree, path: &str, out: &mut Vec<DeleteOp>)
    ensures
        ops_view(final(out)@) == ops_view(old(out)@) + spec_delete_plan(*t, path@),
    decreases *t,
{
    if t.entry.is_dir() {
        let ghost out0 = out@;
        let mut i: usize = 0;
        proof {
            assert(ops_view(out@) + spec_delete_children(t.children@.take(0), path@) =~= ops_view(
                out0,
            ));
        }
        while i < t.children.len()
            invariant
                i <= t.children@.len(),
                ops_view(out@) == ops_view(out0) + spec_delete_children(
                    t.children@.take(i as int),
                    path@,
                ),
            decreases t.children@.len() - i,
        {
            let child_path = join_path(path, t.children[i].entry.name.as_str());
            plan_delete(&t.children[i], child_path.as_str(), out);
            proof {
                assert(t.children@.take(i + 1).drop_last() =~= t.children@.take(i as int));
                assert(t.children@.take(i + 1).last() == t.children@[i as int]);
            }
            i = i + 1;
        }
        let ghost prev = out@;
        let op = DeleteOp::RemoveDir(path.to_owned());
        let ghost opg = op;
        out.push(op);
        proof {
            assert(t.children@.take(t.children@.len() as int) =~= t.children@);
            let target = ops_view(old(out)@) + spec_delete_plan(*t, path@);
            assert(ops_view(prev) == ops_view(out0) + spec_delete_children(t.children@, path@));
            assert(ops_view(out@).len() == target.len());
            assert forall|k: int| 0 <= k < ops_view(out@).len() implies ops_view(out@)[k]
                == target[k] by {
                assert(ops_view(out@)[k] == op_view(out@[k]));
                if k < prev.len() {
                    assert(out@[k] == prev[k]);
                    assert(ops_view(prev)[k] == op_view(prev[k]));
                } else {
                    assert(out@[k] == opg);
                }
            }
            assert(ops_view(out@) =~= target);
        }
    } else {
        out.push(DeleteOp::RemoveFile(path.to_owned()));
        proof {
            assert(ops_view(out@) =~= ops_view(old(out)@) + spec_delete_plan(*t, path@));
        }
    }
}

/// The removals a subtree calls for, as one plan.
pub fn delete_plan(t: &DirTree, path: &str) -> (r: Vec<DeleteOp>)
    ensures
        ops_view(r@) == spec_delete_plan(*t, path@),
{
    let mut out: Vec<DeleteOp> = Vec::new();
    plan_delete(t, path, &mut out);
    proof {
        assert(ops_view(Seq::<DeleteOp>::empty()) =~= Seq::<DeleteOpV>::empty());
        assert(ops_view(out@) =~= spec_delete_plan(*t, path@));
    }
    out
}

// ------------------------------------------------------------------
// The plan never removes a non-empty directory
// ------------------------------------------------------------------

/// The text has no `/`.
pub open spec fn slash_free(s: Seq<char>) -> bool {
    forall|i: int| 0 <= i < s.len() ==> s[i] != '/'
}

/// A path with no trailing separator.
pub open spec fn clean_path(p: Seq<char>) -> bool {
    p.len() == 0 || p.last() != '/'
}

/// A tree over which paths make sense: every name is nonempty and free of
/// separators, and no two siblings share a name.
pub open spec fn wf_tree(t: DirTree) -> bool
    decreases t,
{
    (forall|i: int|
        0 <= i < t.children@.len() ==> (#[trigger] t.children@[i]).entry.name@.len() > 0
            && slash_free(t.children@[i].entry.name@)) && (forall|i: int, j: int|
        0 <= i < t.children@.len() && 0 <= j < t.children@.len() && i != j
            ==> t.children@[i].entry.name@ != t.children@[j].entry.name@) && (forall|i: int|
        0 <= i < t.children@.len() ==> wf_tree(#[trigger] t.children@[i]))
}

/// `x` lies strictly below the directory `q`.
pub open spec fn under(x: Seq<char>, q: Seq<char>) -> bool {
    spec_starts_with(x, q + seq!['/'])
}

/// `x` is the path `q` itself or lies below it.
pub open spec fn in_scope(x: Seq<char>, q: Seq<char>) -> bool {
    spec_starts_with(x + seq!['/'], q + seq!['/'])
}

/// No operation acts below the target of any earlier removal: in
/// particular, by the time a directory is removed, everything below it is
/// gone.
pub open spec fn order_ok(ops: Seq<DeleteOpV>) -> bool {
    forall|i: int, j: int|
        0 <= i < j < ops.len() ==> !under((#[trigger] ops[j]).path, (#[trigger] ops[i]).path)
}

proof fn lemma_prefix_trans(a: Seq<char>, b: Seq<char>, c: Seq<char>)
    requires
        spec_starts_with(a, b),
        spec_starts_with(b, c),
    ensures
        spec_starts_with(a, c),
{
    assert(a.take(c.len() as int) =~= b.take(c.len() as int));
}

proof fn lemma_prefix_total(s: Seq<char>, a: Seq<char>, b: Seq<char>)
    requires
        spec_starts_with(s, a),
        spec_starts_with(s, b),
        a.len() <= b.len(),
    ensures
        spec_starts_with(b, a),
{
    assert(b.take(a.len() as int) =~= a) by {
        assert(forall|k: int|
            0 <= k < a.len() ==> s.take(a.len() as int)[k] == s[k] && s.take(b.len() as int)[k]
                == s[k]);
        assert(forall|k: int| 0 <= k < a.len() ==> b.take(a.len() as int)[k] == b[k]);
        assert(forall|k: int| 0 <= k < a.len() ==> b[k] == s[k] && a[k] == s[k]);
    }
}

/// Distinct separator-free names stay distinct with a separator appended:
/// neither result is a prefix of the other.
proof fn lemma_names_prefix(n1: Seq<char>, n2: Seq<char>)
    requires
        slash_free(n1),
        slash_free(n2),
        spec_starts_with(n2 + seq!['/'], n1 + seq!['/']),
    ensures
        n1 == n2,
{
    let a = n1 + seq!['/'];
    let b = n2 + seq!['/'];
    if n1.len() < n2.len() {
        assert(b[n1.len() as int] == n2[n1.len() as int]);
        assert(b.take(a.len() as int)[n1.len() as int] == a[n1.len() as int]);
        assert(n2[n1.len() as int] == '/');
        assert(false);
    } else {
        assert(n1.len() == n2.len());
        assert(b.take(a.len() as int) == a);
        assert(forall|k: int| 0 <= k < n2.len() ==> b.take(a.len() as int)[k] == b[k]);
        assert(forall|k: int| 0 <= k < n1.len() ==> a[k] == n1[k] && b[k] == n2[k]);
        assert(forall|k: int| 0 <= k < n1.len() ==> n1[k] == n2[k]);
        assert(n1 =~= n2);
    }
}

/// Subtrees of two distinctly named siblings are wholly apart: nothing in
/// one scope lies at or below anything in the other.
proof fn lemma_scope_disjoint(
    x: Seq<char>,
    y: Seq<char>,
    p: Seq<char>,
    n1: Seq<char>,
    n2: Seq<char>,
)
    requires
        in_scope(x, p + seq!['/'] + n1),
        in_scope(y, p + seq!['/'] + n2),
        slash_free(n1),
        slash_free(n2),
        n1 != n2,
    ensures
        !under(y, x),
{
    let q1 = p + seq!['/'] + n1;
    let q2 = p + seq!['/'] + n2;
    if under(y, x) {
        assert(spec_starts_with(y + seq!['/'], x + seq!['/'])) by {
            assert((y + seq!['/']).take((x + seq!['/']).len() as int) =~= y.take(
                (x + seq!['/']).len() as int,
            ));
        }
        lemma_prefix_trans(y + seq!['/'], x + seq!['/'], q1 + seq!['/']);
        // y+'/' begins with both q1+'/' and q2+'/'
        if (q1 + seq!['/']).len() <= (q2 + seq!['/']).len() {
            lemma_prefix_total(y + seq!['/'], q1 + seq!['/'], q2 + seq!['/']);
            assert(spec_starts_with(q2 + seq!['/'], q1 + seq!['/']));
            assert(spec_starts_with(n2 + seq!['/'], n1 + seq!['/'])) by {
                let whole = q2 + seq!['/'];
                let part = q1 + seq!['/'];
                assert(forall|k: int|
                    0 <= k < n1.len() + 1 ==> (n2 + seq!['/']).take((n1 + seq!['/']).len() as int)[k]
                        == whole.take(part.len() as int)[p.len() + 1 + k]);
                assert((n2 + seq!['/']).take((n1 + seq!['/']).len() as int) =~= n1 + seq!['/']);
            }
            lemma_names_prefix(n1, n2);
        } else {
            lemma_prefix_total(y + seq!['/'], q2 + seq!['/'], q1 + seq!['/']);
            assert(spec_starts_with(q1 + seq!['/'], q2 + seq!['/']));
            assert(spec_starts_with(n1 + seq!['/'], n2 + seq!['/'])) by {
                let whole = q1 + seq!['/'];
                let part = q2 + seq!['/'];
                assert(forall|k: int|
                    0 <= k < n2.len() + 1 ==> (n1 + seq!['/']).take((n2 + seq!['/']).len() as int)[k]
                        == whole.take(part.len() as int)[p.len() + 1 + k]);
                assert((n1 + seq!['/']).take((n2 + seq!['/']).len() as int) =~= n2 + seq!['/']);
            }
            lemma_names_prefix(n2, n1);
        }
    }
}

/// Everything a subtree's plan touches is the subtree's own path or lies
/// below it.
proof fn lemma_plan_scope(t: DirTree, p: Seq<char>)
    requires
        wf_tree(t),
        clean_path(p),
    ensures
        forall|k: int|
            0 <= k < spec_delete_plan(t, p).len() ==> in_scope(
                (#[trigger] spec_delete_plan(t, p)[k]).path,
                p,
            ),
    decreases t,
{
    assert(spec_starts_with(p + seq!['/'], p + seq!['/'])) by {
        assert((p + seq!['/']).take((p + seq!['/']).len() as int) =~= p + seq!['/']);
    }
    if t.entry.type_ == EntryKind::Dir {
        lemma_children_scope(t.children@, p);
        assert(forall|k: int|
            0 <= k < spec_delete_children(t.children@, p).len() ==> spec_delete_plan(t, p)[k]
                == spec_delete_children(t.children@, p)[k]);
    }
}

/// Everything a forest's plan touches lies below the parent path.
proof fn lemma_children_scope(cs: Seq<DirTree>, p: Seq<char>)
    requires
        clean_path(p),
        forall|i: int|
            0 <= i < cs.len() ==> (#[trigger] cs[i]).entry.name@.len() > 0 && slash_free(
                cs[i].entry.name@,
            ),
        forall|i: int| 0 <= i < cs.len() ==> wf_tree(#[trigger] cs[i]),
    ensures
        forall|k: int|
            0 <= k < spec_delete_children(cs, p).len() ==> {
                let x = (#[trigger] spec_delete_children(cs, p)[k]).path;
                in_scope(x, p) && under(x, p) && exists|m: int|
                    0 <= m < cs.len() && in_scope(x, spec_join(p, cs[m].entry.name@))
            },
    decreases cs,
{
    if cs.len() > 0 {
        assert(forall|i: int| 0 <= i < cs.drop_last().len() ==> cs.drop_last()[i] == cs[i]);
        lemma_children_scope(cs.drop_last(), p);
        let n = cs.last().entry.name@;
        let q = spec_join(p, n);
        assert(q =~= p + seq!['/'] + n);
        assert(clean_path(q)) by {
            assert(q.last() == n.last());
        }
        lemma_plan_scope(cs.last(), q);
        let a = spec_delete_children(cs.drop_last(), p);
        let b = spec_delete_plan(cs.last(), q);
        assert(forall|k: int|
            0 <= k < a.len() ==> spec_delete_children(cs, p)[k] == a[k]);
        assert(forall|k: int|
            a.len() <= k < a.len() + b.len() ==> spec_delete_children(cs, p)[k] == b[k - a.len()]);
        assert(spec_starts_with(q + seq!['/'], p + seq!['/'])) by {
            assert((q + seq!['/']).take((p + seq!['/']).len() as int) =~= p + seq!['/']);
        }
        assert(forall|k: int|
            0 <= k < b.len() ==> in_scope((#[trigger] b[k]).path, q) && in_scope(b[k].path, p)
                && under(b[k].path, p)) by {
            assert(forall|k: int| 0 <= k < b.len() ==> in_scope((#[trigger] b[k]).path, q));
            assert forall|k: int| 0 <= k < b.len() implies in_scope(
                (#[trigger] b[k]).path,
                p,
            ) && under(b[k].path, p) by {
                let x = b[k].path;
                lemma_prefix_trans(x + seq!['/'], q + seq!['/'], p + seq!['/']);
                assert(spec_starts_with(x, p + seq!['/'])) by {
                    assert((x + seq!['/']).len() >= (q + seq!['/']).len());
                    assert(x.len() >= q.len());
                    assert(x.take((p + seq!['/']).len() as int) =~= (x + seq!['/']).take(
                        (p + seq!['/']).len() as int,
                    ));
                }
            }
        }
        assert(forall|k: int|
            0 <= k < spec_delete_children(cs, p).len() ==> {
                let x = (#[trigger] spec_delete_children(cs, p)[k]).path;
                in_scope(x, p) && under(x, p)
            });
        assert forall|k: int| 0 <= k < spec_delete_children(cs, p).len() implies exists|m: int|
            0 <= m < cs.len() && in_scope(
                (#[trigger] spec_delete_children(cs, p)[k]).path,
                spec_join(p, cs[m].entry.name@),
            ) by {
            let x = spec_delete_children(cs, p)[k].path;
            if k < a.len() {
                let m = choose|m: int|
                    0 <= m < cs.drop_last().len() && in_scope(
                        x,
                        spec_join(p, cs.drop_last()[m].entry.name@),
                    );
                assert(cs.drop_last()[m] == cs[m]);
                assert(0 <= m < cs.len() && in_scope(x, spec_join(p, cs[m].entry.name@)));
            } else {
                assert(in_scope(x, spec_join(p, cs[cs.len() - 1].entry.name@)));
            }
        }
    }
}

/// The plan removes no directory before everything below it: a later
/// operation never acts below an earlier removal's target.
pub proof fn lemma_delete_order(t: DirTree, p: Seq<char>)
    requires
        wf_tree(t),
        clean_path(p),
    ensures
        order_ok(spec_delete_plan(t, p)),
    decreases t,
{
    if t.entry.type_ == EntryKind::Dir {

        lemma_children_order(t.children@, p);
        lemma_children_scope(t.children@, p);
        let a = spec_delete_children(t.children@, p);
        let whole = spec_delete_plan(t, p);
        assert(forall|k: int| 0 <= k < a.len() ==> whole[k] == a[k]);
        assert(whole[a.len() as int] == DeleteOpV { dir: true, path: p });
        assert forall|i: int, j: int| 0 <= i < j < whole.len() implies !under(
            (#[trigger] whole[j]).path,
            (#[trigger] whole[i]).path,
        ) by {
            if j < a.len() {
            } else {
                // the final removal of the subtree root is below nothing
                // that the children's plans touch
                let x = whole[i].path;
                assert(x == a[i].path);
                assert(under(x, p));
                if under(p, x) {
                    assert(spec_starts_with(p, x + seq!['/']));
                    assert(spec_starts_with(x, p + seq!['/']));
                    assert(p.len() >= x.len() + 1);
                    assert(x.len() >= p.len() + 1);
                }
            }
        }
    }
}

/// A forest's plan is ordered, and distinct siblings never interleave in
/// a way that removes one below the other.
proof fn lemma_children_order(cs: Seq<DirTree>, p: Seq<char>)
    requires
        clean_path(p),
        forall|i: int|
            0 <= i < cs.len() ==> (#[trigger] cs[i]).entry.name@.len() > 0 && slash_free(
                cs[i].entry.name@,
            ),
        forall|i: int, j: int|
            0 <= i < cs.len() && 0 <= j < cs.len() && i != j ==> cs[i].entry.name@
                != cs[j].entry.name@,
        forall|i: int| 0 <= i < cs.len() ==> wf_tree(#[trigger] cs[i]),
    ensures
        order_ok(spec_delete_children(cs, p)),
    decreases cs,
{
    if cs.len() > 0 {
        assert(forall|i: int| 0 <= i < cs.drop_last().len() ==> cs.drop_last()[i] == cs[i]);
        lemma_children_order(cs.drop_last(), p);
        let n = cs.last().entry.name@;
        let q = spec_join(p, n);
        assert(q =~= p + seq!['/'] + n);
        assert(clean_path(q)) by {
            assert(q.last() == n.last());
        }
        lemma_delete_order(cs.last(), q);
        lemma_children_scope(cs.drop_last(), p);
        lemma_plan_scope(cs.last(), q);
        let a = spec_delete_children(cs.drop_last(), p);
        let b = spec_delete_plan(cs.last(), q);
        let whole = spec_delete_children(cs, p);
        assert(forall|k: int| 0 <= k < a.len() ==> whole[k] == a[k]);
        assert(forall|k: int| a.len() <= k < whole.len() ==> whole[k] == b[k - a.len()]);
        assert forall|i: int, j: int| 0 <= i < j < whole.len() implies !under(
            (#[trigger] whole[j]).path,
            (#[trigger] whole[i]).path,
        ) by {
            if j < a.len() {
            } else if i >= a.len() {
                assert(!under(b[j - a.len()].path, b[i - a.len()].path));
            } else {
                let x = whole[i].path;
                let y = whole[j].path;
                let m = choose|m: int|
                    0 <= m < cs.drop_last().len() && in_scope(
                        x,
                        spec_join(p, cs.drop_last()[m].entry.name@),
                    );
                assert(cs.drop_last()[m] == cs[m]);
                let nm = cs[m].entry.name@;
                assert(spec_join(p, nm) =~= p + seq!['/'] + nm);
                assert(in_scope(y, q));
                assert(nm != n);
                lemma_scope_disjoint(x, y, p, nm, n);
            }
        }
    }
}

} // verus!
