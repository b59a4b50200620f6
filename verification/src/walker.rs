//! The parallel directory walker, verified over snapshot trees.
//!
//! Workers own one last-in-first-out stack of messages each; a worker out
//! of local work steals from its peers in a fixed rotation starting just
//! after its own index.  When a worker finds every stack empty and the
//! count of active workers reaches zero, it broadcasts `Quit`; every
//! worker that receives `Quit` re-pushes it before stopping, so the
//! signal propagates to all workers (domino termination).  The walk here
//! drives those workers over a snapshot of the remote tree, one turn at a
//! time; what each turn decides is exactly the worker protocol, and the
//! whole walk is proved complete, depth-bounded and terminating for every
//! worker count.

use vstd::multiset::Multiset;
use vstd::prelude::*;

use crate::files::{EntryKind, FileAttrs, FileEntry};
use crate::paths::{dir_path, spec_dir_path};

verus! {

broadcast use vstd::multiset::group_multiset_axioms, vstd::seq_lib::group_to_multiset_ensures;

/// A snapshot of a remote directory tree: one entry and, when the entry
/// is a directory, the subtrees its listing yields.
pub struct DirTree {
    pub entry: FileEntry,
    pub children: Vec<DirTree>,
}

/// The number of entries in a tree.
pub open spec fn tree_size(t: DirTree) -> nat
    decreases t,
{
    1 + tree_size_children(t.children@)
}

/// The number of entries in a forest.
pub open spec fn tree_size_children(cs: Seq<DirTree>) -> nat
    decreases cs,
{
    if cs.len() == 0 {
        0
    } else {
        tree_size_children(cs.drop_last()) + tree_size(cs.last())
    }
}

/// The number of steps to a tree's deepest entry.
pub open spec fn height(t: DirTree) -> nat
    decreases t,
{
    1 + height_children(t.children@)
}

pub open spec fn height_children(cs: Seq<DirTree>) -> nat
    decreases cs,
{
    if cs.len() == 0 {
        0
    } else if height_children(cs.drop_last()) >= height(cs.last()) {
        height_children(cs.drop_last())
    } else {
        height(cs.last())
    }
}

pub proof fn lemma_height_le_size(t: DirTree)
    ensures
        height(t) <= tree_size(t),
    decreases t,
{
    lemma_height_children(t.children@);
}

proof fn lemma_height_children(cs: Seq<DirTree>)
    ensures
        height_children(cs) <= tree_size_children(cs),
    decreases cs,
{
    if cs.len() > 0 {
        lemma_height_children(cs.drop_last());
        lemma_height_le_size(cs.last());
    }
}

/// Whether the visitor went on or asked the walk to stop.
#[derive(Debug, PartialEq, Eq, Structural)]
pub enum WalkState {
    Continue,
    Quit,
}

impl WalkState {
    pub fn is_continue(&self) -> (r: bool)
        ensures
            r == (*self == WalkState::Continue),
    {
        *self == WalkState::Continue
    }

    pub fn is_quit(&self) -> (r: bool)
        ensures
            r == (*self == WalkState::Quit),
    {
        *self == WalkState::Quit
    }
}

/// A visited entry, stated over character sequences: the entry's absolute
/// display path together with what the listing reported.
pub struct EntryV {
    pub name: Seq<char>,
    pub kind: EntryKind,
    pub size: Option<u64>,
    pub mtime: Option<u32>,
    pub user: Option<Seq<char>>,
    pub permissions: Option<u32>,
}

/// What an entry states.
pub open spec fn entry_view(e: FileEntry) -> EntryV {
    EntryV {
        name: e.name@,
        kind: e.type_,
        size: e.attributes.size,
        mtime: e.attributes.mtime,
        user: match e.attributes.user {
            Some(u) => Some(u@),
            None => None,
        },
        permissions: e.attributes.permissions,
    }
}

/// What the visited entries state, in visit order.
pub open spec fn visited_views(vs: Seq<FileEntry>) -> Seq<EntryV> {
    vs.map_values(|e: FileEntry| entry_view(e))
}

/// An entry, re-addressed by its absolute path.
pub open spec fn entry_at(e: FileEntry, abs: Seq<char>) -> EntryV {
    EntryV { name: abs, ..entry_view(e) }
}

/// Whether a directory at this depth is still expanded under the bound:
/// its children lie one step deeper, which the bound must allow.
pub open spec fn depth_ok(d: nat, max_depth: Option<usize>) -> bool {
    match max_depth {
        None => true,
        Some(m) => d < m,
    }
}

/// Every entry a walk of this subtree visits, each exactly once: the
/// subtree's own entry under its absolute path and, when it is a
/// directory the bound still expands, every child's reach one step
/// deeper.
pub open spec fn reach(t: DirTree, cwd: Seq<char>, d: nat, max_depth: Option<usize>) -> Multiset<
    EntryV,
>
    decreases t,
{
    let abs = spec_dir_path(cwd, t.entry.name@);
    Multiset::singleton(entry_at(t.entry, abs)).add(
        if t.entry.type_ == EntryKind::Dir && depth_ok(d, max_depth) {
            reach_children(t.children@, abs, (d + 1) as nat, max_depth)
        } else {
            Multiset::empty()
        },
    )
}

pub open spec fn reach_children(
    cs: Seq<DirTree>,
    cwd: Seq<char>,
    d: nat,
    max_depth: Option<usize>,
) -> Multiset<EntryV>
    decreases cs,
{
    if cs.len() == 0 {
        Multiset::empty()
    } else {
        reach_children(cs.drop_last(), cwd, d, max_depth).add(reach(cs.last(), cwd, d, max_depth))
    }
}

/// An entry past the depth bound is never expanded: its children are not
/// listed and nothing below it is reached — while an entry the bound
/// still admits contributes its children's whole reach.
pub proof fn lemma_depth_filtering(t: DirTree, cwd: Seq<char>, d: nat, m: usize)
    ensures
        !depth_ok(d, Some(m)) ==> reach(t, cwd, d, Some(m)) =~= Multiset::singleton(
            entry_at(t.entry, spec_dir_path(cwd, t.entry.name@)),
        ),
        depth_ok(d, Some(m)) && t.entry.type_ == EntryKind::Dir ==> reach(t, cwd, d, Some(m))
            =~= Multiset::singleton(entry_at(t.entry, spec_dir_path(cwd, t.entry.name@))).add(
            reach_children(
                t.children@,
                spec_dir_path(cwd, t.entry.name@),
                (d + 1) as nat,
                Some(m),
            ),
        ),
{
}

// ------------------------------------------------------------------
// The scheduler's messages and their aggregates
// ------------------------------------------------------------------

/// What one worker is doing: working, waiting for work to appear, or
/// stopped after observing `Quit`.
#[derive(Debug, Clone, Copy, PartialEq, Eq, Structural)]
pub enum WStatus {
    Active,
    Idle,
    Done,
}

/// A directory known to the walk, paired with the working directory whose
/// listing named it, at its depth below the root.
pub struct WorkItem {
    pub tree: DirTree,
    pub cwd: String,
    pub depth: usize,
}

/// The unit moved through the workers' stacks: work, or the termination
/// tombstone that every receiver re-pushes before stopping.
pub enum Msg {
    Work(WorkItem),
    Quit,
}

/// How much walking a message still stands for.
pub open spec fn msg_weight(m: Msg) -> nat {
    match m {
        Msg::Work(w) => tree_size(w.tree),
        Msg::Quit => 0,
    }
}

/// The entries a message still owes the visitor.
pub open spec fn msg_reach(m: Msg, max_depth: Option<usize>) -> Multiset<EntryV> {
    match m {
        Msg::Work(w) => reach(w.tree, w.cwd@, w.depth as nat, max_depth),
        Msg::Quit => Multiset::empty(),
    }
}

/// Whether a message is the termination tombstone.
pub open spec fn msg_quit(m: Msg) -> nat {
    match m {
        Msg::Work(_) => 0,
        Msg::Quit => 1,
    }
}

pub open spec fn msgs_weight(q: Seq<Msg>) -> nat
    decreases q.len(),
{
    if q.len() == 0 {
        0
    } else {
        msgs_weight(q.drop_last()) + msg_weight(q.last())
    }
}

pub open spec fn msgs_reach(q: Seq<Msg>, max_depth: Option<usize>) -> Multiset<EntryV>
    decreases q.len(),
{
    if q.len() == 0 {
        Multiset::empty()
    } else {
        msgs_reach(q.drop_last(), max_depth).add(msg_reach(q.last(), max_depth))
    }
}

pub open spec fn msgs_quits(q: Seq<Msg>) -> nat
    decreases q.len(),
{
    if q.len() == 0 {
        0
    } else {
        msgs_quits(q.drop_last()) + msg_quit(q.last())
    }
}

/// Removing the oldest message splits a stack's aggregates at the front.
proof fn lemma_msgs_front(q: Seq<Msg>, max_depth: Option<usize>)
    requires
        q.len() > 0,
    ensures
        msgs_weight(q) == msg_weight(q[0]) + msgs_weight(q.drop_first()),
        msgs_reach(q, max_depth) =~= msg_reach(q[0], max_depth).add(
            msgs_reach(q.drop_first(), max_depth),
        ),
        msgs_quits(q) == msg_quit(q[0]) + msgs_quits(q.drop_first()),
    decreases q.len(),
{
    if q.len() == 1 {
        assert(q.drop_last() =~= Seq::<Msg>::empty());
        assert(q.drop_first() =~= Seq::<Msg>::empty());
        assert(q.last() == q[0]);
    } else {
        lemma_msgs_front(q.drop_last(), max_depth);
        assert(q.drop_last()[0] == q[0]);
        assert(q.drop_first().drop_last() =~= q.drop_last().drop_first());
        assert(q.drop_first().last() == q.last());
        assert(q.drop_first().len() > 0);
    }
}

/// A message is never empty walking: work stands for at least its own
/// entry.
proof fn lemma_weightless_is_quit(q: Seq<Msg>, max_depth: Option<usize>)
    requires
        msgs_weight(q) == 0,
    ensures
        msgs_reach(q, max_depth) =~= Multiset::<EntryV>::empty(),
    decreases q.len(),
{
    if q.len() > 0 {
        lemma_weightless_is_quit(q.drop_last(), max_depth);
        match q.last() {
            Msg::Work(w) => {
                assert(tree_size(w.tree) >= 1);
            },
            Msg::Quit => {},
        }
    }
}

/// The stacks of all workers, as the sequences they hold.
pub open spec fn qviews(qs: Seq<Vec<Msg>>) -> Seq<Seq<Msg>> {
    qs.map_values(|q: Vec<Msg>| q@)
}

pub open spec fn queues_weight(qs: Seq<Seq<Msg>>) -> nat
    decreases qs.len(),
{
    if qs.len() == 0 {
        0
    } else {
        queues_weight(qs.drop_last()) + msgs_weight(qs.last())
    }
}

pub open spec fn queues_reach(qs: Seq<Seq<Msg>>, max_depth: Option<usize>) -> Multiset<EntryV>
    decreases qs.len(),
{
    if qs.len() == 0 {
        Multiset::empty()
    } else {
        queues_reach(qs.drop_last(), max_depth).add(msgs_reach(qs.last(), max_depth))
    }
}

pub open spec fn queues_quits(qs: Seq<Seq<Msg>>) -> nat
    decreases qs.len(),
{
    if qs.len() == 0 {
        0
    } else {
        queues_quits(qs.drop_last()) + msgs_quits(qs.last())
    }
}

/// Changing one worker's stack changes every aggregate by that stack's
/// own difference.
proof fn lemma_queues_update(qs: Seq<Seq<Msg>>, i: int, q: Seq<Msg>, max_depth: Option<usize>)
    requires
        0 <= i < qs.len(),
    ensures
        queues_weight(qs.update(i, q)) + msgs_weight(qs[i]) == queues_weight(qs) + msgs_weight(q),
        queues_reach(qs.update(i, q), max_depth).add(msgs_reach(qs[i], max_depth))
            =~= queues_reach(qs, max_depth).add(msgs_reach(q, max_depth)),
        queues_quits(qs.update(i, q)) + msgs_quits(qs[i]) == queues_quits(qs) + msgs_quits(q),
    decreases qs.len(),
{
    let u = qs.update(i, q);
    assert(u.len() == qs.len());
    assert(queues_reach(u, max_depth) == queues_reach(u.drop_last(), max_depth).add(
        msgs_reach(u.last(), max_depth),
    ));
    assert(queues_reach(qs, max_depth) == queues_reach(qs.drop_last(), max_depth).add(
        msgs_reach(qs.last(), max_depth),
    ));
    if i == qs.len() - 1 {
        assert(u.drop_last() =~= qs.drop_last());
        assert(u.last() == q);
        assert(qs.last() == qs[i]);
    } else {
        assert(u.drop_last() =~= qs.drop_last().update(i, q));
        assert(u.last() == qs.last());
        assert(qs.drop_last()[i] == qs[i]);
        lemma_queues_update(qs.drop_last(), i, q, max_depth);
    }
    assert forall|v: EntryV|
        queues_reach(qs.update(i, q), max_depth).add(msgs_reach(qs[i], max_depth)).count(v)
            == queues_reach(qs, max_depth).add(msgs_reach(q, max_depth)).count(v) by {
        assert(queues_reach(u, max_depth).count(v) == queues_reach(u.drop_last(), max_depth).count(
            v,
        ) + msgs_reach(u.last(), max_depth).count(v));
        assert(queues_reach(qs, max_depth).count(v) == queues_reach(
            qs.drop_last(),
            max_depth,
        ).count(v) + msgs_reach(qs.last(), max_depth).count(v));
        if i != qs.len() - 1 {
            assert((queues_reach(qs.drop_last().update(i, q), max_depth).add(
                msgs_reach(qs.drop_last()[i], max_depth),
            )).count(v) == (queues_reach(qs.drop_last(), max_depth).add(
                msgs_reach(q, max_depth),
            )).count(v));
            assert(queues_reach(u.drop_last(), max_depth).count(v) + msgs_reach(
                qs[i],
                max_depth,
            ).count(v) == queues_reach(qs.drop_last(), max_depth).count(v) + msgs_reach(
                q,
                max_depth,
            ).count(v));
        }
    }
    assert(queues_reach(qs.update(i, q), max_depth).add(msgs_reach(qs[i], max_depth))
        =~= queues_reach(qs, max_depth).add(msgs_reach(q, max_depth)));
}

/// If every stack is empty, every aggregate is zero.
proof fn lemma_queues_all_empty(qs: Seq<Seq<Msg>>, max_depth: Option<usize>)
    requires
        forall|j: int| 0 <= j < qs.len() ==> (#[trigger] qs[j]).len() == 0,
    ensures
        queues_weight(qs) == 0,
        queues_reach(qs, max_depth) =~= Multiset::<EntryV>::empty(),
        queues_quits(qs) == 0,
    decreases qs.len(),
{
    if qs.len() > 0 {
        assert(forall|j: int| 0 <= j < qs.drop_last().len() ==> qs.drop_last()[j] == qs[j]);
        lemma_queues_all_empty(qs.drop_last(), max_depth);
        assert(qs.last() == qs[qs.len() - 1]);
        assert(qs.last() =~= Seq::<Msg>::empty());
    }
}

/// How many workers have the given status.
pub open spec fn count_status(st: Seq<WStatus>, which: WStatus) -> nat
    decreases st.len(),
{
    if st.len() == 0 {
        0
    } else {
        count_status(st.drop_last(), which) + if st.last() == which {
            1nat
        } else {
            0nat
        }
    }
}

/// Changing one worker's status changes each count by at most one.
proof fn lemma_count_update(st: Seq<WStatus>, i: int, v: WStatus, which: WStatus)
    requires
        0 <= i < st.len(),
    ensures
        count_status(st.update(i, v), which) + (if st[i] == which {
            1nat
        } else {
            0nat
        }) == count_status(st, which) + (if v == which {
            1nat
        } else {
            0nat
        }),
    decreases st.len(),
{
    let u = st.update(i, v);
    if i == st.len() - 1 {
        assert(u.drop_last() =~= st.drop_last());
        assert(u.last() == v);
        assert(st.last() == st[i]);
    } else {
        assert(u.drop_last() =~= st.drop_last().update(i, v));
        assert(u.last() == st.last());
        assert(st.drop_last()[i] == st[i]);
        lemma_count_update(st.drop_last(), i, v, which);
    }
}

/// A positive count names a worker with that status.
proof fn lemma_count_witness(st: Seq<WStatus>, which: WStatus) -> (w: int)
    requires
        count_status(st, which) > 0,
    ensures
        0 <= w < st.len() && st[w] == which,
    decreases st.len(),
{
    if st.last() == which {
        st.len() - 1
    } else {
        let w = lemma_count_witness(st.drop_last(), which);
        assert(st.drop_last()[w] == st[w]);
        w
    }
}

/// The shape one take leaves behind: worker `j`'s stack gave up the
/// message — its newest when the taker owns it, its oldest when stolen —
/// and every other stack stands untouched.
pub open spec fn take_shape(
    oldq: Seq<Seq<Msg>>,
    newq: Seq<Seq<Msg>>,
    k: int,
    j: int,
    m: Msg,
) -> bool {
    &&& 0 <= j < oldq.len()
    &&& oldq[j].len() > 0
    &&& if j == k {
        m == oldq[j].last() && newq =~= oldq.update(j, oldq[j].drop_last())
    } else {
        m == oldq[j][0] && newq =~= oldq.update(j, oldq[j].drop_first())
    }
}

/// The stack probed at the given step of the steal rotation.
pub open spec fn rot(k: int, o: int, n: int) -> int {
    if k + o < n {
        k + o
    } else {
        k + o - n
    }
}

/// Receive a message: pop the worker's own stack, newest first; on empty,
/// try to steal the oldest message from each peer in a fixed rotation
/// starting just after the worker's own index, wrapping around.  `None`
/// means every stack was empty.
fn take_msg(queues: &mut Vec<Vec<Msg>>, k: usize) -> (r: Option<Msg>)
    requires
        k < old(queues)@.len(),
        old(queues)@.len() <= usize::MAX / 2,
    ensures
        final(queues)@.len() == old(queues)@.len(),
        match r {
            None => final(queues)@ == old(queues)@ && (forall|j: int|
                0 <= j < old(queues)@.len() ==> (#[trigger] qviews(old(queues)@)[j]).len() == 0),
            Some(m) => exists|j: int|
                take_shape(qviews(old(queues)@), qviews(final(queues)@), k as int, j, m),
        },
{
    let n = queues.len();
    let own_len = queues[k].len();
    if own_len > 0 {
        let mut q = queues.remove(k);
        let m = match q.pop() {
            Some(m) => m,
            None => {
                proof {
                    assert(false);
                }
                return None;
            },
        };
        queues.insert(k, q);
        proof {
            assert(queues@ =~= old(queues)@.update(k as int, queues@[k as int]));
            assert(queues@[k as int]@ == old(queues)@[k as int]@.drop_last());
            assert(qviews(queues@) =~= qviews(old(queues)@).update(
                k as int,
                qviews(old(queues)@)[k as int].drop_last(),
            ));
            assert(take_shape(qviews(old(queues)@), qviews(queues@), k as int, k as int, m));
        }
        return Some(m);
    }
    let mut off: usize = 1;
    while off < n
        invariant
            1 <= off <= n,
            k < n,
            n == queues@.len(),
            n <= usize::MAX / 2,
            queues@ == old(queues)@,
            qviews(queues@)[k as int].len() == 0,
            forall|o: int|
                1 <= o < off ==> qviews(queues@)[#[trigger] rot(k as int, o, n as int)].len() == 0,
        decreases n - off,
    {
        let v = if k + off < n {
            k + off
        } else {
            k + off - n
        };
        proof {
            assert(v as int == rot(k as int, off as int, n as int));
        }
        if queues[v].len() > 0 {
            let mut q = queues.remove(v);
            let m = q.remove(0);
            queues.insert(v, q);
            proof {
                assert(queues@ =~= old(queues)@.update(v as int, queues@[v as int]));
                assert(queues@[v as int]@ == old(queues)@[v as int]@.drop_first());
                assert(qviews(queues@) =~= qviews(old(queues)@).update(
                    v as int,
                    qviews(old(queues)@)[v as int].drop_first(),
                ));
                assert(v != k);
                assert(take_shape(qviews(old(queues)@), qviews(queues@), k as int, v as int, m));
            }
            return Some(m);
        }
        off = off + 1;
    }
    proof {
        assert forall|j: int| 0 <= j < old(queues)@.len() implies (#[trigger] qviews(
            old(queues)@,
        )[j]).len() == 0 by {
            if j != k {
                let o: int = if j > k {
                    j - k
                } else {
                    j - k + n
                };
                assert(1 <= o < n);
                assert(rot(k as int, o, n as int) == j);
            }
        }
    }
    None
}

/// Push a message onto one worker's stack.
fn push_msg(queues: &mut Vec<Vec<Msg>>, k: usize, m: Msg)
    requires
        k < old(queues)@.len(),
    ensures
        final(queues)@.len() == old(queues)@.len(),
        qviews(final(queues)@) =~= qviews(old(queues)@).update(
            k as int,
            qviews(old(queues)@)[k as int].push(m),
        ),
{
    let mut q = queues.remove(k);
    q.push(m);
    queues.insert(k, q);
    proof {
        assert(queues@ =~= old(queues)@.update(k as int, queues@[k as int]));
        assert(queues@[k as int]@ == old(queues)@[k as int]@.push(m));
        assert(qviews(queues@) =~= qviews(old(queues)@).update(
            k as int,
            qviews(old(queues)@)[k as int].push(m),
        ));
    }
}

/// Pushing a message adds exactly its own contribution to a stack.
proof fn lemma_msgs_push(q: Seq<Msg>, m: Msg, max_depth: Option<usize>)
    ensures
        msgs_weight(q.push(m)) == msgs_weight(q) + msg_weight(m),
        msgs_reach(q.push(m), max_depth) =~= msgs_reach(q, max_depth).add(
            msg_reach(m, max_depth),
        ),
        msgs_quits(q.push(m)) == msgs_quits(q) + msg_quit(m),
{
    assert(q.push(m).drop_last() =~= q);
    assert(q.push(m).last() == m);
}

/// A work message never outruns the walk: its depth plus what is left
/// below it stays within the root's height.
pub open spec fn msg_bounded(m: Msg, h: nat) -> bool {
    match m {
        Msg::Work(w) => w.depth + height(w.tree) <= h,
        Msg::Quit => true,
    }
}

pub open spec fn queue_bounded(q: Seq<Msg>, h: nat) -> bool {
    forall|l: int| 0 <= l < q.len() ==> msg_bounded(#[trigger] q[l], h)
}

/// A worker holding a status is counted at least once.
proof fn lemma_count_pos(st: Seq<WStatus>, i: int)
    requires
        0 <= i < st.len(),
    ensures
        count_status(st, st[i]) >= 1,
    decreases st.len(),
{
    if i == st.len() - 1 {
        assert(st.last() == st[i]);
    } else {
        lemma_count_pos(st.drop_last(), i);
        assert(st.drop_last()[i] == st[i]);
    }
}

proof fn lemma_count_le(st: Seq<WStatus>, which: WStatus)
    ensures
        count_status(st, which) <= st.len(),
    decreases st.len(),
{
    if st.len() > 0 {
        lemma_count_le(st.drop_last(), which);
    }
}

/// A short count names a worker with another status.
proof fn lemma_count_not_full_witness(st: Seq<WStatus>, which: WStatus) -> (w: int)
    requires
        count_status(st, which) < st.len(),
    ensures
        0 <= w < st.len() && st[w] != which,
    decreases st.len(),
{
    if st.last() != which {
        st.len() - 1
    } else {
        lemma_count_le(st.drop_last(), which);
        let w = lemma_count_not_full_witness(st.drop_last(), which);
        assert(st.drop_last()[w] == st[w]);
        w
    }
}

/// A full count leaves no worker with another status.
proof fn lemma_count_full(st: Seq<WStatus>, which: WStatus)
    requires
        count_status(st, which) == st.len(),
    ensures
        forall|j: int| 0 <= j < st.len() ==> st[j] == which,
    decreases st.len(),
{
    if st.len() > 0 {
        lemma_count_le(st.drop_last(), which);
        lemma_count_full(st.drop_last(), which);
        assert(forall|j: int| 0 <= j < st.len() - 1 ==> st.drop_last()[j] == st[j]);
        assert(st.last() == st[st.len() - 1]);
    }
}

/// With no walking left anywhere, nothing is owed to the visitor.
proof fn lemma_queues_weightless(qs: Seq<Seq<Msg>>, max_depth: Option<usize>)
    requires
        queues_weight(qs) == 0,
    ensures
        queues_reach(qs, max_depth) =~= Multiset::<EntryV>::empty(),
    decreases qs.len(),
{
    if qs.len() > 0 {
        lemma_queues_weightless(qs.drop_last(), max_depth);
        lemma_weightless_is_quit(qs.last(), max_depth);
    }
}

/// One tuple of the walk's measure is lexicographically below another.
pub open spec fn lex4_lt(
    w: nat,
    q: int,
    d: int,
    a: int,
    w0: nat,
    q0: int,
    d0: int,
    a0: int,
) -> bool {
    w < w0 || (w == w0 && (q < q0 || (q == q0 && (d < d0 || (d == d0 && a < a0)))))
}

pub open spec fn lex4_le(
    w: nat,
    q: int,
    d: int,
    a: int,
    w0: nat,
    q0: int,
    d0: int,
    a0: int,
) -> bool {
    lex4_lt(w, q, d, a, w0, q0, d0, a0) || (w == w0 && q == q0 && d == d0 && a == a0)
}

/// What a finished walk hands back: every visit made, and per worker
/// whether it observed the termination signal.
pub struct WalkOutcome {
    pub visited: Vec<FileEntry>,
    pub quit_seen: Vec<bool>,
}

/// Walk the snapshot in the workers' protocol, one turn at a time, and
/// collect every visit.  Whatever the worker count, the visits are
/// exactly the snapshot's reach under the depth bound, each entry once;
/// the walk terminates, and every worker observes the eventual `Quit`.
#[verifier::rlimit(100)]
pub fn walk_parallel(tree: DirTree, path: &str, max_depth: Option<usize>, workers: usize) -> (r:
    WalkOutcome)
    requires
        1 <= workers <= usize::MAX / 2,
        tree_size(tree) <= usize::MAX,
    ensures
        visited_views(r.visited@).to_multiset() == reach(tree, path@, 0, max_depth),
        r.quit_seen@.len() == workers,
        forall|i: int| 0 <= i < workers ==> r.quit_seen@[i],
{
    let n = workers;
    let ghost target = reach(tree, path@, 0, max_depth);
    let ghost h = height(tree);
    proof {
        lemma_height_le_size(tree);
    }
    let mut queues: Vec<Vec<Msg>> = Vec::new();
    let mut status: Vec<WStatus> = Vec::new();
    let mut quit_seen: Vec<bool> = Vec::new();
    let mut i: usize = 0;
    while i < n
        invariant
            i <= n,
            queues@.len() == i,
            status@.len() == i,
            quit_seen@.len() == i,
            forall|j: int| 0 <= j < i ==> (#[trigger] qviews(queues@)[j]).len() == 0,
            forall|j: int| 0 <= j < i ==> status@[j] == WStatus::Active,
            forall|j: int| 0 <= j < i ==> !quit_seen@[j],
            count_status(status@, WStatus::Active) == i,
            count_status(status@, WStatus::Done) == 0,
        decreases n - i,
    {
        let ghost st_before = status@;
        let ghost qs_before = queues@;
        queues.push(Vec::new());
        status.push(WStatus::Active);
        quit_seen.push(false);
        proof {
            assert(status@.drop_last() =~= st_before);
            assert forall|j: int| 0 <= j <= i implies (#[trigger] qviews(queues@)[j]).len()
                == 0 by {
                if j < i {
                    assert(queues@[j] == qs_before[j]);
                    assert(qviews(qs_before)[j].len() == 0);
                } else {
                    assert(queues@[j]@.len() == 0);
                }
            }
        }
        i = i + 1;
    }
    proof {
        lemma_queues_all_empty(qviews(queues@), max_depth);
    }
    let root = WorkItem { tree, cwd: path.to_owned(), depth: 0 };
    proof {
        assert(msg_bounded(Msg::Work(root), h));
        assert(msg_reach(Msg::Work(root), max_depth) == target);
    }
    let ghost pre_seed = qviews(queues@);
    push_msg(&mut queues, 0, Msg::Work(root));
    let mut active: usize = n;
    let mut done: usize = 0;
    let mut quit_sent: bool = false;
    let mut visited: Vec<FileEntry> = Vec::new();
    proof {
        lemma_msgs_push(pre_seed[0], Msg::Work(root), max_depth);
        lemma_queues_update(pre_seed, 0, pre_seed[0].push(Msg::Work(root)), max_depth);
        assert(pre_seed[0] =~= Seq::<Msg>::empty());
        assert(msgs_reach(pre_seed[0], max_depth) =~= Multiset::<EntryV>::empty());
        assert(msgs_weight(pre_seed[0]) == 0);
        assert(msgs_quits(pre_seed[0]) == 0);
        assert(visited_views(visited@) =~= Seq::<EntryV>::empty());
        assert(Seq::<EntryV>::empty().to_multiset() =~= Multiset::<EntryV>::empty());
        assert(visited_views(visited@).to_multiset().add(
            queues_reach(qviews(queues@), max_depth),
        ) =~= target) by {
            assert forall|v: EntryV|
                visited_views(visited@).to_multiset().add(
                    queues_reach(qviews(queues@), max_depth),
                ).count(v) == target.count(v) by {
                assert(queues_reach(qviews(queues@), max_depth).add(
                    msgs_reach(pre_seed[0], max_depth),
                ).count(v) == queues_reach(pre_seed, max_depth).add(
                    msgs_reach(pre_seed[0].push(Msg::Work(root)), max_depth),
                ).count(v));
                assert(msgs_reach(pre_seed[0], max_depth).add(
                    msg_reach(Msg::Work(root), max_depth),
                ).count(v) == msgs_reach(pre_seed[0].push(Msg::Work(root)), max_depth).count(v));
            }
        }
        assert(forall|j: int| 0 <= j < n ==> queue_bounded(#[trigger] qviews(queues@)[j], h));
    }
    while done < n
        invariant
            n == workers,
            1 <= n <= usize::MAX / 2,
            queues@.len() == n,
            status@.len() == n,
            quit_seen@.len() == n,
            active == count_status(status@, WStatus::Active),
            done == count_status(status@, WStatus::Done),
            done <= n,
            !quit_sent ==> queues_quits(qviews(queues@)) == 0,
            quit_sent ==> queues_quits(qviews(queues@)) == 1,
            quit_sent ==> queues_weight(qviews(queues@)) == 0,
            quit_sent ==> active == 0,
            !quit_sent ==> active >= 1,
            done > 0 ==> quit_sent,
            forall|j: int| 0 <= j < n && status@[j] == WStatus::Done ==> quit_seen@[j],
            visited_views(visited@).to_multiset().add(queues_reach(qviews(queues@), max_depth))
                == target,
            forall|j: int| 0 <= j < n ==> queue_bounded(#[trigger] qviews(queues@)[j], h),
            h <= usize::MAX,
        decreases
                queues_weight(qviews(queues@)),
                (if quit_sent {
                    0int
                } else {
                    1int
                }),
                n - done,
                active,
    {
        let ghost w0 = queues_weight(qviews(queues@));
        let ghost q0: int = if quit_sent {
            0
        } else {
            1
        };
        let ghost d0: int = n - done;
        let ghost a0: int = active as int;
        proof {
            // a worker that can still act exists: with the tombstone out,
            // any unfinished worker will receive it; before that, some
            // worker is active
            let wit = lemma_count_not_full_witness(status@, WStatus::Done);
            if !quit_sent {
                let wit2 = lemma_count_witness(status@, WStatus::Active);
                assert(status@[wit2] != WStatus::Done && status@[wit2] == WStatus::Active);
            }
        }
        let mut k: usize = 0;
        while k < n
            invariant
                n == workers,
                1 <= n <= usize::MAX / 2,
                k <= n,
                queues@.len() == n,
                status@.len() == n,
                quit_seen@.len() == n,
                active == count_status(status@, WStatus::Active),
                done == count_status(status@, WStatus::Done),
                done <= n,
                !quit_sent ==> queues_quits(qviews(queues@)) == 0,
                quit_sent ==> queues_quits(qviews(queues@)) == 1,
                quit_sent ==> queues_weight(qviews(queues@)) == 0,
                quit_sent ==> active == 0,
                !quit_sent ==> active >= 1,
                done > 0 ==> quit_sent,
                forall|j: int| 0 <= j < n && status@[j] == WStatus::Done ==> quit_seen@[j],
                visited_views(visited@).to_multiset().add(
                    queues_reach(qviews(queues@), max_depth),
                ) == target,
                forall|j: int| 0 <= j < n ==> queue_bounded(#[trigger] qviews(queues@)[j], h),
                h <= usize::MAX,
                lex4_le(
                    queues_weight(qviews(queues@)),
                    if quit_sent {
                        0int
                    } else {
                        1int
                    },
                    n - done,
                    active as int,
                    w0,
                    q0,
                    d0,
                    a0,
                ),
                lex4_lt(
                    queues_weight(qviews(queues@)),
                    if quit_sent {
                        0int
                    } else {
                        1int
                    },
                    n - done,
                    active as int,
                    w0,
                    q0,
                    d0,
                    a0,
                ) || exists|j: int|
                    k <= j < n && status@[j] != WStatus::Done && (quit_sent || status@[j]
                        == WStatus::Active),
            decreases n - k,
        {
            let ghost wt = queues_weight(qviews(queues@));
            let ghost qt: int = if quit_sent {
                0
            } else {
                1
            };
            let ghost dt: int = n - done;
            let ghost at: int = active as int;
            let ghost st_pre = status@;
            let st_k = status[k];
            if st_k == WStatus::Done {
                proof {
                    if !lex4_lt(wt, qt, dt, at, w0, q0, d0, a0) {
                        let j = choose|j: int|
                            k <= j < n && st_pre[j] != WStatus::Done && (quit_sent || st_pre[j]
                                == WStatus::Active);
                        assert(j != k);
                        assert(k + 1 <= j < n && status@[j] != WStatus::Done && (quit_sent
                            || status@[j] == WStatus::Active));
                    }
                }
            } else {
                let ghost oldq = qviews(queues@);
                let m_opt = take_msg(&mut queues, k);
                match m_opt {
                    None => {
                        proof {
                            lemma_queues_all_empty(qviews(queues@), max_depth);
                            assert(queues_quits(qviews(queues@)) == 0);
                            assert(!quit_sent);
                            assert(queues_weight(qviews(queues@)) == 0) by {
                                lemma_queues_all_empty(qviews(queues@), max_depth);
                            }
                        }
                        if st_k == WStatus::Active {
                            proof {
                                lemma_count_pos(st_pre, k as int);
                            }
                            active = active - 1;
                            if active == 0 {
                                let ghost mid = qviews(queues@);
                                push_msg(&mut queues, k, Msg::Quit);
                                quit_sent = true;
                                status.set(k, WStatus::Done);
                                quit_seen.set(k, true);
                                done = done + 1;
                                proof {
                                    lemma_count_update(
                                        st_pre,
                                        k as int,
                                        WStatus::Done,
                                        WStatus::Active,
                                    );
                                    lemma_count_update(
                                        st_pre,
                                        k as int,
                                        WStatus::Done,
                                        WStatus::Done,
                                    );
                                    lemma_count_le(status@, WStatus::Done);
                                    lemma_msgs_push(mid[k as int], Msg::Quit, max_depth);
                                    lemma_queues_update(
                                        mid,
                                        k as int,
                                        mid[k as int].push(Msg::Quit),
                                        max_depth,
                                    );
                                    assert(queues_reach(qviews(queues@), max_depth)
                                        =~= queues_reach(mid, max_depth)) by {
                                        assert forall|v: EntryV|
                                            #[trigger] queues_reach(
                                                qviews(queues@),
                                                max_depth,
                                            ).count(v) == queues_reach(mid, max_depth).count(
                                                v,
                                            ) by {
                                            assert(queues_reach(qviews(queues@), max_depth).add(
                                                msgs_reach(mid[k as int], max_depth),
                                            ).count(v) == queues_reach(mid, max_depth).add(
                                                msgs_reach(
                                                    mid[k as int].push(Msg::Quit),
                                                    max_depth,
                                                ),
                                            ).count(v));
                                            assert(msgs_reach(
                                                mid[k as int].push(Msg::Quit),
                                                max_depth,
                                            ).count(v) == msgs_reach(
                                                mid[k as int],
                                                max_depth,
                                            ).add(msg_reach(Msg::Quit, max_depth)).count(v));
                                            assert(msg_reach(Msg::Quit, max_depth).count(v)
                                                == 0);
                                        }
                                    }
                                    assert(visited_views(visited@).to_multiset().add(
                                        queues_reach(qviews(queues@), max_depth),
                                    ) =~= target);
                                    assert(lex4_lt(
                                        queues_weight(qviews(queues@)),
                                        0,
                                        n - done,
                                        active as int,
                                        wt,
                                        qt,
                                        dt,
                                        at,
                                    ));
                                }
                            } else {
                                status.set(k, WStatus::Idle);
                                proof {
                                    lemma_count_update(
                                        st_pre,
                                        k as int,
                                        WStatus::Idle,
                                        WStatus::Active,
                                    );
                                    lemma_count_update(
                                        st_pre,
                                        k as int,
                                        WStatus::Idle,
                                        WStatus::Done,
                                    );
                                }
                            }
                        } else {
                            // an idle worker that finds nothing naps; the
                            // state is unchanged, and a worker that can
                            // make progress has its turn still to come
                            proof {
                                if !lex4_lt(wt, qt, dt, at, w0, q0, d0, a0) {
                                    let j = choose|j: int|
                                        k <= j < n && st_pre[j] != WStatus::Done && (quit_sent
                                            || st_pre[j] == WStatus::Active);
                                    assert(j != k);
                                }
                            }
                        }
                    },
                    Some(m) => {
                        let ghost jj = choose|j: int|
                            take_shape(oldq, qviews(queues@), k as int, j, m);
                        proof {
                            if jj == k as int {
                                assert(oldq[jj].drop_last().push(oldq[jj].last())
                                    =~= oldq[jj]);
                                lemma_msgs_push(oldq[jj].drop_last(), m, max_depth);
                                lemma_queues_update(
                                    oldq,
                                    jj,
                                    oldq[jj].drop_last(),
                                    max_depth,
                                );
                                assert(forall|l: int|
                                    0 <= l < oldq[jj].drop_last().len()
                                        ==> oldq[jj].drop_last()[l] == oldq[jj][l]);
                                assert(m == oldq[jj][oldq[jj].len() - 1]);
                            } else {
                                lemma_msgs_front(oldq[jj], max_depth);
                                lemma_queues_update(
                                    oldq,
                                    jj,
                                    oldq[jj].drop_first(),
                                    max_depth,
                                );
                                assert(forall|l: int|
                                    0 <= l < oldq[jj].drop_first().len()
                                        ==> oldq[jj].drop_first()[l] == oldq[jj][l + 1]);
                            }
                            assert(queue_bounded(oldq[jj], h));
                            assert(msg_bounded(m, h));
                            assert(queues_weight(qviews(queues@)) + msg_weight(m) == wt);
                            let ghost sub = if jj == k as int {
                                oldq[jj].drop_last()
                            } else {
                                oldq[jj].drop_first()
                            };
                            assert(queues_reach(qviews(queues@), max_depth).add(
                                msg_reach(m, max_depth),
                            ) =~= queues_reach(oldq, max_depth)) by {
                                assert forall|v: EntryV|
                                    queues_reach(qviews(queues@), max_depth).add(
                                        msg_reach(m, max_depth),
                                    ).count(v) == queues_reach(oldq, max_depth).count(v) by {
                                    assert(queues_reach(qviews(queues@), max_depth).add(
                                        msgs_reach(oldq[jj], max_depth),
                                    ).count(v) == queues_reach(oldq, max_depth).add(
                                        msgs_reach(sub, max_depth),
                                    ).count(v));
                                    assert(msgs_reach(sub, max_depth).add(
                                        msg_reach(m, max_depth),
                                    ).count(v) == msgs_reach(oldq[jj], max_depth).count(v));
                                }
                            }
                            assert(queues_quits(qviews(queues@)) + msg_quit(m) == queues_quits(
                                oldq,
                            ));
                            assert(forall|j2: int|
                                0 <= j2 < n ==> queue_bounded(#[trigger] qviews(queues@)[j2], h));
                        }
                        match m {
                            Msg::Quit => {
                                proof {
                                    assert(quit_sent);
                                    assert(st_k != WStatus::Active) by {
                                        if st_pre[k as int] == WStatus::Active {
                                            lemma_count_pos(st_pre, k as int);
                                        }
                                    }
                                }
                                let ghost mid = qviews(queues@);
                                proof {
                                    assert(queues_reach(mid, max_depth) =~= queues_reach(
                                        oldq,
                                        max_depth,
                                    )) by {
                                        assert forall|v: EntryV|
                                            #[trigger] queues_reach(mid, max_depth).count(v)
                                                == queues_reach(oldq, max_depth).count(v) by {
                                            assert(queues_reach(mid, max_depth).add(
                                                msg_reach(m, max_depth),
                                            ).count(v) == queues_reach(oldq, max_depth).count(
                                                v,
                                            ));
                                            assert(msg_reach(m, max_depth).count(v) == 0);
                                        }
                                    }
                                }
                                push_msg(&mut queues, k, Msg::Quit);
                                quit_seen.set(k, true);
                                status.set(k, WStatus::Done);
                                done = done + 1;
                                proof {
                                    lemma_count_update(
                                        st_pre,
                                        k as int,
                                        WStatus::Done,
                                        WStatus::Active,
                                    );
                                    lemma_count_update(
                                        st_pre,
                                        k as int,
                                        WStatus::Done,
                                        WStatus::Done,
                                    );
                                    lemma_count_le(status@, WStatus::Done);
                                    lemma_msgs_push(mid[k as int], Msg::Quit, max_depth);
                                    lemma_queues_update(
                                        mid,
                                        k as int,
                                        mid[k as int].push(Msg::Quit),
                                        max_depth,
                                    );
                                    assert(queues_reach(qviews(queues@), max_depth)
                                        =~= queues_reach(mid, max_depth)) by {
                                        assert forall|v: EntryV|
                                            #[trigger] queues_reach(
                                                qviews(queues@),
                                                max_depth,
                                            ).count(v) == queues_reach(mid, max_depth).count(
                                                v,
                                            ) by {
                                            assert(queues_reach(qviews(queues@), max_depth).add(
                                                msgs_reach(mid[k as int], max_depth),
                                            ).count(v) == queues_reach(mid, max_depth).add(
                                                msgs_reach(
                                                    mid[k as int].push(Msg::Quit),
                                                    max_depth,
                                                ),
                                            ).count(v));
                                            assert(msgs_reach(
                                                mid[k as int].push(Msg::Quit),
                                                max_depth,
                                            ).count(v) == msgs_reach(
                                                mid[k as int],
                                                max_depth,
                                            ).add(msg_reach(Msg::Quit, max_depth)).count(v));
                                            assert(msg_reach(Msg::Quit, max_depth).count(v)
                                                == 0);
                                        }
                                    }
                                    assert(visited_views(visited@).to_multiset().add(
                                        queues_reach(qviews(queues@), max_depth),
                                    ) =~= target);
                                    assert(lex4_lt(
                                        queues_weight(qviews(queues@)),
                                        0,
                                        n - done,
                                        active as int,
                                        wt,
                                        qt,
                                        dt,
                                        at,
                                    ));
                                }
                            },
                            Msg::Work(w) => {
                                proof {
                                    assert(!quit_sent) by {
                                        if quit_sent {
                                            assert(queues_weight(oldq) == 0);
                                            assert(msg_weight(m) >= 1);
                                        }
                                    }
                                }
                                if st_k == WStatus::Idle {
                                    proof {
                                        lemma_count_le(st_pre, WStatus::Active);
                                    }
                                    status.set(k, WStatus::Active);
                                    active = active + 1;
                                    proof {
                                        lemma_count_update(
                                            st_pre,
                                            k as int,
                                            WStatus::Active,
                                            WStatus::Active,
                                        );
                                        lemma_count_update(
                                            st_pre,
                                            k as int,
                                            WStatus::Active,
                                            WStatus::Done,
                                        );
                                    }
                                }
                                let ghost mid = qviews(queues@);
                                let ghost qr_mid = queues_reach(qviews(queues@), max_depth);
                                let ghost vis0 = visited_views(visited@).to_multiset();
                                let WorkItem { tree: wtree, cwd, depth } = w;
                                let ghost wtree0 = wtree;
                                let DirTree { entry, children: cvec } = wtree;
                                let mut children = cvec;
                                let ghost cs0 = children@;
                                let abs = dir_path(cwd.as_str(), entry.name.as_str());
                                let ghost absv = spec_dir_path(cwd@, entry.name@);
                                let ve = FileEntry {
                                    name: abs.clone(),
                                    type_: entry.type_,
                                    attributes: crate::files::clone_attrs(&entry.attributes),
                                };
                                proof {
                                    assert(entry_view(ve) == entry_at(entry, absv));
                                }
                                let ghost vispre = visited@;
                                visited.push(ve);
                                proof {
                                    assert(visited@.drop_last() =~= vispre);
                                    assert(visited_views(visited@) =~= visited_views(
                                        vispre,
                                    ).push(entry_view(ve)));
                                    assert(visited_views(vispre).push(
                                        entry_view(ve),
                                    ).to_multiset() == visited_views(vispre).to_multiset().insert(
                                        entry_view(ve),
                                    ));
                                    assert(visited_views(visited@).to_multiset() =~= vis0.insert(
                                        entry_at(entry, absv),
                                    ));
                                }
                                let expand = entry.is_dir() && match max_depth {
                                    None => true,
                                    Some(md) => depth < md,
                                };
                                proof {
                                    assert(expand == (entry.type_ == EntryKind::Dir && depth_ok(
                                        depth as nat,
                                        max_depth,
                                    )));
                                    assert(reach(wtree0, cwd@, depth as nat, max_depth)
                                        == Multiset::singleton(entry_at(entry, absv)).add(
                                        if expand {
                                            reach_children(
                                                cs0,
                                                absv,
                                                (depth + 1) as nat,
                                                max_depth,
                                            )
                                        } else {
                                            Multiset::empty()
                                        },
                                    ));
                                    assert(depth + height(wtree0) <= h);
                                    assert(height(wtree0) == 1 + height_children(cs0));
                                }
                                if expand {
                                    let ghost g_reach = queues_reach(qviews(queues@), max_depth);
                                    let ghost g_weight = queues_weight(qviews(queues@));
                                    let ghost g_quits = queues_quits(qviews(queues@));
                                    loop
                                        invariant
                                            queues@.len() == n,
                                            k < n,
                                            1 <= n,
                                            abs@ == absv,
                                            depth + 1 + height_children(children@) <= h,
                                            h <= usize::MAX,
                                            queues_weight(qviews(queues@))
                                                + tree_size_children(children@) == g_weight
                                                + tree_size_children(cs0),
                                            queues_reach(qviews(queues@), max_depth).add(
                                                reach_children(
                                                    children@,
                                                    absv,
                                                    (depth + 1) as nat,
                                                    max_depth,
                                                ),
                                            ) =~= g_reach.add(
                                                reach_children(
                                                    cs0,
                                                    absv,
                                                    (depth + 1) as nat,
                                                    max_depth,
                                                ),
                                            ),
                                            queues_quits(qviews(queues@)) == g_quits,
                                            forall|j2: int|
                                                0 <= j2 < n ==> queue_bounded(
                                                    #[trigger] qviews(queues@)[j2],
                                                    h,
                                                ),
                                        ensures
                                            children@.len() == 0,
                                            queues@.len() == n,
                                            queues_weight(qviews(queues@)) == g_weight
                                                + tree_size_children(cs0),
                                            queues_reach(qviews(queues@), max_depth) =~= g_reach
                                                .add(
                                                reach_children(
                                                    cs0,
                                                    absv,
                                                    (depth + 1) as nat,
                                                    max_depth,
                                                ),
                                            ),
                                            queues_quits(qviews(queues@)) == g_quits,
                                            forall|j2: int|
                                                0 <= j2 < n ==> queue_bounded(
                                                    #[trigger] qviews(queues@)[j2],
                                                    h,
                                                ),
                                        decreases children@.len(),
                                    {
                                        let ghost cpre = children@;
                                        let c = match children.pop() {
                                            Some(c) => c,
                                            None => {
                                                proof {
                                                    assert(reach_children(
                                                        children@,
                                                        absv,
                                                        (depth + 1) as nat,
                                                        max_depth,
                                                    ) =~= Multiset::<EntryV>::empty());
                                                }
                                                break;
                                            },
                                        };
                                        proof {
                                            assert(children@ =~= cpre.drop_last());
                                            assert(c == cpre.last());
                                            assert(height(c) <= height_children(cpre));
                                            assert(depth + 1 + height(c) <= h);
                                            assert(height(c) >= 1);
                                        }
                                        let cw = abs.clone();
                                        proof {
                                            assert(cw@ == absv);
                                        }
                                        let child = WorkItem {
                                            tree: c,
                                            cwd: cw,
                                            depth: depth + 1,
                                        };
                                        let ghost qpre = qviews(queues@);
                                        push_msg(&mut queues, k, Msg::Work(child));
                                        proof {
                                            lemma_msgs_push(
                                                qpre[k as int],
                                                Msg::Work(child),
                                                max_depth,
                                            );
                                            lemma_queues_update(
                                                qpre,
                                                k as int,
                                                qpre[k as int].push(Msg::Work(child)),
                                                max_depth,
                                            );
                                            assert(msg_reach(Msg::Work(child), max_depth)
                                                == reach(
                                                c,
                                                absv,
                                                (depth + 1) as nat,
                                                max_depth,
                                            ));
                                            assert(msg_bounded(Msg::Work(child), h));
                                            assert(tree_size_children(cpre)
                                                == tree_size_children(children@) + tree_size(c));
                                            assert(reach_children(
                                                cpre,
                                                absv,
                                                (depth + 1) as nat,
                                                max_depth,
                                            ) =~= reach_children(
                                                children@,
                                                absv,
                                                (depth + 1) as nat,
                                                max_depth,
                                            ).add(reach(c, absv, (depth + 1) as nat, max_depth)));
                                            assert(queues_reach(qviews(queues@), max_depth).add(
                                                reach_children(
                                                    children@,
                                                    absv,
                                                    (depth + 1) as nat,
                                                    max_depth,
                                                ),
                                            ) =~= g_reach.add(
                                                reach_children(
                                                    cs0,
                                                    absv,
                                                    (depth + 1) as nat,
                                                    max_depth,
                                                ),
                                            )) by {
                                                let lhs = queues_reach(
                                                    qviews(queues@),
                                                    max_depth,
                                                ).add(
                                                    reach_children(
                                                        children@,
                                                        absv,
                                                        (depth + 1) as nat,
                                                        max_depth,
                                                    ),
                                                );
                                                let rhs = g_reach.add(
                                                    reach_children(
                                                        cs0,
                                                        absv,
                                                        (depth + 1) as nat,
                                                        max_depth,
                                                    ),
                                                );
                                                assert forall|v: EntryV| #[trigger] lhs.count(v)
                                                    == rhs.count(v) by {
                                                    assert(queues_reach(
                                                        qviews(queues@),
                                                        max_depth,
                                                    ).add(msgs_reach(qpre[k as int], max_depth))
                                                        .count(v) == queues_reach(
                                                        qpre,
                                                        max_depth,
                                                    ).add(
                                                        msgs_reach(
                                                            qpre[k as int].push(Msg::Work(child)),
                                                            max_depth,
                                                        ),
                                                    ).count(v));
                                                    assert(msgs_reach(
                                                        qpre[k as int],
                                                        max_depth,
                                                    ).add(msg_reach(Msg::Work(child), max_depth))
                                                        .count(v) == msgs_reach(
                                                        qpre[k as int].push(Msg::Work(child)),
                                                        max_depth,
                                                    ).count(v));
                                                    assert(queues_reach(qpre, max_depth).add(
                                                        reach_children(
                                                            cpre,
                                                            absv,
                                                            (depth + 1) as nat,
                                                            max_depth,
                                                        ),
                                                    ).count(v) == g_reach.add(
                                                        reach_children(
                                                            cs0,
                                                            absv,
                                                            (depth + 1) as nat,
                                                            max_depth,
                                                        ),
                                                    ).count(v));
                                                    assert(reach_children(
                                                        cpre,
                                                        absv,
                                                        (depth + 1) as nat,
                                                        max_depth,
                                                    ).count(v) == reach_children(
                                                        children@,
                                                        absv,
                                                        (depth + 1) as nat,
                                                        max_depth,
                                                    ).add(
                                                        reach(
                                                            c,
                                                            absv,
                                                            (depth + 1) as nat,
                                                            max_depth,
                                                        ),
                                                    ).count(v));
                                                }
                                                assert(lhs =~= rhs);
                                            }
                                        }
                                    }
                                }
                                proof {
                                    assert(tree_size(wtree0) == 1 + tree_size_children(cs0));
                                    assert(queues_weight(qviews(queues@)) < wt);
                                    let x = if expand {
                                        reach_children(cs0, absv, (depth + 1) as nat, max_depth)
                                    } else {
                                        Multiset::<EntryV>::empty()
                                    };
                                    let qrf = queues_reach(qviews(queues@), max_depth);
                                    assert(qrf =~= qr_mid.add(x)) by {
                                        if !expand {
                                            assert forall|v: EntryV| #[trigger] qrf.count(v)
                                                == qr_mid.add(x).count(v) by {
                                                assert(x.count(v) == 0);
                                            }
                                        }
                                    }
                                    let visf = visited_views(visited@).to_multiset();
                                    assert(visf.add(qrf) =~= target) by {
                                        assert forall|v: EntryV| #[trigger] visf.add(qrf).count(
                                            v,
                                        ) == target.count(v) by {
                                            assert(vis0.add(queues_reach(oldq, max_depth)).count(
                                                v,
                                            ) == target.count(v));
                                            assert(qr_mid.add(msg_reach(m, max_depth)).count(v)
                                                == queues_reach(oldq, max_depth).count(v));
                                            assert(msg_reach(m, max_depth).count(v)
                                                == Multiset::singleton(
                                                entry_at(entry, absv),
                                            ).add(x).count(v));
                                            assert(visf.count(v) == vis0.insert(
                                                entry_at(entry, absv),
                                            ).count(v));
                                            assert(qrf.count(v) == qr_mid.add(x).count(v));
                                        }
                                    }
                                    assert(visited_views(visited@).to_multiset().add(
                                        queues_reach(qviews(queues@), max_depth),
                                    ) =~= target);
                                    assert(lex4_lt(
                                        queues_weight(qviews(queues@)),
                                        if quit_sent {
                                            0int
                                        } else {
                                            1int
                                        },
                                        n - done,
                                        active as int,
                                        wt,
                                        qt,
                                        dt,
                                        at,
                                    ));
                                }
                            },
                        }
                    },
                }
            }
            k = k + 1;
        }
        proof {
            assert(lex4_lt(
                queues_weight(qviews(queues@)),
                if quit_sent {
                    0int
                } else {
                    1int
                },
                n - done,
                active as int,
                w0,
                q0,
                d0,
                a0,
            ));
        }
    }
    proof {
        lemma_count_full(status@, WStatus::Done);
        assert(quit_sent);
        lemma_queues_weightless(qviews(queues@), max_depth);
        assert(visited_views(visited@).to_multiset() =~= target);
    }
    WalkOutcome { visited, quit_seen }
}

/// The walk's configuration, as callers assemble it: the root path, the
/// depth bounds and the worker count.  Auto-detecting a worker count and
/// holding the connection are the caller's business; the walk takes the
/// resolved count and the snapshot.  No lower depth bound is applied; the
/// field is carried for the callers that set it.
pub struct WalkParallel {
    pub path: String,
    pub max_depth: Option<usize>,
    pub min_depth: Option<usize>,
    pub threads: usize,
}

impl WalkParallel {
    /// Walk the snapshot under this configuration.
    pub fn run(self, tree: DirTree) -> (r: WalkOutcome)
        requires
            1 <= self.threads <= usize::MAX / 2,
            tree_size(tree) <= usize::MAX,
        ensures
            visited_views(r.visited@).to_multiset() == reach(tree, self.path@, 0, self.max_depth),
            r.quit_seen@.len() == self.threads,
            forall|i: int| 0 <= i < self.threads ==> r.quit_seen@[i],
    {
        walk_parallel(tree, self.path.as_str(), self.max_depth, self.threads)
    }
}

} // verus!
