//! What holds of the operations across the whole tree, proved from their models.
use vstd::prelude::*;
use crate::task_file::{moved, resolved_all, swapped, to_index};
use crate::tree::{
    all_done, children_done, inserted, is_prefix, lemma_replaced_elsewhere, lemma_replaced_here,
    lemma_slot_after_removal, marked_list, marked_node, nested, node_at, removed, replaced,
    shifted, valid_path, valid_slot, TaskView,
};

verus! {

/// Adding a subtask beneath the task at `p` leaves that task not done, and its
/// subtasks are the old ones, unchanged, with the new one put in at `at`.
pub proof fn lemma_add_subtask_undoes_parent(ts: Seq<TaskView>, p: Seq<usize>, at: usize, x: TaskView)
    requires
        valid_path(ts, p),
        at <= node_at(ts, p).subtasks.len(),
    ensures
        valid_path(inserted(ts, p.push(at), x, true), p),
        node_at(inserted(ts, p.push(at), x, true), p) == (TaskView {
            contents: node_at(ts, p).contents,
            done: false,
            subtasks: node_at(ts, p).subtasks.insert(at as int, x),
        }),
    decreases p.len(),
{
    let q = p.push(at);
    let n = ts[p[0] as int];
    let r = inserted(ts, q, x, true);
    assert(q[0] == p[0]);
    if p.len() == 1 {
        assert(q.drop_first() =~= seq![at]);
        assert(inserted(n.subtasks, q.drop_first(), x, true) == n.subtasks.insert(at as int, x));
        assert(r[p[0] as int] == TaskView {
            contents: n.contents,
            done: false,
            subtasks: n.subtasks.insert(at as int, x),
        });
    } else {
        assert(q.drop_first() =~= p.drop_first().push(at));
        lemma_add_subtask_undoes_parent(ts[p[0] as int].subtasks, p.drop_first(), at, x);
    }
}

/// Inserting at slot `q` puts the task there.
proof fn lemma_inserted_here(ts: Seq<TaskView>, q: Seq<usize>, x: TaskView, undo: bool)
    requires
        valid_slot(ts, q),
    ensures
        valid_path(inserted(ts, q, x, undo), q),
        node_at(inserted(ts, q, x, undo), q) == x,
    decreases q.len(),
{
    if q.len() > 1 {
        lemma_inserted_here(ts[q[0] as int].subtasks, q.drop_first(), x, undo);
    }
}

/// A moved task keeps its whole subtree: at its new place stands the very node
/// that stood at its old one.
pub proof fn lemma_move_keeps_subtree(ts: Seq<TaskView>, p: Seq<usize>, q: Seq<usize>)
    requires
        valid_path(ts, p),
        valid_slot(ts, q),
        !nested(p, q),
    ensures
        valid_path(moved(ts, p, q), shifted(p, q)),
        node_at(moved(ts, p, q), shifted(p, q)) == node_at(ts, p),
{
    lemma_slot_after_removal(ts, p, q);
    lemma_inserted_here(removed(ts, p), shifted(p, q), node_at(ts, p), false);
}

/// After a swap each of the two nodes, with its subtree, stands where the
/// other stood.
pub proof fn lemma_swap_exchanges_subtrees(ts: Seq<TaskView>, p: Seq<usize>, q: Seq<usize>)
    requires
        valid_path(ts, p),
        valid_path(ts, q),
        !is_prefix(p, q),
        !is_prefix(q, p),
    ensures
        valid_path(swapped(ts, p, q), p),
        valid_path(swapped(ts, p, q), q),
        node_at(swapped(ts, p, q), p) == node_at(ts, q),
        node_at(swapped(ts, p, q), q) == node_at(ts, p),
{
    let t1 = replaced(ts, p, node_at(ts, q), false);
    lemma_replaced_here(ts, p, node_at(ts, q), false);
    lemma_replaced_elsewhere(ts, p, q, node_at(ts, q), false);
    lemma_replaced_here(t1, q, node_at(ts, p), false);
    lemma_replaced_elsewhere(t1, q, p, node_at(ts, p), false);
}

/// Beneath a node made all done, every node is all done.
proof fn lemma_all_done_at(n: TaskView, p: Seq<usize>)
    requires
        valid_path(n.subtasks, p),
    ensures
        valid_path(all_done(n).subtasks, p),
        node_at(all_done(n).subtasks, p) == all_done(node_at(n.subtasks, p)),
    decreases p.len(),
{
    if p.len() > 1 {
        lemma_all_done_at(n.subtasks[p[0] as int], p.drop_first());
    }
}

/// Marking done: every marked task ends up done, and so does every task
/// beneath it.
pub proof fn lemma_mark_done_cascades(ts: Seq<TaskView>, ps: Seq<Seq<usize>>, p: Seq<usize>)
    requires
        valid_path(ts, p),
        ps.contains(p),
    ensures
        valid_path(marked_list(ts, |q: Seq<usize>| ps.contains(q), true), p),
        node_at(marked_list(ts, |q: Seq<usize>| ps.contains(q), true), p) == all_done(node_at(ts, p)),
{
    lemma_marked_done_at(ts, |q: Seq<usize>| ps.contains(q), p);
}

proof fn lemma_marked_done_at(ts: Seq<TaskView>, hit: spec_fn(Seq<usize>) -> bool, p: Seq<usize>)
    requires
        valid_path(ts, p),
        hit(p),
    ensures
        valid_path(marked_list(ts, hit, true), p),
        node_at(marked_list(ts, hit, true), p) == all_done(node_at(ts, p)),
    decreases p.len(),
{
    let i = p[0];
    let h0 = |q: Seq<usize>| hit(seq![i] + q);
    let n = ts[i as int];
    let m = marked_list(ts, hit, true);
    assert(m[i as int] == marked_node(n, h0, true));
    if p.len() == 1 {
        assert(seq![i] + Seq::<usize>::empty() =~= p);
    } else {
        let rest = p.drop_first();
        assert(seq![i] + rest =~= p);
        assert(h0(rest));
        if h0(Seq::empty()) {
            lemma_all_done_at(n, rest);
        } else {
            assert(marked_node(n, h0, true).subtasks =~= marked_list(n.subtasks, h0, true));
            lemma_marked_done_at(n.subtasks, h0, rest);
        }
    }
}

/// Marking not done: a marked task with nothing marked beneath it ends up not
/// done, and every task beneath it keeps its flag.
pub proof fn lemma_unmark_keeps_descendants(ts: Seq<TaskView>, ps: Seq<Seq<usize>>, p: Seq<usize>)
    requires
        valid_path(ts, p),
        ps.contains(p),
        forall|q: Seq<usize>| ps.contains(q) ==> !nested(p, q),
    ensures
        valid_path(marked_list(ts, |q: Seq<usize>| ps.contains(q), false), p),
        node_at(marked_list(ts, |q: Seq<usize>| ps.contains(q), false), p) == (TaskView {
            contents: node_at(ts, p).contents,
            done: false,
            subtasks: node_at(ts, p).subtasks,
        }),
{
    let hit = |q: Seq<usize>| ps.contains(q);
    assert forall|q: Seq<usize>| q.len() > 0 implies !hit(p + q) by {
        assert((p + q).take(p.len() as int) =~= p);
        if hit(p + q) {
            assert(nested(p, p + q));
        }
    }
    lemma_unmarked_at(ts, hit, p);
}

proof fn lemma_unmarked_at(ts: Seq<TaskView>, hit: spec_fn(Seq<usize>) -> bool, p: Seq<usize>)
    requires
        valid_path(ts, p),
        hit(p),
        forall|q: Seq<usize>| q.len() > 0 ==> !hit(p + q),
    ensures
        valid_path(marked_list(ts, hit, false), p),
        node_at(marked_list(ts, hit, false), p) == (TaskView {
            contents: node_at(ts, p).contents,
            done: false,
            subtasks: node_at(ts, p).subtasks,
        }),
    decreases p.len(),
{
    let i = p[0];
    let h0 = |q: Seq<usize>| hit(seq![i] + q);
    let n = ts[i as int];
    let m = marked_list(ts, hit, false);
    assert(m[i as int] == marked_node(n, h0, false));
    if p.len() == 1 {
        assert(seq![i] + Seq::<usize>::empty() =~= p);
        assert forall|q: Seq<usize>| q.len() > 0 implies !#[trigger] h0(q) by {
            assert(seq![i] + q =~= p + q);
        }
    } else {
        let rest = p.drop_first();
        assert(seq![i] + rest =~= p);
        assert(h0(rest));
        assert(marked_node(n, h0, false).subtasks =~= marked_list(n.subtasks, h0, false));
        assert forall|q: Seq<usize>| q.len() > 0 implies !h0(rest + q) by {
            assert(seq![i] + (rest + q) =~= p + q);
        }
        lemma_unmarked_at(n.subtasks, h0, rest);
    }
}

/// Down a path on which no task is marked, to a task with a marked task
/// beneath it, marking acts on that task as on a tree of its own.
proof fn lemma_marked_along(ts: Seq<TaskView>, hit: spec_fn(Seq<usize>) -> bool, done: bool, p: Seq<usize>, q0: Seq<usize>)
    requires
        valid_path(ts, p),
        q0.len() > 0,
        hit(p + q0),
        forall|k: int| 1 <= k <= p.len() ==> !hit(#[trigger] p.take(k)),
    ensures
        valid_path(marked_list(ts, hit, done), p),
        node_at(marked_list(ts, hit, done), p) == marked_node(node_at(ts, p), |q: Seq<usize>| hit(p + q), done),
    decreases p.len(),
{
    let i = p[0];
    let h0 = |q: Seq<usize>| hit(seq![i] + q);
    let n = ts[i as int];
    let rest = p.drop_first();
    assert(marked_list(ts, hit, done)[i as int] == marked_node(n, h0, done));
    assert(p.take(1) =~= seq![i]);
    assert(seq![i] + Seq::<usize>::empty() =~= seq![i]);
    assert(!h0(Seq::empty()));
    assert(seq![i] + (rest + q0) =~= p + q0);
    assert(h0(rest + q0));
    assert(marked_node(n, h0, done).subtasks =~= marked_list(n.subtasks, h0, done));
    if p.len() == 1 {
        assert forall|q: Seq<usize>| #[trigger] h0(q) == hit(p + q) by {
            assert(seq![i] + q =~= p + q);
        }
        assert(h0 =~= (|q: Seq<usize>| hit(p + q)));
    } else {
        assert forall|k: int| 1 <= k <= rest.len() implies !h0(#[trigger] rest.take(k)) by {
            assert(seq![i] + rest.take(k) =~= p.take(k + 1));
        }
        lemma_marked_along(n.subtasks, h0, done, rest, q0);
        assert forall|q: Seq<usize>| #[trigger] h0(rest + q) == hit(p + q) by {
            assert(seq![i] + (rest + q) =~= p + q);
        }
        assert((|q: Seq<usize>| h0(rest + q)) =~= (|q: Seq<usize>| hit(p + q)));
    }
}

/// Roll-up: after marking a subtask of the task at `p`, with neither that task
/// nor any above it marked, the task at `p` is done exactly when all its
/// subtasks are; where the marking was to not done, it is not done.
pub proof fn lemma_rollup(ts: Seq<TaskView>, ps: Seq<Seq<usize>>, p: Seq<usize>, j: usize, done: bool)
    requires
        valid_path(ts, p),
        j < node_at(ts, p).subtasks.len(),
        ps.contains(p.push(j)),
        forall|k: int| 1 <= k <= p.len() ==> !ps.contains(#[trigger] p.take(k)),
    ensures
        valid_path(marked_list(ts, |q: Seq<usize>| ps.contains(q), done), p),
        node_at(marked_list(ts, |q: Seq<usize>| ps.contains(q), done), p).done == children_done(
            node_at(marked_list(ts, |q: Seq<usize>| ps.contains(q), done), p).subtasks,
        ),
        !done ==> !node_at(marked_list(ts, |q: Seq<usize>| ps.contains(q), done), p).done,
{
    let hit = |q: Seq<usize>| ps.contains(q);
    assert(p + seq![j] =~= p.push(j));
    lemma_marked_along(ts, hit, done, p, seq![j]);
    let n = node_at(ts, p);
    let hp = |q: Seq<usize>| hit(p + q);
    assert(!hp(Seq::empty())) by {
        assert(p + Seq::<usize>::empty() =~= p.take(p.len() as int));
    }
    assert(hp(seq![j]));
    let m = marked_node(n, hp, done);
    let hj = |q: Seq<usize>| hp(seq![j] + q);
    assert(hj(Seq::empty())) by {
        assert(seq![j] + Seq::<usize>::empty() =~= seq![j]);
    }
    assert(m.subtasks[j as int] == marked_node(n.subtasks[j as int], hj, done));
    if !done {
        assert(!m.subtasks[j as int].done);
    }
}

proof fn lemma_all_done_twice(n: TaskView)
    ensures
        all_done(all_done(n)) == all_done(n),
    decreases n,
{
    assert forall|i: int| 0 <= i < n.subtasks.len() implies #[trigger] all_done(all_done(n)).subtasks[i] == all_done(n).subtasks[i] by {
        lemma_all_done_twice(n.subtasks[i]);
    }
    assert(all_done(all_done(n)).subtasks =~= all_done(n).subtasks);
}

proof fn lemma_marked_node_twice(n: TaskView, hit: spec_fn(Seq<usize>) -> bool)
    ensures
        marked_node(marked_node(n, hit, true), hit, true) == marked_node(n, hit, true),
    decreases n,
{
    let m = marked_node(n, hit, true);
    if hit(Seq::empty()) {
        lemma_all_done_twice(n);
    } else if exists|q: Seq<usize>| q.len() > 0 && #[trigger] hit(q) {
        let mm = marked_node(m, hit, true);
        assert forall|i: int| 0 <= i < n.subtasks.len() implies #[trigger] mm.subtasks[i] == m.subtasks[i] by {
            lemma_marked_node_twice(n.subtasks[i], |q: Seq<usize>| hit(seq![i as usize] + q));
        }
        assert(mm.subtasks =~= m.subtasks);
    }
}

/// Marking keeps the shape of the tree: a path that named a node still does.
proof fn lemma_marked_keeps_paths(ts: Seq<TaskView>, hit: spec_fn(Seq<usize>) -> bool, done: bool, p: Seq<usize>)
    requires
        valid_path(ts, p),
    ensures
        valid_path(marked_list(ts, hit, done), p),
    decreases p.len(),
{
    if p.len() > 1 {
        let i = p[0];
        let h0 = |q: Seq<usize>| hit(seq![i] + q);
        let n = ts[i as int];
        let rest = p.drop_first();
        assert(marked_list(ts, hit, done)[i as int] == marked_node(n, h0, done));
        if h0(Seq::empty()) && done {
            lemma_all_done_at(n, rest);
        } else if exists|q: Seq<usize>| q.len() > 0 && #[trigger] h0(q) {
            assert(marked_node(n, h0, done).subtasks =~= marked_list(n.subtasks, h0, done));
            lemma_marked_keeps_paths(n.subtasks, h0, done, rest);
        }
    }
}

/// Marking the same tasks done a second time changes nothing: the ids still
/// name the same tasks, and the tree stays as the first marking left it.
pub proof fn lemma_mark_done_idempotent(ts: Seq<TaskView>, s: Seq<char>)
    requires
        resolved_all(ts, s) is Ok,
    ensures
        ({
            let ps = resolved_all(ts, s)->Ok_0;
            let once = marked_list(ts, |q: Seq<usize>| ps.contains(q), true);
            &&& resolved_all(once, s) == resolved_all(ts, s)
            &&& marked_list(once, |q: Seq<usize>| ps.contains(q), true) == once
        }),
{
    let ps = resolved_all(ts, s)->Ok_0;
    let hit = |q: Seq<usize>| ps.contains(q);
    let once = marked_list(ts, hit, true);
    let ids = crate::id::id_list_of(s)->0;
    assert forall|k: int| 0 <= k < ids.len() implies valid_path(once, to_index(#[trigger] ids[k])) by {
        lemma_marked_keeps_paths(ts, hit, true, to_index(ids[k]));
    }
    assert forall|i: int| 0 <= i < ts.len() implies #[trigger] marked_list(once, hit, true)[i] == once[i] by {
        lemma_marked_node_twice(ts[i], |q: Seq<usize>| hit(seq![i as usize] + q));
    }
    assert(marked_list(once, hit, true) =~= once);
}

/// The list that path `a` leads to: the root list when `a` is empty, else the
/// subtasks of the node at `a`.
pub open spec fn list_at(ts: Seq<TaskView>, a: Seq<usize>) -> Seq<TaskView> {
    if a.len() == 0 {
        ts
    } else {
        node_at(ts, a).subtasks
    }
}

proof fn lemma_removed_in_list(ts: Seq<TaskView>, a: Seq<usize>, i: usize)
    requires
        a.len() == 0 || valid_path(ts, a),
        i < list_at(ts, a).len(),
    ensures
        a.len() == 0 || valid_path(removed(ts, a.push(i)), a),
        list_at(removed(ts, a.push(i)), a) == list_at(ts, a).remove(i as int),
    decreases a.len(),
{
    let p = a.push(i);
    if a.len() == 0 {
        assert(p =~= seq![i]);
    } else {
        let n = ts[a[0] as int];
        let r = removed(ts, p);
        assert(p[0] == a[0]);
        assert(p.drop_first() =~= a.drop_first().push(i));
        assert(r[a[0] as int].subtasks == removed(n.subtasks, p.drop_first()));
        if a.len() == 1 {
            assert(p.drop_first() =~= seq![i]);
            assert(node_at(ts, a) == n);
            assert(node_at(r, a) == r[a[0] as int]);
        } else {
            assert(node_at(ts, a) == node_at(n.subtasks, a.drop_first()));
            lemma_removed_in_list(n.subtasks, a.drop_first(), i);
            assert(node_at(r, a) == node_at(r[a[0] as int].subtasks, a.drop_first()));
        }
    }
}

proof fn lemma_inserted_in_list(ts: Seq<TaskView>, a: Seq<usize>, j: usize, x: TaskView)
    requires
        a.len() == 0 || valid_path(ts, a),
        j <= list_at(ts, a).len(),
    ensures
        a.len() == 0 || valid_path(inserted(ts, a.push(j), x, false), a),
        list_at(inserted(ts, a.push(j), x, false), a) == list_at(ts, a).insert(j as int, x),
    decreases a.len(),
{
    let q = a.push(j);
    if a.len() == 0 {
        assert(q =~= seq![j]);
    } else {
        let n = ts[a[0] as int];
        let r = inserted(ts, q, x, false);
        assert(q[0] == a[0]);
        assert(q.drop_first() =~= a.drop_first().push(j));
        assert(r[a[0] as int].subtasks == inserted(n.subtasks, q.drop_first(), x, false));
        if a.len() == 1 {
            assert(q.drop_first() =~= seq![j]);
            assert(node_at(ts, a) == n);
            assert(node_at(r, a) == r[a[0] as int]);
        } else {
            assert(node_at(ts, a) == node_at(n.subtasks, a.drop_first()));
            lemma_inserted_in_list(n.subtasks, a.drop_first(), j, x);
            assert(node_at(r, a) == node_at(r[a[0] as int].subtasks, a.drop_first()));
        }
    }
}

/// A move within one list is a removal followed by an insertion: the task at
/// index `i` is taken out, and put back at `j`, less one where `j` came after
/// `i`, so that it lands in front of the task that stood at `j`.
pub proof fn lemma_move_within_list(ts: Seq<TaskView>, a: Seq<usize>, i: usize, j: usize)
    requires
        a.len() == 0 || valid_path(ts, a),
        i < list_at(ts, a).len(),
        j <= list_at(ts, a).len(),
    ensures
        list_at(moved(ts, a.push(i), a.push(j)), a) == list_at(ts, a).remove(i as int).insert(
            if i < j { j - 1 } else { j as int },
            list_at(ts, a)[i as int],
        ),
{
    let (p, q) = (a.push(i), a.push(j));
    let k = a.len();
    assert(p.take(k as int) =~= a);
    assert(q.take(k as int) =~= a);
    let j2: usize = if i < j { (j - 1) as usize } else { j };
    assert(shifted(p, q) =~= a.push(j2));
    lemma_removed_in_list(ts, a, i);
    let r = removed(ts, p);
    lemma_inserted_in_list(r, a, j2, node_at(ts, p));
    if a.len() == 0 {
        assert(node_at(ts, p) == ts[i as int]);
    } else {
        lemma_node_in_list(ts, a, i);
    }
}

proof fn lemma_node_in_list(ts: Seq<TaskView>, a: Seq<usize>, i: usize)
    requires
        valid_path(ts, a),
        i < list_at(ts, a).len(),
    ensures
        valid_path(ts, a.push(i)),
        node_at(ts, a.push(i)) == list_at(ts, a)[i as int],
    decreases a.len(),
{
    let p = a.push(i);
    let sub = ts[a[0] as int].subtasks;
    assert(p[0] == a[0]);
    if a.len() == 1 {
        assert(p.drop_first() =~= seq![i]);
        assert(node_at(ts, a) == ts[a[0] as int]);
        assert(valid_path(sub, p.drop_first()));
        assert(node_at(sub, p.drop_first()) == sub[i as int]);
    } else {
        assert(p.drop_first() =~= a.drop_first().push(i));
        assert(node_at(ts, a) == node_at(sub, a.drop_first()));
        lemma_node_in_list(sub, a.drop_first(), i);
    }
}

} // verus!
