//! The task tree: its model, and the path-addressed edits that the operations are made of.
use vstd::prelude::*;

verus! {

/// What a task is, mathematically: its text, its flag and its subtasks.
pub struct TaskView {
    pub contents: Seq<char>,
    pub done: bool,
    pub subtasks: Seq<TaskView>,
}

/// One node of the task tree: a task and, beneath it, its subtasks.
#[derive(Debug)]
pub struct Task {
    pub contents: String,
    pub done: bool,
    pub subtasks: Vec<Task>,
}

/// The view of a task: its text, its flag, and the views of its subtasks.
pub open spec fn view_task(t: Task) -> TaskView
    decreases t,
{
    TaskView {
        contents: t.contents@,
        done: t.done,
        subtasks: Seq::new(
            t.subtasks.len() as nat,
            |i: int|
                if 0 <= i < t.subtasks.len() {
                    view_task(t.subtasks@[i])
                } else {
                    TaskView { contents: Seq::empty(), done: false, subtasks: Seq::empty() }
                },
        ),
    }
}

impl View for Task {
    type V = TaskView;

    open spec fn view(&self) -> TaskView {
        view_task(*self)
    }
}

/// The views of a list of tasks.
pub open spec fn view_list(v: Seq<Task>) -> Seq<TaskView> {
    Seq::new(v.len(), |i: int| view_task(v[i]))
}

/// A task's view, field by field.
pub proof fn lemma_subtasks_view(t: Task)
    ensures
        t@.subtasks == view_list(t.subtasks@),
        t@.contents == t.contents@,
        t@.done == t.done,
{
    assert(t@.subtasks =~= view_list(t.subtasks@));
}

/// `p` names a node: each component is an index (0-based) into the list at its depth.
pub open spec fn valid_path(ts: Seq<TaskView>, p: Seq<usize>) -> bool
    decreases p.len(),
{
    &&& p.len() > 0
    &&& p[0] < ts.len()
    &&& (p.len() == 1 || valid_path(ts[p[0] as int].subtasks, p.drop_first()))
}

/// The node that `p` names.
pub open spec fn node_at(ts: Seq<TaskView>, p: Seq<usize>) -> TaskView
    decreases p.len(),
{
    if p.len() <= 1 {
        ts[p[0] as int]
    } else {
        node_at(ts[p[0] as int].subtasks, p.drop_first())
    }
}

/// `q` names a slot: a place in a list where a task can be inserted, the
/// list's length included; all components but the last name a node.
pub open spec fn valid_slot(ts: Seq<TaskView>, q: Seq<usize>) -> bool
    decreases q.len(),
{
    &&& q.len() > 0
    &&& if q.len() == 1 {
        q[0] <= ts.len()
    } else {
        q[0] < ts.len() && valid_slot(ts[q[0] as int].subtasks, q.drop_first())
    }
}

/// `n` with its subtasks replaced; with `undo`, it is no longer done.
pub open spec fn with_subtasks(n: TaskView, subs: Seq<TaskView>, undo: bool) -> TaskView {
    TaskView { contents: n.contents, done: n.done && !undo, subtasks: subs }
}

/// The tree without the node at `p` (and its subtree).
pub open spec fn removed(ts: Seq<TaskView>, p: Seq<usize>) -> Seq<TaskView>
    decreases p.len(),
{
    if p.len() <= 1 {
        ts.remove(p[0] as int)
    } else {
        let n = ts[p[0] as int];
        ts.update(p[0] as int, with_subtasks(n, removed(n.subtasks, p.drop_first()), false))
    }
}

/// The tree with `x` inserted at slot `q`; with `undo`, every node above the
/// slot is made not done.
pub open spec fn inserted(ts: Seq<TaskView>, q: Seq<usize>, x: TaskView, undo: bool) -> Seq<TaskView>
    decreases q.len(),
{
    if q.len() <= 1 {
        ts.insert(q[0] as int, x)
    } else {
        let n = ts[q[0] as int];
        ts.update(q[0] as int, with_subtasks(n, inserted(n.subtasks, q.drop_first(), x, undo), undo))
    }
}

/// The tree with the node at `p` replaced by `x`; with `undo`, every node
/// above it is made not done.
pub open spec fn replaced(ts: Seq<TaskView>, p: Seq<usize>, x: TaskView, undo: bool) -> Seq<TaskView>
    decreases p.len(),
{
    if p.len() <= 1 {
        ts.update(p[0] as int, x)
    } else {
        let n = ts[p[0] as int];
        ts.update(p[0] as int, with_subtasks(n, replaced(n.subtasks, p.drop_first(), x, undo), undo))
    }
}

pub(crate) proof fn lemma_view_update(v: Seq<Task>, i: int, t: Task)
    requires
        0 <= i < v.len(),
    ensures
        view_list(v.update(i, t)) == view_list(v).update(i, t@),
{
    assert(view_list(v.update(i, t)) =~= view_list(v).update(i, t@));
}

proof fn lemma_view_remove(v: Seq<Task>, i: int)
    requires
        0 <= i < v.len(),
    ensures
        view_list(v.remove(i)) == view_list(v).remove(i),
{
    assert(view_list(v.remove(i)) =~= view_list(v).remove(i));
}

pub(crate) proof fn lemma_view_insert(v: Seq<Task>, i: int, t: Task)
    requires
        0 <= i <= v.len(),
    ensures
        view_list(v.insert(i, t)) == view_list(v).insert(i, t@),
{
    assert(view_list(v.insert(i, t)) =~= view_list(v).insert(i, t@));
}

/// Takes the node at `p[d..]` out of `ts`.
pub(crate) fn remove_at(ts: &mut Vec<Task>, p: &Vec<usize>, d: usize) -> (r: Task)
    requires
        d < p.len(),
        valid_path(view_list(old(ts)@), p@.skip(d as int)),
    ensures
        view_list(final(ts)@) == removed(view_list(old(ts)@), p@.skip(d as int)),
        r@ == node_at(view_list(old(ts)@), p@.skip(d as int)),
    decreases p.len() - d,
{
    let i = p[d];
    let ghost q = p@.skip(d as int);
    proof {
        assert(q.drop_first() =~= p@.skip(d + 1));
    }
    if d + 1 == p.len() {
        proof { lemma_view_remove(ts@, i as int); }
        ts.remove(i)
    } else {
        let ghost before = ts@;
        let n = &mut ts[i];
        proof { lemma_subtasks_view(*n); }
        let r = remove_at(&mut n.subtasks, p, d + 1);
        proof {
            lemma_subtasks_view(*n);
            lemma_view_update(before, i as int, *n);
        }
        r
    }
}

/// Puts `x` in `ts` at slot `q[d..]`; with `undo`, every node above it is made not done.
pub(crate) fn insert_at(ts: &mut Vec<Task>, q: &Vec<usize>, d: usize, x: Task, undo: bool)
    requires
        d < q.len(),
        valid_slot(view_list(old(ts)@), q@.skip(d as int)),
    ensures
        view_list(final(ts)@) == inserted(view_list(old(ts)@), q@.skip(d as int), x@, undo),
    decreases q.len() - d,
{
    let i = q[d];
    proof {
        assert(q@.skip(d as int).drop_first() =~= q@.skip(d + 1));
    }
    if d + 1 == q.len() {
        proof { lemma_view_insert(ts@, i as int, x); }
        ts.insert(i, x);
    } else {
        let ghost before = ts@;
        let n = &mut ts[i];
        proof { lemma_subtasks_view(*n); }
        insert_at(&mut n.subtasks, q, d + 1, x, undo);
        if undo {
            n.done = false;
        }
        proof {
            lemma_subtasks_view(*n);
            lemma_view_update(before, i as int, *n);
        }
    }
}

/// Puts `x` in place of the node at `p[d..]` and hands that node back; with
/// `undo`, every node above it is made not done.
pub(crate) fn replace_at(ts: &mut Vec<Task>, p: &Vec<usize>, d: usize, x: Task, undo: bool) -> (r: Task)
    requires
        d < p.len(),
        valid_path(view_list(old(ts)@), p@.skip(d as int)),
    ensures
        view_list(final(ts)@) == replaced(view_list(old(ts)@), p@.skip(d as int), x@, undo),
        r@ == node_at(view_list(old(ts)@), p@.skip(d as int)),
    decreases p.len() - d,
{
    let i = p[d];
    proof {
        assert(p@.skip(d as int).drop_first() =~= p@.skip(d + 1));
    }
    let ghost before = ts@;
    if d + 1 == p.len() {
        let mut y = x;
        core::mem::swap(&mut y, &mut ts[i]);
        proof { lemma_view_update(before, i as int, x); }
        y
    } else {
        let n = &mut ts[i];
        proof { lemma_subtasks_view(*n); }
        let r = replace_at(&mut n.subtasks, p, d + 1, x, undo);
        if undo {
            n.done = false;
        }
        proof {
            lemma_subtasks_view(*n);
            lemma_view_update(before, i as int, *n);
        }
        r
    }
}

/// The node at `p[d..]`.
pub(crate) fn node_ref<'a>(ts: &'a Vec<Task>, p: &Vec<usize>, d: usize) -> (r: &'a Task)
    requires
        d < p.len(),
        valid_path(view_list(ts@), p@.skip(d as int)),
    ensures
        r@ == node_at(view_list(ts@), p@.skip(d as int)),
    decreases p.len() - d,
{
    let i = p[d];
    proof {
        assert(p@.skip(d as int).drop_first() =~= p@.skip(d + 1));
        lemma_subtasks_view(ts@[i as int]);
    }
    if d + 1 == p.len() {
        &ts[i]
    } else {
        node_ref(&ts[i].subtasks, p, d + 1)
    }
}

/// `n` with itself and every task beneath it done.
pub open spec fn all_done(n: TaskView) -> TaskView
    decreases n,
{
    TaskView {
        contents: n.contents,
        done: true,
        subtasks: Seq::new(
            n.subtasks.len(),
            |i: int|
                if 0 <= i < n.subtasks.len() {
                    all_done(n.subtasks[i])
                } else {
                    n
                },
        ),
    }
}

/// Every task of the list is done.
pub open spec fn children_done(subs: Seq<TaskView>) -> bool {
    forall|i: int| 0 <= i < subs.len() ==> #[trigger] subs[i].done
}

/// `p` is one of the paths in `ids`.
pub open spec fn listed(ids: Seq<Vec<usize>>, p: Seq<usize>) -> bool {
    exists|k: int| 0 <= k < ids.len() && #[trigger] ids[k]@ == p
}

/// `n` after marking: `hit` holds of the paths, relative to `n`, of the tasks
/// to mark (the empty path is `n` itself). A marked task gets `done`, and when
/// `done` holds so does every task beneath it. A task with a marked task beneath
/// it is done afterwards exactly when all its subtasks are, unless it is itself
/// marked.
pub open spec fn marked_node(n: TaskView, hit: spec_fn(Seq<usize>) -> bool, done: bool) -> TaskView
    decreases n,
{
    let here = hit(Seq::empty());
    let subs = Seq::new(
        n.subtasks.len(),
        |i: int|
            if 0 <= i < n.subtasks.len() {
                marked_node(n.subtasks[i], |q: Seq<usize>| hit(seq![i as usize] + q), done)
            } else {
                n
            },
    );
    if here && done {
        all_done(n)
    } else if exists|q: Seq<usize>| q.len() > 0 && #[trigger] hit(q) {
        TaskView { contents: n.contents, done: !here && children_done(subs), subtasks: subs }
    } else if here {
        TaskView { contents: n.contents, done: false, subtasks: n.subtasks }
    } else {
        n
    }
}

/// A list of tasks after marking; `hit` holds of the paths, relative to the
/// list, of the tasks to mark.
pub open spec fn marked_list(ts: Seq<TaskView>, hit: spec_fn(Seq<usize>) -> bool, done: bool) -> Seq<TaskView> {
    Seq::new(ts.len(), |i: int| marked_node(ts[i], |q: Seq<usize>| hit(seq![i as usize] + q), done))
}

proof fn lemma_cons_eq(i: usize, q: Seq<usize>, v: Seq<usize>)
    requires
        v.len() > 0,
    ensures
        (seq![i] + q == v) <==> (v[0] == i && v.drop_first() == q),
{
    if v[0] == i && v.drop_first() == q {
        assert(seq![i] + q =~= v);
    }
    if seq![i] + q == v {
        assert(v.drop_first() =~= q);
    }
}

/// `v` without its first element.
fn tail(v: &Vec<usize>) -> (r: Vec<usize>)
    requires
        v.len() > 0,
    ensures
        r@ == v@.drop_first(),
{
    let mut r: Vec<usize> = Vec::new();
    let mut k: usize = 1;
    while k < v.len()
        invariant
            1 <= k <= v.len(),
            r@ == v@.subrange(1, k as int),
        decreases v.len() - k,
    {
        r.push(v[k]);
        k = k + 1;
    }
    r
}

/// Of the paths `ids`, relative to a list: whether `[i]` is one of them, and
/// the rest of each that goes on beneath the list's task `i`.
fn ids_under(ids: &Vec<Vec<usize>>, i: usize) -> (r: (bool, Vec<Vec<usize>>))
    requires
        forall|k: int| 0 <= k < ids.len() ==> (#[trigger] ids@[k])@.len() > 0,
    ensures
        r.0 == listed(ids@, seq![i]),
        forall|k: int| 0 <= k < r.1.len() ==> (#[trigger] r.1@[k])@.len() > 0,
        forall|q: Seq<usize>| q.len() > 0 ==> (listed(r.1@, q) <==> listed(ids@, seq![i] + q)),
{
    let mut here = false;
    let mut rest: Vec<Vec<usize>> = Vec::new();
    let mut k: usize = 0;
    while k < ids.len()
        invariant
            k <= ids.len(),
            forall|j: int| 0 <= j < ids.len() ==> (#[trigger] ids@[j])@.len() > 0,
            here == listed(ids@.take(k as int), seq![i]),
            forall|j: int| 0 <= j < rest.len() ==> (#[trigger] rest@[j])@.len() > 0,
            forall|q: Seq<usize>| q.len() > 0 ==> (listed(rest@, q) <==> listed(ids@.take(k as int), seq![i] + q)),
        decreases ids.len() - k,
    {
        let id = &ids[k];
        let ghost before = rest@;
        proof {
            assert(ids@.take(k + 1) == ids@.take(k as int).push(ids@[k as int]));
            assert(forall|q: Seq<usize>| q.len() > 0 ==> (listed(before, q) <==> listed(ids@.take(k as int), seq![i] + q)));
        }
        if id[0] == i {
            if id.len() == 1 {
                here = true;
                proof {
                    assert(id@ =~= seq![i]);
                    assert(ids@.take(k + 1)[k as int]@ == seq![i]);
                }
            } else {
                let t = tail(id);
                rest.push(t);
            }
        }
        proof {
            let pre = ids@.take(k as int);
            let now = ids@.take(k + 1);
            assert forall|q: Seq<usize>| q.len() > 0 implies (listed(rest@, q) <==> listed(now, seq![i] + q)) by {
                lemma_cons_eq(i, q, id@);
                if listed(now, seq![i] + q) {
                    let j = choose|j: int| 0 <= j < now.len() && #[trigger] now[j]@ == seq![i] + q;
                    if j < k {
                        assert(pre[j]@ == seq![i] + q);
                        assert(listed(pre, seq![i] + q));
                        assert(listed(before, q));
                        let m = choose|m: int| 0 <= m < before.len() && #[trigger] before[m]@ == q;
                        assert(rest@[m]@ == q);
                    } else {
                        assert(rest@.last()@ == q);
                    }
                }
                if listed(rest@, q) {
                    let j = choose|j: int| 0 <= j < rest.len() && #[trigger] rest@[j]@ == q;
                    if j < before.len() {
                        assert(before[j]@ == q);
                        assert(listed(before, q));
                        let m = choose|m: int| 0 <= m < pre.len() && #[trigger] pre[m]@ == seq![i] + q;
                        assert(now[m]@ == seq![i] + q);
                    } else {
                        assert(now[k as int]@ == seq![i] + q);
                    }
                }
            }
            if here {
                if !listed(pre, seq![i]) {
                    assert(now[k as int]@ == seq![i]);
                } else {
                    let m = choose|m: int| 0 <= m < pre.len() && #[trigger] pre[m]@ == seq![i];
                    assert(now[m]@ == seq![i]);
                }
            }
            if listed(now, seq![i]) {
                let j = choose|j: int| 0 <= j < now.len() && #[trigger] now[j]@ == seq![i];
                if j < k {
                    assert(pre[j]@ == seq![i]);
                }
            }
        }
        k = k + 1;
    }
    proof {
        assert(ids@.take(ids.len() as int) == ids@);
    }
    (here, rest)
}

/// Marks `n` and every task beneath it done.
fn set_all_done(n: &mut Task)
    ensures
        final(n)@ == all_done(old(n)@),
    decreases *old(n),
{
    let ghost start = *n;
    proof { lemma_subtasks_view(start); }
    n.done = true;
    let mut i: usize = 0;
    while i < n.subtasks.len()
        invariant
            i <= n.subtasks.len(),
            n.subtasks.len() == start.subtasks.len(),
            n.contents == start.contents,
            n.done,
            start == *old(n),
            forall|j: int| 0 <= j < i ==> (#[trigger] n.subtasks@[j])@ == all_done(start.subtasks@[j]@),
            forall|j: int| i <= j < n.subtasks.len() ==> #[trigger] n.subtasks@[j] == start.subtasks@[j],
        decreases n.subtasks.len() - i,
    {
        proof {
            vstd::std_specs::vec::axiom_vec_index_decreases(start.subtasks, i as int);
            assert(decreases_to!(start => start.subtasks));
            assert(decreases_to!(start => start.subtasks@[i as int]));
        }
        set_all_done(&mut n.subtasks[i]);
        i = i + 1;
    }
    proof {
        lemma_subtasks_view(*n);
        assert(n@.subtasks =~= all_done(start@).subtasks);
    }
}

/// Whether every task of `ts` is done.
fn all_tasks_done(ts: &Vec<Task>) -> (r: bool)
    ensures
        r == children_done(view_list(ts@)),
{
    let mut i: usize = 0;
    while i < ts.len()
        invariant
            i <= ts.len(),
            forall|j: int| 0 <= j < i ==> (#[trigger] ts@[j]).done,
        decreases ts.len() - i,
    {
        if !ts[i].done {
            proof {
                lemma_subtasks_view(ts@[i as int]);
                assert(!view_list(ts@)[i as int].done);
            }
            return false;
        }
        i = i + 1;
    }
    proof {
        assert forall|j: int| 0 <= j < ts.len() implies (#[trigger] view_list(ts@)[j]).done by {
            lemma_subtasks_view(ts@[j]);
        }
    }
    true
}

/// The paths `ids` (relative to a list), with the answer to "is the empty path
/// one of them" given apart as `here`.
pub open spec fn hit_of(here: bool, ids: Seq<Vec<usize>>) -> spec_fn(Seq<usize>) -> bool {
    |q: Seq<usize>| if q.len() == 0 { here } else { listed(ids, q) }
}

/// Marks the tasks of `ts` at the paths `ids` (relative to `ts`).
pub(crate) fn mark_list(ts: &mut Vec<Task>, ids: &Vec<Vec<usize>>, done: bool)
    requires
        forall|k: int| 0 <= k < ids.len() ==> (#[trigger] ids@[k])@.len() > 0,
    ensures
        view_list(final(ts)@) == marked_list(view_list(old(ts)@), hit_of(false, ids@), done),
    decreases *old(ts),
{
    let ghost start = ts@;
    let ghost whole = *ts;
    let ghost hit = hit_of(false, ids@);
    let mut i: usize = 0;
    while i < ts.len()
        invariant
            i <= ts.len(),
            ts.len() == start.len(),
            whole@ == start,
            whole == *old(ts),
            hit == hit_of(false, ids@),
            forall|k: int| 0 <= k < ids.len() ==> (#[trigger] ids@[k])@.len() > 0,
            forall|j: int| 0 <= j < i ==> (#[trigger] ts@[j])@ == marked_node(start[j]@, |q: Seq<usize>| hit(seq![j as usize] + q), done),
            forall|j: int| i <= j < ts.len() ==> #[trigger] ts@[j] == start[j],
        decreases ts.len() - i,
    {
        let (here, below) = ids_under(ids, i);
        proof {
            assert forall|q: Seq<usize>| #[trigger] hit_of(here, below@)(q) == hit(seq![i] + q) by {
                if q.len() == 0 {
                    assert(seq![i] + q =~= seq![i]);
                }
            }
            assert(hit_of(here, below@) =~= (|q: Seq<usize>| hit(seq![i] + q)));
            vstd::std_specs::vec::axiom_vec_index_decreases(whole, i as int);
        }
        mark_node(&mut ts[i], here, &below, done);
        i = i + 1;
    }
    proof {
        assert(view_list(ts@) =~= marked_list(view_list(start), hit, done));
    }
}

/// Marks the tasks beneath `n` at the paths `below` (relative to `n`'s
/// subtasks), and `n` itself when `here` holds.
fn mark_node(n: &mut Task, here: bool, below: &Vec<Vec<usize>>, done: bool)
    requires
        forall|k: int| 0 <= k < below.len() ==> (#[trigger] below@[k])@.len() > 0,
    ensures
        final(n)@ == marked_node(old(n)@, hit_of(here, below@), done),
    decreases *old(n),
{
    let ghost start = *n;
    let ghost hit = hit_of(here, below@);
    proof { lemma_subtasks_view(start); }
    if here && done {
        set_all_done(n);
        return;
    }
    if below.len() > 0 {
        proof {
            let q = below@[0]@;
            assert(hit(q));
        }
        mark_list(&mut n.subtasks, below, done);
        let all = all_tasks_done(&n.subtasks);
        n.done = !here && all;
        proof {
            lemma_subtasks_view(*n);
            let m = marked_node(start@, hit, done);
            assert forall|j: int| 0 <= j < n@.subtasks.len() implies #[trigger] n@.subtasks[j] == m.subtasks[j] by {
                let f = |q: Seq<usize>| hit_of(false, below@)(seq![j as usize] + q);
                let g = |q: Seq<usize>| hit(seq![j as usize] + q);
                assert forall|q: Seq<usize>| #[trigger] f(q) == g(q) by {
                    assert((seq![j as usize] + q).len() > 0);
                }
                assert(f =~= g);
            }
            assert(n@.subtasks =~= marked_node(start@, hit, done).subtasks);
        }
    } else {
        proof {
            assert(!exists|q: Seq<usize>| q.len() > 0 && #[trigger] hit(q));
        }
        if here {
            n.done = false;
            proof { lemma_subtasks_view(*n); }
        }
    }
}

/// The list with every done task taken out, at every depth; a task that stays
/// keeps only those of its subtasks that stay.
pub open spec fn cleared(ts: Seq<TaskView>) -> Seq<TaskView>
    decreases ts,
{
    if ts.len() == 0 {
        Seq::empty()
    } else {
        let t = ts.last();
        let rest = cleared(ts.drop_last());
        if t.done {
            rest
        } else {
            rest.push(TaskView { contents: t.contents, done: t.done, subtasks: cleared(t.subtasks) })
        }
    }
}

/// Takes every done task out of `ts`, at every depth.
pub(crate) fn clear_list(ts: Vec<Task>) -> (r: Vec<Task>)
    ensures
        view_list(r@) == cleared(view_list(ts@)),
    decreases ts,
{
    let ghost start = ts;
    let mut out: Vec<Task> = Vec::new();
    let mut k: usize = 0;
    let ghost whole = view_list(ts@);
    for t in it: ts
        invariant
            it.seq() == start@,
            whole == view_list(start@),
            view_list(out@) == cleared(whole.take(it.index() as int)),
    {
        let ghost i = it.index();
        proof {
            assert(whole.take(i + 1).drop_last() == whole.take(i));
            assert(whole.take(i + 1).last() == whole[i]);
            lemma_subtasks_view(t);
            vstd::std_specs::vec::axiom_vec_index_decreases(start, i);
        }
        if !t.done {
            let Task { contents, done, subtasks } = t;
            let subs = clear_list(subtasks);
            let kept = Task { contents, done, subtasks: subs };
            proof {
                lemma_subtasks_view(kept);
                assert(view_list(out@.push(kept)) =~= view_list(out@).push(kept@));
            }
            out.push(kept);
        }
    }
    proof {
        assert(whole.take(whole.len() as int) == whole);
    }
    out
}

/// Whether `p[d..]` names a node of `ts`.
pub(crate) fn is_valid_path(ts: &Vec<Task>, p: &Vec<usize>, d: usize) -> (r: bool)
    requires
        d < p.len(),
    ensures
        r == valid_path(view_list(ts@), p@.skip(d as int)),
    decreases p.len() - d,
{
    let i = p[d];
    proof {
        assert(p@.skip(d as int).drop_first() =~= p@.skip(d + 1));
    }
    if i >= ts.len() {
        false
    } else if d + 1 == p.len() {
        true
    } else {
        proof { lemma_subtasks_view(ts@[i as int]); }
        is_valid_path(&ts[i].subtasks, p, d + 1)
    }
}

/// Whether `q[d..]` names a slot of `ts`.
pub(crate) fn is_valid_slot(ts: &Vec<Task>, q: &Vec<usize>, d: usize) -> (r: bool)
    requires
        d < q.len(),
    ensures
        r == valid_slot(view_list(ts@), q@.skip(d as int)),
    decreases q.len() - d,
{
    let i = q[d];
    proof {
        assert(q@.skip(d as int).drop_first() =~= q@.skip(d + 1));
    }
    if d + 1 == q.len() {
        i <= ts.len()
    } else if i >= ts.len() {
        false
    } else {
        proof { lemma_subtasks_view(ts@[i as int]); }
        is_valid_slot(&ts[i].subtasks, q, d + 1)
    }
}

/// `a` is `b` or a path above it.
pub open spec fn is_prefix(a: Seq<usize>, b: Seq<usize>) -> bool {
    a.len() <= b.len() && b.take(a.len() as int) == a
}

/// `b` names something strictly beneath the node at `a`.
pub open spec fn nested(a: Seq<usize>, b: Seq<usize>) -> bool {
    a.len() < b.len() && b.take(a.len() as int) == a
}

/// Slot `q` as it reads once the node at `p` has been taken out: where `q`
/// runs through the list that held that node, at a later index, that index
/// moves back by one.
pub open spec fn shifted(p: Seq<usize>, q: Seq<usize>) -> Seq<usize> {
    let k = p.len() - 1;
    if q.len() > k && q.take(k) == p.take(k) && q[k] > p[k] {
        q.update(k, (q[k] - 1) as usize)
    } else {
        q
    }
}

proof fn lemma_prefix_step(a: Seq<usize>, b: Seq<usize>)
    requires
        a.len() > 0,
        b.len() > 0,
        a[0] == b[0],
    ensures
        is_prefix(a, b) <==> is_prefix(a.drop_first(), b.drop_first()),
        nested(a, b) <==> nested(a.drop_first(), b.drop_first()),
{
    if a.len() <= b.len() {
        if b.take(a.len() as int) == a {
            assert(b.drop_first().take(a.len() - 1) =~= a.drop_first());
        }
        if b.drop_first().take(a.len() - 1) == a.drop_first() {
            assert forall|j: int| 0 <= j < a.len() implies b.take(a.len() as int)[j] == a[j] by {
                if j > 0 {
                    assert(b.drop_first().take(a.len() - 1)[j - 1] == a.drop_first()[j - 1]);
                }
            }
            assert(b.take(a.len() as int) =~= a);
        }
    }
}

proof fn lemma_shifted_step(p: Seq<usize>, q: Seq<usize>)
    requires
        p.len() > 1,
        q.len() > 1,
        p[0] == q[0],
    ensures
        shifted(p, q).len() == q.len(),
        shifted(p, q)[0] == q[0],
        shifted(p, q).drop_first() == shifted(p.drop_first(), q.drop_first()),
{
    let k = p.len() - 1;
    let (p_rest, q_rest) = (p.drop_first(), q.drop_first());
    if q.len() > k {
        assert((q.take(k) == p.take(k)) <==> (q_rest.take(k - 1) == p_rest.take(k - 1))) by {
            if q.take(k) == p.take(k) {
                assert(q_rest.take(k - 1) =~= q.take(k).drop_first());
                assert(p_rest.take(k - 1) =~= p.take(k).drop_first());
            }
            if q_rest.take(k - 1) == p_rest.take(k - 1) {
                assert forall|j: int| 0 <= j < k implies q.take(k)[j] == p.take(k)[j] by {
                    if j > 0 {
                        assert(q_rest.take(k - 1)[j - 1] == p_rest.take(k - 1)[j - 1]);
                    }
                }
                assert(q.take(k) =~= p.take(k));
            }
        }
        if q.take(k) == p.take(k) && q[k] > p[k] {
            assert(shifted(p, q).drop_first() =~= shifted(p_rest, q_rest));
        }
    }
}

proof fn lemma_shifted_apart(p: Seq<usize>, q: Seq<usize>)
    requires
        p.len() > 1,
        q.len() > 0,
        p[0] != q[0],
    ensures
        shifted(p, q) == q,
{
    let k = p.len() - 1;
    if q.len() > k {
        assert(q.take(k)[0] != p.take(k)[0]);
    }
}

/// Taking the node at `p` out leaves slot `q`, shifted, a slot.
pub proof fn lemma_slot_after_removal(ts: Seq<TaskView>, p: Seq<usize>, q: Seq<usize>)
    requires
        valid_path(ts, p),
        valid_slot(ts, q),
        !nested(p, q),
    ensures
        valid_slot(removed(ts, p), shifted(p, q)),
    decreases p.len(),
{
    let r = removed(ts, p);
    let s = shifted(p, q);
    if p.len() == 1 {
        assert(q.take(0) =~= p.take(0));
        if q.len() > 1 {
            if q[0] == p[0] {
                assert(q.take(1) =~= p);
            }
            if q[0] > p[0] {
                assert(r[q[0] - 1] == ts[q[0] as int]);
                assert(s.drop_first() =~= q.drop_first());
            } else {
                assert(r[q[0] as int] == ts[q[0] as int]);
            }
        }
    } else if q.len() > 1 {
        if q[0] == p[0] {
            lemma_prefix_step(p, q);
            lemma_shifted_step(p, q);
            lemma_slot_after_removal(ts[p[0] as int].subtasks, p.drop_first(), q.drop_first());
        } else {
            lemma_shifted_apart(p, q);
        }
    }
}

/// Below a node, every position of its subtask list is a slot.
pub proof fn lemma_child_slot(ts: Seq<TaskView>, p: Seq<usize>, j: usize)
    requires
        valid_path(ts, p),
        j <= node_at(ts, p).subtasks.len(),
    ensures
        valid_slot(ts, p.push(j)),
    decreases p.len(),
{
    let q = p.push(j);
    assert(q[0] == p[0]);
    if p.len() == 1 {
        assert(q.drop_first() =~= seq![j]);
        assert(valid_slot(ts[p[0] as int].subtasks, q.drop_first()));
    } else {
        assert(q.drop_first() =~= p.drop_first().push(j));
        lemma_child_slot(ts[p[0] as int].subtasks, p.drop_first(), j);
    }
}

/// Replacing the node at `p` puts `x` there.
pub proof fn lemma_replaced_here(ts: Seq<TaskView>, p: Seq<usize>, x: TaskView, undo: bool)
    requires
        valid_path(ts, p),
    ensures
        valid_path(replaced(ts, p, x, undo), p),
        node_at(replaced(ts, p, x, undo), p) == x,
    decreases p.len(),
{
    if p.len() > 1 {
        lemma_replaced_here(ts[p[0] as int].subtasks, p.drop_first(), x, undo);
    }
}

/// Replacing the node at `p` leaves the node at `q` where neither path is a
/// prefix of the other.
pub proof fn lemma_replaced_elsewhere(ts: Seq<TaskView>, p: Seq<usize>, q: Seq<usize>, x: TaskView, undo: bool)
    requires
        valid_path(ts, p),
        valid_path(ts, q),
        !is_prefix(p, q),
        !is_prefix(q, p),
    ensures
        valid_path(replaced(ts, p, x, undo), q),
        node_at(replaced(ts, p, x, undo), q) == node_at(ts, q),
    decreases p.len(),
{
    if p[0] == q[0] {
        if p.len() == 1 {
            assert(q.take(1) =~= p);
        } else if q.len() == 1 {
            assert(p.take(1) =~= q);
        } else {
            lemma_prefix_step(p, q);
            lemma_prefix_step(q, p);
            lemma_replaced_elsewhere(ts[p[0] as int].subtasks, p.drop_first(), q.drop_first(), x, undo);
        }
    }
}

/// A second replacement at the same path overrides the first.
pub proof fn lemma_replaced_twice(ts: Seq<TaskView>, p: Seq<usize>, x: TaskView, y: TaskView, undo: bool)
    requires
        valid_path(ts, p),
    ensures
        replaced(replaced(ts, p, x, false), p, y, undo) == replaced(ts, p, y, undo),
    decreases p.len(),
{
    if p.len() == 1 {
        assert(replaced(replaced(ts, p, x, false), p, y, undo) =~= replaced(ts, p, y, undo));
    } else {
        let n = ts[p[0] as int];
        lemma_replaced_twice(n.subtasks, p.drop_first(), x, y, undo);
        assert(replaced(replaced(ts, p, x, false), p, y, undo) =~= replaced(ts, p, y, undo));
    }
}

/// Replacements at two paths, neither a prefix of the other, commute.
pub proof fn lemma_replaced_commute(ts: Seq<TaskView>, p: Seq<usize>, q: Seq<usize>, x: TaskView, y: TaskView)
    requires
        valid_path(ts, p),
        valid_path(ts, q),
        !is_prefix(p, q),
        !is_prefix(q, p),
    ensures
        replaced(replaced(ts, p, x, false), q, y, false) == replaced(replaced(ts, q, y, false), p, x, false),
    decreases p.len(),
{
    let a = replaced(replaced(ts, p, x, false), q, y, false);
    let b = replaced(replaced(ts, q, y, false), p, x, false);
    if p[0] == q[0] {
        if p.len() == 1 {
            assert(q.take(1) =~= p);
        } else if q.len() == 1 {
            assert(p.take(1) =~= q);
        } else {
            lemma_prefix_step(p, q);
            lemma_prefix_step(q, p);
            lemma_replaced_commute(ts[p[0] as int].subtasks, p.drop_first(), q.drop_first(), x, y);
            assert(a =~= b);
        }
    } else {
        assert(a =~= b);
    }
}

} // verus!
