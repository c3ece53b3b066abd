//! The task list and the operations that edit it.
use vstd::prelude::*;
use crate::error::TaskError;
use crate::id::{id_list_of, id_of, parse_ids, paths_view};
use crate::text::{chars_of, string_of};
use crate::tree::{
    clear_list, cleared, insert_at, inserted, is_prefix, is_valid_path,
    is_valid_slot, lemma_child_slot, lemma_replaced_commute, lemma_replaced_elsewhere,
    lemma_replaced_here, lemma_replaced_twice, lemma_slot_after_removal, lemma_subtasks_view,
    lemma_view_insert, listed, mark_list, marked_list, nested, node_at, node_ref, remove_at,
    removed, replace_at, replaced, shifted, valid_path, valid_slot, view_list,
};
pub use crate::tree::{Task, TaskView};

verus! {

/// The whole task list: the tasks at the root, each with its subtasks.
#[derive(Debug)]
pub struct TaskFile {
    pub tasks: Vec<Task>,
}

/// A task's own record, without the subtasks beneath it.
#[derive(Debug, Clone)]
pub struct SubTask {
    pub contents: String,
    pub done: bool,
}

impl View for TaskFile {
    type V = Seq<TaskView>;

    open spec fn view(&self) -> Seq<TaskView> {
        view_list(self.tasks@)
    }
}

/// A 1-based id as 0-based indices.
pub open spec fn to_index(p: Seq<usize>) -> Seq<usize> {
    p.map_values(|x: usize| (x - 1) as usize)
}

/// The node that id `s` names in `ts`, as a path, or why there is none.
pub open spec fn resolved(ts: Seq<TaskView>, s: Seq<char>) -> Result<Seq<usize>, TaskError> {
    if ts.len() == 0 {
        Err(TaskError::EmptyTree)
    } else {
        match id_of(s) {
            None => Err(TaskError::MalformedId),
            Some(p) => if valid_path(ts, to_index(p)) {
                Ok(to_index(p))
            } else {
                Err(TaskError::IdOutOfRange)
            },
        }
    }
}

/// The slot that id `s` names in `ts`, as a path, or why there is none.
pub open spec fn resolved_slot(ts: Seq<TaskView>, s: Seq<char>) -> Result<Seq<usize>, TaskError> {
    if ts.len() == 0 {
        Err(TaskError::EmptyTree)
    } else {
        match id_of(s) {
            None => Err(TaskError::MalformedId),
            Some(p) => if valid_slot(ts, to_index(p)) {
                Ok(to_index(p))
            } else {
                Err(TaskError::IdOutOfRange)
            },
        }
    }
}

/// The nodes that the id list `s` names in `ts`, as paths, or why not all exist.
pub open spec fn resolved_all(ts: Seq<TaskView>, s: Seq<char>) -> Result<Seq<Seq<usize>>, TaskError> {
    if ts.len() == 0 {
        Err(TaskError::EmptyTree)
    } else {
        match id_list_of(s) {
            None => Err(TaskError::MalformedId),
            Some(ps) => if forall|k: int| 0 <= k < ps.len() ==> valid_path(ts, to_index(#[trigger] ps[k])) {
                Ok(ps.map_values(|p: Seq<usize>| to_index(p)))
            } else {
                Err(TaskError::IdOutOfRange)
            },
        }
    }
}

/// A new task: not done, no subtasks.
pub open spec fn leaf(contents: Seq<char>) -> TaskView {
    TaskView { contents, done: false, subtasks: Seq::empty() }
}

/// The tree after the node at `p` moves to slot `q` (read before the move).
pub open spec fn moved(ts: Seq<TaskView>, p: Seq<usize>, q: Seq<usize>) -> Seq<TaskView> {
    inserted(removed(ts, p), shifted(p, q), node_at(ts, p), false)
}

/// The tree after the nodes at `p` and `q` trade places.
pub open spec fn swapped(ts: Seq<TaskView>, p: Seq<usize>, q: Seq<usize>) -> Seq<TaskView> {
    replaced(replaced(ts, p, node_at(ts, q), false), q, node_at(ts, p), false)
}

/// The node `n` with new text; it is no longer done.
pub open spec fn rewritten(n: TaskView, contents: Seq<char>) -> TaskView {
    TaskView { contents, done: false, subtasks: n.subtasks }
}

/// The 0-based indices of a 1-based id.
fn zero_based(p: &Vec<usize>) -> (r: Vec<usize>)
    requires
        forall|j: int| 0 <= j < p.len() ==> #[trigger] p@[j] >= 1,
    ensures
        r@ == to_index(p@),
{
    let mut r: Vec<usize> = Vec::new();
    let mut k: usize = 0;
    while k < p.len()
        invariant
            k <= p.len(),
            forall|j: int| 0 <= j < p.len() ==> #[trigger] p@[j] >= 1,
            r@ == to_index(p@).take(k as int),
        decreases p.len() - k,
    {
        r.push(p[k] - 1);
        proof {
            assert(to_index(p@).take(k + 1) =~= to_index(p@).take(k as int).push((p@[k as int] - 1) as usize));
        }
        k = k + 1;
    }
    proof {
        assert(to_index(p@).take(p.len() as int) =~= to_index(p@));
    }
    r
}

/// Reads the single id `s` into 0-based indices, without looking at a tree.
fn read_id(s: &str) -> (r: Option<Vec<usize>>)
    ensures
        r is None <==> id_of(s@) is None,
        r is Some ==> id_of(s@) == Some(r->0@.map_values(|x: usize| (x + 1) as usize)) && to_index(
            id_of(s@)->0,
        ) == r->0@ && r->0@.len() > 0,
{
    match parse_ids(s) {
        None => None,
        Some(ids) => {
            if ids.len() != 1 {
                return None;
            }
            let p = zero_based(&ids[0]);
            proof {
                assert(paths_view(ids@)[0] == ids@[0]@);
                assert(p@.map_values(|x: usize| (x + 1) as usize) =~= ids@[0]@);
            }
            Some(p)
        },
    }
}

/// The path of the node that id `s` names in `ts`; see `resolved`.
fn resolve_id(ts: &Vec<Task>, s: &str) -> (r: Result<Vec<usize>, TaskError>)
    ensures
        match r {
            Ok(p) => resolved(view_list(ts@), s@) == Ok::<Seq<usize>, TaskError>(p@) && p@.len() > 0,
            Err(e) => resolved(view_list(ts@), s@) == Err::<Seq<usize>, TaskError>(e),
        },
{
    if ts.len() == 0 {
        return Err(TaskError::EmptyTree);
    }
    match read_id(s) {
        None => Err(TaskError::MalformedId),
        Some(p) => {
            proof { assert(p@.skip(0) == p@); }
            if is_valid_path(ts, &p, 0) {
                Ok(p)
            } else {
                Err(TaskError::IdOutOfRange)
            }
        },
    }
}

/// The path of the slot that id `s` names in `ts`; see `resolved_slot`.
fn resolve_slot(ts: &Vec<Task>, s: &str) -> (r: Result<Vec<usize>, TaskError>)
    ensures
        match r {
            Ok(q) => resolved_slot(view_list(ts@), s@) == Ok::<Seq<usize>, TaskError>(q@) && q@.len() > 0,
            Err(e) => resolved_slot(view_list(ts@), s@) == Err::<Seq<usize>, TaskError>(e),
        },
{
    if ts.len() == 0 {
        return Err(TaskError::EmptyTree);
    }
    match read_id(s) {
        None => Err(TaskError::MalformedId),
        Some(q) => {
            proof { assert(q@.skip(0) == q@); }
            if is_valid_slot(ts, &q, 0) {
                Ok(q)
            } else {
                Err(TaskError::IdOutOfRange)
            }
        },
    }
}

/// The paths of the nodes that the id list `s` names in `ts`; see `resolved_all`.
fn resolve_all(ts: &Vec<Task>, s: &str) -> (r: Result<Vec<Vec<usize>>, TaskError>)
    ensures
        match r {
            Ok(ps) => resolved_all(view_list(ts@), s@) == Ok::<Seq<Seq<usize>>, TaskError>(paths_view(ps@))
                && forall|k: int| 0 <= k < ps.len() ==> (#[trigger] ps@[k])@.len() > 0,
            Err(e) => resolved_all(view_list(ts@), s@) == Err::<Seq<Seq<usize>>, TaskError>(e),
        },
{
    if ts.len() == 0 {
        return Err(TaskError::EmptyTree);
    }
    let ids = match parse_ids(s) {
        None => { return Err(TaskError::MalformedId); },
        Some(ids) => ids,
    };
    let ghost ps = paths_view(ids@);
    let mut out: Vec<Vec<usize>> = Vec::new();
    let mut k: usize = 0;
    while k < ids.len()
        invariant
            k <= ids.len(),
            ps == paths_view(ids@),
            id_list_of(s@) == Some(ps),
            ts.len() > 0,
            forall|a: int, j: int| 0 <= a < ids@.len() && 0 <= j < ids@[a]@.len() ==> #[trigger] ids@[a]@[j] >= 1,
            forall|a: int| 0 <= a < ids@.len() ==> (#[trigger] ids@[a])@.len() > 0,
            out.len() == k,
            forall|a: int| 0 <= a < k ==> (#[trigger] out@[a])@ == to_index(ps[a]),
            forall|a: int| 0 <= a < k ==> valid_path(view_list(ts@), to_index(#[trigger] ps[a])),
            forall|a: int| 0 <= a < k ==> (#[trigger] out@[a])@.len() > 0,
        decreases ids.len() - k,
    {
        let p = zero_based(&ids[k]);
        proof {
            assert(p@.skip(0) == p@);
            assert(ps[k as int] == ids@[k as int]@);
        }
        if !is_valid_path(ts, &p, 0) {
            proof { assert(!valid_path(view_list(ts@), to_index(ps[k as int]))); }
            return Err(TaskError::IdOutOfRange);
        }
        out.push(p);
        k = k + 1;
    }
    proof {
        assert(paths_view(out@) =~= ps.map_values(|p: Seq<usize>| to_index(p)));
    }
    Ok(out)
}

/// Whether `a` and `b` agree on their first `k` components.
fn same_prefix(a: &Vec<usize>, b: &Vec<usize>, k: usize) -> (r: bool)
    requires
        k <= a.len(),
        k <= b.len(),
    ensures
        r == (a@.take(k as int) == b@.take(k as int)),
{
    let mut j: usize = 0;
    while j < k
        invariant
            j <= k,
            k <= a.len(),
            k <= b.len(),
            a@.take(j as int) == b@.take(j as int),
        decreases k - j,
    {
        if a[j] != b[j] {
            proof { assert(a@.take(k as int)[j as int] != b@.take(k as int)[j as int]); }
            return false;
        }
        proof {
            assert(a@.take(j + 1) =~= a@.take(j as int).push(a@[j as int]));
            assert(b@.take(j + 1) =~= b@.take(j as int).push(b@[j as int]));
        }
        j = j + 1;
    }
    true
}

/// Whether `b` names something strictly beneath `a`.
fn is_nested(a: &Vec<usize>, b: &Vec<usize>) -> (r: bool)
    ensures
        r == nested(a@, b@),
{
    let r = a.len() < b.len() && same_prefix(a, b, a.len());
    proof { assert(a@.take(a.len() as int) =~= a@); }
    r
}

/// Whether `a` and `b` are the same path.
fn is_same(a: &Vec<usize>, b: &Vec<usize>) -> (r: bool)
    ensures
        r == (a@ == b@),
{
    let r = a.len() == b.len() && same_prefix(a, b, a.len());
    proof {
        if r {
            assert(a@.take(a.len() as int) =~= a@);
            assert(b@.take(b.len() as int) =~= b@);
        }
    }
    r
}

/// Whether `to` asks for the top of a list.
fn is_top(to: &str) -> (r: bool)
    ensures
        r == (to@ == "top"@),
{
    let cs = chars_of(to);
    proof { reveal_strlit("top"); }
    let r = cs.len() == 3 && cs[0] == 't' && cs[1] == 'o' && cs[2] == 'p';
    proof {
        if r {
            assert(cs@ =~= "top"@);
        }
    }
    r
}

/// An empty task, to hold a place for a moment.
fn placeholder() -> (r: Task)
    ensures
        r@ == leaf(Seq::empty()),
{
    let r = Task { contents: String::new(), done: false, subtasks: Vec::new() };
    proof {
        lemma_subtasks_view(r);
        assert(r@.subtasks =~= Seq::<TaskView>::empty());
    }
    r
}

impl TaskFile {
    /// The list a first run starts from, when nothing is stored yet: one done
    /// task that says to make a task file.
    pub fn placeholder() -> (r: Self)
        ensures
            r@ == seq![TaskView { contents: "Create a new task file"@, done: true, subtasks: Seq::empty() }],
    {
        let t = Task { contents: "Create a new task file".to_owned(), done: true, subtasks: Vec::new() };
        let mut tasks: Vec<Task> = Vec::new();
        tasks.push(t);
        let r = TaskFile { tasks };
        proof {
            lemma_subtasks_view(t);
            assert(t@.subtasks =~= Seq::<TaskView>::empty());
            assert(r@ =~= seq![t@]);
        }
        r
    }

    /// How many tasks the root list holds.
    pub fn get_task_count(&self) -> (r: usize)
        ensures
            r == self@.len(),
    {
        self.tasks.len()
    }

    /// How many subtasks the root task at index `id` (0-based) has.
    pub fn get_subtask_count(&self, id: usize) -> (r: usize)
        requires
            id < self@.len(),
        ensures
            r == self@[id as int].subtasks.len(),
    {
        proof { lemma_subtasks_view(self.tasks@[id as int]); }
        self.tasks[id].subtasks.len()
    }

    /// Adds a task with text `contents`: at the top of a list when `to` is
    /// `top`, else at its bottom. The list is the root list when `task_id` is
    /// empty, else the subtasks of the task it names, which is then no longer
    /// done, nor is any task above it.
    pub fn add_task(&mut self, contents: &str, to: &str, task_id: &str) -> (r: Result<(), TaskError>)
        ensures
            ({
                let top = to@ == "top"@;
                if task_id@.len() == 0 {
                    &&& r is Ok
                    &&& final(self)@ == old(self)@.insert(
                        if top { 0 } else { old(self)@.len() as int },
                        leaf(contents@),
                    )
                } else {
                    match resolved(old(self)@, task_id@) {
                        Ok(p) => {
                            let at = if top { 0 } else { node_at(old(self)@, p).subtasks.len() as usize };
                            &&& r is Ok
                            &&& final(self)@ == inserted(old(self)@, p.push(at), leaf(contents@), true)
                        },
                        Err(e) => r == Err::<(), TaskError>(e) && final(self)@ == old(self)@,
                    }
                }
            }),
    {
        let top = is_top(to);
        let task = Task { contents: contents.to_owned(), done: false, subtasks: Vec::new() };
        proof {
            lemma_subtasks_view(task);
            assert(task@.subtasks =~= Seq::<TaskView>::empty());
        }
        if task_id.is_empty() {
            let at = if top { 0 } else { self.tasks.len() };
            proof { lemma_view_insert(self.tasks@, at as int, task); }
            self.tasks.insert(at, task);
            return Ok(());
        }
        let p = match resolve_id(&self.tasks, task_id) {
            Ok(p) => p,
            Err(e) => { return Err(e); },
        };
        let ghost pv = p@;
        let at = if top {
            0
        } else {
            proof { assert(p@.skip(0) == p@); }
            let n = node_ref(&self.tasks, &p, 0);
            proof { lemma_subtasks_view(*n); }
            n.subtasks.len()
        };
        let mut q = p;
        q.push(at);
        proof {
            lemma_child_slot(self@, pv, at);
            assert(q@.skip(0) == q@);
        }
        insert_at(&mut self.tasks, &q, 0, task, true);
        Ok(())
    }

    /// Marks the tasks that the comma-separated id list `ids` names: `done`
    /// sets their flag, and when it holds, that of every task beneath them too.
    /// Every task above a marked one is then done exactly when all its
    /// subtasks are. Nothing changes unless every id names a task.
    pub fn mark_tasks(&mut self, ids: &str, done: bool) -> (r: Result<(), TaskError>)
        ensures
            match resolved_all(old(self)@, ids@) {
                Ok(ps) => r is Ok && final(self)@ == marked_list(old(self)@, |q: Seq<usize>| ps.contains(q), done),
                Err(e) => r == Err::<(), TaskError>(e) && final(self)@ == old(self)@,
            },
    {
        let paths = match resolve_all(&self.tasks, ids) {
            Ok(ps) => ps,
            Err(e) => { return Err(e); },
        };
        let ghost ps = paths_view(paths@);
        proof {
            let hit = |q: Seq<usize>| ps.contains(q);
            assert forall|q: Seq<usize>| #[trigger] crate::tree::hit_of(false, paths@)(q) == hit(q) by {
                if listed(paths@, q) {
                    let k = choose|k: int| 0 <= k < paths@.len() && #[trigger] paths@[k]@ == q;
                    assert(ps[k] == q);
                }
                if ps.contains(q) {
                    let k = choose|k: int| 0 <= k < ps.len() && ps[k] == q;
                    assert(paths@[k]@ == q);
                }
            }
            assert(crate::tree::hit_of(false, paths@) =~= hit);
        }
        mark_list(&mut self.tasks, &paths, done);
        Ok(())
    }

    /// Moves the task that `from` names, with its subtasks, to the slot that
    /// `to` names. `to` is read before the move: where it runs through the
    /// list that held the task, at a later index, that index moves back by
    /// one. A task cannot move beneath itself.
    pub fn move_task(&mut self, from: &str, to: &str) -> (r: Result<(), TaskError>)
        ensures
            match (resolved(old(self)@, from@), resolved_slot(old(self)@, to@)) {
                (Err(e), _) => r == Err::<(), TaskError>(e) && final(self)@ == old(self)@,
                (Ok(_), Err(e)) => r == Err::<(), TaskError>(e) && final(self)@ == old(self)@,
                (Ok(p), Ok(q)) => if nested(p, q) {
                    r == Err::<(), TaskError>(TaskError::NestedIds) && final(self)@ == old(self)@
                } else {
                    r is Ok && final(self)@ == moved(old(self)@, p, q)
                },
            },
    {
        let p = match resolve_id(&self.tasks, from) {
            Ok(p) => p,
            Err(e) => { return Err(e); },
        };
        let mut q = match resolve_slot(&self.tasks, to) {
            Ok(q) => q,
            Err(e) => { return Err(e); },
        };
        if is_nested(&p, &q) {
            return Err(TaskError::NestedIds);
        }
        let ghost before = self@;
        let ghost qv = q@;
        proof {
            assert(p@.skip(0) == p@);
            lemma_slot_after_removal(before, p@, q@);
        }
        let node = remove_at(&mut self.tasks, &p, 0);
        let k = p.len() - 1;
        if q.len() > k && same_prefix(&p, &q, k) && q[k] > p[k] {
            q[k] = q[k] - 1;
        }
        proof {
            assert(q@ == shifted(p@, qv));
            assert(q@.skip(0) == q@);
        }
        insert_at(&mut self.tasks, &q, 0, node, false);
        Ok(())
    }

    /// Makes the tasks that `task1` and `task2` name trade places, each with
    /// its subtasks. Neither may lie beneath the other.
    pub fn swap_tasks(&mut self, task1: &str, task2: &str) -> (r: Result<(), TaskError>)
        ensures
            match (resolved(old(self)@, task1@), resolved(old(self)@, task2@)) {
                (Err(e), _) => r == Err::<(), TaskError>(e) && final(self)@ == old(self)@,
                (Ok(_), Err(e)) => r == Err::<(), TaskError>(e) && final(self)@ == old(self)@,
                (Ok(p), Ok(q)) => if p == q {
                    r is Ok && final(self)@ == old(self)@
                } else if nested(p, q) || nested(q, p) {
                    r == Err::<(), TaskError>(TaskError::NestedIds) && final(self)@ == old(self)@
                } else {
                    r is Ok && final(self)@ == swapped(old(self)@, p, q)
                },
            },
    {
        let p = match resolve_id(&self.tasks, task1) {
            Ok(p) => p,
            Err(e) => { return Err(e); },
        };
        let q = match resolve_id(&self.tasks, task2) {
            Ok(q) => q,
            Err(e) => { return Err(e); },
        };
        if is_same(&p, &q) {
            return Ok(());
        }
        if is_nested(&p, &q) || is_nested(&q, &p) {
            return Err(TaskError::NestedIds);
        }
        let ghost t0 = self@;
        proof {
            assert(p@.skip(0) == p@);
            assert(q@.skip(0) == q@);
            assert(!is_prefix(p@, q@)) by {
                if p@.len() == q@.len() && q@.take(p@.len() as int) == p@ {
                    assert(q@.take(q@.len() as int) =~= q@);
                }
            }
            assert(!is_prefix(q@, p@)) by {
                if p@.len() == q@.len() && p@.take(q@.len() as int) == q@ {
                    assert(p@.take(p@.len() as int) =~= p@);
                }
            }
        }
        let ph = placeholder();
        let np = replace_at(&mut self.tasks, &p, 0, ph, false);
        let ghost t1 = self@;
        proof {
            lemma_replaced_elsewhere(t0, p@, q@, leaf(Seq::empty()), false);
            lemma_replaced_here(t0, p@, leaf(Seq::empty()), false);
        }
        let nq = replace_at(&mut self.tasks, &q, 0, np, false);
        proof {
            lemma_replaced_elsewhere(t1, q@, p@, np@, false);
            lemma_replaced_elsewhere(t0, q@, p@, np@, false);
        }
        replace_at(&mut self.tasks, &p, 0, nq, false);
        proof {
            lemma_replaced_commute(t0, p@, q@, leaf(Seq::empty()), np@);
            lemma_replaced_here(t0, q@, np@, false);
            lemma_replaced_twice(replaced(t0, q@, np@, false), p@, leaf(Seq::empty()), nq@, false);
            lemma_replaced_commute(t0, q@, p@, np@, nq@);
        }
        Ok(())
    }

    /// Adds a space and `content` to the text of the task that `id` names;
    /// that task is then not done, nor is any task above it.
    pub fn append_to_task(&mut self, id: &str, content: &str) -> (r: Result<(), TaskError>)
        ensures
            match resolved(old(self)@, id@) {
                Ok(p) => {
                    let n = node_at(old(self)@, p);
                    &&& r is Ok
                    &&& final(self)@ == replaced(old(self)@, p, rewritten(n, n.contents + seq![' '] + content@), true)
                },
                Err(e) => r == Err::<(), TaskError>(e) && final(self)@ == old(self)@,
            },
    {
        let p = match resolve_id(&self.tasks, id) {
            Ok(p) => p,
            Err(e) => { return Err(e); },
        };
        let ghost t0 = self@;
        proof { assert(p@.skip(0) == p@); }
        let ph = placeholder();
        let old_node = replace_at(&mut self.tasks, &p, 0, ph, false);
        proof { lemma_replaced_here(t0, p@, leaf(Seq::empty()), false); }
        let Task { contents, done: _, subtasks } = old_node;
        let mut text = chars_of(contents.as_str());
        text.push(' ');
        let more = chars_of(content);
        let mut k: usize = 0;
        let ghost base = text@;
        while k < more.len()
            invariant
                k <= more.len(),
                text@ == base + more@.take(k as int),
            decreases more.len() - k,
        {
            text.push(more[k]);
            proof {
                assert(more@.take(k + 1) =~= more@.take(k as int).push(more@[k as int]));
            }
            k = k + 1;
        }
        proof {
            assert(more@.take(more.len() as int) =~= more@);
            lemma_subtasks_view(old_node);
            assert(text@ =~= node_at(t0, p@).contents + seq![' '] + content@);
        }
        let node = Task { contents: string_of(&text), done: false, subtasks };
        proof {
            lemma_subtasks_view(old_node);
            lemma_subtasks_view(node);
        }
        replace_at(&mut self.tasks, &p, 0, node, true);
        proof {
            lemma_replaced_twice(t0, p@, leaf(Seq::empty()), node@, true);
        }
        Ok(())
    }

    /// Gives the task that `id` names the text `new_content`; that task is
    /// then not done, nor is any task above it.
    pub fn edit_task(&mut self, id: &str, new_content: &str) -> (r: Result<(), TaskError>)
        ensures
            match resolved(old(self)@, id@) {
                Ok(p) => r is Ok && final(self)@ == replaced(
                    old(self)@,
                    p,
                    rewritten(node_at(old(self)@, p), new_content@),
                    true,
                ),
                Err(e) => r == Err::<(), TaskError>(e) && final(self)@ == old(self)@,
            },
    {
        let p = match resolve_id(&self.tasks, id) {
            Ok(p) => p,
            Err(e) => { return Err(e); },
        };
        let ghost t0 = self@;
        proof { assert(p@.skip(0) == p@); }
        let ph = placeholder();
        let old_node = replace_at(&mut self.tasks, &p, 0, ph, false);
        proof { lemma_replaced_here(t0, p@, leaf(Seq::empty()), false); }
        let Task { contents: _, done: _, subtasks } = old_node;
        let node = Task { contents: new_content.to_owned(), done: false, subtasks };
        proof {
            lemma_subtasks_view(old_node);
            lemma_subtasks_view(node);
        }
        replace_at(&mut self.tasks, &p, 0, node, true);
        proof {
            lemma_replaced_twice(t0, p@, leaf(Seq::empty()), node@, true);
        }
        Ok(())
    }

    /// Takes the task that `id` names, with its subtasks, out of the list.
    pub fn delete_task(&mut self, id: &str) -> (r: Result<(), TaskError>)
        ensures
            match resolved(old(self)@, id@) {
                Ok(p) => r is Ok && final(self)@ == removed(old(self)@, p),
                Err(e) => r == Err::<(), TaskError>(e) && final(self)@ == old(self)@,
            },
    {
        let p = match resolve_id(&self.tasks, id) {
            Ok(p) => p,
            Err(e) => { return Err(e); },
        };
        proof { assert(p@.skip(0) == p@); }
        let _ = remove_at(&mut self.tasks, &p, 0);
        Ok(())
    }

    /// Takes every done task out, at every depth.
    pub fn clear_dones(&mut self)
        ensures
            final(self)@ == cleared(old(self)@),
    {
        let mut ts: Vec<Task> = Vec::new();
        core::mem::swap(&mut ts, &mut self.tasks);
        self.tasks = clear_list(ts);
    }
}

impl Task {
    /// A task with the record's text and flag, and no subtasks.
    pub fn from_sub_task(sub: SubTask) -> (r: Self)
        ensures
            r@ == (TaskView { contents: sub.contents@, done: sub.done, subtasks: Seq::empty() }),
    {
        let r = Task { contents: sub.contents, done: sub.done, subtasks: Vec::new() };
        proof {
            lemma_subtasks_view(r);
            assert(r@.subtasks =~= Seq::<TaskView>::empty());
        }
        r
    }
}

impl SubTask {
    /// The task's own text and flag, without its subtasks.
    pub fn from_task(task: Task) -> (r: Self)
        ensures
            r.contents@ == task@.contents,
            r.done == task@.done,
    {
        proof { lemma_subtasks_view(task); }
        SubTask { contents: task.contents, done: task.done }
    }
}

} // verus!
