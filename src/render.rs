//! The listing of a task tree: one line per task, depth first.
use vstd::prelude::*;
use crate::id::{numeral, push_numeral};
use crate::task_file::TaskFile;
use crate::text::{chars_of, push_all, string_of, strings_view};
use crate::tree::{lemma_subtasks_view, view_list, Task, TaskView};

verus! {

/// `[X]` for a done task, `[ ]` for one that is not.
pub open spec fn mark_text(done: bool) -> Seq<char> {
    if done { seq!['[', 'X', ']'] } else { seq!['[', ' ', ']'] }
}

/// The escape that starts the color of a task: green when done, red when not.
pub open spec fn color_start(done: bool) -> Seq<char> {
    seq!['\x1b', '[', '0', ';', '3', if done { '2' } else { '1' }, 'm']
}

/// What ends a colored line: a space and the escape that resets the color.
pub open spec fn color_end() -> Seq<char> {
    seq![' ', '\x1b', '[', '0', 'm']
}

/// The line of task `t` with id `id` written out, after the tabs `indent`:
/// `<id>. [X] <contents>`, colored when `colored` holds.
pub open spec fn line_text(indent: Seq<char>, id: Seq<char>, t: TaskView, colored: bool) -> Seq<char> {
    let body = mark_text(t.done) + seq![' '] + t.contents;
    indent + id + seq!['.', ' '] + if colored { color_start(t.done) + body + color_end() } else { body }
}

/// The lines of the list `ts`, depth first: each task's line, then those of
/// its subtasks, one tab further in. The ids start with `prefix`.
pub open spec fn lines_of(ts: Seq<TaskView>, prefix: Seq<char>, indent: Seq<char>, colored: bool) -> Seq<Seq<char>>
    decreases ts,
{
    if ts.len() == 0 {
        Seq::empty()
    } else {
        let t = ts.last();
        let id = prefix + numeral(ts.len() as nat);
        lines_of(ts.drop_last(), prefix, indent, colored).push(line_text(indent, id, t, colored))
            + lines_of(t.subtasks, id + seq!['.'], indent.push('\t'), colored)
    }
}

/// Writes `[X]` or `[ ]` after `out`.
fn push_mark(out: &mut Vec<char>, done: bool)
    ensures
        final(out)@ == old(out)@ + mark_text(done),
{
    out.push('[');
    out.push(if done { 'X' } else { ' ' });
    out.push(']');
    proof { assert(final(out)@ =~= old(out)@ + mark_text(done)); }
}

/// The line of task `t`; see `line_text`.
fn line(indent: &Vec<char>, id: &Vec<char>, t: &Task, colored: bool) -> (r: String)
    ensures
        r@ == line_text(indent@, id@, t@, colored),
{
    proof { lemma_subtasks_view(*t); }
    let mut out: Vec<char> = Vec::new();
    push_all(&mut out, indent);
    push_all(&mut out, id);
    out.push('.');
    out.push(' ');
    let ghost head = out@;
    if colored {
        out.push('\x1b');
        out.push('[');
        out.push('0');
        out.push(';');
        out.push('3');
        out.push(if t.done { '2' } else { '1' });
        out.push('m');
        proof { assert(out@ =~= head + color_start(t.done)); }
    }
    let ghost before_body = out@;
    push_mark(&mut out, t.done);
    out.push(' ');
    let text = chars_of(t.contents.as_str());
    push_all(&mut out, &text);
    let ghost body = mark_text(t.done) + seq![' '] + t.contents@;
    proof { assert(out@ =~= before_body + body); }
    if colored {
        out.push(' ');
        out.push('\x1b');
        out.push('[');
        out.push('0');
        out.push('m');
        proof { assert(out@ =~= head + (color_start(t.done) + body + color_end())); }
    } else {
        proof { assert(out@ =~= head + body); }
    }
    string_of(&out)
}

/// Writes the lines of `ts` after those in `out`.
fn render_into(ts: &Vec<Task>, prefix: &Vec<char>, indent: &Vec<char>, colored: bool, out: &mut Vec<String>)
    ensures
        strings_view(final(out)@) == strings_view(old(out)@) + lines_of(view_list(ts@), prefix@, indent@, colored),
    decreases ts,
{
    let ghost start = strings_view(out@);
    let ghost whole = view_list(ts@);
    let mut k: usize = 0;
    while k < ts.len()
        invariant
            k <= ts.len(),
            whole == view_list(ts@),
            strings_view(out@) == start + lines_of(whole.take(k as int), prefix@, indent@, colored),
        decreases ts.len() - k,
    {
        let mut id: Vec<char> = Vec::new();
        push_all(&mut id, prefix);
        push_numeral(&mut id, k + 1);
        let ghost before = strings_view(out@);
        let l = line(indent, &id, &ts[k], colored);
        out.push(l);
        proof { assert(strings_view(out@) =~= before.push(l@)); }
        let ghost idv = id@;
        id.push('.');
        let mut deeper: Vec<char> = Vec::new();
        push_all(&mut deeper, indent);
        deeper.push('\t');
        proof {
            lemma_subtasks_view(ts@[k as int]);
            vstd::std_specs::vec::axiom_vec_index_decreases(*ts, k as int);
        }
        let ghost mid = strings_view(out@);
        render_into(&ts[k].subtasks, &id, &deeper, colored, out);
        proof {
            let t = whole.take(k + 1);
            assert(t.drop_last() =~= whole.take(k as int));
            assert(t.last() == whole[k as int]);
            assert(idv == prefix@ + numeral(t.len() as nat));
            assert(id@ == idv + seq!['.']);
            assert(deeper@ =~= indent@.push('\t'));
            assert(ts@[k as int]@ == whole[k as int]);
            assert(l@ == line_text(indent@, idv, whole[k as int], colored));
            assert(lines_of(t, prefix@, indent@, colored) == lines_of(whole.take(k as int), prefix@, indent@, colored).push(
                line_text(indent@, idv, whole[k as int], colored)) + lines_of(whole[k as int].subtasks, id@, deeper@, colored));
            assert(strings_view(out@) =~= start + lines_of(t, prefix@, indent@, colored));
        }
        k = k + 1;
    }
    proof { assert(whole.take(ts.len() as int) =~= whole); }
}

impl TaskFile {
    /// The listing of the tasks: one line per task, depth first, each
    /// `<id>. [X] <contents>` after one tab per level of depth; colored lines
    /// are green for done tasks and red for the others.
    pub fn render(&self, colored: bool) -> (r: Vec<String>)
        ensures
            strings_view(r@) == lines_of(self@, Seq::empty(), Seq::empty(), colored),
    {
        let mut out: Vec<String> = Vec::new();
        let prefix: Vec<char> = Vec::new();
        let indent: Vec<char> = Vec::new();
        render_into(&self.tasks, &prefix, &indent, colored, &mut out);
        proof { assert(strings_view(Seq::<String>::empty()) + lines_of(self@, prefix@, indent@, colored) =~= lines_of(self@, Seq::empty(), Seq::empty(), colored)); }
        out
    }
}

} // verus!
