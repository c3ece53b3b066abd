use tsk::task_file::{Task, TaskFile};

fn t(contents: &str, done: bool, subtasks: Vec<Task>) -> Task {
    Task {
        contents: contents.to_owned(),
        done,
        subtasks,
    }
}

fn list(names: &[&str]) -> TaskFile {
    TaskFile {
        tasks: names.iter().map(|n| t(n, false, vec![])).collect(),
    }
}

fn names(ts: &[Task]) -> Vec<&str> {
    ts.iter().map(|t| t.contents.as_str()).collect()
}

fn shape(ts: &[Task]) -> String {
    ts.iter()
        .map(|x| {
            format!(
                "{}{}[{}]",
                x.contents,
                if x.done { "+" } else { "-" },
                shape(&x.subtasks)
            )
        })
        .collect::<Vec<_>>()
        .join(",")
}

#[test]
fn add_at_top_and_bottom() {
    let mut tf = list(&["one", "two"]);
    tf.add_task("three", "top", "").unwrap();
    assert_eq!(names(&tf.tasks), ["three", "one", "two"]);

    let mut tf = list(&["one", "two"]);
    tf.add_task("three", "bottom", "").unwrap();
    assert_eq!(names(&tf.tasks), ["one", "two", "three"]);
}

#[test]
fn add_deep_subtask_undoes_every_task_above() {
    let mut tf = TaskFile {
        tasks: vec![t("a", true, vec![t("b", true, vec![t("c", true, vec![])])])],
    };
    tf.add_task("d", "bot", "1.1").unwrap();
    assert_eq!(shape(&tf.tasks), "a-[b-[c+[],d-[]]]");
}

#[test]
fn move_forward_and_backward_in_one_list() {
    let mut tf = list(&["a", "b", "c"]);
    tf.move_task("2", "4").unwrap();
    assert_eq!(names(&tf.tasks), ["a", "c", "b"]);

    let mut tf = list(&["a", "b", "c"]);
    tf.move_task("3", "2").unwrap();
    assert_eq!(names(&tf.tasks), ["a", "c", "b"]);

    let mut tf = list(&["a", "b", "c"]);
    tf.move_task("1", "3").unwrap();
    assert_eq!(names(&tf.tasks), ["b", "a", "c"]);

    let mut tf = list(&["a", "b", "c"]);
    tf.move_task("2", "2").unwrap();
    assert_eq!(names(&tf.tasks), ["a", "b", "c"]);
}

#[test]
fn move_keeps_the_subtree() {
    let mut tf = TaskFile {
        tasks: vec![
            t("p", false, vec![t("x", true, vec![]), t("y", false, vec![])]),
            t("q", false, vec![]),
        ],
    };
    tf.move_task("1", "2.1").unwrap();
    assert_eq!(shape(&tf.tasks), "q-[p-[x+[],y-[]]]");
}

#[test]
fn swap_keeps_both_subtrees() {
    let mut tf = TaskFile {
        tasks: vec![
            t("p", false, vec![t("pa", false, vec![]), t("pb", true, vec![])]),
            t("q", true, vec![t("r", false, vec![t("qa", false, vec![])])]),
        ],
    };
    tf.swap_tasks("1", "2.1").unwrap();
    assert_eq!(shape(&tf.tasks), "r-[qa-[]],q+[p-[pa-[],pb+[]]]");
    tf.swap_tasks("1", "1").unwrap();
    assert_eq!(shape(&tf.tasks), "r-[qa-[]],q+[p-[pa-[],pb+[]]]");
}

#[test]
fn delete_renumbers_later_tasks() {
    let mut tf = list(&["one", "two", "three"]);
    tf.delete_task("2").unwrap();
    assert_eq!(tf.tasks.len(), 2);
    tf.edit_task("2", "third").unwrap();
    assert_eq!(names(&tf.tasks), ["one", "third"]);
}

#[test]
fn clear_done_is_recursive() {
    let mut tf = TaskFile {
        tasks: vec![t("root", true, vec![t("a", false, vec![]), t("b", false, vec![])])],
    };
    tf.clear_dones();
    assert!(tf.tasks.is_empty());

    let mut tf = TaskFile {
        tasks: vec![t("root", false, vec![t("a", true, vec![]), t("b", false, vec![t("c", true, vec![])])])],
    };
    tf.clear_dones();
    assert_eq!(shape(&tf.tasks), "root-[b-[]]");
}

#[test]
fn mark_done_cascades_and_undone_does_not() {
    let mut tf = TaskFile {
        tasks: vec![t("p", false, vec![t("a", false, vec![t("b", false, vec![])])])],
    };
    tf.mark_tasks("1", true).unwrap();
    assert_eq!(shape(&tf.tasks), "p+[a+[b+[]]]");
    tf.mark_tasks("1", false).unwrap();
    assert_eq!(shape(&tf.tasks), "p-[a+[b+[]]]");
}

#[test]
fn roll_up_follows_the_last_child() {
    let mut tf = TaskFile {
        tasks: vec![t("p", false, vec![t("a", false, vec![]), t("b", false, vec![]), t("c", false, vec![])])],
    };
    tf.mark_tasks("1.1", true).unwrap();
    assert!(!tf.tasks[0].done);
    tf.mark_tasks("1.2", true).unwrap();
    assert!(!tf.tasks[0].done);
    tf.mark_tasks("1.3", true).unwrap();
    assert!(tf.tasks[0].done);
    tf.mark_tasks("1.2", false).unwrap();
    assert!(!tf.tasks[0].done);
    assert_eq!(shape(&tf.tasks), "p-[a+[],b-[],c+[]]");
}

#[test]
fn roll_up_reaches_every_level() {
    let mut tf = TaskFile {
        tasks: vec![t("p", false, vec![t("a", false, vec![t("x", false, vec![])]), t("b", true, vec![])])],
    };
    tf.mark_tasks("1.1.1", true).unwrap();
    assert_eq!(shape(&tf.tasks), "p+[a+[x+[]],b+[]]");
}

#[test]
fn marking_done_twice_changes_nothing() {
    let start = || TaskFile {
        tasks: vec![
            t("p", true, vec![t("a", false, vec![]), t("b", false, vec![])]),
            t("q", false, vec![t("c", false, vec![])]),
        ],
    };
    let mut once = start();
    once.mark_tasks("1.1,2", true).unwrap();
    let mut twice = start();
    twice.mark_tasks("1.1,2", true).unwrap();
    twice.mark_tasks("1.1,2", true).unwrap();
    assert_eq!(shape(&once.tasks), shape(&twice.tasks));
    assert_eq!(shape(&once.tasks), "p-[a+[],b-[]],q+[c+[]]");
}

#[test]
fn listing_plain_and_colored() {
    let tf = TaskFile {
        tasks: vec![
            t("one", true, vec![t("sub", false, vec![t("deep", false, vec![])])]),
            t("two", false, vec![]),
        ],
    };
    assert_eq!(
        tf.render(false),
        ["1. [X] one", "\t1.1. [ ] sub", "\t\t1.1.1. [ ] deep", "2. [ ] two"]
    );
    assert_eq!(
        tf.render(true),
        [
            "1. \x1b[0;32m[X] one \x1b[0m",
            "\t1.1. \x1b[0;31m[ ] sub \x1b[0m",
            "\t\t1.1.1. \x1b[0;31m[ ] deep \x1b[0m",
            "2. \x1b[0;31m[ ] two \x1b[0m"
        ]
    );
    let many = list(&["a", "b", "c", "d", "e", "f", "g", "h", "i", "j", "k"]);
    assert_eq!(many.render(false)[10], "11. [ ] k");
    assert!(list(&[]).render(true).is_empty());
}
