use tsk::error::TaskError;
use tsk::task_file::{SubTask, Task, TaskFile};

fn task(contents: &str, done: bool, subtasks: Vec<Task>) -> Task {
    Task {
        contents: contents.to_owned(),
        done,
        subtasks,
    }
}

fn get_test_task_file() -> TaskFile {
    TaskFile {
        tasks: vec![
            task(
                "one",
                false,
                vec![task("one", false, vec![]), task("two", false, vec![])],
            ),
            task(
                "two",
                false,
                vec![task("one", false, vec![]), task("two", false, vec![])],
            ),
        ],
    }
}

fn get_done_test_task_file() -> TaskFile {
    TaskFile {
        tasks: vec![
            task(
                "one",
                true,
                vec![task("one", true, vec![]), task("two", true, vec![])],
            ),
            task(
                "two",
                true,
                vec![task("one", true, vec![]), task("two", true, vec![])],
            ),
        ],
    }
}

fn names(ts: &[Task]) -> Vec<&str> {
    ts.iter().map(|t| t.contents.as_str()).collect()
}

// ADDING TASKS
#[test]
fn test_add_task_top() {
    let mut tf = get_test_task_file();
    tf.add_task("three", "top", "").unwrap();

    let v = names(&tf.tasks);
    assert_eq!(v, ["three", "one", "two"]);
}

#[test]
fn test_add_task_bottom() {
    let mut tf = get_test_task_file();
    tf.add_task("three", "bot", "").unwrap();
    tf.add_task("four", "bottom", "").unwrap();

    let v = names(&tf.tasks);
    assert_eq!(v, ["one", "two", "three", "four"]);
}

#[test]
fn test_add_sub_top() {
    let mut tf = get_test_task_file();
    tf.add_task("sub", "top", "2").unwrap();

    assert_eq!(names(&tf.tasks), ["one", "two"]);
    assert_eq!(names(&tf.tasks[0].subtasks), ["one", "two"]);
    assert_eq!(names(&tf.tasks[1].subtasks), ["sub", "one", "two"]);
}

#[test]
fn test_add_sub_bottom() {
    let mut tf = get_test_task_file();
    tf.add_task("sub3", "bot", "2").unwrap();
    tf.add_task("sub4", "bottom", "2").unwrap();

    assert_eq!(names(&tf.tasks), ["one", "two"]);
    assert_eq!(names(&tf.tasks[0].subtasks), ["one", "two"]);
    assert_eq!(names(&tf.tasks[1].subtasks), ["one", "two", "sub3", "sub4"]);
}

#[test]
fn test_adding_sub_undoes_task() {
    let mut tf = get_done_test_task_file();

    assert_eq!(tf.tasks[1].done, true);
    tf.add_task("sub", "top", "2").unwrap();
    assert_eq!(tf.tasks[1].done, false);
}

// MARKING TASKS
#[test]
fn test_mark_tasks() {
    let mut tf = get_test_task_file();
    tf.mark_tasks("1", true).unwrap();
    tf.mark_tasks("2", true).unwrap();

    assert!(tf.tasks[0].done);
    assert!(tf.tasks[1].done);

    tf.mark_tasks("1", false).unwrap();
    tf.mark_tasks("2", false).unwrap();

    assert!(!tf.tasks[0].done);
    assert!(!tf.tasks[1].done);
}

#[test]
fn test_mark_sub() {
    let mut tf = get_test_task_file();
    tf.mark_tasks("1.1", true).unwrap();
    assert!(!tf.tasks[0].done);
    assert!(tf.tasks[0].subtasks[0].done);

    tf.mark_tasks("1.2", true).unwrap();
    assert!(tf.tasks[0].done);
    assert!(tf.tasks[0].subtasks[1].done);
    assert!(!tf.tasks[1].done);

    tf.mark_tasks("1.1", false).unwrap();
    assert!(!tf.tasks[0].done);
    assert!(!tf.tasks[0].subtasks[0].done);

    tf.mark_tasks("1.2", false).unwrap();
    assert!(!tf.tasks[0].subtasks[1].done);
}

#[test]
fn test_marking_task_done_marks_subtasks() {
    let mut tf = get_test_task_file();

    tf.mark_tasks("2", true).unwrap();
    assert!(!tf.tasks[0].done);
    assert!(tf.tasks[1].done);
    assert!(tf.tasks[1].subtasks[0].done);
    assert!(tf.tasks[1].subtasks[1].done);

    tf.mark_tasks("2", false).unwrap();
    assert!(!tf.tasks[1].done);
    assert!(tf.tasks[1].subtasks[0].done);
    assert!(tf.tasks[1].subtasks[1].done);
}

// MOVING TASKS
#[test]
fn task_file_test_move_task() {
    let mut tf = get_test_task_file();
    tf.add_task("other", "bottom", "").unwrap();
    tf.add_task("more", "bottom", "").unwrap();
    tf.move_task("3", "1").unwrap();

    assert_eq!(names(&tf.tasks), ["other", "one", "two", "more"]);

    // The destination slot is read before the move: slot 4 sits in front of
    // "more", which ends up right after the moved task.
    tf.move_task("1", "4").unwrap();

    assert_eq!(names(&tf.tasks), ["one", "two", "other", "more"]);
}

#[test]
fn test_move_subtask() {
    let mut tf = get_test_task_file();
    tf.add_task("other", "top", "1").unwrap();
    tf.move_task("1.1", "1.4").unwrap();

    assert_eq!(names(&tf.tasks[0].subtasks), ["one", "two", "other"]);

    tf.move_task("1.3", "1.1").unwrap();
    assert_eq!(names(&tf.tasks[0].subtasks), ["other", "one", "two"]);
}

#[test]
fn test_move_task_to_subtask_vice_versa() {
    let mut tf = get_test_task_file();
    tf.add_task("other", "top", "1").unwrap();
    tf.move_task("1.1", "3").unwrap();

    assert_eq!(tf.tasks[0].contents, "one");
    assert_eq!(tf.tasks[0].subtasks[0].contents, "one");
    assert_eq!(tf.tasks[0].subtasks[1].contents, "two");
    assert_eq!(tf.tasks[1].contents, "two");
    assert_eq!(tf.tasks[2].contents, "other");

    tf.move_task("1", "3.1").unwrap();
    assert_eq!(tf.tasks[0].contents, "two");
    assert_eq!(tf.tasks[1].contents, "other");
    assert_eq!(tf.tasks[1].subtasks[0].contents, "one");

    tf.move_task("2", "1.1").unwrap();
    assert_eq!(tf.tasks[0].contents, "two");
    assert_eq!(tf.tasks[0].subtasks[0].contents, "other");
    assert_eq!(tf.tasks[0].subtasks[1].contents, "one");
    assert_eq!(tf.tasks[0].subtasks[2].contents, "two");
}

// SWAPPING TASKS
#[test]
fn test_swap_tasks() {
    let mut tf = get_test_task_file();
    tf.add_task("other", "top", "").unwrap();
    tf.swap_tasks("1", "3").unwrap();

    assert_eq!(names(&tf.tasks), ["two", "one", "other"]);
}

#[test]
fn test_swap_subtasks() {
    let mut tf = get_test_task_file();
    tf.add_task("other", "top", "1").unwrap();
    tf.swap_tasks("1.1", "1.3").unwrap();

    assert_eq!(names(&tf.tasks[0].subtasks), ["two", "one", "other"]);
}

#[test]
fn test_swap_task_subtask() {
    let mut tf = get_test_task_file();
    tf.add_task("other", "top", "").unwrap();
    tf.swap_tasks("1", "2.2").unwrap();

    assert_eq!(tf.tasks[0].contents, "two");
    assert_eq!(tf.tasks[1].subtasks[1].contents, "other");

    tf.swap_tasks("2.2", "1").unwrap();
    assert_eq!(tf.tasks[0].contents, "other");
    assert_eq!(tf.tasks[1].subtasks[1].contents, "two");
}

// APPENDING TASK
#[test]
fn task_file_test_append_task() {
    let mut tf = get_test_task_file();
    tf.append_to_task("1", "new").unwrap();
    tf.append_to_task("1.1", "new").unwrap();

    assert_eq!(tf.tasks[0].contents, "one new");
    assert_eq!(tf.tasks[0].subtasks[0].contents, "one new");
}

#[test]
fn test_append_task_undo_done() {
    let mut tf = get_done_test_task_file();
    tf.append_to_task("1", "new").unwrap();
    assert!(!tf.tasks[0].done);

    tf = get_done_test_task_file();
    tf.append_to_task("1.1", "new").unwrap();

    assert!(!tf.tasks[0].done);
    assert!(!tf.tasks[0].subtasks[0].done);
}

// EDITING TASK
#[test]
fn task_file_test_edit_task() {
    let mut tf = get_test_task_file();
    tf.edit_task("1", "new").unwrap();
    tf.edit_task("1.1", "newer").unwrap();

    assert_eq!(tf.tasks[0].contents, "new");
    assert_eq!(tf.tasks[0].subtasks[0].contents, "newer");
}

#[test]
fn test_edit_task_undo_done() {
    let mut tf = get_done_test_task_file();
    tf.edit_task("1", "new").unwrap();
    assert!(!tf.tasks[0].done);

    tf = get_done_test_task_file();
    tf.edit_task("1.1", "new").unwrap();

    assert!(!tf.tasks[0].done);
    assert!(!tf.tasks[0].subtasks[0].done);
}

// DELETING TASK
#[test]
fn task_file_test_delete_task() {
    let mut tf = get_test_task_file();
    tf.delete_task("2.2").unwrap();
    tf.delete_task("1").unwrap();

    assert_eq!(tf.tasks.len(), 1);
    assert_eq!(tf.tasks[0].subtasks.len(), 1)
}

#[test]
fn test_clear_dones() {
    let mut tf = get_test_task_file();
    tf.tasks[1].subtasks[0].done = true;
    tf.tasks[0].done = true;
    tf.clear_dones();

    assert_eq!(tf.tasks.len(), 1);
    assert_eq!(tf.tasks[0].subtasks.len(), 1);
}

// CONVERSIONS AND COUNTS
#[test]
fn sub_task_round_trip_drops_subtasks() {
    let tf = get_done_test_task_file();
    let t = tf.tasks.into_iter().next().unwrap();
    let sub = SubTask::from_task(t);
    assert_eq!(sub.contents, "one");
    assert!(sub.done);
    let back = Task::from_sub_task(sub);
    assert_eq!(back.contents, "one");
    assert!(back.done);
    assert!(back.subtasks.is_empty());
}

#[test]
fn counts_of_tasks_and_subtasks() {
    let mut tf = get_test_task_file();
    tf.add_task("sub", "top", "2").unwrap();
    assert_eq!(tf.get_task_count(), 2);
    assert_eq!(tf.get_subtask_count(0), 2);
    assert_eq!(tf.get_subtask_count(1), 3);
}

// ERRORS
#[test]
fn ids_that_name_no_task_are_refused() {
    let mut tf = get_test_task_file();
    assert_eq!(tf.delete_task("0"), Err(TaskError::MalformedId));
    assert_eq!(tf.delete_task("1..2"), Err(TaskError::MalformedId));
    assert_eq!(tf.delete_task("a"), Err(TaskError::MalformedId));
    assert_eq!(tf.delete_task(""), Err(TaskError::MalformedId));
    assert_eq!(tf.delete_task("1,2"), Err(TaskError::MalformedId));
    assert_eq!(tf.delete_task("3"), Err(TaskError::IdOutOfRange));
    assert_eq!(tf.delete_task("1.3"), Err(TaskError::IdOutOfRange));
    assert_eq!(tf.delete_task("1.1.1"), Err(TaskError::IdOutOfRange));
    assert_eq!(tf.mark_tasks("1,9", true), Err(TaskError::IdOutOfRange));
    assert!(!tf.tasks[0].done);
    assert_eq!(tf.tasks.len(), 2);

    let mut empty = TaskFile { tasks: vec![] };
    assert_eq!(empty.delete_task("1"), Err(TaskError::EmptyTree));
    assert_eq!(empty.add_task("x", "top", "1"), Err(TaskError::EmptyTree));
    assert_eq!(empty.add_task("x", "top", ""), Ok(()));
    assert_eq!(names(&empty.tasks), ["x"]);
}

#[test]
fn nested_moves_and_swaps_are_refused() {
    let mut tf = get_test_task_file();
    assert_eq!(tf.move_task("1", "1.1"), Err(TaskError::NestedIds));
    assert_eq!(tf.swap_tasks("1", "1.2"), Err(TaskError::NestedIds));
    assert_eq!(tf.swap_tasks("2.1", "2"), Err(TaskError::NestedIds));
    assert_eq!(names(&tf.tasks), ["one", "two"]);
    assert_eq!(names(&tf.tasks[0].subtasks), ["one", "two"]);
}

#[test]
fn leading_zeros_name_the_same_task() {
    let mut tf = get_test_task_file();
    tf.edit_task("02.01", "first").unwrap();
    assert_eq!(tf.tasks[1].subtasks[0].contents, "first");
}

#[test]
fn placeholder_is_one_done_task() {
    let tf = TaskFile::placeholder();
    assert_eq!(tf.tasks.len(), 1);
    assert_eq!(tf.tasks[0].contents, "Create a new task file");
    assert!(tf.tasks[0].done);
    assert!(tf.tasks[0].subtasks.is_empty());
}

#[test]
fn error_messages() {
    assert_eq!(TaskError::MalformedId.message(), "an id is malformed");
    assert_eq!(TaskError::IdOutOfRange.message(), "an id is out of bounds");
    assert_eq!(TaskError::EmptyTree.message(), "the task list is empty");
    assert_eq!(TaskError::NestedIds.message(), "one id lies beneath the other");
}
