use tsk::cli::Cli;
use tsk::task_file::{Task, TaskFile};

fn tasks() -> TaskFile {
    TaskFile {
        tasks: vec![
            Task {
                contents: "one".to_owned(),
                done: false,
                subtasks: vec![],
            },
            Task {
                contents: "two words".to_owned(),
                done: true,
                subtasks: vec![],
            },
        ],
    }
}

/// `args` ex.: "tsk ad -t = top 'hello world' ad,1"
fn get_comp(args: &str) -> Result<String, &'static str> {
    let a: Vec<String> = if args.is_empty() {
        vec![]
    } else {
        args.split(' ').map(|s| s.to_string()).collect()
    };
    Cli::generate_shell_completions(a, &tasks())
}

#[test]
fn test_cmd_completion() {
    let comp = get_comp("tsk    ,1");
    assert!(comp.is_ok());
    assert_eq!(
        comp.unwrap(),
        "print add do undo move swap append edit delete clear"
    );

    let comp = get_comp("tsk ad ad,1");
    assert!(comp.is_ok());
    assert_eq!(
        comp.unwrap(),
        "print add do undo move swap append edit delete clear"
    );

    let comp = get_comp("tsk ze ze,1");
    assert!(comp.is_ok());
    assert_eq!(
        comp.unwrap(),
        "print add do undo move swap append edit delete clear"
    );
}

#[test]
fn test_cmd_completion_after_options() {
    let comp = get_comp("tsk -a    ,2");
    assert!(comp.is_ok());
    assert_eq!(
        comp.unwrap(),
        "print add do undo move swap append edit delete clear"
    );

    let comp = get_comp("tsk -a sw sw,2");
    assert!(comp.is_ok());
    assert_eq!(
        comp.unwrap(),
        "print add do undo move swap append edit delete clear"
    );

    let comp = get_comp("tsk -a -s = 2    ,5");
    assert!(comp.is_ok());
    assert_eq!(
        comp.unwrap(),
        "print add do undo move swap append edit delete clear"
    );

    let comp = get_comp("tsk -a -s = 2 pr pr,5");
    assert!(comp.is_ok());
    assert_eq!(
        comp.unwrap(),
        "print add do undo move swap append edit delete clear"
    );
}

#[test]
fn test_short_option_completion() {
    let comp = get_comp("tsk - -,1");
    assert!(comp.is_ok());
    assert_eq!(comp.unwrap(), "-h -v -c -a -t -s");

    let comp = get_comp("tsk -c -c,1");
    assert!(comp.is_ok());
    assert_eq!(comp.unwrap(), "-h -v -c -a -t -s");

    let comp = get_comp("tsk -z -z,1");
    assert!(comp.is_ok());
    assert_eq!(comp.unwrap(), "-h -v -c -a -t -s");
}

#[test]
fn test_long_option_completion() {
    let comp = get_comp("tsk -- --,1");
    assert!(comp.is_ok());
    assert_eq!(
        comp.unwrap(),
        "--help --version --no-color --all --add-to --subtask --generate-shell-completions"
    );

    let comp = get_comp("tsk --h --h,1");
    assert!(comp.is_ok());
    assert_eq!(
        comp.unwrap(),
        "--help --version --no-color --all --add-to --subtask --generate-shell-completions"
    );

    let comp = get_comp("tsk --z --z,1");
    assert!(comp.is_ok());
    assert_eq!(
        comp.unwrap(),
        "--help --version --no-color --all --add-to --subtask --generate-shell-completions"
    );
}

#[test]
fn test_add_to_option_completion() {
    let comp = get_comp("tsk -t =    ,3");
    assert!(comp.is_ok());
    assert_eq!(comp.unwrap(), "top bottom");

    let comp = get_comp("tsk --add-to =    ,3");
    assert!(comp.is_ok());
    assert_eq!(comp.unwrap(), "top bottom");

    let comp = get_comp("tsk -t = =,2");
    assert!(comp.is_ok());
    assert_eq!(comp.unwrap(), "top bottom");

    let comp = get_comp("tsk --add-to = =,2");
    assert!(comp.is_ok());
    assert_eq!(comp.unwrap(), "top bottom");
}

#[test]
fn test_incorrect_completion_args() {
    let comp = get_comp("tsk edit 2    3");
    assert!(comp.is_err());

    let comp = get_comp("tsk edit 2    ,-1");
    assert!(comp.is_err());

    let comp = get_comp("tsk edit 2    ,a");
    assert!(comp.is_err());
}

#[test]
fn test_empty_completion() {
    let comp = get_comp("");
    assert!(comp.is_ok());
    assert_eq!(comp.unwrap(), "");

    let comp = get_comp("tsk add -t = 2 'hello'    ,5");
    assert!(comp.is_ok());
    assert_eq!(comp.unwrap(), "");
}

#[test]
fn edit_completion_offers_the_current_text() {
    assert_eq!(get_comp("tsk edit 2    ,3").unwrap(), "'two words'");
    assert_eq!(get_comp("tsk edit 1    ,3").unwrap(), "'one'");
    assert_eq!(get_comp("tsk edit 7    ,3").unwrap(), "");
    assert_eq!(
        get_comp("tsk edit 2    ,99999999999999999999999"),
        Err("Current word position is not usize")
    );
    assert_eq!(get_comp("tsk edit 2 3"), Err("Missing `$current_word,$position`"));
}

#[test]
fn test_edit_completion() {
    let comp = get_comp("tsk edit 2    ,3");
    let tf = tasks();
    assert!(comp.is_ok());

    let cont = if let Some(c) = tf.tasks.get(1).map(|t| t.contents.clone()) {
        format!("'{c}'")
    } else {
        "".to_string()
    };
    assert_eq!(comp.unwrap(), cont);
}
