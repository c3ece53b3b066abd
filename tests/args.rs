use tsk::args::Request;
use tsk::cli::Cli;

/// `args` ex.: "tsk add -t=top 'hello world' "
fn get_cli(args: &str) -> Result<Cli, String> {
    let args = args.trim();
    let a = args.split(' ').map(|s| s.to_owned()).collect();
    match Cli::parse_args(a) {
        Ok(Request::Run(cli)) => Ok(cli),
        Ok(_) => Err("not a run".to_owned()),
        Err(e) => Err(e),
    }
}

// OPTIONS
#[test]
fn test_flag_nocolor() {
    let cli = get_cli("tsk -c");
    assert!(cli.is_ok());
    assert_eq!(cli.unwrap().colored_output, false);
}

#[test]
fn test_flag_all() {
    let cli = get_cli("tsk do -a");
    assert!(cli.is_ok());
    assert_eq!(cli.unwrap().task_ids, "all");
}

#[test]
fn test_flag_all_fail_on_single_id_cmd() {
    let cli = get_cli("tsk edit -a");
    assert!(cli.is_err());
    assert_eq!(
        cli.err().unwrap(),
        "Flag `--all` not allowed for single task commands"
    );

    let cli = get_cli("tsk delete -a");
    assert!(cli.is_err());
}

#[test]
fn test_option_addto() {
    let cli = get_cli("tsk -t=top");
    assert!(cli.is_ok());
    assert_eq!(cli.unwrap().add_to, "top");

    let cli = get_cli("tsk -t=bot");
    assert!(cli.is_ok());
    assert_eq!(cli.unwrap().add_to, "bot");

    let cli = get_cli("tsk -t=bottom");
    assert!(cli.is_ok());
    assert_eq!(cli.unwrap().add_to, "bottom");
}

#[test]
fn test_option_subtask() {
    let cli = get_cli("tsk -s=1.2");
    assert!(cli.is_ok());
    assert_eq!(cli.unwrap().task_ids, "1.2")
}

#[test]
fn test_option_addto_wrong_value() {
    let cli = get_cli("tsk -t=tophat");
    assert!(cli.is_err());

    let cli = get_cli("tsk -t=");
    assert!(cli.is_err());
}

#[test]
fn test_option_subtask_empty_value() {
    let cli = get_cli("tsk -s=");
    assert!(cli.is_err());
}

#[test]
fn test_unknow_option_err() {
    let cli = get_cli("tsk -l=all");
    assert!(cli.is_err());

    let cli = get_cli("tsk --loll");
    assert!(cli.is_err());
}

// COMMANDS
#[test]
fn test_cmds_without_ids() {
    let cli = get_cli("tsk print");
    assert!(cli.is_ok());
    assert_eq!(cli.unwrap().command, "print");

    let cli = get_cli("tsk");
    assert!(cli.is_ok());
    assert_eq!(cli.unwrap().command, "print");

    let cli = get_cli("tsk clear");
    assert!(cli.is_ok());
    assert_eq!(cli.unwrap().command, "clear");
}

#[test]
fn test_add_cmd() {
    let cli = get_cli("tsk add -s=2 test");
    assert!(cli.is_ok());
    let cli = cli.unwrap();

    assert_eq!(cli.command, "add");
    assert_eq!(cli.contents, "test");
    assert_eq!(cli.task_ids, "2");

    let cli = get_cli("tsk add test");
    assert!(cli.is_ok());
    let cli = cli.unwrap();

    assert_eq!(cli.command, "add");
    assert_eq!(cli.contents, "test");
    assert_eq!(cli.task_ids, String::new());
}

#[test]
fn test_mark_cmds() {
    let cli = get_cli("tsk do 2");
    assert!(cli.is_ok());
    let cli = cli.unwrap();

    assert_eq!(cli.command, "do");
    assert_eq!(cli.task_ids, "2");

    let cli = get_cli("tsk undo 2");
    assert!(cli.is_ok());
    let cli = cli.unwrap();

    assert_eq!(cli.command, "undo");
    assert_eq!(cli.task_ids, "2");

    let cli = get_cli("tsk do ");
    assert!(cli.is_err());

    let cli = get_cli("tsk undo ");
    assert!(cli.is_err());

    let cli = get_cli("tsk do 2,3..2.45.1,2,35,10a");
    assert!(cli.is_ok());
    let cli = cli.unwrap();

    assert_eq!(cli.command, "do");
    assert_eq!(cli.task_ids, "2,3..2.45.1,2,35,10a");

    let cli = get_cli("tsk undo 2,3..2.45.1,2,35,10a");
    assert!(cli.is_ok());
    let cli = cli.unwrap();

    assert_eq!(cli.command, "undo");
    assert_eq!(cli.task_ids, "2,3..2.45.1,2,35,10a");
}

#[test]
fn test_move_cmds() {
    let cli = get_cli("tsk move 2 3");
    assert!(cli.is_ok());
    let cli = cli.unwrap();

    assert_eq!(cli.command, "move");
    assert_eq!(cli.task_ids, "2");
    assert_eq!(cli.move_id, "3");

    let cli = get_cli("tsk swap 2 4");
    assert!(cli.is_ok());
    let cli = cli.unwrap();

    assert_eq!(cli.command, "swap");
    assert_eq!(cli.task_ids, "2");
    assert_eq!(cli.move_id, "4");

    let cli = get_cli("tsk move a b");
    assert!(cli.is_ok());
    let cli = cli.unwrap();

    assert_eq!(cli.command, "move");
    assert_eq!(cli.task_ids, "a");
    assert_eq!(cli.move_id, "b");

    let cli = get_cli("tsk swap a b");
    assert!(cli.is_ok());
    let cli = cli.unwrap();

    assert_eq!(cli.command, "swap");
    assert_eq!(cli.task_ids, "a");
    assert_eq!(cli.move_id, "b");

    let cli = get_cli("tsk move ");
    assert!(cli.is_err());

    let cli = get_cli("tsk swap ");
    assert!(cli.is_err());

    let cli = get_cli("tsk move 2 ");
    assert!(cli.is_err());

    let cli = get_cli("tsk swap 3 ");
    assert!(cli.is_err());

    let cli = get_cli("tsk move 2 2");
    assert!(cli.is_err());

    let cli = get_cli("tsk swap 3 3");
    assert!(cli.is_err());
}

#[test]
fn test_edit_cmds() {
    let cli = get_cli("tsk edit 2 test");
    assert!(cli.is_ok());
    let cli = cli.unwrap();

    assert_eq!(cli.command, "edit");
    assert_eq!(cli.task_ids, "2");
    assert_eq!(cli.contents, "test");

    let cli = get_cli("tsk append 2 test");
    assert!(cli.is_ok());
    let cli = cli.unwrap();

    assert_eq!(cli.command, "append");
    assert_eq!(cli.task_ids, "2");
    assert_eq!(cli.contents, "test");

    let cli = get_cli("tsk edit a test");
    assert!(cli.is_ok());
    let cli = cli.unwrap();

    assert_eq!(cli.command, "edit");
    assert_eq!(cli.task_ids, "a");
    assert_eq!(cli.contents, "test");

    let cli = get_cli("tsk append a test");
    assert!(cli.is_ok());
    let cli = cli.unwrap();

    assert_eq!(cli.command, "append");
    assert_eq!(cli.task_ids, "a");
    assert_eq!(cli.contents, "test");

    let cli = get_cli("tsk edit ");
    assert!(cli.is_err());

    let cli = get_cli("tsk append ");
    assert!(cli.is_err());

    let cli = get_cli("tsk edit 2 ");
    assert!(cli.is_err());

    let cli = get_cli("tsk append 3 ");
    assert!(cli.is_err());
}

#[test]
fn test_unknow_command() {
    let cli = get_cli("tsk bob 50");
    assert!(cli.is_err())
}

#[test]
fn requests_that_stop_at_an_option() {
    let run = |s: &str| Cli::parse_args(s.split(' ').map(|w| w.to_owned()).collect());
    assert!(matches!(run("tsk -h"), Ok(Request::Help)));
    assert!(matches!(run("tsk add --version"), Ok(Request::Version)));
    match run("tsk --generate-shell-completions tsk ad ad,1") {
        Ok(Request::Completions(w)) => assert_eq!(w, ["tsk", "ad", "ad,1"]),
        _ => panic!("expected completions"),
    }
    assert_eq!(run("tsk --loll").err().unwrap(), "Unknown option `--loll`");
    assert_eq!(run("tsk -t=hat").err().unwrap(), "Invalid option value `hat`");
    assert_eq!(run("tsk bob").err().unwrap(), "Unknown command `bob`");
    assert_eq!(run("tsk move 2").err().unwrap(), "Missing second argument for `move`");
}
