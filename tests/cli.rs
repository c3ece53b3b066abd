use tsk::cli::Cli;
use tsk::error::TaskError;

#[test]
fn test_parse_list_normal_ids() {
    let res = Cli::parse_id_list("1,2,3,4,4,3,12,5");
    let res = res.unwrap_or_default();
    assert_eq!(res, "1,2,3,4,5,12".to_string());
}

#[test]
fn test_parse_list_sub_ids() {
    let res = Cli::parse_id_list("3.3,2.3,1.2,3.3");
    let res = res.unwrap_or_default();
    assert_eq!(res, "1.2,2.3,3.3".to_string());
}

#[test]
fn test_parse_list_mixed_ids() {
    let res = Cli::parse_id_list("1.2,2.3,3.3,4,4,3.3,12,5");
    let res = res.unwrap_or_default();
    assert_eq!(res, "1.2,2.3,3.3,4,5,12".to_string());
}

#[test]
fn test_parse_range_normal_ids() {
    let res = Cli::parse_id_range("1..5");
    let res = res.unwrap_or_default();
    assert_eq!(res, "1,2,3,4,5".to_string());
}

#[test]
fn test_parse_range_sub_ids() {
    let res = Cli::parse_id_range("1.2..5.9");
    let res = res.unwrap_or_default();
    assert_eq!(res, "1.2,2,3,4,5.9".to_string());
}

#[test]
fn test_parse_range_mixed_ids() {
    let res = Cli::parse_id_range("1..5.9");
    let res = res.unwrap_or_default();
    assert_eq!(res, "1,2,3,4,5.9".to_string());
}

#[test]
fn id_lists_compare_by_number_not_text() {
    assert_eq!(Cli::parse_id_list("1.10,1.9,010").unwrap(), "1.9,1.10,10");
    assert_eq!(Cli::parse_id_list("2,1.1,1").unwrap(), "1,1.1,2");
}

#[test]
fn malformed_id_lists_are_refused() {
    assert_eq!(Cli::parse_id_list("1,,2"), Err(TaskError::MalformedId));
    assert_eq!(Cli::parse_id_list("0"), Err(TaskError::MalformedId));
    assert_eq!(Cli::parse_id_list("1.x"), Err(TaskError::MalformedId));
    assert_eq!(Cli::parse_id_list("99999999999999999999999"), Err(TaskError::MalformedId));
}

#[test]
fn ranges_with_one_root_id() {
    assert_eq!(Cli::parse_id_range("2..2").unwrap(), "2");
    assert_eq!(Cli::parse_id_range("2.1..2.3").unwrap(), "2.1,2.3");
    assert_eq!(Cli::parse_id_range("5..1"), Err(TaskError::MalformedId));
    assert_eq!(Cli::parse_id_range("1,2"), Err(TaskError::MalformedId));
    assert_eq!(Cli::parse_id_range("1...3"), Err(TaskError::MalformedId));
}

#[test]
fn new_settings_print_in_color() {
    let cli = Cli::new();
    assert!(cli.colored_output);
    assert_eq!(cli.command, "print");
    assert_eq!(cli.add_to, "top");
    assert!(cli.task_ids.is_empty());
    assert!(cli.move_id.is_empty());
    assert!(cli.contents.is_empty());
}

#[test]
fn expand_ids_by_kind() {
    assert_eq!(Cli::expand_ids("all", 3).unwrap(), "1,2,3");
    assert_eq!(Cli::expand_ids("all", 1).unwrap(), "1");
    assert_eq!(Cli::expand_ids("all", 0), Err(TaskError::EmptyTree));
    assert_eq!(Cli::expand_ids("2..4", 9).unwrap(), "2,3,4");
    assert_eq!(Cli::expand_ids("3,1,3", 9).unwrap(), "1,3");
    assert_eq!(Cli::expand_ids("2.1", 9).unwrap(), "2.1");
    assert_eq!(Cli::expand_ids("1,x", 9), Err(TaskError::MalformedId));
}
