use todo_core::commands::{parse_command, Command};

#[test]
fn test_parse_add_command_with_due_date() {
    let input = "add Buy milk --due 2023-12-01";
    let command = parse_command(input).expect("Failed to parse add command");
    assert_eq!(
        command,
        Command::Add("Buy milk".to_string(), Some("2023-12-01".to_string()))
    );
}

#[test]
fn test_parse_add_command_no_due_date() {
    let input = "add Write code";
    let command = parse_command(input).expect("Failed to parse add command");
    assert_eq!(command, Command::Add("Write code".to_string(), None));
}

#[test]
fn test_parse_add_command_empty_description() {
    let input = "add";
    let result = parse_command(input);
    assert!(result.is_err()); // Should fail due to missing description
}

#[test]
fn test_parse_list_command_all() {
    let input = "list";
    let command = parse_command(input).expect("Failed to parse list command");
    assert_eq!(command, Command::List(None));
}

#[test]
fn test_parse_list_command_pending() {
    let input = "list pending";
    let command = parse_command(input).expect("Failed to parse list command");
    assert_eq!(command, Command::List(Some(false)));
}

#[test]
fn test_parse_list_command_completed() {
    let input = "list completed";
    let command = parse_command(input).expect("Failed to parse list command");
    assert_eq!(command, Command::List(Some(true)));
}

#[test]
fn test_parse_list_command_invalid_filter() {
    let input = "list invalid";
    let result = parse_command(input);
    assert!(result.is_err()); // Should fail for unknown filter
}

#[test]
fn test_parse_complete_command_valid() {
    let input = "complete 42";
    let command = parse_command(input).expect("Failed to parse complete command");
    assert_eq!(command, Command::Complete(42));
}

#[test]
fn test_parse_complete_command_no_id() {
    let input = "complete";
    let result = parse_command(input);
    assert!(result.is_err()); // Should fail due to missing ID
}

#[test]
fn test_parse_complete_command_invalid_id() {
    let input = "complete abc";
    let result = parse_command(input);
    assert!(result.is_err()); // Should fail due to non-numeric ID
}

#[test]
fn test_parse_remove_command_valid() {
    let input = "remove 7";
    let command = parse_command(input).expect("Failed to parse remove command");
    assert_eq!(command, Command::Remove(7));
}

#[test]
fn test_parse_remove_command_no_id() {
    let input = "remove";
    let result = parse_command(input);
    assert!(result.is_err()); // Should fail due to missing ID
}

#[test]
fn test_parse_exit_command() {
    let input = "exit";
    let command = parse_command(input).expect("Failed to parse exit command");
    assert_eq!(command, Command::Exit);
}

#[test]
fn test_parse_empty_input() {
    let input = "";
    let result = parse_command(input);
    assert!(result.is_err());
}

#[test]
fn test_parse_unknown_command() {
    let input = "foobar";
    let result = parse_command(input);
    assert!(result.is_err());
}

#[test]
fn test_parse_add_whitespace_normalized() {
    let input = "  add   Buy    milk  ";
    let command = parse_command(input).expect("Failed to parse add command");
    assert_eq!(command, Command::Add("Buy milk".to_string(), None));
}

#[test]
fn test_parse_add_due_pair_only_is_error() {
    let result = parse_command("add --due 2023-12-01");
    assert!(result.is_err()); // The pair is stripped, leaving no description
}

#[test]
fn test_parse_error_messages() {
    assert_eq!(parse_command("").unwrap_err(), "no command given");
    assert_eq!(parse_command("foobar").unwrap_err(), "unknown command");
    assert_eq!(parse_command("add").unwrap_err(), "missing description");
    assert_eq!(parse_command("list xyz").unwrap_err(), "unknown filter");
    assert_eq!(parse_command("complete").unwrap_err(), "missing id");
    assert_eq!(parse_command("complete abc").unwrap_err(), "invalid id");
    assert_eq!(parse_command("remove 1 2").unwrap_err(), "invalid id");
}

#[test]
fn test_parse_complete_id_overflow() {
    // 2^32 does not fit in a u32 id
    let result = parse_command("complete 4294967296");
    assert!(result.is_err());
    // the largest id still fits
    let command = parse_command("complete 4294967295").expect("Failed to parse max id");
    assert_eq!(command, Command::Complete(u32::MAX));
}

#[test]
fn test_parse_exit_ignores_extra_tokens() {
    let command = parse_command("exit now").expect("Failed to parse exit command");
    assert_eq!(command, Command::Exit);
}
