use printable_shell_command::{
    ArgumentLineWrapping, FormattingOptions, PrintableShellCommand, ShellPrintable,
    ShellPrintableWithOptions, Utf8DecodeError,
};

#[test]
fn strict_fails_on_invalid_argument_bytes() {
    let mut command = PrintableShellCommand::new("echo");
    command.command_arg(vec![0xff]);
    assert_eq!(command.printable_invocation_string(), Err(Utf8DecodeError));
}

#[test]
fn strict_fails_on_invalid_program_bytes() {
    let command = PrintableShellCommand::new_raw(vec![0xff, 0xfe]);
    assert!(command.printable_invocation_string().is_err());
    // The lossy rendering still succeeds.
    let lossy = command.printable_invocation_string_lossy();
    assert!(!lossy.is_empty());
}

#[test]
fn lossy_replaces_invalid_bytes() {
    let mut command = PrintableShellCommand::new("echo");
    command.command_arg(vec![0xff]);
    assert_eq!(
        command.printable_invocation_string_lossy(),
        "echo \\\n  \u{fffd}"
    );
}

#[test]
fn strict_decodes_multibyte_tokens() {
    let mut command = PrintableShellCommand::new("echo");
    command.command_arg(b"caf\xc3\xa9".to_vec());
    assert_eq!(
        command.printable_invocation_string().unwrap(),
        "echo \\\n  café"
    );
}

#[test]
fn args_to_adopt_lists_pending_tokens() {
    let mut command = PrintableShellCommand::new("echo");
    command.arg("a");
    command.command_arg(b"b".to_vec());
    assert_eq!(command.args_to_adopt(), vec![b"b".to_vec()]);
    command.adopt_args();
    assert!(command.args_to_adopt().is_empty());
}

#[test]
fn adoption_is_idempotent() {
    let mut command = PrintableShellCommand::new("echo");
    command.command_arg(b"one".to_vec());
    command.command_arg(b"two".to_vec());
    command.adopt_args();
    let first = command.printable_invocation_string().unwrap();
    command.adopt_args();
    let second = command.printable_invocation_string().unwrap();
    assert_eq!(first, second);
    assert_eq!(first, "echo \\\n  one \\\n  two");
}

#[test]
fn grouping_preserves_token_order() {
    let mut command = PrintableShellCommand::new("tool");
    command.arg("one");
    command.args(&vec!["two".to_string(), "three".to_string()]);
    command.command_arg(b"four".to_vec());
    // Rendered one token per line, the flat order is exactly the supply
    // order, however the tokens were grouped.
    assert_eq!(
        command
            .printable_invocation_string_with_options(FormattingOptions {
                argument_line_wrapping: Some(ArgumentLineWrapping::ByArgument),
                ..Default::default()
            })
            .unwrap(),
        "tool \\\n  one \\\n  two \\\n  three \\\n  four"
    );
}

#[test]
fn inline_wrapping_never_inserts_continuations() {
    let mut command = PrintableShellCommand::new("tool");
    command.arg("one");
    command.args(&vec!["two".to_string(), "three".to_string()]);
    let rendered = command
        .printable_invocation_string_with_options(FormattingOptions {
            argument_line_wrapping: Some(ArgumentLineWrapping::Inline),
            ..Default::default()
        })
        .unwrap();
    assert_eq!(rendered, "tool one two three");
    assert!(!rendered.contains('\n'));
}

#[test]
fn by_argument_wrapping_inserts_one_continuation_per_token() {
    let mut command = PrintableShellCommand::new("tool");
    command.arg("one");
    command.args(&vec!["two".to_string(), "three".to_string()]);
    command.command_arg(b"four".to_vec());
    let rendered = command
        .printable_invocation_string_with_options(FormattingOptions {
            argument_line_wrapping: Some(ArgumentLineWrapping::ByArgument),
            ..Default::default()
        })
        .unwrap();
    assert_eq!(rendered.matches(" \\\n").count(), 4);
}

#[test]
fn nested_by_entry_indents_group_values() {
    let mut command = PrintableShellCommand::new("rsync");
    command.args(&vec!["--exclude".to_string(), ".DS_Store".to_string()]);
    assert_eq!(
        command
            .printable_invocation_string_with_options(FormattingOptions {
                argument_line_wrapping: Some(ArgumentLineWrapping::NestedByEntry),
                ..Default::default()
            })
            .unwrap(),
        "rsync \\\n  --exclude \\\n    .DS_Store"
    );
}

#[test]
fn by_argument_group_lines_carry_main_indentation() {
    let mut command = PrintableShellCommand::new("rsync");
    command.args(&vec!["--exclude".to_string(), ".git".to_string()]);
    assert_eq!(
        command
            .printable_invocation_string_with_options(FormattingOptions {
                main_indentation: Some("> ".to_string()),
                arg_indentation: Some("~~".to_string()),
                argument_line_wrapping: Some(ArgumentLineWrapping::ByArgument),
                ..Default::default()
            })
            .unwrap(),
        "> rsync \\\n> ~~--exclude \\\n> ~~.git"
    );
}

#[test]
fn nested_by_entry_lines_carry_main_indentation() {
    let mut command = PrintableShellCommand::new("rsync");
    command.args(&vec!["--exclude".to_string(), ".git".to_string()]);
    assert_eq!(
        command
            .printable_invocation_string_with_options(FormattingOptions {
                main_indentation: Some("> ".to_string()),
                arg_indentation: Some("~~".to_string()),
                argument_line_wrapping: Some(ArgumentLineWrapping::NestedByEntry),
                ..Default::default()
            })
            .unwrap(),
        "> rsync \\\n> ~~--exclude \\\n> ~~~~.git"
    );
}

#[test]
fn log_prefix_check_detects_divergence() {
    let mut command = PrintableShellCommand::new("echo");
    command.arg("a");
    assert!(command.log_matches_prefix(&vec![b"a".to_vec(), b"b".to_vec()]));
    assert!(command.log_matches_prefix(&vec![b"a".to_vec()]));
    assert!(!command.log_matches_prefix(&vec![b"x".to_vec()]));
    assert!(!command.log_matches_prefix(&vec![]));
}

#[test]
fn duplicate_is_an_identical_independent_copy() {
    let mut command = PrintableShellCommand::new("echo");
    command.args(&vec!["a".to_string(), "b".to_string()]);
    let mut copy = command.duplicate();
    assert_eq!(
        copy.printable_invocation_string().unwrap(),
        command.printable_invocation_string().unwrap()
    );
    copy.arg("c");
    assert_eq!(
        command.printable_invocation_string().unwrap(),
        "echo \\\n  a b"
    );
    assert_eq!(
        copy.printable_invocation_string().unwrap(),
        "echo \\\n  a b \\\n  c"
    );
}

#[test]
fn trait_rendering_matches_inherent_rendering() {
    let mut command = PrintableShellCommand::new("echo");
    command.args(&vec!["#hi".to_string()]);
    assert_eq!(
        ShellPrintable::printable_invocation_string(&command).unwrap(),
        command.printable_invocation_string().unwrap()
    );
    assert_eq!(
        ShellPrintable::printable_invocation_string_lossy(&command),
        command.printable_invocation_string_lossy()
    );
    assert_eq!(
        ShellPrintableWithOptions::printable_invocation_string_with_options(
            &command,
            FormattingOptions::default()
        )
        .unwrap(),
        command.printable_invocation_string().unwrap()
    );
    assert_eq!(
        ShellPrintableWithOptions::printable_invocation_string_lossy_with_options(
            &command,
            FormattingOptions::default()
        ),
        command.printable_invocation_string_lossy()
    );
}
