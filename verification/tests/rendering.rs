use printable_shell_command::{
    ArgumentLineWrapping, FormattingOptions, PrintableShellCommand, Quoting,
};

#[test]
fn echo() {
    let mut printable_shell_command = PrintableShellCommand::new("echo");
    printable_shell_command.args(&vec!["#hi".to_string()]);

    assert_eq!(
        printable_shell_command.printable_invocation_string().unwrap(),
        "echo \\\n  '#hi'"
    );
    assert_eq!(
        printable_shell_command.printable_invocation_string().unwrap(),
        printable_shell_command.printable_invocation_string_lossy(),
    );
}

#[test]
fn ffmpeg() {
    let mut printable_shell_command = PrintableShellCommand::new("ffmpeg");
    printable_shell_command.args(&vec!["-i".to_string(), "./test/My video.mp4".to_string()]);
    printable_shell_command.args(&vec!["-filter:v".to_string(), "setpts=2.0*PTS".to_string()]);
    printable_shell_command.args(&vec!["-filter:a".to_string(), "atempo=0.5".to_string()]);
    printable_shell_command.arg("./test/My video (slow-mo).mov");

    assert_eq!(
        printable_shell_command.printable_invocation_string().unwrap(),
        "ffmpeg \\\n  -i './test/My video.mp4' \\\n  -filter:v 'setpts=2.0*PTS' \\\n  -filter:a atempo=0.5 \\\n  './test/My video (slow-mo).mov'"
    );
    assert_eq!(
        printable_shell_command.printable_invocation_string().unwrap(),
        printable_shell_command.printable_invocation_string_lossy(),
    );
}

#[test]
fn from_command() {
    let printable_shell_command = PrintableShellCommand::from_flat_command(
        b"echo".to_vec(),
        vec![b"hello".to_vec(), b"#world".to_vec()],
    );

    assert_eq!(
        printable_shell_command.printable_invocation_string().unwrap(),
        "echo \\\n  hello \\\n  '#world'"
    );
}

#[test]
fn adoption() {
    let mut printable_shell_command = PrintableShellCommand::new("echo");

    printable_shell_command.command_arg(b"hello".to_vec());
    printable_shell_command.command_arg(b"#world".to_vec());

    printable_shell_command.printable_invocation_string().unwrap();
    assert_eq!(
        printable_shell_command.printable_invocation_string().unwrap(),
        "echo \\\n  hello \\\n  '#world'"
    );

    printable_shell_command.args(&vec!["wide".to_string(), "web".to_string()]);

    printable_shell_command.printable_invocation_string().unwrap();
    assert_eq!(
        printable_shell_command.printable_invocation_string().unwrap(),
        "echo \\\n  hello \\\n  '#world' \\\n  wide web"
    );

    // Second adoption
    printable_shell_command.command_arg(b"to".to_vec());
    printable_shell_command.command_arg(b"the".to_vec());
    printable_shell_command.command_arg(b"internet".to_vec());
    // Test adoption idempotency.
    printable_shell_command.adopt_args();
    printable_shell_command.adopt_args();
    printable_shell_command.adopt_args();
    assert_eq!(
        printable_shell_command.printable_invocation_string().unwrap(),
        "echo \\\n  hello \\\n  '#world' \\\n  wide web \\\n  to \\\n  the \\\n  internet"
    );
}

fn rsync_command_for_testing() -> PrintableShellCommand {
    let mut printable_shell_command = PrintableShellCommand::new("rsync");
    printable_shell_command.arg("-avz");
    printable_shell_command.args(&vec!["--exclude".to_string(), ".DS_Store".to_string()]);
    printable_shell_command.args(&vec!["--exclude".to_string(), ".git".to_string()]);
    printable_shell_command.arg("./dist/web/experiments.cubing.net/test/deploy/");
    printable_shell_command.arg("experiments.cubing.net:~/experiments.cubing.net/test/deploy/");
    printable_shell_command
}

#[test]
fn extra_safe_quoting() {
    let printable_shell_command = rsync_command_for_testing();
    assert_eq!(
        printable_shell_command
            .printable_invocation_string_with_options(FormattingOptions {
                quoting: Some(Quoting::ExtraSafe),
                ..Default::default()
            })
            .unwrap(),
        "'rsync' \\\n  '-avz' \\\n  '--exclude' '.DS_Store' \\\n  '--exclude' '.git' \\\n  './dist/web/experiments.cubing.net/test/deploy/' \\\n  'experiments.cubing.net:~/experiments.cubing.net/test/deploy/'"
    );
}

#[test]
fn indentation() {
    let printable_shell_command = rsync_command_for_testing();
    assert_eq!(
        printable_shell_command
            .printable_invocation_string_with_options(FormattingOptions {
                arg_indentation: Some("\t   \t".to_owned()),
                ..Default::default()
            })
            .unwrap(),
        "rsync \\\n\t   \t-avz \\\n\t   \t--exclude .DS_Store \\\n\t   \t--exclude .git \\\n\t   \t./dist/web/experiments.cubing.net/test/deploy/ \\\n\t   \texperiments.cubing.net:~/experiments.cubing.net/test/deploy/"
    );
    assert_eq!(
        printable_shell_command
            .printable_invocation_string_with_options(FormattingOptions {
                arg_indentation: Some("↪ ".to_owned()),
                ..Default::default()
            })
            .unwrap(),
        "rsync \\\n↪ -avz \\\n↪ --exclude .DS_Store \\\n↪ --exclude .git \\\n↪ ./dist/web/experiments.cubing.net/test/deploy/ \\\n↪ experiments.cubing.net:~/experiments.cubing.net/test/deploy/"
    );
    assert_eq!(
        printable_shell_command
            .printable_invocation_string_with_options(FormattingOptions {
                main_indentation: Some("  ".to_owned()),
                ..Default::default()
            })
            .unwrap(),
        "  rsync \\\n    -avz \\\n    --exclude .DS_Store \\\n    --exclude .git \\\n    ./dist/web/experiments.cubing.net/test/deploy/ \\\n    experiments.cubing.net:~/experiments.cubing.net/test/deploy/"
    );
    assert_eq!(
        printable_shell_command
            .printable_invocation_string_with_options(FormattingOptions {
                main_indentation: Some("🙈".to_owned()),
                arg_indentation: Some("🙉".to_owned()),
                ..Default::default()
            })
            .unwrap(),
        "🙈rsync \\\n🙈🙉-avz \\\n🙈🙉--exclude .DS_Store \\\n🙈🙉--exclude .git \\\n🙈🙉./dist/web/experiments.cubing.net/test/deploy/ \\\n🙈🙉experiments.cubing.net:~/experiments.cubing.net/test/deploy/"
    );
}

#[test]
fn line_wrapping() {
    let printable_shell_command = rsync_command_for_testing();
    assert_eq!(
        printable_shell_command
            .printable_invocation_string_with_options(FormattingOptions {
                argument_line_wrapping: Some(ArgumentLineWrapping::ByEntry),
                ..Default::default()
            })
            .unwrap(),
        printable_shell_command.printable_invocation_string().unwrap()
    );
    assert_eq!(
        printable_shell_command
            .printable_invocation_string_with_options(FormattingOptions {
                argument_line_wrapping: Some(ArgumentLineWrapping::NestedByEntry),
                ..Default::default()
            })
            .unwrap(),
        "rsync \\\n  -avz \\\n  --exclude \\\n    .DS_Store \\\n  --exclude \\\n    .git \\\n  ./dist/web/experiments.cubing.net/test/deploy/ \\\n  experiments.cubing.net:~/experiments.cubing.net/test/deploy/"
    );
    assert_eq!(
        printable_shell_command
            .printable_invocation_string_with_options(FormattingOptions {
                argument_line_wrapping: Some(ArgumentLineWrapping::ByArgument),
                ..Default::default()
            })
            .unwrap(),
        "rsync \\\n  -avz \\\n  --exclude \\\n  .DS_Store \\\n  --exclude \\\n  .git \\\n  ./dist/web/experiments.cubing.net/test/deploy/ \\\n  experiments.cubing.net:~/experiments.cubing.net/test/deploy/"
    );
}

#[test]
fn command_with_space_is_escaped_by_default() {
    let printable_shell_command =
        PrintableShellCommand::new("/Applications/My App.app/Contents/Resources/my-app");
    assert_eq!(
        printable_shell_command
            .printable_invocation_string_with_options(FormattingOptions {
                argument_line_wrapping: Some(ArgumentLineWrapping::ByArgument),
                ..Default::default()
            })
            .unwrap(),
        "'/Applications/My App.app/Contents/Resources/my-app'"
    );
}

#[test]
fn command_with_equal_sign_is_escaped_by_default() {
    let printable_shell_command = PrintableShellCommand::new("THIS_LOOKS_LIKE_AN=env-var");
    assert_eq!(
        printable_shell_command
            .printable_invocation_string_with_options(FormattingOptions {
                argument_line_wrapping: Some(ArgumentLineWrapping::ByArgument),
                ..Default::default()
            })
            .unwrap(),
        "'THIS_LOOKS_LIKE_AN=env-var'"
    );
}
