use printable_shell_command::{
    conditional_escape, unconditional_escape, ArgumentLineWrapping, CachedFormattingInfo,
    ConditionalEscapeOptions, FormattingOptions, PrintBuilder, Quoting,
};

#[test]
fn safe_argument_is_unchanged() {
    let escaped = conditional_escape(
        "hi-there_2.0:~/x",
        ConditionalEscapeOptions { is_main_command: false },
    );
    assert_eq!(escaped, "hi-there_2.0:~/x");
}

#[test]
fn empty_token_renders_bare() {
    let as_arg = conditional_escape("", ConditionalEscapeOptions { is_main_command: false });
    assert_eq!(as_arg, "");
    let as_program = conditional_escape("", ConditionalEscapeOptions { is_main_command: true });
    assert_eq!(as_program, "");
}

#[test]
fn each_unsafe_character_triggers_quoting() {
    let unsafe_characters = [
        ' ', '"', '\'', '`', '|', '$', '*', '?', '<', '>', '(', ')', '[', ']', '{', '}', '&',
        '\\', ';', '#',
    ];
    for c in unsafe_characters {
        let token = format!("a{}b", c);
        let escaped =
            conditional_escape(&token, ConditionalEscapeOptions { is_main_command: false });
        assert!(escaped.starts_with('\''), "not quoted for {:?}", c);
        assert!(escaped.ends_with('\''), "not quote-terminated for {:?}", c);
    }
}

#[test]
fn equals_sign_quotes_only_program_names() {
    let as_program = conditional_escape("a=b", ConditionalEscapeOptions { is_main_command: true });
    assert_eq!(as_program, "'a=b'");
    let as_arg = conditional_escape("a=b", ConditionalEscapeOptions { is_main_command: false });
    assert_eq!(as_arg, "a=b");
}

#[test]
fn backslashes_then_quotes_are_escaped() {
    assert_eq!(unconditional_escape("a\\b'c"), "'a\\\\b\\'c'");
    assert_eq!(unconditional_escape("-avz"), "'-avz'");
    assert_eq!(unconditional_escape(""), "''");
}

fn naive_unquote_unescape(s: &str) -> String {
    let chars: Vec<char> = s.chars().collect();
    assert_eq!(chars[0], '\'');
    assert_eq!(chars[chars.len() - 1], '\'');
    let body = &chars[1..chars.len() - 1];
    let mut out = String::new();
    let mut i = 0;
    while i < body.len() {
        if body[i] == '\\' && i + 1 < body.len() {
            out.push(body[i + 1]);
            i += 2;
        } else {
            out.push(body[i]);
            i += 1;
        }
    }
    out
}

#[test]
fn quoted_token_round_trips() {
    for token in ["My video's \\ file", "a\\\\b", "'''", "\\'", "plain"] {
        let escaped = unconditional_escape(token);
        assert_eq!(naive_unquote_unescape(&escaped), token);
    }
}

#[test]
fn print_builder_joins_entries() {
    let mut print_builder = PrintBuilder::new(FormattingOptions::default());
    print_builder.add_program_name("printf");
    print_builder.add_single_arg("%s");
    print_builder.add_arg_group(&vec!["a b".to_string(), "c".to_string()]);
    assert_eq!(print_builder.get(), "printf \\\n  %s \\\n  'a b' c");
    // Rendering is repeatable and side-effect-free.
    assert_eq!(print_builder.get(), "printf \\\n  %s \\\n  'a b' c");
}

#[test]
fn cached_formatting_info_escapes_by_role() {
    let info = CachedFormattingInfo::new(FormattingOptions::default());
    assert_eq!(info.format_program_name("a=b"), "'a=b'");
    assert_eq!(info.escape_arglike("a=b", false), "a=b");
    assert_eq!(info.escape_arglike("a b", false), "'a b'");

    let extra_safe = CachedFormattingInfo::new(FormattingOptions {
        quoting: Some(Quoting::ExtraSafe),
        ..Default::default()
    });
    assert_eq!(extra_safe.escape_arglike("plain", false), "'plain'");
}

#[test]
fn defaults_are_the_documented_values() {
    assert_eq!(Quoting::default(), Quoting::Auto);
    assert_eq!(ArgumentLineWrapping::default(), ArgumentLineWrapping::ByEntry);
    let options = FormattingOptions::default();
    assert!(options.main_indentation.is_none());
    assert!(options.arg_indentation.is_none());
    assert!(options.quoting.is_none());
    assert!(options.argument_line_wrapping.is_none());
}
