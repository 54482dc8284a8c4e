//! The configuration model: enumerated formatting options with defaults,
//! consumed by the layout engine.

use vstd::prelude::*;

verus! {

/// How tokens are quoted when an invocation is rendered.
#[derive(Clone, Copy, Debug, PartialEq, Eq, Structural)]
pub enum Quoting {
    /// Quote only arguments that need it for safety. This tries to be
    /// portable and safe across shells, but true safety and portability is
    /// hard to guarantee.
    Auto,
    /// Quote all arguments, even ones that don't need it. This is more likely
    /// to be safe under all circumstances.
    ExtraSafe,
}

impl Default for Quoting {
    fn default() -> (r: Self)
        ensures
            r == Quoting::Auto,
    {
        Self::Auto
    }
}

/// How the rendered invocation is wrapped across lines.
#[derive(Clone, Copy, Debug, PartialEq, Eq, Structural)]
pub enum ArgumentLineWrapping {
    /// Each argument group on its own continuation line.
    ByEntry,
    /// Each argument group on its own continuation line, and each token of a
    /// group after the first on a further, deeper-indented continuation line.
    NestedByEntry,
    /// Every argument token on its own continuation line.
    ByArgument,
    /// Everything on a single line, separated by spaces.
    Inline,
}

impl Default for ArgumentLineWrapping {
    fn default() -> (r: Self)
        ensures
            r == ArgumentLineWrapping::ByEntry,
    {
        Self::ByEntry
    }
}

/// Formatting options for rendering an invocation. Unset fields fall back to
/// the defaults: no main indentation, two spaces of argument indentation,
/// `Quoting::Auto`, and `ArgumentLineWrapping::ByEntry`.
pub struct FormattingOptions {
    pub main_indentation: Option<String>,
    pub arg_indentation: Option<String>,
    pub quoting: Option<Quoting>,
    /// Line wrapping to use between arguments.
    pub argument_line_wrapping: Option<ArgumentLineWrapping>,
}

/// The value that `FormattingOptions::default()` returns: every field unset.
pub open spec fn spec_default_options() -> FormattingOptions {
    FormattingOptions {
        main_indentation: None,
        arg_indentation: None,
        quoting: None,
        argument_line_wrapping: None,
    }
}

impl Default for FormattingOptions {
    fn default() -> (r: Self)
        ensures
            r == spec_default_options(),
    {
        FormattingOptions {
            main_indentation: None,
            arg_indentation: None,
            quoting: None,
            argument_line_wrapping: None,
        }
    }
}

/// The quoting policy that a configuration selects, with the default applied.
pub open spec fn effective_quoting(options: FormattingOptions) -> Quoting {
    match options.quoting {
        Some(q) => q,
        None => Quoting::Auto,
    }
}

/// The line wrapping that a configuration selects, with the default applied.
pub open spec fn effective_line_wrapping(options: FormattingOptions) -> ArgumentLineWrapping {
    match options.argument_line_wrapping {
        Some(w) => w,
        None => ArgumentLineWrapping::ByEntry,
    }
}

/// The indentation put before the first rendered line (default: none).
pub open spec fn effective_main_indentation(options: FormattingOptions) -> Seq<char> {
    match options.main_indentation {
        Some(s) => s@,
        None => Seq::<char>::empty(),
    }
}

/// The indentation put before each continuation line (default: two spaces).
pub open spec fn effective_arg_indentation(options: FormattingOptions) -> Seq<char> {
    match options.arg_indentation {
        Some(s) => s@,
        None => seq![' ', ' '],
    }
}

} // verus!
