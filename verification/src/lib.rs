//! Renders a shell-command invocation (program name plus argument groups) as a
//! human-readable, shell-safe, optionally multi-line string.
//!
//! The crate is a one-directional formatter: structured argument data in,
//! display string out. It never parses shell syntax and never runs anything.

pub mod escape;
pub mod formatting_options;
pub mod print_builder;
pub mod printable_shell_command;
pub mod shell_printable;

pub use escape::{conditional_escape, unconditional_escape, ConditionalEscapeOptions};
pub use formatting_options::{ArgumentLineWrapping, FormattingOptions, Quoting};
pub use print_builder::{CachedFormattingInfo, PrintBuilder};
pub use printable_shell_command::{PrintableShellCommand, Utf8DecodeError};
pub use shell_printable::{ShellPrintable, ShellPrintableWithOptions};
