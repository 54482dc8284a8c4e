//! The rendering interface: anything that can present itself as a printable
//! shell invocation, strictly or lossily, with or without explicit
//! formatting options.

use vstd::prelude::*;

use crate::formatting_options::FormattingOptions;
use crate::printable_shell_command::Utf8DecodeError;

verus! {

/// Rendering under the default formatting options.
pub trait ShellPrintable {
    /// The validity condition rendering needs of the implementing value.
    spec fn printable_wf(&self) -> bool;

    /// Whether strict rendering succeeds: every token converts to text.
    spec fn printable_strict_ok(&self) -> bool;

    /// The strict rendering, under the default options.
    spec fn strict_rendering(&self) -> Seq<char>;

    /// The lossy rendering, under the default options.
    spec fn lossy_rendering(&self) -> Seq<char>;

    /// Render strictly: every token must convert to text; the first one
    /// that does not aborts with a decoding failure.
    fn printable_invocation_string(&self) -> (r: Result<String, Utf8DecodeError>)
        requires
            self.printable_wf(),
        ensures
            r is Ok <==> self.printable_strict_ok(),
            r matches Ok(s) ==> s@ == self.strict_rendering(),
    ;

    /// Render lossily: always succeeds, and agrees with the strict
    /// rendering whenever that one succeeds.
    fn printable_invocation_string_lossy(&self) -> (r: String)
        requires
            self.printable_wf(),
        ensures
            r@ == self.lossy_rendering(),
            self.printable_strict_ok() ==> r@ == self.strict_rendering(),
    ;
}

/// Rendering under explicitly given formatting options.
pub trait ShellPrintableWithOptions {
    /// The validity condition rendering needs of the implementing value.
    spec fn printable_opts_wf(&self) -> bool;

    /// Whether strict rendering succeeds; the options play no part in it.
    spec fn printable_opts_strict_ok(&self) -> bool;

    /// The strict rendering under the given options.
    spec fn strict_rendering_with(&self, options: FormattingOptions) -> Seq<char>;

    /// The lossy rendering under the given options.
    spec fn lossy_rendering_with(&self, options: FormattingOptions) -> Seq<char>;

    /// Render strictly under the given options.
    fn printable_invocation_string_with_options(
        &self,
        formatting_options: FormattingOptions,
    ) -> (r: Result<String, Utf8DecodeError>)
        requires
            self.printable_opts_wf(),
        ensures
            r is Ok <==> self.printable_opts_strict_ok(),
            r matches Ok(s) ==> s@ == self.strict_rendering_with(formatting_options),
    ;

    /// Render lossily under the given options.
    fn printable_invocation_string_lossy_with_options(
        &self,
        formatting_options: FormattingOptions,
    ) -> (r: String)
        requires
            self.printable_opts_wf(),
        ensures
            r@ == self.lossy_rendering_with(formatting_options),
            self.printable_opts_strict_ok() ==> r@ == self.strict_rendering_with(
                formatting_options,
            ),
    ;
}

} // verus!
