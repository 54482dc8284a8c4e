//! The layout engine: accumulates a program name and a sequence of argument
//! groups, each already escaped and serialized to one entry string, and joins
//! the entries into the final rendered invocation.
//!
//! Separator strings are derived from the configuration once, when a builder
//! is created, not per token.

use vstd::prelude::*;
use vstd::string::*;

use crate::escape::{
    conditional_escape, conditionally_escaped, quoted_escaped, unconditional_escape,
    ConditionalEscapeOptions,
};
use crate::formatting_options::{
    effective_arg_indentation, effective_line_wrapping, effective_main_indentation,
    effective_quoting, ArgumentLineWrapping, FormattingOptions, Quoting,
};

verus! {

/// The separator used where no line break is wanted: a single space.
pub open spec fn inline_separator() -> Seq<char> {
    seq![' ']
}

/// The start of every continuation line: a space, a backslash and a newline.
pub open spec fn line_wrap_line_end() -> Seq<char> {
    seq![' ', '\\', '\n']
}

/// A full continuation-line separator: the line continuation followed by
/// the main indentation and one level of argument indentation.
pub open spec fn line_wrap_separator_spec(options: FormattingOptions) -> Seq<char> {
    line_wrap_line_end() + effective_main_indentation(options) + effective_arg_indentation(
        options,
    )
}

/// The separator put between the tokens of one argument group: a space for
/// the modes that keep a group on one line, the full continuation-line
/// separator under `ByArgument`, and under `NestedByEntry` the same with one
/// further level of argument indentation, so tokens of a group sit one level
/// deeper than entries.
pub open spec fn arg_tuple_separator_spec(options: FormattingOptions) -> Seq<char> {
    match effective_line_wrapping(options) {
        ArgumentLineWrapping::ByEntry => inline_separator(),
        ArgumentLineWrapping::NestedByEntry => line_wrap_separator_spec(options)
            + effective_arg_indentation(options),
        ArgumentLineWrapping::ByArgument => line_wrap_separator_spec(options),
        ArgumentLineWrapping::Inline => inline_separator(),
    }
}

/// The separator put between entries: the program-name line and one line per
/// argument group.
pub open spec fn entry_separator_spec(options: FormattingOptions) -> Seq<char> {
    match effective_line_wrapping(options) {
        ArgumentLineWrapping::Inline => inline_separator(),
        _ => line_wrap_separator_spec(options),
    }
}

/// The parts joined in order with the separator between neighbours.
pub open spec fn join_with(parts: Seq<Seq<char>>, separator: Seq<char>) -> Seq<char>
    decreases parts.len(),
{
    if parts.len() == 0 {
        Seq::<char>::empty()
    } else if parts.len() == 1 {
        parts[0]
    } else {
        join_with(parts.drop_last(), separator) + separator + parts.last()
    }
}

/// A token escaped under the configured quoting policy.
pub open spec fn escaped_arglike(
    s: Seq<char>,
    is_main_command: bool,
    options: FormattingOptions,
) -> Seq<char> {
    match effective_quoting(options) {
        Quoting::Auto => conditionally_escaped(s, is_main_command),
        Quoting::ExtraSafe => quoted_escaped(s),
    }
}

/// The first entry of a rendered invocation: the main indentation followed by
/// the escaped program name.
pub open spec fn program_entry_spec(
    program_name: Seq<char>,
    options: FormattingOptions,
) -> Seq<char> {
    effective_main_indentation(options) + escaped_arglike(program_name, true, options)
}

/// One argument group serialized to a single entry: its tokens escaped as
/// arguments and joined with the intra-group separator.
pub open spec fn group_entry_spec(group: Seq<Seq<char>>, options: FormattingOptions) -> Seq<
    char,
> {
    join_with(
        group.map_values(|t: Seq<char>| escaped_arglike(t, false, options)),
        arg_tuple_separator_spec(options),
    )
}

/// The whole rendered invocation: the program entry and one entry per group,
/// joined with the inter-entry separator.
pub open spec fn rendered_invocation_spec(
    program_name: Seq<char>,
    groups: Seq<Seq<Seq<char>>>,
    options: FormattingOptions,
) -> Seq<char> {
    join_with(
        seq![program_entry_spec(program_name, options)] + groups.map_values(
            |g: Seq<Seq<char>>| group_entry_spec(g, options),
        ),
        entry_separator_spec(options),
    )
}

/// How often `c` occurs in `s`.
pub open spec fn count_char(s: Seq<char>, c: char) -> nat
    decreases s.len(),
{
    if s.len() == 0 {
        0nat
    } else {
        count_char(s.drop_last(), c) + (if s.last() == c {
            1nat
        } else {
            0nat
        })
    }
}

/// The occurrences of `c` in all parts together.
pub open spec fn sum_count_char(parts: Seq<Seq<char>>, c: char) -> nat
    decreases parts.len(),
{
    if parts.len() == 0 {
        0nat
    } else {
        sum_count_char(parts.drop_last(), c) + count_char(parts.last(), c)
    }
}

/// How many argument tokens all groups hold together.
pub open spec fn total_token_count(groups: Seq<Seq<Seq<char>>>) -> nat
    decreases groups.len(),
{
    if groups.len() == 0 {
        0nat
    } else {
        total_token_count(groups.drop_last()) + groups.last().len()
    }
}

proof fn lemma_count_char_concat(a: Seq<char>, b: Seq<char>, c: char)
    ensures
        count_char(a + b, c) == count_char(a, c) + count_char(b, c),
    decreases b.len(),
{
    if b.len() == 0 {
        assert(a + b =~= a);
    } else {
        lemma_count_char_concat(a, b.drop_last(), c);
        assert((a + b).drop_last() =~= a + b.drop_last());
        assert((a + b).last() == b.last());
    }
}

proof fn lemma_count_char_single(x: char, c: char)
    ensures
        count_char(seq![x], c) == (if x == c {
            1nat
        } else {
            0nat
        }),
{
    assert(count_char(Seq::<char>::empty(), c) == 0);
    assert(seq![x].drop_last() =~= Seq::<char>::empty());
}

proof fn lemma_sum_count_char_concat(a: Seq<Seq<char>>, b: Seq<Seq<char>>, c: char)
    ensures
        sum_count_char(a + b, c) == sum_count_char(a, c) + sum_count_char(b, c),
    decreases b.len(),
{
    if b.len() == 0 {
        assert(a + b =~= a);
    } else {
        lemma_sum_count_char_concat(a, b.drop_last(), c);
        assert((a + b).drop_last() =~= a + b.drop_last());
        assert((a + b).last() == b.last());
    }
}

proof fn lemma_sum_count_char_zero(parts: Seq<Seq<char>>, c: char)
    requires
        forall|i: int| 0 <= i < parts.len() ==> count_char(#[trigger] parts[i], c) == 0,
    ensures
        sum_count_char(parts, c) == 0,
    decreases parts.len(),
{
    if parts.len() > 0 {
        lemma_sum_count_char_zero(parts.drop_last(), c);
    }
}

proof fn lemma_count_join_sep_zero(parts: Seq<Seq<char>>, separator: Seq<char>, c: char)
    requires
        count_char(separator, c) == 0,
    ensures
        count_char(join_with(parts, separator), c) == sum_count_char(parts, c),
    decreases parts.len(),
{
    assert(count_char(Seq::<char>::empty(), c) == 0);
    assert(sum_count_char(Seq::<Seq<char>>::empty(), c) == 0);
    if parts.len() == 0 {
    } else if parts.len() == 1 {
        assert(parts.drop_last() =~= Seq::<Seq<char>>::empty());
    } else {
        lemma_count_join_sep_zero(parts.drop_last(), separator, c);
        lemma_count_char_concat(join_with(parts.drop_last(), separator), separator, c);
        lemma_count_char_concat(
            join_with(parts.drop_last(), separator) + separator,
            parts.last(),
            c,
        );
    }
}

proof fn lemma_count_join_sep_one(parts: Seq<Seq<char>>, separator: Seq<char>, c: char)
    requires
        count_char(separator, c) == 1,
        parts.len() >= 1,
    ensures
        count_char(join_with(parts, separator), c) + 1 == sum_count_char(parts, c) + parts.len(),
    decreases parts.len(),
{
    assert(sum_count_char(Seq::<Seq<char>>::empty(), c) == 0);
    if parts.len() == 1 {
        assert(parts.drop_last() =~= Seq::<Seq<char>>::empty());
    } else {
        lemma_count_join_sep_one(parts.drop_last(), separator, c);
        lemma_count_char_concat(join_with(parts.drop_last(), separator), separator, c);
        lemma_count_char_concat(
            join_with(parts.drop_last(), separator) + separator,
            parts.last(),
            c,
        );
    }
}

proof fn lemma_escaped_body_count(s: Seq<char>, c: char)
    requires
        c != '\\',
        c != '\'',
    ensures
        count_char(crate::escape::escaped_body(s), c) == count_char(s, c),
    decreases s.len(),
{
    if s.len() == 0 {
    } else {
        lemma_escaped_body_count(s.drop_last(), c);
        lemma_count_char_concat(
            crate::escape::escaped_body(s.drop_last()),
            crate::escape::escaped_char(s.last()),
            c,
        );
        let e = crate::escape::escaped_char(s.last());
        if s.last() == '\\' || s.last() == '\'' {
            assert(e.drop_last() =~= seq!['\\']);
            lemma_count_char_single('\\', c);
            assert(count_char(e, c) == 0);
        } else {
            lemma_count_char_single(s.last(), c);
        }
    }
}

proof fn lemma_escaped_arglike_count(
    s: Seq<char>,
    is_main_command: bool,
    options: FormattingOptions,
    c: char,
)
    requires
        c != '\\',
        c != '\'',
    ensures
        count_char(escaped_arglike(s, is_main_command, options), c) == count_char(s, c),
{
    lemma_escaped_body_count(s, c);
    let body = crate::escape::escaped_body(s);
    lemma_count_char_single('\'', c);
    lemma_count_char_concat(seq!['\''], body, c);
    lemma_count_char_concat(seq!['\''] + body, seq!['\''], c);
    assert(quoted_escaped(s) =~= (seq!['\''] + body) + seq!['\'']);
}

proof fn lemma_count_line_wrap_line_end(c: char)
    requires
        c != ' ',
        c != '\\',
    ensures
        count_char(line_wrap_line_end(), c) == (if c == '\n' {
            1nat
        } else {
            0nat
        }),
        count_char(inline_separator(), c) == 0,
{
    let le = line_wrap_line_end();
    assert(count_char(Seq::<char>::empty(), c) == 0);
    assert(le.drop_last() =~= seq![' ', '\\']);
    assert(seq![' ', '\\'].drop_last() =~= seq![' ']);
    assert(seq![' '].drop_last() =~= Seq::<char>::empty());
    assert(count_char(seq![' '], c) == 0);
    assert(count_char(seq![' ', '\\'], c) == 0);
}

/// Config independence, first half: rendering with `Inline` wrapping never
/// inserts a line continuation. Both separators are a single space, so if
/// neither the main indentation nor the program name nor any token holds a
/// newline, the rendered invocation holds no newline at all.
pub proof fn lemma_inline_never_wraps(
    program_name: Seq<char>,
    groups: Seq<Seq<Seq<char>>>,
    options: FormattingOptions,
)
    requires
        effective_line_wrapping(options) == ArgumentLineWrapping::Inline,
        count_char(effective_main_indentation(options), '\n') == 0,
        count_char(program_name, '\n') == 0,
        forall|i: int, j: int|
            0 <= i < groups.len() && 0 <= j < groups[i].len() ==> count_char(
                #[trigger] groups[i][j],
                '\n',
            ) == 0,
    ensures
        count_char(rendered_invocation_spec(program_name, groups, options), '\n') == 0,
{
    lemma_count_line_wrap_line_end('\n');
    let entry_sep = entry_separator_spec(options);
    let tuple_sep = arg_tuple_separator_spec(options);
    assert(count_char(entry_sep, '\n') == 0);
    assert(count_char(tuple_sep, '\n') == 0);
    let prog_entry = program_entry_spec(program_name, options);
    lemma_escaped_arglike_count(program_name, true, options, '\n');
    lemma_count_char_concat(
        effective_main_indentation(options),
        escaped_arglike(program_name, true, options),
        '\n',
    );
    assert(count_char(prog_entry, '\n') == 0);
    let entry_of = |g: Seq<Seq<char>>| group_entry_spec(g, options);
    let entries = seq![prog_entry] + groups.map_values(entry_of);
    assert forall|i: int| 0 <= i < entries.len() implies count_char(
        #[trigger] entries[i],
        '\n',
    ) == 0 by {
        if i == 0 {
        } else {
            let g = groups[i - 1];
            let escaped = g.map_values(|t: Seq<char>| escaped_arglike(t, false, options));
            assert forall|j: int| 0 <= j < escaped.len() implies count_char(
                #[trigger] escaped[j],
                '\n',
            ) == 0 by {
                lemma_escaped_arglike_count(g[j], false, options, '\n');
            }
            lemma_sum_count_char_zero(escaped, '\n');
            lemma_count_join_sep_zero(escaped, tuple_sep, '\n');
            assert(entries[i] == group_entry_spec(g, options));
        }
    }
    lemma_sum_count_char_zero(entries, '\n');
    lemma_count_join_sep_zero(entries, entry_sep, '\n');
}

proof fn lemma_group_entries_newline_count(groups: Seq<Seq<Seq<char>>>, options: FormattingOptions)
    requires
        count_char(arg_tuple_separator_spec(options), '\n') == 1,
        forall|i: int, j: int|
            0 <= i < groups.len() && 0 <= j < groups[i].len() ==> count_char(
                #[trigger] groups[i][j],
                '\n',
            ) == 0,
        forall|i: int| 0 <= i < groups.len() ==> #[trigger] groups[i].len() >= 1,
    ensures
        sum_count_char(groups.map_values(|g: Seq<Seq<char>>| group_entry_spec(g, options)), '\n')
            + groups.len() == total_token_count(groups),
    decreases groups.len(),
{
    let entry_of = |g: Seq<Seq<char>>| group_entry_spec(g, options);
    if groups.len() == 0 {
        assert(groups.map_values(entry_of).len() == 0);
    } else {
        lemma_group_entries_newline_count(groups.drop_last(), options);
        assert(groups.map_values(entry_of).drop_last() =~= groups.drop_last().map_values(
            entry_of,
        ));
        let g = groups.last();
        let escaped = g.map_values(|t: Seq<char>| escaped_arglike(t, false, options));
        assert forall|j: int| 0 <= j < escaped.len() implies count_char(
            #[trigger] escaped[j],
            '\n',
        ) == 0 by {
            assert(groups[groups.len() - 1][j] == g[j]);
            lemma_escaped_arglike_count(g[j], false, options, '\n');
        }
        lemma_sum_count_char_zero(escaped, '\n');
        lemma_count_join_sep_one(escaped, arg_tuple_separator_spec(options), '\n');
        assert(groups.map_values(entry_of).last() == group_entry_spec(g, options));
        assert(count_char(group_entry_spec(g, options), '\n') + 1 == g.len());
    }
}

/// Config independence, second half: rendering with `ByArgument` wrapping
/// puts exactly one line continuation before every argument token. If no
/// input token and neither indentation string holds a newline, and every
/// group holds at least one token, the rendered invocation holds exactly one
/// newline per argument token — and each newline sits inside a separator,
/// which starts with the line-continuation marker.
pub proof fn lemma_by_argument_wraps_each_token(
    program_name: Seq<char>,
    groups: Seq<Seq<Seq<char>>>,
    options: FormattingOptions,
)
    requires
        effective_line_wrapping(options) == ArgumentLineWrapping::ByArgument,
        count_char(effective_main_indentation(options), '\n') == 0,
        count_char(effective_arg_indentation(options), '\n') == 0,
        count_char(program_name, '\n') == 0,
        forall|i: int, j: int|
            0 <= i < groups.len() && 0 <= j < groups[i].len() ==> count_char(
                #[trigger] groups[i][j],
                '\n',
            ) == 0,
        forall|i: int| 0 <= i < groups.len() ==> #[trigger] groups[i].len() >= 1,
    ensures
        count_char(rendered_invocation_spec(program_name, groups, options), '\n')
            == total_token_count(groups),
{
    lemma_count_line_wrap_line_end('\n');
    let entry_sep = entry_separator_spec(options);
    let tuple_sep = arg_tuple_separator_spec(options);
    lemma_count_char_concat(line_wrap_line_end(), effective_main_indentation(options), '\n');
    lemma_count_char_concat(
        line_wrap_line_end() + effective_main_indentation(options),
        effective_arg_indentation(options),
        '\n',
    );
    assert(count_char(tuple_sep, '\n') == 1);
    assert(count_char(entry_sep, '\n') == 1);
    let prog_entry = program_entry_spec(program_name, options);
    lemma_escaped_arglike_count(program_name, true, options, '\n');
    lemma_count_char_concat(
        effective_main_indentation(options),
        escaped_arglike(program_name, true, options),
        '\n',
    );
    assert(count_char(prog_entry, '\n') == 0);
    let entry_of = |g: Seq<Seq<char>>| group_entry_spec(g, options);
    let entries = seq![prog_entry] + groups.map_values(entry_of);
    lemma_group_entries_newline_count(groups, options);
    lemma_sum_count_char_concat(seq![prog_entry], groups.map_values(entry_of), '\n');
    assert(sum_count_char(Seq::<Seq<char>>::empty(), '\n') == 0);
    assert(seq![prog_entry].drop_last() =~= Seq::<Seq<char>>::empty());
    assert(sum_count_char(seq![prog_entry], '\n') == 0);
    lemma_count_join_sep_one(entries, entry_sep, '\n');
}

/// Formatting options together with the separator strings they determine,
/// computed once per builder.
pub struct CachedFormattingInfo {
    formatting_options: FormattingOptions,
    main_indentation: String,
    arg_tuple_separator: String,
    entry_separator: String,
}

impl CachedFormattingInfo {
    /// The configuration this cache was derived from.
    pub closed spec fn options(self) -> FormattingOptions {
        self.formatting_options
    }

    /// The cached separator strings match the configuration.
    pub closed spec fn wf(self) -> bool {
        &&& self.main_indentation@ == effective_main_indentation(self.formatting_options)
        &&& self.arg_tuple_separator@ == arg_tuple_separator_spec(self.formatting_options)
        &&& self.entry_separator@ == entry_separator_spec(self.formatting_options)
    }

    /// Derive the separator strings described by `formatting_options`.
    pub fn new(formatting_options: FormattingOptions) -> (r: Self)
        ensures
            r.wf(),
            r.options() == formatting_options,
    {
        let main_indentation: String = match &formatting_options.main_indentation {
            Some(s) => s.clone(),
            None => String::from_str(""),
        };
        let arg_indentation: String = match &formatting_options.arg_indentation {
            Some(s) => s.clone(),
            None => String::from_str("  "),
        };
        let mut line_wrap_separator: String = String::from_str(" \\\n");
        line_wrap_separator.append(main_indentation.as_str());
        line_wrap_separator.append(arg_indentation.as_str());
        proof {
            reveal_strlit("");
            reveal_strlit("  ");
            reveal_strlit(" \\\n");
            assert(main_indentation@ =~= effective_main_indentation(formatting_options));
            assert(arg_indentation@ =~= effective_arg_indentation(formatting_options));
            assert(line_wrap_separator@ =~= line_wrap_separator_spec(formatting_options));
        }
        let wrapping: ArgumentLineWrapping = match formatting_options.argument_line_wrapping {
            Some(w) => w,
            None => ArgumentLineWrapping::ByEntry,
        };
        let arg_tuple_separator: String = match wrapping {
            ArgumentLineWrapping::ByEntry => String::from_str(" "),
            ArgumentLineWrapping::NestedByEntry => {
                let mut s = line_wrap_separator.clone();
                s.append(arg_indentation.as_str());
                s
            },
            ArgumentLineWrapping::ByArgument => line_wrap_separator.clone(),
            ArgumentLineWrapping::Inline => String::from_str(" "),
        };
        let entry_separator: String = match wrapping {
            ArgumentLineWrapping::Inline => String::from_str(" "),
            _ => line_wrap_separator.clone(),
        };
        proof {
            reveal_strlit(" ");
            reveal_strlit(" \\\n");
            assert(wrapping == effective_line_wrapping(formatting_options));
            assert(arg_tuple_separator@ =~= arg_tuple_separator_spec(formatting_options));
            assert(entry_separator@ =~= entry_separator_spec(formatting_options));
        }
        CachedFormattingInfo {
            formatting_options,
            main_indentation,
            arg_tuple_separator,
            entry_separator,
        }
    }

    /// Escape the program name under the configured quoting policy.
    pub fn format_program_name(&self, program_name: &str) -> (r: String)
        ensures
            r@ == escaped_arglike(program_name@, true, self.options()),
    {
        self.escape_arglike(program_name, true)
    }

    /// Escape one token under the configured quoting policy, for the given
    /// role.
    pub fn escape_arglike(&self, arglike: &str, is_main_command: bool) -> (r: String)
        ensures
            r@ == escaped_arglike(arglike@, is_main_command, self.options()),
    {
        match self.formatting_options.quoting {
            Some(Quoting::ExtraSafe) => unconditional_escape(arglike),
            Some(Quoting::Auto) | None => conditional_escape(
                arglike,
                ConditionalEscapeOptions { is_main_command },
            ),
        }
    }
}

/// The layout engine. Entries (the program-name line and one serialized
/// entry per argument group) accumulate in order; `get` joins them with the
/// inter-entry separator.
pub struct PrintBuilder {
    serialized_entries: Vec<String>,
    cached_formatting_info: CachedFormattingInfo,
}

impl PrintBuilder {
    /// The serialized entries accumulated so far, in order.
    pub closed spec fn entries(self) -> Seq<Seq<char>> {
        self.serialized_entries.deep_view()
    }

    /// The configuration this builder renders under.
    pub closed spec fn options(self) -> FormattingOptions {
        self.cached_formatting_info.options()
    }

    /// The builder's cached separators match its configuration.
    pub closed spec fn wf(self) -> bool {
        self.cached_formatting_info.wf()
    }

    /// A builder with no entries yet, rendering under `formatting_options`.
    pub fn new(formatting_options: FormattingOptions) -> (r: Self)
        ensures
            r.wf(),
            r.options() == formatting_options,
            r.entries() == Seq::<Seq<char>>::empty(),
    {
        let cached_formatting_info = CachedFormattingInfo::new(formatting_options);
        let r = PrintBuilder { serialized_entries: Vec::new(), cached_formatting_info };
        proof {
            assert(r.entries() =~= Seq::<Seq<char>>::empty());
        }
        r
    }

    /// Add the program-name entry: the main indentation followed by the
    /// program name escaped in its role as program name.
    ///
    /// It is on the caller to call this exactly once, before any args.
    pub fn add_program_name(&mut self, program_name: &str)
        requires
            old(self).wf(),
        ensures
            final(self).wf(),
            final(self).options() == old(self).options(),
            final(self).entries() == old(self).entries().push(
                program_entry_spec(program_name@, old(self).options()),
            ),
    {
        let mut entry: String = self.cached_formatting_info.main_indentation.clone();
        let escaped = self.cached_formatting_info.format_program_name(program_name);
        entry.append(escaped.as_str());
        self.serialized_entries.push(entry);
        proof {
            assert(self.entries() =~= old(self).entries().push(
                program_entry_spec(program_name@, old(self).options()),
            ));
        }
    }

    /// Add one argument as an entry of its own, escaped in its role as
    /// argument.
    pub fn add_single_arg(&mut self, arg: &str)
        requires
            old(self).wf(),
        ensures
            final(self).wf(),
            final(self).options() == old(self).options(),
            final(self).entries() == old(self).entries().push(
                escaped_arglike(arg@, false, old(self).options()),
            ),
    {
        let entry = self.cached_formatting_info.escape_arglike(arg, false);
        self.serialized_entries.push(entry);
        proof {
            assert(self.entries() =~= old(self).entries().push(
                escaped_arglike(arg@, false, old(self).options()),
            ));
        }
    }

    /// Add one argument group as a single entry: every token escaped as an
    /// argument, joined with the intra-group separator. A group is meant to
    /// hold at least one token; an empty group is nevertheless accepted and
    /// becomes an empty entry (a bare continuation line in the wrapped
    /// modes).
    #[verifier::loop_isolation(false)]
    pub fn add_arg_group(&mut self, args: &Vec<String>)
        requires
            old(self).wf(),
        ensures
            final(self).wf(),
            final(self).options() == old(self).options(),
            final(self).entries() == old(self).entries().push(
                group_entry_spec(args.deep_view(), old(self).options()),
            ),
    {
        let ghost opts = self.cached_formatting_info.options();
        let ghost escaped_all = args.deep_view().map_values(
            |t: Seq<char>| escaped_arglike(t, false, opts),
        );
        let mut entry: String = String::new();
        if args.len() > 0 {
            entry = self.cached_formatting_info.escape_arglike(args[0].as_str(), false);
            proof {
                assert(entry@ == escaped_all[0]);
                assert(escaped_all.take(1).len() == 1);
                assert(escaped_all.take(1)[0] == escaped_all[0]);
            }
            let mut j: usize = 1;
            while j < args.len()
                invariant
                    1 <= j <= args.len(),
                    entry@ == join_with(
                        escaped_all.take(j as int),
                        arg_tuple_separator_spec(opts),
                    ),
                decreases args.len() - j,
            {
                entry.append(self.cached_formatting_info.arg_tuple_separator.as_str());
                let piece = self.cached_formatting_info.escape_arglike(args[j].as_str(), false);
                entry.append(piece.as_str());
                proof {
                    assert(escaped_all.take(j as int + 1).drop_last() =~= escaped_all.take(
                        j as int,
                    ));
                    assert(escaped_all.take(j as int + 1).last() == escaped_all[j as int]);
                    assert(entry@ =~= join_with(
                        escaped_all.take(j as int + 1),
                        arg_tuple_separator_spec(opts),
                    ));
                }
                j = j + 1;
            }
            proof {
                assert(escaped_all.take(args.len() as int) =~= escaped_all);
            }
        }
        self.serialized_entries.push(entry);
        proof {
            assert(self.entries() =~= old(self).entries().push(
                group_entry_spec(args.deep_view(), old(self).options()),
            ));
        }
    }

    /// Join the accumulated entries with the inter-entry separator into the
    /// final rendered string. Repeatable and side-effect-free.
    #[verifier::loop_isolation(false)]
    pub fn get(&self) -> (r: String)
        requires
            self.wf(),
        ensures
            r@ == join_with(self.entries(), entry_separator_spec(self.options())),
    {
        let mut out: String = String::new();
        if self.serialized_entries.len() == 0 {
            return out;
        }
        out.append(self.serialized_entries[0].as_str());
        proof {
            assert(self.entries().take(1).len() == 1);
            assert(self.entries().take(1)[0] == self.entries()[0]);
        }
        let mut i: usize = 1;
        while i < self.serialized_entries.len()
            invariant
                1 <= i <= self.serialized_entries.len(),
                out@ == join_with(
                    self.entries().take(i as int),
                    entry_separator_spec(self.options()),
                ),
            decreases self.serialized_entries.len() - i,
        {
            out.append(self.cached_formatting_info.entry_separator.as_str());
            out.append(self.serialized_entries[i].as_str());
            proof {
                assert(self.entries().take(i as int + 1).drop_last() =~= self.entries().take(
                    i as int,
                ));
                assert(self.entries().take(i as int + 1).last() == self.entries()[i as int]);
                assert(out@ =~= join_with(
                    self.entries().take(i as int + 1),
                    entry_separator_spec(self.options()),
                ));
            }
            i = i + 1;
        }
        proof {
            assert(self.entries().take(self.serialized_entries.len() as int) =~= self.entries());
        }
        out
    }
}

} // verus!
