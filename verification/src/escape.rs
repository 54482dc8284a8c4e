//! The escaper: pure functions mapping a single token (plus its role, program
//! name or argument) to a shell-safe escaped token.
//!
//! A token that contains no character from the applicable unsafe set is
//! returned unchanged. Otherwise it is wrapped in single quotes after every
//! backslash is doubled and every single quote is replaced by
//! backslash-single-quote. The program-name unsafe set is the argument unsafe
//! set plus `=`.

use vstd::prelude::*;
use vstd::string::*;

verus! {

/// Whether `c` belongs to the unsafe set for the given role. The argument
/// set is space, double quote, single quote, backtick, pipe, `$`, `*`, `?`,
/// `<`, `>`, parentheses, brackets, braces, `&`, backslash, `;` and `#`;
/// the program-name set additionally holds `=`.
pub open spec fn is_unsafe_char(c: char, is_main_command: bool) -> bool {
    ||| c == ' '
    ||| c == '"'
    ||| c == '\''
    ||| c == '`'
    ||| c == '|'
    ||| c == '$'
    ||| c == '*'
    ||| c == '?'
    ||| c == '<'
    ||| c == '>'
    ||| c == '('
    ||| c == ')'
    ||| c == '['
    ||| c == ']'
    ||| c == '{'
    ||| c == '}'
    ||| c == '&'
    ||| c == '\\'
    ||| c == ';'
    ||| c == '#'
    ||| (is_main_command && c == '=')
}

/// Whether the token holds at least one character from the applicable
/// unsafe set.
pub open spec fn contains_unsafe_char(s: Seq<char>, is_main_command: bool) -> bool {
    exists|k: int| 0 <= k < s.len() && is_unsafe_char(s[k], is_main_command)
}

/// What one character of a quoted token's body becomes: backslashes are
/// doubled, single quotes get a backslash, everything else is kept.
pub open spec fn escaped_char(c: char) -> Seq<char> {
    if c == '\\' {
        seq!['\\', '\\']
    } else if c == '\'' {
        seq!['\\', '\'']
    } else {
        seq![c]
    }
}

/// The body of a quoted token: every character escaped, in order.
pub open spec fn escaped_body(s: Seq<char>) -> Seq<char>
    decreases s.len(),
{
    if s.len() == 0 {
        Seq::<char>::empty()
    } else {
        escaped_body(s.drop_last()) + escaped_char(s.last())
    }
}

/// A token quoted unconditionally: single quotes around the escaped body.
pub open spec fn quoted_escaped(s: Seq<char>) -> Seq<char> {
    seq!['\''] + escaped_body(s) + seq!['\'']
}

/// A token under the `Auto` policy: quoted exactly when it holds an unsafe
/// character, otherwise unchanged.
pub open spec fn conditionally_escaped(s: Seq<char>, is_main_command: bool) -> Seq<char> {
    if contains_unsafe_char(s, is_main_command) {
        quoted_escaped(s)
    } else {
        s
    }
}

/// Which unsafe set `conditional_escape` applies: the program-name set or
/// the argument set.
pub struct ConditionalEscapeOptions {
    pub is_main_command: bool,
}

fn char_is_unsafe(c: char, is_main_command: bool) -> (r: bool)
    ensures
        r == is_unsafe_char(c, is_main_command),
{
    c == ' ' || c == '"' || c == '\'' || c == '`' || c == '|' || c == '$' || c == '*' || c == '?'
        || c == '<' || c == '>' || c == '(' || c == ')' || c == '[' || c == ']' || c == '{'
        || c == '}' || c == '&' || c == '\\' || c == ';' || c == '#' || (is_main_command && c
        == '=')
}

fn contains_unsafe(s: &str, is_main_command: bool) -> (r: bool)
    ensures
        r == contains_unsafe_char(s@, is_main_command),
{
    let n: usize = s.unicode_len();
    let mut i: usize = 0;
    while i < n
        invariant
            n == s@.len(),
            i <= n,
            forall|k: int| 0 <= k < i ==> !is_unsafe_char(s@[k], is_main_command),
        decreases n - i,
    {
        let c = s.get_char(i);
        if char_is_unsafe(c, is_main_command) {
            proof {
                assert(is_unsafe_char(s@[i as int], is_main_command));
            }
            return true;
        }
        i = i + 1;
    }
    false
}

/// Quote a token unconditionally, regardless of content: double every
/// backslash, then put a backslash before every single quote, and wrap the
/// result in single quotes.
pub fn unconditional_escape(s: &str) -> (r: String)
    ensures
        r@ == quoted_escaped(s@),
{
    let mut out: String = String::from_str("'");
    proof {
        reveal_strlit("'");
        assert(out@ =~= seq!['\''] + escaped_body(s@.subrange(0, 0)));
    }
    let n: usize = s.unicode_len();
    let mut i: usize = 0;
    while i < n
        invariant
            n == s@.len(),
            i <= n,
            out@ == seq!['\''] + escaped_body(s@.subrange(0, i as int)),
        decreases n - i,
    {
        let c = s.get_char(i);
        proof {
            assert(s@.subrange(0, i as int + 1).drop_last() =~= s@.subrange(0, i as int));
            assert(s@.subrange(0, i as int + 1).last() == c);
        }
        if c == '\\' {
            out.append("\\\\");
            proof {
                reveal_strlit("\\\\");
                assert("\\\\"@ =~= seq!['\\', '\\']);
                assert(out@ =~= seq!['\''] + escaped_body(s@.subrange(0, i as int + 1)));
            }
        } else if c == '\'' {
            out.append("\\'");
            proof {
                reveal_strlit("\\'");
                assert("\\'"@ =~= seq!['\\', '\'']);
                assert(out@ =~= seq!['\''] + escaped_body(s@.subrange(0, i as int + 1)));
            }
        } else {
            let piece = s.substring_char(i, i + 1);
            out.append(piece);
            proof {
                assert(piece@ =~= seq![c]);
                assert(out@ =~= seq!['\''] + escaped_body(s@.subrange(0, i as int + 1)));
            }
        }
        i = i + 1;
    }
    out.append("'");
    proof {
        reveal_strlit("'");
        assert(s@.subrange(0, n as int) =~= s@);
        assert(out@ =~= quoted_escaped(s@));
    }
    out
}

/// Quote a token only if it holds a character from the unsafe set selected
/// by `options`; otherwise return it unchanged.
pub fn conditional_escape(s: &str, options: ConditionalEscapeOptions) -> (r: String)
    ensures
        r@ == conditionally_escaped(s@, options.is_main_command),
{
    if contains_unsafe(s, options.is_main_command) {
        unconditional_escape(s)
    } else {
        s.to_owned()
    }
}

/// The reverse of `escaped_body`: drop one escaping backslash before each
/// escaped character, keep everything else.
pub open spec fn unescaped_body(s: Seq<char>) -> Seq<char>
    decreases s.len(),
{
    if s.len() == 0 {
        Seq::<char>::empty()
    } else if s[0] == '\\' && s.len() >= 2 {
        seq![s[1]] + unescaped_body(s.skip(2))
    } else {
        seq![s[0]] + unescaped_body(s.skip(1))
    }
}

proof fn lemma_escaped_body_first(s: Seq<char>)
    requires
        s.len() > 0,
    ensures
        escaped_body(s) == escaped_char(s.first()) + escaped_body(s.drop_first()),
    decreases s.len(),
{
    if s.len() == 1 {
        assert(s.drop_last() =~= Seq::<char>::empty());
        assert(s.drop_first() =~= Seq::<char>::empty());
        assert(escaped_body(s) =~= escaped_char(s.first()) + escaped_body(s.drop_first()));
    } else {
        lemma_escaped_body_first(s.drop_last());
        assert(s.drop_last().drop_first() =~= s.drop_first().drop_last());
        assert(s.drop_first().last() == s.last());
        assert(escaped_body(s) =~= escaped_char(s.first()) + escaped_body(s.drop_first()));
    }
}

proof fn lemma_unescape_escape(s: Seq<char>)
    ensures
        unescaped_body(escaped_body(s)) == s,
    decreases s.len(),
{
    if s.len() == 0 {
        assert(escaped_body(s) =~= Seq::<char>::empty());
    } else {
        lemma_escaped_body_first(s);
        lemma_unescape_escape(s.drop_first());
        let e = escaped_body(s);
        let c = s.first();
        if c == '\\' || c == '\'' {
            assert(e =~= seq!['\\', c] + escaped_body(s.drop_first()));
            assert(e[0] == '\\' && e.len() >= 2);
            assert(e.skip(2) =~= escaped_body(s.drop_first()));
            assert(unescaped_body(e) =~= s);
        } else {
            assert(e =~= seq![c] + escaped_body(s.drop_first()));
            assert(e[0] == c && !(e[0] == '\\' && e.len() >= 2));
            assert(e.skip(1) =~= escaped_body(s.drop_first()));
            assert(unescaped_body(e) =~= s);
        }
    }
}

/// Round-trip safety of the escaper: a token with no character from the
/// applicable unsafe set is returned unchanged; a quoted token starts and
/// ends with a single quote, and stripping the quotes and undoing the escape
/// transform reproduces the original token exactly.
pub proof fn lemma_escape_round_trip(s: Seq<char>, is_main_command: bool)
    ensures
        !contains_unsafe_char(s, is_main_command) ==> conditionally_escaped(
            s,
            is_main_command,
        ) == s,
        quoted_escaped(s).len() >= 2,
        quoted_escaped(s).first() == '\'',
        quoted_escaped(s).last() == '\'',
        quoted_escaped(s).subrange(1, quoted_escaped(s).len() - 1) == escaped_body(s),
        unescaped_body(escaped_body(s)) == s,
{
    assert(quoted_escaped(s).subrange(1, quoted_escaped(s).len() - 1) =~= escaped_body(s));
    lemma_unescape_escape(s);
}

} // verus!
