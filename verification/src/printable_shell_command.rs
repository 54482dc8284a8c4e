//! The command adapter: an invocation built incrementally from a program
//! name and argument tokens, rendered strictly (every token must be valid
//! UTF-8) or lossily (invalid byte sequences replaced).
//!
//! Tokens are raw bytes, as a platform hands them over; they are decoded
//! only when an invocation is rendered. Besides grouped registration the
//! adapter keeps a flat log of every argument token, standing for the
//! argument list of a wrapped command builder; tokens appended to the log
//! directly are folded into singleton groups by adoption.

use vstd::prelude::*;
use vstd::string::*;
use vstd::utf8::{decode_utf8, encode_utf8, valid_utf8};

use crate::formatting_options::{spec_default_options, FormattingOptions};
use crate::print_builder::{
    escaped_arglike, group_entry_spec, program_entry_spec, rendered_invocation_spec,
    PrintBuilder,
};
use crate::shell_printable::{ShellPrintable, ShellPrintableWithOptions};

verus! {

/// Strict rendering failed: a token was not valid UTF-8. No partial output
/// is returned.
#[derive(Clone, Copy, Debug, PartialEq, Eq, Structural)]
pub struct Utf8DecodeError;

/// What `String::from_utf8_lossy` yields on the given bytes.
pub uninterp spec fn lossy_decoded(bytes: Seq<u8>) -> Seq<char>;

/// Relies on `core::str::from_utf8`: it succeeds exactly on valid UTF-8, and
/// the string it yields holds those very bytes, so its characters are
/// `decode_utf8` of the bytes in vstd's UTF-8 model.
#[verifier::external_body]
fn decode_token_strict(bytes: &Vec<u8>) -> (r: Option<String>)
    ensures
        r is Some <==> valid_utf8(bytes@),
        r matches Some(s) ==> s@ == decode_utf8(bytes@),
{
    match core::str::from_utf8(bytes.as_slice()) {
        Ok(s) => Some(s.to_owned()),
        Err(_) => None,
    }
}

/// Relies on `String::from_utf8_lossy`: its result is a function of the
/// bytes alone, and valid UTF-8 decodes unchanged.
#[verifier::external_body]
fn decode_token_lossy(bytes: &Vec<u8>) -> (r: String)
    ensures
        r@ == lossy_decoded(bytes@),
        valid_utf8(bytes@) ==> r@ == decode_utf8(bytes@),
{
    String::from_utf8_lossy(bytes.as_slice()).into_owned()
}

/// The tokens of all groups, flattened in order.
pub open spec fn flat_tokens(groups: Seq<Seq<Seq<u8>>>) -> Seq<Seq<u8>>
    decreases groups.len(),
{
    if groups.len() == 0 {
        Seq::<Seq<u8>>::empty()
    } else {
        flat_tokens(groups.drop_last()) + groups.last()
    }
}

/// The groups after adoption: every token of the log that no group covers
/// yet is folded in as a singleton group, in order.
pub open spec fn adopted_groups(
    groups: Seq<Seq<Seq<u8>>>,
    command_tokens: Seq<Seq<u8>>,
) -> Seq<Seq<Seq<u8>>> {
    groups + command_tokens.skip(flat_tokens(groups).len() as int).map_values(
        |t: Seq<u8>| seq![t],
    )
}

proof fn lemma_flat_tokens_push(groups: Seq<Seq<Seq<u8>>>, group: Seq<Seq<u8>>)
    ensures
        flat_tokens(groups.push(group)) == flat_tokens(groups) + group,
{
    assert(groups.push(group).drop_last() =~= groups);
    assert(groups.push(group).last() == group);
}

proof fn lemma_flat_tokens_take_succ(groups: Seq<Seq<Seq<u8>>>, i: int)
    requires
        0 <= i < groups.len(),
    ensures
        flat_tokens(groups.take(i + 1)) == flat_tokens(groups.take(i)) + groups[i],
{
    assert(groups.take(i + 1).drop_last() =~= groups.take(i));
    assert(groups.take(i + 1).last() == groups[i]);
}

proof fn lemma_flat_tokens_take_le(groups: Seq<Seq<Seq<u8>>>, i: int)
    requires
        0 <= i <= groups.len(),
    ensures
        flat_tokens(groups.take(i)).len() <= flat_tokens(groups).len(),
    decreases groups.len() - i,
{
    if i == groups.len() {
        assert(groups.take(i) =~= groups);
    } else {
        lemma_flat_tokens_take_le(groups, i + 1);
        lemma_flat_tokens_take_succ(groups, i);
    }
}

proof fn lemma_flat_tokens_append_singletons(groups: Seq<Seq<Seq<u8>>>, tokens: Seq<Seq<u8>>)
    ensures
        flat_tokens(groups + tokens.map_values(|t: Seq<u8>| seq![t])) == flat_tokens(groups)
            + tokens,
    decreases tokens.len(),
{
    let singles = tokens.map_values(|t: Seq<u8>| seq![t]);
    if tokens.len() == 0 {
        assert(groups + singles =~= groups);
        assert(flat_tokens(groups) + tokens =~= flat_tokens(groups));
    } else {
        lemma_flat_tokens_append_singletons(groups, tokens.drop_last());
        assert((groups + singles).drop_last() =~= groups + tokens.drop_last().map_values(
            |t: Seq<u8>| seq![t],
        ));
        assert((groups + singles).last() == seq![tokens.last()]);
        assert(flat_tokens(groups + singles) =~= flat_tokens(groups) + tokens);
    }
}

/// Order preservation: flattening the groups after adoption reproduces the
/// full token log exactly, in order — grouping never reorders, drops or
/// duplicates a token.
pub proof fn lemma_adopted_groups_flatten(
    groups: Seq<Seq<Seq<u8>>>,
    command_tokens: Seq<Seq<u8>>,
)
    requires
        flat_tokens(groups).is_prefix_of(command_tokens),
    ensures
        flat_tokens(adopted_groups(groups, command_tokens)) == command_tokens,
{
    let n = flat_tokens(groups).len();
    lemma_flat_tokens_append_singletons(groups, command_tokens.skip(n as int));
    assert(flat_tokens(groups) + command_tokens.skip(n as int) =~= command_tokens);
}

/// Idempotent adoption: adopting a second time, with nothing new in the
/// token log, changes nothing — the accumulator state, and with it every
/// rendering of it, stays identical.
pub proof fn lemma_adoption_idempotent(groups: Seq<Seq<Seq<u8>>>, command_tokens: Seq<Seq<u8>>)
    requires
        flat_tokens(groups).is_prefix_of(command_tokens),
    ensures
        adopted_groups(adopted_groups(groups, command_tokens), command_tokens)
            == adopted_groups(groups, command_tokens),
{
    lemma_adopted_groups_flatten(groups, command_tokens);
    let once = adopted_groups(groups, command_tokens);
    assert(command_tokens.skip(flat_tokens(once).len() as int) =~= Seq::<Seq<u8>>::empty());
    assert(adopted_groups(once, command_tokens) =~= once);
}

fn tokens_equal(a: &Vec<u8>, b: &Vec<u8>) -> (r: bool)
    ensures
        r == (a@ == b@),
{
    if a.len() != b.len() {
        return false;
    }
    let mut i: usize = 0;
    while i < a.len()
        invariant
            i <= a.len(),
            a@.len() == b@.len(),
            forall|k: int| 0 <= k < i ==> a@[k] == b@[k],
        decreases a.len() - i,
    {
        if a[i] != b[i] {
            return false;
        }
        i = i + 1;
    }
    proof {
        assert(a@ =~= b@);
    }
    true
}

fn copy_token(token: &Vec<u8>) -> (r: Vec<u8>)
    ensures
        r@ == token@,
{
    let mut r: Vec<u8> = Vec::new();
    let mut i: usize = 0;
    while i < token.len()
        invariant
            i <= token.len(),
            r@ == token@.take(i as int),
        decreases token.len() - i,
    {
        r.push(token[i]);
        proof {
            assert(token@.take(i as int + 1) =~= token@.take(i as int).push(token@[i as int]));
        }
        i = i + 1;
    }
    proof {
        assert(token@.take(token.len() as int) =~= token@);
    }
    r
}

/// A shell-command invocation under construction: a program name, the
/// argument groups registered so far, and the flat log of every argument
/// token handed over, in order.
pub struct PrintableShellCommand {
    program: Vec<u8>,
    arg_groups: Vec<Vec<Vec<u8>>>,
    command_args: Vec<Vec<u8>>,
}

impl PrintableShellCommand {
    /// The program name, as raw bytes.
    pub closed spec fn program_token(self) -> Seq<u8> {
        self.program@
    }

    /// The argument groups registered so far, in order.
    pub closed spec fn groups(self) -> Seq<Seq<Seq<u8>>> {
        self.arg_groups.deep_view()
    }

    /// The flat log of every argument token, in order.
    pub closed spec fn command_tokens(self) -> Seq<Seq<u8>> {
        self.command_args.deep_view()
    }

    /// The groups always cover a prefix of the token log: the two views of
    /// the argument history never diverge.
    pub closed spec fn wf(self) -> bool {
        flat_tokens(self.groups()).is_prefix_of(self.command_tokens())
    }

    /// The groups a rendering works from: the registered groups plus one
    /// singleton group per not-yet-adopted token of the log.
    pub open spec fn effective_groups(self) -> Seq<Seq<Seq<u8>>> {
        adopted_groups(self.groups(), self.command_tokens())
    }

    /// Whether every token, the program name included, is valid UTF-8 —
    /// exactly when strict rendering succeeds.
    pub open spec fn strict_ok(self) -> bool {
        &&& valid_utf8(self.program_token())
        &&& forall|i: int, j: int|
            0 <= i < self.effective_groups().len() && 0 <= j < self.effective_groups()[i].len()
                ==> valid_utf8(#[trigger] self.effective_groups()[i][j])
    }

    /// The strict rendering: every token decoded as UTF-8, then laid out
    /// under `options`.
    pub open spec fn rendered_strict(self, options: FormattingOptions) -> Seq<char> {
        rendered_invocation_spec(
            decode_utf8(self.program_token()),
            self.effective_groups().map_values(
                |g: Seq<Seq<u8>>| g.map_values(|t: Seq<u8>| decode_utf8(t)),
            ),
            options,
        )
    }

    /// The lossy rendering: every token decoded by the lossy conversion,
    /// then laid out under `options`.
    pub open spec fn rendered_lossy(self, options: FormattingOptions) -> Seq<char> {
        rendered_invocation_spec(
            lossy_decoded(self.program_token()),
            self.effective_groups().map_values(
                |g: Seq<Seq<u8>>| g.map_values(|t: Seq<u8>| lossy_decoded(t)),
            ),
            options,
        )
    }

    /// A new invocation for the given program name, with no arguments yet.
    pub fn new(program: &str) -> (r: Self)
        ensures
            r.wf(),
            r.program_token() == encode_utf8(program@),
            r.groups() == Seq::<Seq<Seq<u8>>>::empty(),
            r.command_tokens() == Seq::<Seq<u8>>::empty(),
    {
        let r = PrintableShellCommand {
            program: program.as_bytes_vec(),
            arg_groups: Vec::new(),
            command_args: Vec::new(),
        };
        proof {
            assert(r.groups() =~= Seq::<Seq<Seq<u8>>>::empty());
            assert(r.command_tokens() =~= Seq::<Seq<u8>>::empty());
            assert(flat_tokens(r.groups()) =~= Seq::<Seq<u8>>::empty());
        }
        r
    }

    /// A new invocation for a program name given as raw bytes.
    pub fn new_raw(program: Vec<u8>) -> (r: Self)
        ensures
            r.wf(),
            r.program_token() == program@,
            r.groups() == Seq::<Seq<Seq<u8>>>::empty(),
            r.command_tokens() == Seq::<Seq<u8>>::empty(),
    {
        let r = PrintableShellCommand {
            program,
            arg_groups: Vec::new(),
            command_args: Vec::new(),
        };
        proof {
            assert(r.groups() =~= Seq::<Seq<Seq<u8>>>::empty());
            assert(r.command_tokens() =~= Seq::<Seq<u8>>::empty());
            assert(flat_tokens(r.groups()) =~= Seq::<Seq<u8>>::empty());
        }
        r
    }

    /// An invocation adopted whole from an existing command builder: its
    /// program name and flat argument list, each argument as a group of its
    /// own.
    pub fn from_flat_command(program: Vec<u8>, args: Vec<Vec<u8>>) -> (r: Self)
        ensures
            r.wf(),
            r.program_token() == program@,
            r.groups() == args.deep_view().map_values(|t: Seq<u8>| seq![t]),
            r.command_tokens() == args.deep_view(),
    {
        let mut r = PrintableShellCommand {
            program,
            arg_groups: Vec::new(),
            command_args: args,
        };
        proof {
            assert(r.groups() =~= Seq::<Seq<Seq<u8>>>::empty());
            assert(flat_tokens(r.groups()) =~= Seq::<Seq<u8>>::empty());
            assert(flat_tokens(r.groups()).is_prefix_of(r.command_tokens()));
        }
        r.adopt_args();
        proof {
            assert(r.command_tokens().skip(0) =~= r.command_tokens());
            assert(r.groups() =~~= r.command_tokens().map_values(|t: Seq<u8>| seq![t]));
        }
        r
    }

    fn flat_len(&self) -> (r: usize)
        requires
            self.wf(),
        ensures
            r == flat_tokens(self.groups()).len(),
    {
        proof {
            assert(flat_tokens(self.groups().take(0)) =~= Seq::<Seq<u8>>::empty());
        }
        let mut total: usize = 0;
        let mut i: usize = 0;
        while i < self.arg_groups.len()
            invariant
                self.wf(),
                i <= self.arg_groups.len(),
                total == flat_tokens(self.groups().take(i as int)).len(),
            decreases self.arg_groups.len() - i,
        {
            proof {
                lemma_flat_tokens_take_succ(self.groups(), i as int);
                lemma_flat_tokens_take_le(self.groups(), i as int + 1);
                assert(self.groups()[i as int].len() == self.arg_groups[i as int].deep_view().len());
                assert(flat_tokens(self.groups()).len() <= self.command_tokens().len());
                assert(self.command_tokens().len() == self.command_args.len());
            }
            total = total + self.arg_groups[i].len();
            i = i + 1;
        }
        proof {
            assert(self.groups().take(self.arg_groups.len() as int) =~= self.groups());
        }
        total
    }

    /// Register one raw token directly on the wrapped command's log,
    /// bypassing grouping: the pass-through for callers that feed the
    /// wrapped command builder directly. The token is folded into a group of
    /// its own on the next adoption.
    pub fn command_arg(&mut self, arg: Vec<u8>)
        requires
            old(self).wf(),
        ensures
            final(self).wf(),
            final(self).program_token() == old(self).program_token(),
            final(self).groups() == old(self).groups(),
            final(self).command_tokens() == old(self).command_tokens().push(arg@),
    {
        self.command_args.push(arg);
        proof {
            assert(self.command_tokens() =~~= old(self).command_tokens().push(arg@));
            assert(self.groups() =~~= old(self).groups());
            assert(old(self).command_tokens().push(arg@).subrange(
                0,
                flat_tokens(self.groups()).len() as int,
            ) =~= old(self).command_tokens().subrange(
                0,
                flat_tokens(self.groups()).len() as int,
            ));
            assert(flat_tokens(self.groups()).is_prefix_of(self.command_tokens()));
        }
    }

    /// Whether the recorded token log stands, token for token, as a prefix
    /// of `current`. Reconciling with an outside argument list relies on
    /// this check: a log that is no prefix of the outside list means the
    /// two views of the argument history have diverged.
    #[verifier::loop_isolation(false)]
    pub fn log_matches_prefix(&self, current: &Vec<Vec<u8>>) -> (r: bool)
        ensures
            r == self.command_tokens().is_prefix_of(current.deep_view()),
    {
        if current.len() < self.command_args.len() {
            return false;
        }
        let ghost log = self.command_tokens();
        let ghost outside = current.deep_view();
        let mut i: usize = 0;
        while i < self.command_args.len()
            invariant
                i <= self.command_args.len(),
                self.command_args.len() <= current.len(),
                forall|k: int| 0 <= k < i ==> log[k] == outside[k],
            decreases self.command_args.len() - i,
        {
            proof {
                assert(self.command_args@[i as int]@ =~= log[i as int]);
                assert(current@[i as int]@ =~= outside[i as int]);
            }
            if !tokens_equal(&self.command_args[i], &current[i]) {
                proof {
                    assert(log[i as int] != outside[i as int]);
                    if log.is_prefix_of(outside) {
                        let sub = outside.subrange(0, log.len() as int);
                        assert(log[i as int] == sub[i as int]);
                    }
                }
                return false;
            }
            i = i + 1;
        }
        proof {
            assert(log =~= outside.subrange(0, log.len() as int));
        }
        true
    }

    /// An identical copy of this invocation: the same program name, the
    /// same groups and the same token log.
    #[verifier::loop_isolation(false)]
    pub fn duplicate(&self) -> (r: Self)
        ensures
            r.program_token() == self.program_token(),
            r.groups() == self.groups(),
            r.command_tokens() == self.command_tokens(),
            r.wf() == self.wf(),
    {
        let program = copy_token(&self.program);
        let mut arg_groups: Vec<Vec<Vec<u8>>> = Vec::new();
        let mut i: usize = 0;
        proof {
            assert(arg_groups.deep_view() =~~= self.groups().take(0));
        }
        while i < self.arg_groups.len()
            invariant
                i <= self.arg_groups.len(),
                arg_groups.deep_view() == self.groups().take(i as int),
            decreases self.arg_groups.len() - i,
        {
            let mut group: Vec<Vec<u8>> = Vec::new();
            let mut j: usize = 0;
            proof {
                assert(group.deep_view() =~~= self.groups()[i as int].take(0));
            }
            while j < self.arg_groups[i].len()
                invariant
                    i < self.arg_groups.len(),
                    j <= self.arg_groups[i as int].len(),
                    group.deep_view() == self.groups()[i as int].take(j as int),
                decreases self.arg_groups[i as int].len() - j,
            {
                let ghost group_before = group.deep_view();
                group.push(copy_token(&self.arg_groups[i][j]));
                proof {
                    let row = self.groups()[i as int];
                    assert(self.arg_groups@[i as int]@[j as int]@ == row[j as int]);
                    assert(group.deep_view() =~~= group_before.push(row[j as int]));
                    assert(row.take(j as int + 1) =~= row.take(j as int).push(row[j as int]));
                }
                j = j + 1;
            }
            let ghost groups_before = arg_groups.deep_view();
            proof {
                assert(self.groups()[i as int].take(self.arg_groups[i as int].len() as int)
                    =~= self.groups()[i as int]);
            }
            arg_groups.push(group);
            proof {
                assert(arg_groups.deep_view() =~~= groups_before.push(self.groups()[i as int]));
                assert(self.groups().take(i as int + 1) =~= self.groups().take(i as int).push(
                    self.groups()[i as int],
                ));
            }
            i = i + 1;
        }
        let mut command_args: Vec<Vec<u8>> = Vec::new();
        let mut k: usize = 0;
        proof {
            assert(command_args.deep_view() =~~= self.command_tokens().take(0));
        }
        while k < self.command_args.len()
            invariant
                k <= self.command_args.len(),
                command_args.deep_view() == self.command_tokens().take(k as int),
            decreases self.command_args.len() - k,
        {
            let ghost cmd_before = command_args.deep_view();
            command_args.push(copy_token(&self.command_args[k]));
            proof {
                assert(self.command_args@[k as int]@ == self.command_tokens()[k as int]);
                assert(command_args.deep_view() =~~= cmd_before.push(
                    self.command_tokens()[k as int],
                ));
                assert(self.command_tokens().take(k as int + 1) =~= self.command_tokens().take(
                    k as int,
                ).push(self.command_tokens()[k as int]));
            }
            k = k + 1;
        }
        let r = PrintableShellCommand { program, arg_groups, command_args };
        proof {
            assert(self.groups().take(self.arg_groups.len() as int) =~= self.groups());
            assert(self.command_tokens().take(self.command_args.len() as int)
                =~= self.command_tokens());
        }
        r
    }

    /// The tokens of the log that no group covers yet, in order: what the
    /// next adoption will fold into singleton groups. This adapter owns
    /// both views of the argument history, so they can never diverge and
    /// there is no mismatch to detect.
    #[verifier::loop_isolation(false)]
    pub fn args_to_adopt(&self) -> (r: Vec<Vec<u8>>)
        requires
            self.wf(),
        ensures
            r.deep_view() == self.command_tokens().skip(
                flat_tokens(self.groups()).len() as int,
            ),
    {
        let start = self.flat_len();
        let mut to_adopt: Vec<Vec<u8>> = Vec::new();
        let mut k: usize = start;
        proof {
            assert(to_adopt.deep_view() =~~= self.command_tokens().subrange(
                start as int,
                start as int,
            ));
        }
        while k < self.command_args.len()
            invariant
                start <= k <= self.command_args.len(),
                to_adopt.deep_view() == self.command_tokens().subrange(start as int, k as int),
            decreases self.command_args.len() - k,
        {
            let ghost before = to_adopt.deep_view();
            to_adopt.push(copy_token(&self.command_args[k]));
            proof {
                assert(self.command_args@[k as int]@ == self.command_tokens()[k as int]);
                assert(to_adopt.deep_view() =~~= before.push(self.command_tokens()[k as int]));
                assert(self.command_tokens().subrange(start as int, k as int + 1)
                    =~= self.command_tokens().subrange(start as int, k as int).push(
                    self.command_tokens()[k as int],
                ));
            }
            k = k + 1;
        }
        proof {
            assert(self.command_tokens().subrange(start as int, self.command_args.len() as int)
                =~= self.command_tokens().skip(start as int));
        }
        to_adopt
    }

    /// Fold every token that stands in the log but in no group yet into a
    /// singleton group of its own, in order. Running it again right away is
    /// a no-op.
    #[verifier::loop_isolation(false)]
    pub fn adopt_args(&mut self)
        requires
            old(self).wf(),
        ensures
            final(self).wf(),
            final(self).program_token() == old(self).program_token(),
            final(self).command_tokens() == old(self).command_tokens(),
            final(self).groups() == adopted_groups(
                old(self).groups(),
                old(self).command_tokens(),
            ),
            flat_tokens(final(self).groups()) == final(self).command_tokens(),
    {
        let start = self.flat_len();
        let ghost groups0 = self.groups();
        let ghost cmd = self.command_tokens();
        let mut k: usize = start;
        proof {
            assert(cmd.subrange(start as int, start as int) =~= Seq::<Seq<u8>>::empty());
            assert(self.groups() =~~= groups0 + cmd.subrange(start as int, start as int)
                .map_values(|t: Seq<u8>| seq![t]));
        }
        while k < self.command_args.len()
            invariant
                start <= k <= self.command_args.len(),
                self.program@ == old(self).program@,
                self.command_tokens() == cmd,
                self.groups() == groups0 + cmd.subrange(start as int, k as int).map_values(
                    |t: Seq<u8>| seq![t],
                ),
            decreases self.command_args.len() - k,
        {
            let token = copy_token(&self.command_args[k]);
            let mut group: Vec<Vec<u8>> = Vec::new();
            group.push(token);
            let ghost groups_before = self.groups();
            self.arg_groups.push(group);
            proof {
                assert(group.deep_view() =~~= seq![cmd[k as int]]);
                assert(self.groups() =~~= groups_before.push(seq![cmd[k as int]]));
                assert(cmd.subrange(start as int, k as int + 1) =~= cmd.subrange(
                    start as int,
                    k as int,
                ).push(cmd[k as int]));
                assert(self.groups() =~~= groups0 + cmd.subrange(start as int, k as int + 1)
                    .map_values(|t: Seq<u8>| seq![t]));
            }
            k = k + 1;
        }
        proof {
            assert(cmd.subrange(start as int, self.command_args.len() as int) =~= cmd.skip(
                start as int,
            ));
            assert(self.groups() =~~= adopted_groups(groups0, cmd));
            lemma_adopted_groups_flatten(groups0, cmd);
        }
    }

    /// Append one argument as a group of its own. Tokens fed to the wrapped
    /// command since the last registration are adopted first.
    pub fn arg(&mut self, arg: &str)
        requires
            old(self).wf(),
        ensures
            final(self).wf(),
            final(self).program_token() == old(self).program_token(),
            final(self).groups() == adopted_groups(
                old(self).groups(),
                old(self).command_tokens(),
            ).push(seq![encode_utf8(arg@)]),
            final(self).command_tokens() == old(self).command_tokens().push(encode_utf8(arg@)),
    {
        self.adopt_args();
        let ghost adopted = self.groups();
        let ghost cmd0 = self.command_tokens();
        let mut group: Vec<Vec<u8>> = Vec::new();
        group.push(arg.as_bytes_vec());
        self.arg_groups.push(group);
        self.command_args.push(arg.as_bytes_vec());
        proof {
            assert(group.deep_view() =~~= seq![encode_utf8(arg@)]);
            assert(self.groups() =~~= adopted.push(seq![encode_utf8(arg@)]));
            assert(self.command_tokens() =~~= cmd0.push(encode_utf8(arg@)));
            lemma_flat_tokens_push(adopted, seq![encode_utf8(arg@)]);
            assert(flat_tokens(self.groups()) =~~= self.command_tokens());
        }
    }

    /// Append several arguments as one group, kept visually adjacent when
    /// line wrapping splits entries. Tokens fed to the wrapped command since
    /// the last registration are adopted first. A group is meant to hold at
    /// least one token; an empty `args` call is nevertheless accepted and
    /// renders as an empty entry.
    #[verifier::loop_isolation(false)]
    pub fn args(&mut self, args: &Vec<String>)
        requires
            old(self).wf(),
        ensures
            final(self).wf(),
            final(self).program_token() == old(self).program_token(),
            final(self).groups() == adopted_groups(
                old(self).groups(),
                old(self).command_tokens(),
            ).push(args.deep_view().map_values(|t: Seq<char>| encode_utf8(t))),
            final(self).command_tokens() == old(self).command_tokens() + args.deep_view()
                .map_values(|t: Seq<char>| encode_utf8(t)),
    {
        self.adopt_args();
        let ghost adopted = self.groups();
        let ghost cmd0 = self.command_tokens();
        let ghost encoded = args.deep_view().map_values(|t: Seq<char>| encode_utf8(t));
        let mut group: Vec<Vec<u8>> = Vec::new();
        let mut i: usize = 0;
        proof {
            assert(group.deep_view() =~~= encoded.take(0));
            assert(self.command_tokens() =~~= cmd0 + encoded.take(0));
        }
        while i < args.len()
            invariant
                i <= args.len(),
                group.deep_view() == encoded.take(i as int),
                self.program@ == old(self).program@,
                self.groups() == adopted,
                self.command_tokens() == cmd0 + encoded.take(i as int),
            decreases args.len() - i,
        {
            let ghost cmd_before = self.command_tokens();
            group.push(args[i].as_str().as_bytes_vec());
            self.command_args.push(args[i].as_str().as_bytes_vec());
            proof {
                assert(self.command_tokens() =~~= cmd_before.push(encoded[i as int]));
                assert(encoded.take(i as int + 1) =~= encoded.take(i as int).push(
                    encoded[i as int],
                ));
                assert((cmd0 + encoded.take(i as int)).push(encoded[i as int]) =~= cmd0
                    + encoded.take(i as int + 1));
                assert(group.deep_view() =~~= encoded.take(i as int + 1));
                assert(self.command_tokens() =~~= cmd0 + encoded.take(i as int + 1));
                assert(self.groups() =~~= adopted);
            }
            i = i + 1;
        }
        self.arg_groups.push(group);
        proof {
            assert(encoded.take(args.len() as int) =~= encoded);
            assert(group.deep_view() =~~= encoded);
            assert(self.groups() =~~= adopted.push(encoded));
            assert(self.command_tokens() =~~= cmd0 + encoded);
            lemma_flat_tokens_push(adopted, encoded);
            assert(flat_tokens(self.groups()) =~~= self.command_tokens());
        }
    }

    /// Append one argument, given as raw bytes, as a group of its own.
    /// Tokens fed to the wrapped command since the last registration are
    /// adopted first.
    pub fn arg_raw(&mut self, arg: Vec<u8>)
        requires
            old(self).wf(),
        ensures
            final(self).wf(),
            final(self).program_token() == old(self).program_token(),
            final(self).groups() == adopted_groups(
                old(self).groups(),
                old(self).command_tokens(),
            ).push(seq![arg@]),
            final(self).command_tokens() == old(self).command_tokens().push(arg@),
    {
        self.adopt_args();
        let ghost adopted = self.groups();
        let ghost cmd0 = self.command_tokens();
        let arg_copy = copy_token(&arg);
        let mut group: Vec<Vec<u8>> = Vec::new();
        group.push(arg_copy);
        self.arg_groups.push(group);
        self.command_args.push(arg);
        proof {
            assert(group.deep_view() =~~= seq![arg@]);
            assert(self.groups() =~~= adopted.push(seq![arg@]));
            assert(self.command_tokens() =~~= cmd0.push(arg@));
            lemma_flat_tokens_push(adopted, seq![arg@]);
            assert(flat_tokens(self.groups()) =~~= self.command_tokens());
        }
    }

    /// Append several arguments, given as raw bytes, as one group. Tokens
    /// fed to the wrapped command since the last registration are adopted
    /// first. A group is meant to hold at least one token; an empty `args`
    /// call is nevertheless accepted and renders as an empty entry.
    #[verifier::loop_isolation(false)]
    pub fn args_raw(&mut self, args: &Vec<Vec<u8>>)
        requires
            old(self).wf(),
        ensures
            final(self).wf(),
            final(self).program_token() == old(self).program_token(),
            final(self).groups() == adopted_groups(
                old(self).groups(),
                old(self).command_tokens(),
            ).push(args.deep_view()),
            final(self).command_tokens() == old(self).command_tokens() + args.deep_view(),
    {
        self.adopt_args();
        let ghost adopted = self.groups();
        let ghost cmd0 = self.command_tokens();
        let ghost tokens = args.deep_view();
        let mut group: Vec<Vec<u8>> = Vec::new();
        let mut i: usize = 0;
        proof {
            assert(group.deep_view() =~~= tokens.take(0));
            assert(self.command_tokens() =~~= cmd0 + tokens.take(0));
        }
        while i < args.len()
            invariant
                i <= args.len(),
                group.deep_view() == tokens.take(i as int),
                self.program@ == old(self).program@,
                self.groups() == adopted,
                self.command_tokens() == cmd0 + tokens.take(i as int),
            decreases args.len() - i,
        {
            proof {
                assert(args@[i as int]@ == tokens[i as int]);
            }
            let ghost cmd_before = self.command_tokens();
            group.push(copy_token(&args[i]));
            self.command_args.push(copy_token(&args[i]));
            proof {
                assert(self.command_tokens() =~~= cmd_before.push(tokens[i as int]));
                assert(tokens.take(i as int + 1) =~= tokens.take(i as int).push(
                    tokens[i as int],
                ));
                assert((cmd0 + tokens.take(i as int)).push(tokens[i as int]) =~= cmd0
                    + tokens.take(i as int + 1));
                assert(group.deep_view() =~~= tokens.take(i as int + 1));
                assert(self.command_tokens() =~~= cmd0 + tokens.take(i as int + 1));
                assert(self.groups() =~~= adopted);
            }
            i = i + 1;
        }
        self.arg_groups.push(group);
        proof {
            assert(tokens.take(args.len() as int) =~= tokens);
            assert(group.deep_view() =~~= tokens);
            assert(self.groups() =~~= adopted.push(tokens));
            assert(self.command_tokens() =~~= cmd0 + tokens);
            lemma_flat_tokens_push(adopted, tokens);
            assert(flat_tokens(self.groups()) =~~= self.command_tokens());
        }
    }

    /// How many tokens the flat log holds.
    pub fn command_token_count(&self) -> (r: usize)
        ensures
            r == self.command_tokens().len(),
    {
        self.command_args.len()
    }

    /// The `i`-th token of the flat log, as raw bytes.
    pub fn command_token_at(&self, i: usize) -> (r: &Vec<u8>)
        requires
            i < self.command_tokens().len(),
        ensures
            r@ == self.command_tokens()[i as int],
    {
        &self.command_args[i]
    }

    proof fn lemma_effective_layout(self)
        requires
            self.wf(),
        ensures
            flat_tokens(self.groups()).len() <= self.command_tokens().len(),
            self.effective_groups().len() == self.groups().len() + self.command_tokens().len()
                - flat_tokens(self.groups()).len(),
            forall|a: int|
                0 <= a < self.groups().len() ==> self.effective_groups()[a]
                    == self.groups()[a],
            forall|m: int|
                0 <= m < self.command_tokens().len() - flat_tokens(self.groups()).len()
                    ==> self.effective_groups()[self.groups().len() + m] == seq![
                    #[trigger] self.command_tokens()[flat_tokens(self.groups()).len() + m],
                ],
    {
        let start = flat_tokens(self.groups()).len() as int;
        assert forall|m: int|
            0 <= m < self.command_tokens().len() - start implies self.effective_groups()[
            self.groups().len() + m
        ] == seq![#[trigger] self.command_tokens()[start + m]] by {
            assert(self.command_tokens().skip(start)[m] == self.command_tokens()[start + m]);
        }
    }

    /// Render with the given options in strict mode: every token, the
    /// program name included, must be valid UTF-8. The first invalid token
    /// aborts with a decoding failure and no partial output is returned.
    #[verifier::loop_isolation(false)]
    pub fn printable_invocation_string_with_options(
        &self,
        formatting_options: FormattingOptions,
    ) -> (r: Result<String, Utf8DecodeError>)
        requires
            self.wf(),
        ensures
            r is Ok <==> self.strict_ok(),
            r matches Ok(s) ==> s@ == self.rendered_strict(formatting_options),
    {
        let ghost eff = self.effective_groups();
        let ghost entry_of = |g: Seq<Seq<char>>| group_entry_spec(g, formatting_options);
        let ghost decoded_groups = eff.map_values(
            |g: Seq<Seq<u8>>| g.map_values(|t: Seq<u8>| decode_utf8(t)),
        );
        proof {
            self.lemma_effective_layout();
        }
        let mut print_builder = PrintBuilder::new(formatting_options);
        let program = match decode_token_strict(&self.program) {
            Some(s) => s,
            None => {
                proof {
                    assert(!self.strict_ok());
                }
                return Err(Utf8DecodeError);
            },
        };
        print_builder.add_program_name(program.as_str());
        let ghost program_entry = program_entry_spec(
            decode_utf8(self.program_token()),
            formatting_options,
        );
        proof {
            assert(print_builder.entries() =~= seq![program_entry]);
            assert(decoded_groups.take(0).map_values(entry_of) =~= Seq::<Seq<char>>::empty());
            assert(print_builder.entries() =~= seq![program_entry] + decoded_groups.take(0)
                .map_values(entry_of));
        }
        let mut i: usize = 0;
        while i < self.arg_groups.len()
            invariant
                i <= self.arg_groups.len(),
                print_builder.wf(),
                print_builder.options() == formatting_options,
                print_builder.entries() == seq![program_entry] + decoded_groups.take(
                    i as int,
                ).map_values(entry_of),
                forall|a: int, b: int|
                    0 <= a < i && 0 <= b < eff[a].len() ==> valid_utf8(#[trigger] eff[a][b]),
            decreases self.arg_groups.len() - i,
        {
            let mut decoded: Vec<String> = Vec::new();
            proof {
                assert(decoded.deep_view() =~= self.groups()[i as int].take(0).map_values(
                    |t: Seq<u8>| decode_utf8(t),
                ));
            }
            let mut j: usize = 0;
            while j < self.arg_groups[i].len()
                invariant
                    i < self.arg_groups.len(),
                    j <= self.arg_groups[i as int].len(),
                    decoded.deep_view() == self.groups()[i as int].take(j as int).map_values(
                        |t: Seq<u8>| decode_utf8(t),
                    ),
                    forall|b: int|
                        0 <= b < j ==> valid_utf8(#[trigger] self.groups()[i as int][b]),
                decreases self.arg_groups[i as int].len() - j,
            {
                proof {
                    assert(self.arg_groups@[i as int]@[j as int]@ == self.groups()[i as int][j as int]);
                }
                match decode_token_strict(&self.arg_groups[i][j]) {
                    Some(s) => {
                        let ghost dec_before = decoded.deep_view();
                        let ghost d = decode_utf8(self.groups()[i as int][j as int]);
                        decoded.push(s);
                        proof {
                            assert(decoded.deep_view() =~~= dec_before.push(d));
                            assert(self.groups()[i as int].take(j as int + 1) =~= self.groups()[i as int].take(j as int).push(self.groups()[i as int][j as int]));
                            assert(self.groups()[i as int].take(j as int + 1).map_values(
                                |t: Seq<u8>| decode_utf8(t),
                            ) =~= dec_before.push(d));
                            assert(decoded.deep_view() =~~= self.groups()[i as int].take(
                                j as int + 1,
                            ).map_values(|t: Seq<u8>| decode_utf8(t)));
                        }
                    },
                    None => {
                        proof {
                            assert(eff[i as int] == self.groups()[i as int]);
                            assert(!valid_utf8(self.effective_groups()[i as int][j as int]));
                            assert(!self.strict_ok());
                        }
                        return Err(Utf8DecodeError);
                    },
                }
                j = j + 1;
            }
            print_builder.add_arg_group(&decoded);
            proof {
                assert(self.groups()[i as int].take(self.arg_groups[i as int].len() as int)
                    =~= self.groups()[i as int]);
                assert(eff[i as int] == self.groups()[i as int]);
                assert(decoded.deep_view() =~~= decoded_groups[i as int]);
                assert(decoded_groups.take(i as int + 1) =~= decoded_groups.take(i as int).push(
                    decoded_groups[i as int],
                ));
                assert(decoded_groups.take(i as int + 1).map_values(entry_of)
                    =~= decoded_groups.take(i as int).map_values(entry_of).push(
                    entry_of(decoded_groups[i as int]),
                ));
                assert(print_builder.entries() =~= seq![program_entry] + decoded_groups.take(
                    i as int + 1,
                ).map_values(entry_of));
                assert forall|a: int, b: int|
                    0 <= a < i + 1 && 0 <= b < eff[a].len() implies valid_utf8(
                    #[trigger] eff[a][b],
                ) by {
                    if a == i {
                        assert(valid_utf8(self.groups()[i as int][b]));
                    }
                }
            }
            i = i + 1;
        }
        let start = self.flat_len();
        let ghost glen = self.groups().len();
        let mut k: usize = start;
        while k < self.command_args.len()
            invariant
                start <= k <= self.command_args.len(),
                print_builder.wf(),
                print_builder.options() == formatting_options,
                print_builder.entries() == seq![program_entry] + decoded_groups.take(
                    glen + k - start,
                ).map_values(entry_of),
                forall|a: int, b: int|
                    0 <= a < glen + k - start && 0 <= b < eff[a].len() ==> valid_utf8(
                        #[trigger] eff[a][b],
                    ),
            decreases self.command_args.len() - k,
        {
            let ghost idx = glen + k - start;
            proof {
                assert(self.command_args@[k as int]@ == self.command_tokens()[k as int]);
                assert(eff[idx] == seq![self.command_tokens()[k as int]]);
            }
            match decode_token_strict(&self.command_args[k]) {
                Some(s) => {
                    print_builder.add_single_arg(s.as_str());
                    proof {
                        let d = decode_utf8(self.command_tokens()[k as int]);
                        assert(decoded_groups[idx] =~= seq![d]);
                        assert(seq![d].map_values(
                            |t: Seq<char>| escaped_arglike(t, false, formatting_options),
                        ) =~= seq![escaped_arglike(d, false, formatting_options)]);
                        assert(group_entry_spec(decoded_groups[idx], formatting_options)
                            == escaped_arglike(d, false, formatting_options));
                        assert(decoded_groups.take(idx + 1) =~= decoded_groups.take(idx).push(
                            decoded_groups[idx],
                        ));
                        assert(decoded_groups.take(idx + 1).map_values(entry_of)
                            =~= decoded_groups.take(idx).map_values(entry_of).push(
                            entry_of(decoded_groups[idx]),
                        ));
                        assert(print_builder.entries() =~= seq![program_entry]
                            + decoded_groups.take(idx + 1).map_values(entry_of));
                        assert forall|a: int, b: int|
                            0 <= a < idx + 1 && 0 <= b < eff[a].len() implies valid_utf8(
                            #[trigger] eff[a][b],
                        ) by {
                            if a == idx {
                                assert(eff[a][b] == self.command_tokens()[k as int]);
                            }
                        }
                    }
                },
                None => {
                    proof {
                        assert(!valid_utf8(self.effective_groups()[idx][0]));
                        assert(!self.strict_ok());
                    }
                    return Err(Utf8DecodeError);
                },
            }
            k = k + 1;
        }
        let out = print_builder.get();
        proof {
            assert(glen + self.command_args.len() - start == eff.len());
            assert(decoded_groups.take(eff.len() as int) =~= decoded_groups);
            assert(decoded_groups.map_values(entry_of) =~= decoded_groups.map_values(
                |g: Seq<Seq<char>>| group_entry_spec(g, formatting_options),
            ));
            assert(out@ == self.rendered_strict(formatting_options));
            assert(self.strict_ok());
        }
        Ok(out)
    }

    /// Render with the given options in lossy mode: invalid byte sequences
    /// in any token are replaced, so rendering always succeeds. When every
    /// token is valid UTF-8 the result equals the strict rendering.
    #[verifier::loop_isolation(false)]
    pub fn printable_invocation_string_lossy_with_options(
        &self,
        formatting_options: FormattingOptions,
    ) -> (r: String)
        requires
            self.wf(),
        ensures
            r@ == self.rendered_lossy(formatting_options),
            self.strict_ok() ==> r@ == self.rendered_strict(formatting_options),
    {
        let ghost eff = self.effective_groups();
        let ghost entry_of = |g: Seq<Seq<char>>| group_entry_spec(g, formatting_options);
        let ghost lossy_groups = eff.map_values(
            |g: Seq<Seq<u8>>| g.map_values(|t: Seq<u8>| lossy_decoded(t)),
        );
        let ghost strict_groups = eff.map_values(
            |g: Seq<Seq<u8>>| g.map_values(|t: Seq<u8>| decode_utf8(t)),
        );
        proof {
            self.lemma_effective_layout();
        }
        let mut print_builder = PrintBuilder::new(formatting_options);
        let program = decode_token_lossy(&self.program);
        print_builder.add_program_name(program.as_str());
        let ghost lossy_entry = program_entry_spec(
            lossy_decoded(self.program_token()),
            formatting_options,
        );
        let ghost strict_entry = program_entry_spec(
            decode_utf8(self.program_token()),
            formatting_options,
        );
        proof {
            assert(print_builder.entries() =~= seq![lossy_entry]);
            assert(lossy_groups.take(0).map_values(entry_of) =~= Seq::<Seq<char>>::empty());
            assert(print_builder.entries() =~= seq![lossy_entry] + lossy_groups.take(0)
                .map_values(entry_of));
            if self.strict_ok() {
                assert(lossy_entry == strict_entry);
            }
        }
        let mut i: usize = 0;
        while i < self.arg_groups.len()
            invariant
                i <= self.arg_groups.len(),
                print_builder.wf(),
                print_builder.options() == formatting_options,
                print_builder.entries() == seq![lossy_entry] + lossy_groups.take(
                    i as int,
                ).map_values(entry_of),
                self.strict_ok() ==> print_builder.entries() == seq![strict_entry]
                    + strict_groups.take(i as int).map_values(entry_of),
            decreases self.arg_groups.len() - i,
        {
            let mut decoded: Vec<String> = Vec::new();
            proof {
                assert(decoded.deep_view() =~= self.groups()[i as int].take(0).map_values(
                    |t: Seq<u8>| lossy_decoded(t),
                ));
                assert(decoded.deep_view() =~= self.groups()[i as int].take(0).map_values(
                    |t: Seq<u8>| decode_utf8(t),
                ));
            }
            let mut j: usize = 0;
            while j < self.arg_groups[i].len()
                invariant
                    i < self.arg_groups.len(),
                    j <= self.arg_groups[i as int].len(),
                    decoded.deep_view() == self.groups()[i as int].take(j as int).map_values(
                        |t: Seq<u8>| lossy_decoded(t),
                    ),
                    self.strict_ok() ==> decoded.deep_view() == self.groups()[i as int].take(
                        j as int,
                    ).map_values(|t: Seq<u8>| decode_utf8(t)),
                decreases self.arg_groups[i as int].len() - j,
            {
                proof {
                    assert(self.arg_groups@[i as int]@[j as int]@ == self.groups()[i as int][j as int]);
                    assert(eff[i as int] == self.groups()[i as int]);
                }
                let s = decode_token_lossy(&self.arg_groups[i][j]);
                let ghost dec_before = decoded.deep_view();
                let ghost dl = lossy_decoded(self.groups()[i as int][j as int]);
                decoded.push(s);
                proof {
                    assert(decoded.deep_view() =~~= dec_before.push(dl));
                    assert(self.groups()[i as int].take(j as int + 1) =~= self.groups()[i as int].take(j as int).push(self.groups()[i as int][j as int]));
                    assert(self.groups()[i as int].take(j as int + 1).map_values(
                        |t: Seq<u8>| lossy_decoded(t),
                    ) =~= dec_before.push(dl));
                    assert(decoded.deep_view() =~~= self.groups()[i as int].take(
                        j as int + 1,
                    ).map_values(|t: Seq<u8>| lossy_decoded(t)));
                    if self.strict_ok() {
                        assert(valid_utf8(eff[i as int][j as int]));
                        assert(dl == decode_utf8(self.groups()[i as int][j as int]));
                        assert(self.groups()[i as int].take(j as int + 1).map_values(
                            |t: Seq<u8>| decode_utf8(t),
                        ) =~= dec_before.push(dl));
                        assert(decoded.deep_view() =~~= self.groups()[i as int].take(
                            j as int + 1,
                        ).map_values(|t: Seq<u8>| decode_utf8(t)));
                    }
                }
                j = j + 1;
            }
            print_builder.add_arg_group(&decoded);
            proof {
                assert(self.groups()[i as int].take(self.arg_groups[i as int].len() as int)
                    =~= self.groups()[i as int]);
                assert(eff[i as int] == self.groups()[i as int]);
                assert(decoded.deep_view() =~~= lossy_groups[i as int]);
                assert(lossy_groups.take(i as int + 1) =~= lossy_groups.take(i as int).push(
                    lossy_groups[i as int],
                ));
                assert(lossy_groups.take(i as int + 1).map_values(entry_of) =~= lossy_groups.take(
                    i as int,
                ).map_values(entry_of).push(entry_of(lossy_groups[i as int])));
                assert(print_builder.entries() =~= seq![lossy_entry] + lossy_groups.take(
                    i as int + 1,
                ).map_values(entry_of));
                if self.strict_ok() {
                    assert(decoded.deep_view() =~~= strict_groups[i as int]);
                    assert(strict_groups.take(i as int + 1) =~= strict_groups.take(
                        i as int,
                    ).push(strict_groups[i as int]));
                    assert(strict_groups.take(i as int + 1).map_values(entry_of)
                        =~= strict_groups.take(i as int).map_values(entry_of).push(
                        entry_of(strict_groups[i as int]),
                    ));
                    assert(print_builder.entries() =~= seq![strict_entry] + strict_groups.take(
                        i as int + 1,
                    ).map_values(entry_of));
                }
            }
            i = i + 1;
        }
        let start = self.flat_len();
        let ghost glen = self.groups().len();
        let mut k: usize = start;
        while k < self.command_args.len()
            invariant
                start <= k <= self.command_args.len(),
                print_builder.wf(),
                print_builder.options() == formatting_options,
                print_builder.entries() == seq![lossy_entry] + lossy_groups.take(
                    glen + k - start,
                ).map_values(entry_of),
                self.strict_ok() ==> print_builder.entries() == seq![strict_entry]
                    + strict_groups.take(glen + k - start).map_values(entry_of),
            decreases self.command_args.len() - k,
        {
            let ghost idx = glen + k - start;
            proof {
                assert(self.command_args@[k as int]@ == self.command_tokens()[k as int]);
                assert(eff[idx] == seq![self.command_tokens()[k as int]]);
            }
            let s = decode_token_lossy(&self.command_args[k]);
            print_builder.add_single_arg(s.as_str());
            proof {
                let tok = self.command_tokens()[k as int];
                let dl = lossy_decoded(tok);
                assert(lossy_groups[idx] =~= seq![dl]);
                assert(seq![dl].map_values(
                    |t: Seq<char>| escaped_arglike(t, false, formatting_options),
                ) =~= seq![escaped_arglike(dl, false, formatting_options)]);
                assert(group_entry_spec(lossy_groups[idx], formatting_options)
                    == escaped_arglike(dl, false, formatting_options));
                assert(lossy_groups.take(idx + 1) =~= lossy_groups.take(idx).push(
                    lossy_groups[idx],
                ));
                assert(lossy_groups.take(idx + 1).map_values(entry_of) =~= lossy_groups.take(
                    idx,
                ).map_values(entry_of).push(entry_of(lossy_groups[idx])));
                assert(print_builder.entries() =~= seq![lossy_entry] + lossy_groups.take(
                    idx + 1,
                ).map_values(entry_of));
                if self.strict_ok() {
                    assert(valid_utf8(eff[idx][0]));
                    let ds = decode_utf8(tok);
                    assert(dl == ds);
                    assert(strict_groups[idx] =~= seq![ds]);
                    assert(seq![ds].map_values(
                        |t: Seq<char>| escaped_arglike(t, false, formatting_options),
                    ) =~= seq![escaped_arglike(ds, false, formatting_options)]);
                    assert(group_entry_spec(strict_groups[idx], formatting_options)
                        == escaped_arglike(ds, false, formatting_options));
                    assert(strict_groups.take(idx + 1) =~= strict_groups.take(idx).push(
                        strict_groups[idx],
                    ));
                    assert(strict_groups.take(idx + 1).map_values(entry_of)
                        =~= strict_groups.take(idx).map_values(entry_of).push(
                        entry_of(strict_groups[idx]),
                    ));
                    assert(print_builder.entries() =~= seq![strict_entry] + strict_groups.take(
                        idx + 1,
                    ).map_values(entry_of));
                }
            }
            k = k + 1;
        }
        let out = print_builder.get();
        proof {
            assert(glen + self.command_args.len() - start == eff.len());
            assert(lossy_groups.take(eff.len() as int) =~= lossy_groups);
            assert(lossy_groups.map_values(entry_of) =~= lossy_groups.map_values(
                |g: Seq<Seq<char>>| group_entry_spec(g, formatting_options),
            ));
            assert(out@ == self.rendered_lossy(formatting_options));
            if self.strict_ok() {
                assert(strict_groups.take(eff.len() as int) =~= strict_groups);
                assert(strict_groups.map_values(entry_of) =~= strict_groups.map_values(
                    |g: Seq<Seq<char>>| group_entry_spec(g, formatting_options),
                ));
                assert(out@ == self.rendered_strict(formatting_options));
            }
        }
        out
    }

    /// Render in strict mode under the default options.
    pub fn printable_invocation_string(&self) -> (r: Result<String, Utf8DecodeError>)
        requires
            self.wf(),
        ensures
            r is Ok <==> self.strict_ok(),
            r matches Ok(s) ==> s@ == self.rendered_strict(spec_default_options()),
    {
        self.printable_invocation_string_with_options(FormattingOptions::default())
    }

    /// Render in lossy mode under the default options.
    pub fn printable_invocation_string_lossy(&self) -> (r: String)
        requires
            self.wf(),
        ensures
            r@ == self.rendered_lossy(spec_default_options()),
            self.strict_ok() ==> r@ == self.rendered_strict(spec_default_options()),
    {
        self.printable_invocation_string_lossy_with_options(FormattingOptions::default())
    }
}

impl ShellPrintable for PrintableShellCommand {
    open spec fn printable_wf(&self) -> bool {
        self.wf()
    }

    open spec fn printable_strict_ok(&self) -> bool {
        self.strict_ok()
    }

    open spec fn strict_rendering(&self) -> Seq<char> {
        self.rendered_strict(spec_default_options())
    }

    open spec fn lossy_rendering(&self) -> Seq<char> {
        self.rendered_lossy(spec_default_options())
    }

    fn printable_invocation_string(&self) -> Result<String, Utf8DecodeError> {
        PrintableShellCommand::printable_invocation_string(self)
    }

    fn printable_invocation_string_lossy(&self) -> String {
        PrintableShellCommand::printable_invocation_string_lossy(self)
    }
}

impl ShellPrintableWithOptions for PrintableShellCommand {
    open spec fn printable_opts_wf(&self) -> bool {
        self.wf()
    }

    open spec fn printable_opts_strict_ok(&self) -> bool {
        self.strict_ok()
    }

    open spec fn strict_rendering_with(&self, options: FormattingOptions) -> Seq<char> {
        self.rendered_strict(options)
    }

    open spec fn lossy_rendering_with(&self, options: FormattingOptions) -> Seq<char> {
        self.rendered_lossy(options)
    }

    fn printable_invocation_string_with_options(
        &self,
        formatting_options: FormattingOptions,
    ) -> Result<String, Utf8DecodeError> {
        PrintableShellCommand::printable_invocation_string_with_options(self, formatting_options)
    }

    fn printable_invocation_string_lossy_with_options(
        &self,
        formatting_options: FormattingOptions,
    ) -> String {
        PrintableShellCommand::printable_invocation_string_lossy_with_options(
            self,
            formatting_options,
        )
    }
}

} // verus!
