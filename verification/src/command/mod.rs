//! Shell commands and their results.

pub mod dispatch;
pub mod providers;

use vstd::prelude::*;
use self::dispatch::Served;
use self::dispatch::Step;
use self::dispatch::StepView;
use self::providers::Nix;
use self::providers::NixRemoteProvider;
use self::providers::NixRemoteProviderView;
use self::providers::nix;
use crate::errors::Error;
use crate::host::Host;
use crate::wire;

verus! {

/// The shell that runs a command where the caller names none.
pub open spec fn default_shell() -> Seq<Seq<char>> {
    seq!["/bin/sh"@, "-c"@]
}

/// What a `Command` holds.
pub struct CommandView {
    /// The interpreter, then the flags that go before the command.
    pub shell: Seq<Seq<char>>,
    /// The command's tokens.
    pub cmd: Seq<Seq<char>>,
}

impl CommandView {
    /// What `Command::new` builds from tokens and an optional shell.
    pub open spec fn new(cmd: Seq<Seq<char>>, shell: Option<Seq<Seq<char>>>) -> CommandView {
        CommandView {
            shell: match shell {
                Some(s) => s,
                None => default_shell(),
            },
            cmd,
        }
    }

    /// Whether the command can be written to the wire.
    pub open spec fn fits(self) -> bool {
        wire::texts_fit(self.shell) && wire::texts_fit(self.cmd)
    }

    /// The command on the wire: the shell's tokens, then the command's.
    pub open spec fn bytes(self) -> Seq<u8> {
        wire::texts(self.shell) + wire::texts(self.cmd)
    }
}

/// Bytes start with at most one command.
pub proof fn lemma_command_unique(a: CommandView, ra: Seq<u8>, b: CommandView, rb: Seq<u8>)
    requires
        a.fits(),
        b.fits(),
        a.bytes() + ra == b.bytes() + rb,
    ensures
        a == b,
        ra == rb,
{
    assert(a.bytes() + ra =~= wire::texts(a.shell) + (wire::texts(a.cmd) + ra));
    assert(b.bytes() + rb =~= wire::texts(b.shell) + (wire::texts(b.cmd) + rb));
    wire::lemma_texts_unique(a.shell, wire::texts(a.cmd) + ra, b.shell, wire::texts(b.cmd) + rb);
    wire::lemma_texts_unique(a.cmd, ra, b.cmd, rb);
}

/// A shell invocation: the shell with its flags, and the command to hand
/// to it. It names no host and can be run against any number of them.
#[derive(Debug, PartialEq, Eq)]
pub struct Command {
    shell: Vec<String>,
    cmd: Vec<String>,
}

impl View for Command {
    type V = CommandView;

    closed spec fn view(&self) -> CommandView {
        CommandView { shell: self.shell.deep_view(), cmd: self.cmd.deep_view() }
    }
}

/// Copies tokens into strings of their own.
fn owned(tokens: &[&str]) -> (v: Vec<String>)
    ensures
        v.deep_view() == tokens.deep_view(),
{
    let mut v: Vec<String> = Vec::new();
    let mut i: usize = 0;
    while i < tokens.len()
        invariant
            i <= tokens.len(),
            v.len() == i,
            forall|j: int| 0 <= j < i ==> v[j]@ == tokens[j]@,
        decreases tokens.len() - i,
    {
        v.push(tokens[i].to_string());
        i += 1;
    }
    assert(v.deep_view() =~= tokens.deep_view());
    v
}

/// Lends the strings of `v` as tokens.
fn lent<'a>(v: &'a Vec<String>) -> (tokens: Vec<&'a str>)
    ensures
        tokens.deep_view() == v.deep_view(),
{
    let mut tokens: Vec<&'a str> = Vec::new();
    let mut i: usize = 0;
    while i < v.len()
        invariant
            i <= v.len(),
            tokens.len() == i,
            forall|j: int| 0 <= j < i ==> tokens[j]@ == v[j]@,
        decreases v.len() - i,
    {
        tokens.push(v[i].as_str());
        i += 1;
    }
    assert(tokens.deep_view() =~= v.deep_view());
    tokens
}

impl Clone for Command {
    fn clone(&self) -> (copy: Command)
        ensures
            copy@ == self@,
    {
        let copy = Command { shell: self.shell.clone(), cmd: self.cmd.clone() };
        assert(copy.shell.deep_view() =~= self.shell.deep_view());
        assert(copy.cmd.deep_view() =~= self.cmd.deep_view());
        copy
    }
}

impl Command {
    /// The command made of `cmd`, to be run by `shell`, or by `/bin/sh -c`
    /// where no shell is given. An empty shell is accepted here and
    /// refused when the command is to be run.
    pub fn new(cmd: &[&str], shell: Option<&[&str]>) -> (command: Command)
        ensures
            command@ == CommandView::new(
                cmd.deep_view(),
                match shell {
                    Some(s) => Some(s.deep_view()),
                    None => None,
                },
            ),
    {
        let shell = match shell {
            Some(s) => owned(s),
            None => {
                let v = vec!["/bin/sh".to_string(), "-c".to_string()];
                assert(v.deep_view() =~= default_shell());
                v
            },
        };
        Command { shell, cmd: owned(cmd) }
    }

    /// The interpreter and its flags.
    pub fn shell(&self) -> (shell: &Vec<String>)
        ensures
            shell.deep_view() == self@.shell,
    {
        &self.shell
    }

    /// The command's tokens.
    pub fn cmd(&self) -> (cmd: &Vec<String>)
        ensures
            cmd.deep_view() == self@.cmd,
    {
        &self.cmd
    }

    /// Appends the command as it stands on the wire.
    pub fn put(&self, out: &mut Vec<u8>)
        ensures
            final(out)@ == old(out)@ + self@.bytes(),
            self@.fits(),
    {
        wire::put_texts(out, self.shell.as_slice());
        wire::put_texts(out, self.cmd.as_slice());
        assert(out@ =~= old(out)@ + self@.bytes());
    }

    /// Reads a command at `pos`, and says where the next field starts.
    /// Succeeds exactly where two lists of strings stand, one behind the
    /// other.
    pub fn take(bytes: &[u8], pos: usize) -> (r: Option<(Command, usize)>)
        ensures
            match r {
                Some((c, next)) => {
                    &&& pos <= next <= bytes@.len()
                    &&& c@.fits()
                    &&& bytes@.skip(pos as int) == c@.bytes() + bytes@.skip(next as int)
                },
                None => pos <= bytes@.len() ==> (forall|c: CommandView, rest: Seq<u8>|
                    c.fits() ==> #[trigger] (c.bytes() + rest) != bytes@.skip(pos as int)),
            },
    {
        if pos > bytes.len() {
            return None;
        }
        let ghost input = bytes@.skip(pos as int);
        let (shell, mid) = match wire::take_texts(bytes, pos) {
            None => {
                proof {
                    assert forall|c: CommandView, rest: Seq<u8>| c.fits() implies #[trigger] (
                    c.bytes() + rest) != input by {
                        assert(c.bytes() + rest =~= wire::texts(c.shell) + (wire::texts(c.cmd)
                            + rest));
                    }
                }
                return None;
            },
            Some(found) => found,
        };
        let (cmd, next) = match wire::take_texts(bytes, mid) {
            None => {
                proof {
                    assert forall|c: CommandView, rest: Seq<u8>| c.fits() implies #[trigger] (
                    c.bytes() + rest) != input by {
                        if c.bytes() + rest == input {
                            assert(c.bytes() + rest =~= wire::texts(c.shell) + (wire::texts(c.cmd)
                                + rest));
                            wire::lemma_texts_unique(
                                c.shell,
                                wire::texts(c.cmd) + rest,
                                shell.deep_view(),
                                bytes@.skip(mid as int),
                            );
                        }
                    }
                }
                return None;
            },
            Some(found) => found,
        };
        let c = Command { shell, cmd };
        proof {
            assert(input =~= c@.bytes() + bytes@.skip(next as int));
        }
        Some((c, next))
    }
}

/// What a `CommandResult` holds.
pub struct CommandResultView {
    /// Whether the process exited with status 0.
    pub success: bool,
    /// The exit status; none where a signal ended the process.
    pub exit_code: Option<i32>,
    /// What the process wrote to its standard output, byte for byte.
    pub stdout: Seq<u8>,
    /// What the process wrote to its standard error, byte for byte.
    pub stderr: Seq<u8>,
}

impl CommandResultView {
    /// The result of a process that ended with `exit_code` and wrote
    /// `stdout` and `stderr`.
    pub open spec fn of(exit_code: Option<i32>, stdout: Seq<u8>, stderr: Seq<u8>) -> Self {
        CommandResultView { success: exit_code == Some(0i32), exit_code, stdout, stderr }
    }

    /// `success` is not a fact of its own: it says that the exit status
    /// is 0.
    pub open spec fn consistent(self) -> bool {
        self.success == (self.exit_code == Some(0i32))
    }

    /// Whether this is a result that can be written to the wire.
    pub open spec fn fits(self) -> bool {
        &&& self.consistent()
        &&& wire::fits(self.stdout.len())
        &&& wire::fits(self.stderr.len())
    }

    /// The result on the wire: the success flag, the exit code, the two
    /// outputs.
    pub open spec fn bytes(self) -> Seq<u8> {
        wire::flag(self.success) + (wire::code(self.exit_code) + (wire::blob(self.stdout)
            + wire::blob(self.stderr)))
    }

    /// The result that `bytes` are the wire form of, if they are that of
    /// any.
    pub open spec fn parse(bytes: Seq<u8>) -> Option<Self> {
        if exists|v: Self| v.fits() && v.bytes() == bytes {
            Some(choose|v: Self| v.fits() && v.bytes() == bytes)
        } else {
            None
        }
    }
}

/// Bytes start with at most one result.
pub proof fn lemma_result_unique(
    a: CommandResultView,
    ra: Seq<u8>,
    b: CommandResultView,
    rb: Seq<u8>,
)
    requires
        a.fits(),
        b.fits(),
        a.bytes() + ra == b.bytes() + rb,
    ensures
        a == b,
        ra == rb,
{
    let a3 = wire::blob(a.stderr) + ra;
    let a2 = wire::blob(a.stdout) + a3;
    let a1 = wire::code(a.exit_code) + a2;
    let b3 = wire::blob(b.stderr) + rb;
    let b2 = wire::blob(b.stdout) + b3;
    let b1 = wire::code(b.exit_code) + b2;
    assert(a.bytes() + ra =~= wire::flag(a.success) + a1);
    assert(b.bytes() + rb =~= wire::flag(b.success) + b1);
    wire::lemma_flag_unique(a.success, a1, b.success, b1);
    wire::lemma_code_unique(a.exit_code, a2, b.exit_code, b2);
    wire::lemma_blob_unique(a.stdout, a3, b.stdout, b3);
    wire::lemma_blob_unique(a.stderr, ra, b.stderr, rb);
}

/// Reading back what was written gives the result that was written.
pub proof fn lemma_result_round_trip(v: CommandResultView)
    requires
        v.fits(),
    ensures
        CommandResultView::parse(v.bytes()) == Some(v),
{
    let found = choose|w: CommandResultView| w.fits() && w.bytes() == v.bytes();
    assert(found.bytes() + Seq::<u8>::empty() =~= v.bytes() + Seq::<u8>::empty());
    lemma_result_unique(found, Seq::empty(), v, Seq::empty());
}

/// What is read from bytes is a well-formed result, and the bytes are
/// its wire form.
pub proof fn lemma_result_parsed(bytes: Seq<u8>)
    ensures
        CommandResultView::parse(bytes) matches Some(v) ==> v.fits() && v.bytes() == bytes,
{
}

/// The outcome of one run of a command. Built once, never changed.
#[derive(Debug, PartialEq, Eq)]
pub struct CommandResult {
    success: bool,
    exit_code: Option<i32>,
    stdout: Vec<u8>,
    stderr: Vec<u8>,
}

impl View for CommandResult {
    type V = CommandResultView;

    closed spec fn view(&self) -> CommandResultView {
        CommandResultView {
            success: self.success,
            exit_code: self.exit_code,
            stdout: self.stdout@,
            stderr: self.stderr@,
        }
    }
}

impl Clone for CommandResult {
    fn clone(&self) -> (copy: CommandResult)
        ensures
            copy@ == self@,
    {
        proof {
            use_type_invariant(self);
        }
        let copy = CommandResult {
            success: self.success,
            exit_code: self.exit_code,
            stdout: self.stdout.clone(),
            stderr: self.stderr.clone(),
        };
        assert(copy.stdout@ =~= self.stdout@);
        assert(copy.stderr@ =~= self.stderr@);
        copy
    }
}

impl CommandResult {
    #[verifier::type_invariant]
    spec fn derived(self) -> bool {
        self.success == (self.exit_code == Some(0i32))
    }

    /// The result of a process that ended with `exit_code` (none where a
    /// signal ended it) and wrote `stdout` and `stderr`.
    pub fn new(exit_code: Option<i32>, stdout: Vec<u8>, stderr: Vec<u8>) -> (result: CommandResult)
        ensures
            result@ == CommandResultView::of(exit_code, stdout@, stderr@),
    {
        let success = match exit_code {
            Some(status) => status == 0,
            None => false,
        };
        CommandResult { success, exit_code, stdout, stderr }
    }

    /// Whether the process exited with status 0.
    pub fn success(&self) -> (success: bool)
        ensures
            success == self@.success,
            self@.consistent(),
    {
        proof {
            use_type_invariant(self);
        }
        self.success
    }

    /// The exit status; none where a signal ended the process.
    pub fn exit_code(&self) -> (exit_code: Option<i32>)
        ensures
            exit_code == self@.exit_code,
    {
        self.exit_code
    }

    /// What the process wrote to its standard output.
    pub fn stdout(&self) -> (stdout: &Vec<u8>)
        ensures
            stdout@ == self@.stdout,
    {
        &self.stdout
    }

    /// What the process wrote to its standard error.
    pub fn stderr(&self) -> (stderr: &Vec<u8>)
        ensures
            stderr@ == self@.stderr,
    {
        &self.stderr
    }

    /// The result as it stands on the wire.
    pub fn encode(&self) -> (bytes: Vec<u8>)
        ensures
            bytes@ == self@.bytes(),
            self@.fits(),
    {
        proof {
            use_type_invariant(self);
        }
        let mut out: Vec<u8> = Vec::new();
        wire::put_flag(&mut out, self.success);
        wire::put_code(&mut out, self.exit_code);
        wire::put_blob(&mut out, self.stdout.as_slice());
        wire::put_blob(&mut out, self.stderr.as_slice());
        assert(out@ =~= self@.bytes());
        out
    }

    /// Reads a result at `pos`. Succeeds exactly where the four fields
    /// stand one behind the other and the flag agrees with the exit code.
    fn take(bytes: &[u8], pos: usize) -> (r: Option<(CommandResult, usize)>)
        ensures
            match r {
                Some((x, next)) => {
                    &&& pos <= next <= bytes@.len()
                    &&& x@.fits()
                    &&& bytes@.skip(pos as int) == x@.bytes() + bytes@.skip(next as int)
                },
                None => pos <= bytes@.len() ==> (forall|v: CommandResultView, rest: Seq<u8>|
                    v.fits() ==> #[trigger] (v.bytes() + rest) != bytes@.skip(pos as int)),
            },
    {
        if pos > bytes.len() {
            return None;
        }
        let ghost input = bytes@.skip(pos as int);
        let ghost tail3 = |v: CommandResultView, rest: Seq<u8>| wire::blob(v.stderr) + rest;
        let ghost tail2 = |v: CommandResultView, rest: Seq<u8>|
            wire::blob(v.stdout) + tail3(v, rest);
        let ghost tail1 = |v: CommandResultView, rest: Seq<u8>|
            wire::code(v.exit_code) + tail2(v, rest);
        proof {
            assert forall|v: CommandResultView, rest: Seq<u8>| #[trigger]
                (v.bytes() + rest) == wire::flag(v.success) + tail1(v, rest) by {
                assert(v.bytes() + rest =~= wire::flag(v.success) + tail1(v, rest));
            }
        }
        let (success, after_flag) = match wire::take_flag(bytes, pos) {
            None => {
                return None;
            },
            Some(found) => found,
        };
        let (exit_code, after_code) = match wire::take_code(bytes, after_flag) {
            None => {
                proof {
                    assert forall|v: CommandResultView, rest: Seq<u8>| v.fits() implies #[trigger] (
                    v.bytes() + rest) != input by {
                        if v.bytes() + rest == input {
                            wire::lemma_flag_unique(
                                v.success,
                                tail1(v, rest),
                                success,
                                bytes@.skip(after_flag as int),
                            );
                        }
                    }
                }
                return None;
            },
            Some(found) => found,
        };
        let (stdout, after_stdout) = match wire::take_blob(bytes, after_code) {
            None => {
                proof {
                    assert forall|v: CommandResultView, rest: Seq<u8>| v.fits() implies #[trigger] (
                    v.bytes() + rest) != input by {
                        if v.bytes() + rest == input {
                            wire::lemma_flag_unique(
                                v.success,
                                tail1(v, rest),
                                success,
                                bytes@.skip(after_flag as int),
                            );
                            wire::lemma_code_unique(
                                v.exit_code,
                                tail2(v, rest),
                                exit_code,
                                bytes@.skip(after_code as int),
                            );
                        }
                    }
                }
                return None;
            },
            Some(found) => found,
        };
        let (stderr, end) = match wire::take_blob(bytes, after_stdout) {
            None => {
                proof {
                    assert forall|v: CommandResultView, rest: Seq<u8>| v.fits() implies #[trigger] (
                    v.bytes() + rest) != input by {
                        if v.bytes() + rest == input {
                            wire::lemma_flag_unique(
                                v.success,
                                tail1(v, rest),
                                success,
                                bytes@.skip(after_flag as int),
                            );
                            wire::lemma_code_unique(
                                v.exit_code,
                                tail2(v, rest),
                                exit_code,
                                bytes@.skip(after_code as int),
                            );
                            wire::lemma_blob_unique(
                                v.stdout,
                                tail3(v, rest),
                                stdout@,
                                bytes@.skip(after_stdout as int),
                            );
                        }
                    }
                }
                return None;
            },
            Some(found) => found,
        };
        let agrees = match exit_code {
            Some(status) => success == (status == 0),
            None => !success,
        };
        if !agrees {
            proof {
                assert forall|v: CommandResultView, rest: Seq<u8>| v.fits() implies #[trigger] (
                v.bytes() + rest) != input by {
                    if v.bytes() + rest == input {
                        wire::lemma_flag_unique(
                            v.success,
                            tail1(v, rest),
                            success,
                            bytes@.skip(after_flag as int),
                        );
                        wire::lemma_code_unique(
                            v.exit_code,
                            tail2(v, rest),
                            exit_code,
                            bytes@.skip(after_code as int),
                        );
                    }
                }
            }
            return None;
        }
        let x = CommandResult { success, exit_code, stdout, stderr };
        proof {
            assert(input =~= x@.bytes() + bytes@.skip(end as int));
        }
        Some((x, end))
    }

    /// Reads a result from its wire form: the result that `bytes` encode,
    /// or nothing where they encode none.
    pub fn decode(bytes: &[u8]) -> (r: Option<CommandResult>)
        ensures
            match r {
                Some(x) => CommandResultView::parse(bytes@) == Some(x@),
                None => CommandResultView::parse(bytes@) is None,
            },
    {
        proof {
            assert(bytes@.skip(0) =~= bytes@);
        }
        match CommandResult::take(bytes, 0) {
            None => {
                proof {
                    assert forall|v: CommandResultView| v.fits() implies v.bytes() != bytes@ by {
                        assert(v.bytes() + Seq::<u8>::empty() =~= v.bytes());
                    }
                }
                None
            },
            Some((x, next)) => {
                if next != bytes.len() {
                    proof {
                        assert forall|v: CommandResultView| v.fits() implies v.bytes()
                            != bytes@ by {
                            if v.bytes() == bytes@ {
                                assert(v.bytes() + Seq::<u8>::empty() =~= v.bytes());
                                lemma_result_unique(
                                    v,
                                    Seq::empty(),
                                    x@,
                                    bytes@.skip(next as int),
                                );
                            }
                        }
                    }
                    return None;
                }
                proof {
                    assert(x@.bytes() + bytes@.skip(next as int) =~= x@.bytes());
                    lemma_result_round_trip(x@);
                }
                Some(x)
            },
        }
    }
}

/// What a backend must offer so that commands can be dispatched through
/// it.
pub trait CommandProvider<'a>: Sized {
    /// The host that this handle is bound to.
    spec fn host(&self) -> Host;

    /// The command that this handle owns.
    spec fn command(&self) -> CommandView;

    /// Whether the backend serves `host`.
    spec fn serves(host: Host) -> bool;

    /// The first step of running `command` on `host` with this backend.
    spec fn first_step(host: Host, command: CommandView) -> StepView;

    /// Whether the backend serves `host`. Changes nothing, and gives the
    /// same answer for the same host.
    fn available(host: &Host) -> (available: bool)
        ensures
            available == Self::serves(*host),
    ;

    /// A handle that binds the command to `host`, where the backend
    /// serves the host, and nothing where it does not. The shell is
    /// `/bin/sh -c` where none is given.
    fn try_new(host: &'a Host, cmd: &[&str], shell: Option<&[&str]>) -> (handle: Option<Self>)
        ensures
            handle is Some <==> Self::serves(*host),
            handle matches Some(p) ==> p.host() == *host && p.command() == CommandView::new(
                cmd.deep_view(),
                match shell {
                    Some(s) => Some(s.deep_view()),
                    None => None,
                },
            ),
    ;

    /// The first step of this handle's one run of its command.
    fn exec(&self) -> (step: Step)
        ensures
            step@ == Self::first_step(self.host(), self.command()),
    ;
}

/// A handle of one of the known backends.
pub enum Provider<'a> {
    Nix(Nix<'a>),
}

impl<'a> Provider<'a> {
    /// The host that this handle is bound to.
    pub open spec fn host(&self) -> Host {
        match self {
            Provider::Nix(p) => p.host(),
        }
    }

    /// The command that this handle owns.
    pub open spec fn command(&self) -> CommandView {
        match self {
            Provider::Nix(p) => p.command(),
        }
    }

    /// The first step of this handle's one run of its command.
    pub fn exec(&self) -> (step: Step)
        ensures
            step@ == (match self {
                Provider::Nix(p) => nix::first_step(p.host(), p.command()),
            }),
    {
        match self {
            Provider::Nix(p) => p.exec(),
        }
    }
}

/// Whether `r` is what `factory` gives for `host` and `command`: a handle
/// of the first backend that serves the host, bound to both, or
/// `ProviderUnavailable("Command")` where no backend serves it.
pub open spec fn made_for<'a>(
    r: Result<Provider<'a>, Error>,
    host: Host,
    command: CommandView,
) -> bool {
    match r {
        Ok(p) => {
            &&& nix::serves(host)
            &&& p is Nix
            &&& p.host() == host
            &&& p.command() == command
        },
        Err(e) => !nix::serves(host) && e == Error::ProviderUnavailable("Command"),
    }
}

/// Two handles for one host never disagree on whether the host can be
/// served: for the same host `factory` either gives a handle each time or
/// fails each time, whatever the commands are.
pub proof fn lemma_factory_agrees<'a>(
    host: Host,
    a: Result<Provider<'a>, Error>,
    first: CommandView,
    b: Result<Provider<'a>, Error>,
    second: CommandView,
)
    requires
        made_for(a, host, first),
        made_for(b, host, second),
    ensures
        a is Ok <==> b is Ok,
        a is Ok <==> nix::serves(host),
        match (a, b) {
            (Ok(p), Ok(q)) => p.host() == q.host(),
            (Err(e), Err(f)) => e == f,
            _ => false,
        },
{
}

/// The handle of the first backend that serves `host`, bound to the
/// command, or `ProviderUnavailable("Command")` where no backend does.
pub fn factory<'a>(host: &'a Host, cmd: &[&str], shell: Option<&[&str]>) -> (r: Result<
    Provider<'a>,
    Error,
>)
    ensures
        made_for(
            r,
            *host,
            CommandView::new(
                cmd.deep_view(),
                match shell {
                    Some(s) => Some(s.deep_view()),
                    None => None,
                },
            ),
        ),
{
    if let Some(p) = Nix::try_new(host, cmd, shell) {
        Ok(Provider::Nix(p))
    } else {
        Err(Error::ProviderUnavailable("Command"))
    }
}

impl Command {
    /// The first step of running this command on `host`: the handle that
    /// `factory` gives is asked for its step, and where there is no
    /// handle the dispatch ends at once.
    pub fn exec(&self, host: &Host) -> (step: Step)
        ensures
            step@ == dispatch::execute(*host, self@),
    {
        let cmd = lent(&self.cmd);
        let shell = lent(&self.shell);
        match factory(host, cmd.as_slice(), Some(shell.as_slice())) {
            Ok(p) => p.exec(),
            Err(e) => Step::Done(Err(e)),
        }
    }

    /// The first step of running this command behind an agent that has
    /// not been asked yet whether it can run commands: the probe. The
    /// command is dispatched once the agent has answered.
    pub fn probe(&self) -> (step: Step)
        ensures
            step@ == dispatch::probe(self@),
    {
        let request = RemoteProvider::Nix(NixRemoteProvider::Available);
        Step::Request(request.encode(), dispatch::Pending::Probing(self.clone()))
    }
}

/// A request to an agent: which backend is asked, and for what.
#[derive(Debug, PartialEq, Eq)]
pub enum RemoteProvider {
    Nix(NixRemoteProvider),
}

/// What a `RemoteProvider` holds.
pub enum RemoteProviderView {
    Nix(NixRemoteProviderView),
}

impl RemoteProviderView {
    /// Whether the request can be written to the wire.
    pub open spec fn fits(self) -> bool {
        match self {
            RemoteProviderView::Nix(request) => request.fits(),
        }
    }

    /// The request on the wire: the backend's tag byte, 0 for Nix, then
    /// the backend's own request.
    pub open spec fn bytes(self) -> Seq<u8> {
        match self {
            RemoteProviderView::Nix(request) => seq![0u8] + request.bytes(),
        }
    }

    /// The request that `bytes` are the wire form of, if they are that of
    /// any.
    pub open spec fn parse(bytes: Seq<u8>) -> Option<Self> {
        if exists|v: Self| v.fits() && v.bytes() == bytes {
            Some(choose|v: Self| v.fits() && v.bytes() == bytes)
        } else {
            None
        }
    }
}

impl View for RemoteProvider {
    type V = RemoteProviderView;

    open spec fn view(&self) -> RemoteProviderView {
        match self {
            RemoteProvider::Nix(request) => RemoteProviderView::Nix(request@),
        }
    }
}

/// No two requests have the same wire form.
pub proof fn lemma_request_unique(a: RemoteProviderView, b: RemoteProviderView)
    requires
        a.fits(),
        b.fits(),
        a.bytes() == b.bytes(),
    ensures
        a == b,
{
    let RemoteProviderView::Nix(x) = a;
    let RemoteProviderView::Nix(y) = b;
    assert(a.bytes().skip(1) =~= x.bytes() + Seq::<u8>::empty());
    assert(b.bytes().skip(1) =~= y.bytes() + Seq::<u8>::empty());
    nix::lemma_request_unique(x, Seq::empty(), y, Seq::empty());
}

/// Reading back what was written gives the request that was written.
pub proof fn lemma_request_round_trip(v: RemoteProviderView)
    requires
        v.fits(),
    ensures
        RemoteProviderView::parse(v.bytes()) == Some(v),
{
    let found = choose|w: RemoteProviderView| w.fits() && w.bytes() == v.bytes();
    lemma_request_unique(found, v);
}

/// What is read from bytes is a well-formed request, and the bytes are
/// its wire form.
pub proof fn lemma_request_parsed(bytes: Seq<u8>)
    ensures
        RemoteProviderView::parse(bytes) matches Some(v) ==> v.fits() && v.bytes() == bytes,
{
}

impl RemoteProvider {
    /// The request as it stands on the wire.
    pub fn encode(&self) -> (bytes: Vec<u8>)
        ensures
            bytes@ == self@.bytes(),
            self@.fits(),
    {
        let mut out: Vec<u8> = Vec::new();
        match self {
            RemoteProvider::Nix(request) => {
                out.push(0u8);
                request.put(&mut out);
            },
        }
        assert(out@ =~= self@.bytes());
        out
    }

    /// Reads a request from its wire form: the request that `bytes`
    /// encode, or nothing where they encode none.
    pub fn decode(bytes: &[u8]) -> (r: Option<RemoteProvider>)
        ensures
            match r {
                Some(request) => RemoteProviderView::parse(bytes@) == Some(request@),
                None => RemoteProviderView::parse(bytes@) is None,
            },
    {
        if bytes.len() == 0 || bytes[0] != 0 {
            proof {
                assert forall|v: RemoteProviderView| v.fits() implies v.bytes() != bytes@ by {
                    assert(v.bytes()[0] == 0);
                }
            }
            return None;
        }
        proof {
            assert(bytes@ =~= seq![0u8] + bytes@.skip(1));
        }
        match NixRemoteProvider::take(bytes, 1) {
            None => {
                proof {
                    assert forall|v: RemoteProviderView| v.fits() implies v.bytes() != bytes@ by {
                        let RemoteProviderView::Nix(x) = v;
                        assert(v.bytes().skip(1) =~= x.bytes() + Seq::<u8>::empty());
                    }
                }
                None
            },
            Some((inner, next)) => {
                if next != bytes.len() {
                    proof {
                        assert forall|v: RemoteProviderView| v.fits() implies v.bytes()
                            != bytes@ by {
                            let RemoteProviderView::Nix(x) = v;
                            if v.bytes() == bytes@ {
                                assert(v.bytes().skip(1) =~= x.bytes() + Seq::<u8>::empty());
                                nix::lemma_request_unique(
                                    x,
                                    Seq::empty(),
                                    inner@,
                                    bytes@.skip(next as int),
                                );
                            }
                        }
                    }
                    return None;
                }
                let request = RemoteProvider::Nix(inner);
                proof {
                    assert(bytes@ =~= request@.bytes());
                    lemma_request_round_trip(request@);
                }
                Some(request)
            },
        }
    }

    /// What the agent does for this request on its own `host`.
    pub fn exec(self, host: &Host) -> (served: Served)
        ensures
            served@ == (match self@ {
                RemoteProviderView::Nix(request) => nix::serve(request, *host),
            }),
    {
        match self {
            RemoteProvider::Nix(p) => p.exec(host),
        }
    }
}

} // verus!
