//! One dispatch, step by step.
//!
//! The library does no input or output of its own. It hands its caller a
//! `Step`: a program to run, a request to put to the agent, or the end of
//! the dispatch. The caller does what the step says and comes back with
//! the `Event` that followed. A request is handed out only together with
//! the `Pending` state that takes its answer, and that state is used up by
//! the answer: no request can follow before the one before it is
//! answered.

use vstd::prelude::*;
use crate::command::Command;
use crate::command::CommandResult;
use crate::command::CommandResultView;
use crate::command::CommandView;
use crate::command::RemoteProviderView;
use crate::command::providers::nix;
use crate::command::providers::NixRemoteProviderView;
use crate::errors::Error;
use crate::host::Host;
use crate::wire;

verus! {

/// What came of the step that the caller was asked to take.
#[derive(Debug, PartialEq, Eq)]
pub enum Event {
    /// The agent's one reply to the request.
    Reply(Vec<u8>),
    /// The request could not be sent, or no reply came.
    Disconnected,
    /// The program ran to its end: its exit status (none where a signal
    /// ended it), its standard output and its standard error.
    Exited(Option<i32>, Vec<u8>, Vec<u8>),
    /// The program could not be started.
    SpawnFailed,
}

/// What an `Event` holds.
pub enum EventView {
    Reply(Seq<u8>),
    Disconnected,
    Exited(Option<i32>, Seq<u8>, Seq<u8>),
    SpawnFailed,
}

impl View for Event {
    type V = EventView;

    open spec fn view(&self) -> EventView {
        match self {
            Event::Reply(bytes) => EventView::Reply(bytes@),
            Event::Disconnected => EventView::Disconnected,
            Event::Exited(code, stdout, stderr) => EventView::Exited(*code, stdout@, stderr@),
            Event::SpawnFailed => EventView::SpawnFailed,
        }
    }
}

/// A dispatch that waits for the outcome of its last step.
#[derive(Debug, PartialEq, Eq)]
pub enum Pending {
    /// The agent was asked whether it can run commands; the command waits
    /// for its answer.
    Probing(Command),
    /// The agent was asked to run the command.
    Executing,
    /// The command is running on this machine.
    Spawning,
}

/// What a `Pending` holds.
pub enum PendingView {
    Probing(CommandView),
    Executing,
    Spawning,
}

impl View for Pending {
    type V = PendingView;

    open spec fn view(&self) -> PendingView {
        match self {
            Pending::Probing(command) => PendingView::Probing(command@),
            Pending::Executing => PendingView::Executing,
            Pending::Spawning => PendingView::Spawning,
        }
    }
}

/// What the caller is to do next.
#[derive(Debug, PartialEq, Eq)]
pub enum Step {
    /// Send the bytes to the agent as one request and wait for its one
    /// reply.
    Request(Vec<u8>, Pending),
    /// Run the program with the arguments, wait until it ends, and
    /// collect all that it writes.
    Spawn(String, Vec<String>, Pending),
    /// The dispatch has ended, with a result or with an error.
    Done(Result<CommandResult, Error>),
}

/// What a `Step` holds.
pub enum StepView {
    Request(Seq<u8>, PendingView),
    Spawn(Seq<char>, Seq<Seq<char>>, PendingView),
    Done(Result<CommandResultView, Error>),
}

impl View for Step {
    type V = StepView;

    open spec fn view(&self) -> StepView {
        match self {
            Step::Request(payload, next) => StepView::Request(payload@, next@),
            Step::Spawn(program, args, next) => StepView::Spawn(
                program@,
                args.deep_view(),
                next@,
            ),
            Step::Done(Ok(result)) => StepView::Done(Ok(result@)),
            Step::Done(Err(error)) => StepView::Done(Err(*error)),
        }
    }
}

/// What an agent makes of a request.
#[derive(Debug, PartialEq, Eq)]
pub enum Served {
    /// The answer to an availability probe.
    Available(bool),
    /// The first step of running the command that was sent. The reply is
    /// the result in which these steps end.
    Exec(Step),
}

/// What a `Served` holds.
pub enum ServedView {
    Available(bool),
    Exec(StepView),
}

impl View for Served {
    type V = ServedView;

    open spec fn view(&self) -> ServedView {
        match self {
            Served::Available(answer) => ServedView::Available(*answer),
            Served::Exec(step) => ServedView::Exec(step@),
        }
    }
}

/// What an agent sends back: a truth value to a probe, a result to a
/// command.
#[derive(Debug, PartialEq, Eq)]
pub enum Reply {
    Available(bool),
    Exec(CommandResult),
}

/// What a `Reply` holds.
pub enum ReplyView {
    Available(bool),
    Exec(CommandResultView),
}

impl ReplyView {
    /// The reply on the wire. It carries no tag: the dispatcher knows
    /// what it asked.
    pub open spec fn bytes(self) -> Seq<u8> {
        match self {
            ReplyView::Available(answer) => wire::flag(answer),
            ReplyView::Exec(result) => result.bytes(),
        }
    }
}

impl View for Reply {
    type V = ReplyView;

    open spec fn view(&self) -> ReplyView {
        match self {
            Reply::Available(answer) => ReplyView::Available(*answer),
            Reply::Exec(result) => ReplyView::Exec(result@),
        }
    }
}

impl Reply {
    /// The reply as it stands on the wire.
    pub fn encode(&self) -> (bytes: Vec<u8>)
        ensures
            bytes@ == self@.bytes(),
    {
        match self {
            Reply::Available(answer) => wire::encode_flag(*answer),
            Reply::Exec(result) => result.encode(),
        }
    }
}

/// The first step of running `command` on `host`: that of the first
/// backend that serves the host, or the end of the dispatch where none
/// does.
pub open spec fn execute(host: Host, command: CommandView) -> StepView {
    if nix::serves(host) {
        nix::first_step(host, command)
    } else {
        StepView::Done(Err(Error::ProviderUnavailable("Command")))
    }
}

/// The first step of running `command` behind an agent of which nothing
/// is known yet: the availability probe.
pub open spec fn probe(command: CommandView) -> StepView {
    StepView::Request(
        RemoteProviderView::Nix(NixRemoteProviderView::Available).bytes(),
        PendingView::Probing(command),
    )
}

/// The step that follows `event` in state `pending`.
pub open spec fn resume(pending: PendingView, event: EventView) -> StepView {
    match pending {
        PendingView::Probing(command) => match event {
            EventView::Reply(bytes) => match wire::parse_flag(bytes) {
                Some(posix) => execute(Host { local: false, posix }, command),
                None => StepView::Done(Err(Error::RemoteProviderError("Command", "available"))),
            },
            _ => StepView::Done(Err(Error::RemoteProviderError("Command", "available"))),
        },
        PendingView::Executing => match event {
            EventView::Reply(bytes) => match CommandResultView::parse(bytes) {
                Some(result) => StepView::Done(Ok(result)),
                None => StepView::Done(Err(Error::RemoteProviderError("Command", "exec"))),
            },
            _ => StepView::Done(Err(Error::RemoteProviderError("Command", "exec"))),
        },
        PendingView::Spawning => match event {
            EventView::Exited(code, stdout, stderr) => StepView::Done(
                Ok(CommandResultView::of(code, stdout, stderr)),
            ),
            _ => StepView::Done(Err(Error::SpawnFailure)),
        },
    }
}

impl Pending {
    /// Takes the outcome of the step that was handed out with this state
    /// and says what is to be done next. An event that cannot follow that
    /// step ends the dispatch with the error of the step that was under
    /// way.
    pub fn resume(self, event: Event) -> (step: Step)
        ensures
            step@ == resume(self@, event@),
    {
        match self {
            Pending::Probing(command) => match event {
                Event::Reply(bytes) => match wire::decode_flag(bytes.as_slice()) {
                    Some(posix) => {
                        let host = Host::remote(posix);
                        command.exec(&host)
                    },
                    None => Step::Done(Err(Error::RemoteProviderError("Command", "available"))),
                },
                _ => Step::Done(Err(Error::RemoteProviderError("Command", "available"))),
            },
            Pending::Executing => match event {
                Event::Reply(bytes) => match CommandResult::decode(bytes.as_slice()) {
                    Some(result) => Step::Done(Ok(result)),
                    None => Step::Done(Err(Error::RemoteProviderError("Command", "exec"))),
                },
                _ => Step::Done(Err(Error::RemoteProviderError("Command", "exec"))),
            },
            Pending::Spawning => match event {
                Event::Exited(code, stdout, stderr) => Step::Done(
                    Ok(CommandResult::new(code, stdout, stderr)),
                ),
                _ => Step::Done(Err(Error::SpawnFailure)),
            },
        }
    }
}

/// A command that ran on this machine ends the dispatch with a result
/// that holds what the process left behind and nothing else: the exit
/// code as it was, absent exactly where a signal ended the process; the
/// two outputs byte for byte; and success exactly where the exit code
/// is 0.
pub proof fn lemma_local_result(code: Option<i32>, stdout: Seq<u8>, stderr: Seq<u8>)
    ensures
        resume(PendingView::Spawning, EventView::Exited(code, stdout, stderr)) matches StepView::Done(
            Ok(result),
        ) && {
            &&& result.success <==> code == Some(0i32)
            &&& result.exit_code is None <==> code is None
            &&& result.exit_code == code
            &&& result.stdout == stdout
            &&& result.stderr == stderr
        },
{
}

/// On this machine a command is handed to its shell as it stands: the
/// shell's first token is the program, the shell's other tokens come
/// before the command's, and none is left out or changed.
pub proof fn lemma_local_invocation(posix: bool, command: CommandView)
    requires
        posix,
        command.shell.len() > 0,
    ensures
        execute(Host { local: true, posix }, command) matches StepView::Spawn(program, args, next)
            && {
            &&& seq![program] + args == command.shell + command.cmd
            &&& next == PendingView::Spawning
        },
{
    assert(seq![command.shell[0]] + (command.shell.skip(1) + command.cmd) =~= command.shell
        + command.cmd);
}

/// Where no backend serves the host the dispatch ends at once with
/// `ProviderUnavailable("Command")`: nothing is run and nothing is sent.
/// This holds for a host whose platform was known from the start and for
/// one whose agent has just answered the probe with "no".
pub proof fn lemma_unavailable_ends(host: Host, command: CommandView)
    requires
        !nix::serves(host),
    ensures
        execute(host, command) == StepView::Done(Err(Error::ProviderUnavailable("Command"))),
        resume(PendingView::Probing(command), EventView::Reply(wire::flag(false)))
            == StepView::Done(Err(Error::ProviderUnavailable("Command"))),
{
    assert(wire::flag(true)[0] != wire::flag(false)[0]);
}

/// A dispatch stays where its host is: for this machine it never sends a
/// request, for a remote one it never runs a program here.
pub proof fn lemma_steps_match_host(host: Host, command: CommandView)
    ensures
        host.local ==> !(execute(host, command) is Request),
        !host.local ==> !(execute(host, command) is Spawn),
{
}

/// A request is followed by nothing but its answer, and a dispatch sends
/// two requests at most: after the probe only the command can be sent,
/// and what follows the command's answer, or the end of a program, is the
/// end of the dispatch.
pub proof fn lemma_requests_in_turn(pending: PendingView, event: EventView)
    ensures
        match resume(pending, event) {
            StepView::Request(_, next) => pending is Probing && next == PendingView::Executing,
            StepView::Spawn(_, _, _) => false,
            StepView::Done(_) => true,
        },
{
}

/// What comes of an event depends on the transport only through the
/// event: a lost connection and a reply that cannot be read end the
/// dispatch with `RemoteProviderError`, named after the operation that
/// was under way, and a program that would not start ends it with
/// `SpawnFailure`.
pub proof fn lemma_failures(command: CommandView, bytes: Seq<u8>)
    ensures
        resume(PendingView::Probing(command), EventView::Disconnected) == StepView::Done(
            Err(Error::RemoteProviderError("Command", "available")),
        ),
        resume(PendingView::Executing, EventView::Disconnected) == StepView::Done(
            Err(Error::RemoteProviderError("Command", "exec")),
        ),
        wire::parse_flag(bytes) is None ==> resume(
            PendingView::Probing(command),
            EventView::Reply(bytes),
        ) == StepView::Done(Err(Error::RemoteProviderError("Command", "available"))),
        CommandResultView::parse(bytes) is None ==> resume(
            PendingView::Executing,
            EventView::Reply(bytes),
        ) == StepView::Done(Err(Error::RemoteProviderError("Command", "exec"))),
        resume(PendingView::Spawning, EventView::SpawnFailed) == StepView::Done(
            Err(Error::SpawnFailure),
        ),
{
}

/// The dispatcher reads each reply as the agent meant it: the answer to
/// the probe decides as the host's own platform would, and the result of
/// the command ends the dispatch as it stands.
pub proof fn lemma_reply_understood(command: CommandView, reply: ReplyView)
    requires
        reply matches ReplyView::Exec(result) ==> result.fits(),
    ensures
        match reply {
            ReplyView::Available(answer) => resume(
                PendingView::Probing(command),
                EventView::Reply(reply.bytes()),
            ) == execute(Host { local: false, posix: answer }, command),
            ReplyView::Exec(result) => resume(
                PendingView::Executing,
                EventView::Reply(reply.bytes()),
            ) == StepView::Done(Ok(result)),
        },
{
    match reply {
        ReplyView::Available(answer) => {
            assert(wire::flag(true)[0] != wire::flag(false)[0]);
        },
        ReplyView::Exec(result) => {
            crate::command::lemma_result_round_trip(result);
        },
    }
}

/// A remote dispatch ends as the local one on the agent's machine does.
/// The agent reads from the request the command that was sent; and when
/// it sends back the result of its own run, the dispatch ends with that
/// result.
pub proof fn lemma_remote_as_local(
    command: CommandView,
    code: Option<i32>,
    stdout: Seq<u8>,
    stderr: Seq<u8>,
)
    requires
        command.fits(),
        wire::fits(stdout.len()),
        wire::fits(stderr.len()),
    ensures
        execute(Host { local: false, posix: true }, command) matches StepView::Request(
            payload,
            next,
        ) && {
            &&& RemoteProviderView::parse(payload) == Some(
                RemoteProviderView::Nix(NixRemoteProviderView::Exec(command)),
            )
            &&& resume(
                next,
                EventView::Reply(CommandResultView::of(code, stdout, stderr).bytes()),
            ) == resume(PendingView::Spawning, EventView::Exited(code, stdout, stderr))
        },
{
    crate::command::lemma_request_round_trip(
        RemoteProviderView::Nix(NixRemoteProviderView::Exec(command)),
    );
    crate::command::lemma_result_round_trip(CommandResultView::of(code, stdout, stderr));
}

} // verus!
