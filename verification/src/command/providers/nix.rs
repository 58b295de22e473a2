//! The backend for machines with a POSIX shell.

use vstd::prelude::*;
use crate::command::Command;
use crate::command::CommandProvider;
use crate::command::CommandView;
use crate::command::dispatch::Pending;
use crate::command::dispatch::PendingView;
use crate::command::dispatch::Served;
use crate::command::dispatch::ServedView;
use crate::command::dispatch::Step;
use crate::command::dispatch::StepView;
use crate::errors::Error;
use crate::host::Host;

verus! {

/// Whether this backend serves `host`: whether the machine that runs the
/// host's commands offers a POSIX shell.
pub open spec fn serves(host: Host) -> bool {
    host.posix
}

/// The first step of running `command` on `host` with this backend.
///
/// On this machine the shell's first token is the program, and its other
/// tokens followed by the command's are the arguments; an empty shell
/// names no program. Behind an agent the step is the request that carries
/// the command.
pub open spec fn first_step(host: Host, command: CommandView) -> StepView {
    if host.local {
        if command.shell.len() == 0 {
            StepView::Done(Err(Error::InvalidShellConfiguration))
        } else {
            StepView::Spawn(
                command.shell[0],
                command.shell.skip(1) + command.cmd,
                PendingView::Spawning,
            )
        }
    } else {
        StepView::Request(
            crate::command::RemoteProviderView::Nix(RemoteProviderView::Exec(command)).bytes(),
            PendingView::Executing,
        )
    }
}

/// What an agent makes of `request` for its own `host`.
pub open spec fn serve(request: RemoteProviderView, host: Host) -> ServedView {
    match request {
        RemoteProviderView::Available => ServedView::Available(serves(host)),
        RemoteProviderView::Exec(command) => ServedView::Exec(first_step(host, command)),
    }
}

/// Asking twice whether this backend serves a host gives the same answer
/// twice, as long as the host is the same.
pub proof fn lemma_available_repeats(host: Host, first: bool, second: bool)
    requires
        first == serves(host),
        second == serves(host),
    ensures
        first == second,
{
}

/// A command bound to the host on which this backend is to run it.
pub struct Nix<'a> {
    host: &'a Host,
    inner: Command,
}

/// What this backend asks of the agent.
#[derive(Debug, PartialEq, Eq)]
pub enum RemoteProvider {
    /// Whether the backend is available on the agent's machine.
    Available,
    /// To run the command and to send back its result.
    Exec(Command),
}

/// What a `RemoteProvider` holds.
pub enum RemoteProviderView {
    Available,
    Exec(CommandView),
}

impl RemoteProviderView {
    /// Whether the request can be written to the wire.
    pub open spec fn fits(self) -> bool {
        match self {
            RemoteProviderView::Available => true,
            RemoteProviderView::Exec(command) => command.fits(),
        }
    }

    /// The request on the wire: a tag byte, 0 for the probe and 1 for a
    /// command, and behind the 1 the command.
    pub open spec fn bytes(self) -> Seq<u8> {
        match self {
            RemoteProviderView::Available => seq![0u8],
            RemoteProviderView::Exec(command) => seq![1u8] + command.bytes(),
        }
    }
}

impl View for RemoteProvider {
    type V = RemoteProviderView;

    open spec fn view(&self) -> RemoteProviderView {
        match self {
            RemoteProvider::Available => RemoteProviderView::Available,
            RemoteProvider::Exec(command) => RemoteProviderView::Exec(command@),
        }
    }
}

/// Bytes start with at most one request.
pub proof fn lemma_request_unique(
    a: RemoteProviderView,
    ra: Seq<u8>,
    b: RemoteProviderView,
    rb: Seq<u8>,
)
    requires
        a.fits(),
        b.fits(),
        a.bytes() + ra == b.bytes() + rb,
    ensures
        a == b,
        ra == rb,
{
    let whole = a.bytes() + ra;
    assert(whole[0] == a.bytes()[0]);
    assert(whole[0] == b.bytes()[0]);
    match (a, b) {
        (RemoteProviderView::Exec(x), RemoteProviderView::Exec(y)) => {
            assert(whole.skip(1) =~= x.bytes() + ra);
            assert(whole.skip(1) =~= y.bytes() + rb);
            crate::command::lemma_command_unique(x, ra, y, rb);
        },
        (RemoteProviderView::Available, RemoteProviderView::Available) => {
            assert(whole.skip(1) =~= ra);
            assert(whole.skip(1) =~= rb);
        },
        _ => {},
    }
}

impl RemoteProvider {
    /// Appends the request as it stands on the wire.
    pub fn put(&self, out: &mut Vec<u8>)
        ensures
            final(out)@ == old(out)@ + self@.bytes(),
            self@.fits(),
    {
        match self {
            RemoteProvider::Available => {
                out.push(0u8);
            },
            RemoteProvider::Exec(command) => {
                out.push(1u8);
                command.put(out);
            },
        }
        assert(out@ =~= old(out)@ + self@.bytes());
    }

    /// Reads a request at `pos`, and says where the next field starts.
    /// Succeeds exactly where the byte 0 stands, or the byte 1 with a
    /// command behind it.
    pub fn take(bytes: &[u8], pos: usize) -> (r: Option<(RemoteProvider, usize)>)
        ensures
            match r {
                Some((request, next)) => {
                    &&& pos <= next <= bytes@.len()
                    &&& request@.fits()
                    &&& bytes@.skip(pos as int) == request@.bytes() + bytes@.skip(next as int)
                },
                None => pos <= bytes@.len() ==> (forall|v: RemoteProviderView, rest: Seq<u8>|
                    v.fits() ==> #[trigger] (v.bytes() + rest) != bytes@.skip(pos as int)),
            },
    {
        if pos > bytes.len() {
            return None;
        }
        let ghost input = bytes@.skip(pos as int);
        if pos == bytes.len() {
            proof {
                assert forall|v: RemoteProviderView, rest: Seq<u8>| v.fits() implies #[trigger] (
                v.bytes() + rest) != input by {
                    assert((v.bytes() + rest).len() >= 1);
                }
            }
            return None;
        }
        let tag = bytes[pos];
        proof {
            assert(input[0] == tag);
        }
        if tag == 0 {
            proof {
                assert(input =~= RemoteProviderView::Available.bytes() + bytes@.skip(pos + 1));
            }
            return Some((RemoteProvider::Available, pos + 1));
        }
        if tag != 1 {
            proof {
                assert forall|v: RemoteProviderView, rest: Seq<u8>| v.fits() implies #[trigger] (
                v.bytes() + rest) != input by {
                    assert((v.bytes() + rest)[0] == v.bytes()[0]);
                }
            }
            return None;
        }
        match Command::take(bytes, pos + 1) {
            None => {
                proof {
                    assert forall|v: RemoteProviderView, rest: Seq<u8>| v.fits() implies #[trigger] (
                    v.bytes() + rest) != input by {
                        assert((v.bytes() + rest)[0] == v.bytes()[0]);
                        if let RemoteProviderView::Exec(command) = v {
                            assert((v.bytes() + rest).skip(1) =~= command.bytes() + rest);
                            assert(input.skip(1) =~= bytes@.skip(pos + 1));
                        }
                    }
                }
                None
            },
            Some((command, next)) => {
                let ghost body = command@.bytes();
                let ghost rest = bytes@.skip(next as int);
                let request = RemoteProvider::Exec(command);
                proof {
                    assert(input =~= seq![1u8] + bytes@.skip(pos + 1));
                    assert(seq![1u8] + (body + rest) =~= request@.bytes() + rest);
                }
                Some((request, next))
            },
        }
    }

    /// What the agent does for this request on its own `host`: it answers
    /// the probe, or takes the first step of running the command.
    pub fn exec(self, host: &Host) -> (served: Served)
        ensures
            served@ == serve(self@, *host),
    {
        match self {
            RemoteProvider::Available => Served::Available(Nix::available(host)),
            RemoteProvider::Exec(inner) => {
                let p = Nix { host, inner };
                Served::Exec(p.exec())
            },
        }
    }
}

impl<'a> CommandProvider<'a> for Nix<'a> {
    closed spec fn host(&self) -> Host {
        *self.host
    }

    closed spec fn command(&self) -> CommandView {
        self.inner@
    }

    open spec fn serves(host: Host) -> bool {
        serves(host)
    }

    open spec fn first_step(host: Host, command: CommandView) -> StepView {
        first_step(host, command)
    }

    fn available(host: &Host) -> (available: bool) {
        host.posix
    }

    fn try_new(host: &'a Host, cmd: &[&str], shell: Option<&[&str]>) -> (handle: Option<Nix<'a>>) {
        if Self::available(host) {
            let inner = Command::new(cmd, shell);
            Some(Nix { host, inner })
        } else {
            None
        }
    }

    fn exec(&self) -> (step: Step) {
        if self.host.is_local() {
            let shell = self.inner.shell();
            let cmd = self.inner.cmd();
            if shell.len() == 0 {
                return Step::Done(Err(Error::InvalidShellConfiguration));
            }
            let program = shell[0].clone();
            let mut args: Vec<String> = Vec::new();
            let mut i: usize = 1;
            while i < shell.len()
                invariant
                    1 <= i <= shell.len(),
                    args.deep_view() == shell.deep_view().subrange(1, i as int),
                decreases shell.len() - i,
            {
                let ghost before = args.deep_view();
                args.push(shell[i].clone());
                assert(args.deep_view() =~= before.push(shell[i as int]@));
                assert(args.deep_view() =~= shell.deep_view().subrange(1, i + 1));
                i += 1;
            }
            let mut j: usize = 0;
            while j < cmd.len()
                invariant
                    j <= cmd.len(),
                    args.deep_view() == shell.deep_view().skip(1) + cmd.deep_view().take(j as int),
                decreases cmd.len() - j,
            {
                let ghost before = args.deep_view();
                args.push(cmd[j].clone());
                assert(args.deep_view() =~= before.push(cmd[j as int]@));
                assert(args.deep_view() =~= shell.deep_view().skip(1) + cmd.deep_view().take(
                    j + 1,
                ));
                j += 1;
            }
            assert(cmd.deep_view().take(cmd.len() as int) =~= cmd.deep_view());
            Step::Spawn(program, args, Pending::Spawning)
        } else {
            let request = crate::command::RemoteProvider::Nix(
                RemoteProvider::Exec(self.inner.clone()),
            );
            Step::Request(request.encode(), Pending::Executing)
        }
    }
}

} // verus!
