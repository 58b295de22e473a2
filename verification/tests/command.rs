use command_dispatch::command::factory;
use command_dispatch::command::providers::Nix;
use command_dispatch::command::providers::NixRemoteProvider;
use command_dispatch::command::Command;
use command_dispatch::command::CommandProvider;
use command_dispatch::command::CommandResult;
use command_dispatch::command::RemoteProvider;
use command_dispatch::command::dispatch::Pending;
use command_dispatch::command::dispatch::Served;
use command_dispatch::command::dispatch::Step;
use command_dispatch::errors::Error;
use command_dispatch::host::Host;

fn strings(tokens: &[&str]) -> Vec<String> {
    tokens.iter().map(|s| s.to_string()).collect()
}

fn exec_moo() -> Vec<u8> {
    let mut bytes = vec![0u8, 1];
    bytes.extend_from_slice(&[2, 0, 0, 0, 0, 0, 0, 0]);
    bytes.extend_from_slice(&[7, 0, 0, 0, 0, 0, 0, 0]);
    bytes.extend_from_slice(b"/bin/sh");
    bytes.extend_from_slice(&[2, 0, 0, 0, 0, 0, 0, 0]);
    bytes.extend_from_slice(b"-c");
    bytes.extend_from_slice(&[1, 0, 0, 0, 0, 0, 0, 0]);
    bytes.extend_from_slice(&[3, 0, 0, 0, 0, 0, 0, 0]);
    bytes.extend_from_slice(b"moo");
    bytes
}

fn cow_err() -> Vec<u8> {
    let mut bytes = vec![1u8, 1, 0, 0, 0, 0];
    bytes.extend_from_slice(&[3, 0, 0, 0, 0, 0, 0, 0]);
    bytes.extend_from_slice(b"cow");
    bytes.extend_from_slice(&[3, 0, 0, 0, 0, 0, 0, 0]);
    bytes.extend_from_slice(b"err");
    bytes
}

#[test]
fn new_command_has_the_default_shell() {
    let command = Command::new(&["whoami"], None);
    assert_eq!(command.shell(), &strings(&["/bin/sh", "-c"]));
    assert_eq!(command.cmd(), &strings(&["whoami"]));
}

#[test]
fn new_command_takes_the_shell_it_is_given() {
    let command = Command::new(&["echo", "hi"], Some(&["/bin/bash", "-e", "-c"]));
    assert_eq!(command.shell(), &strings(&["/bin/bash", "-e", "-c"]));
    assert_eq!(command.cmd(), &strings(&["echo", "hi"]));
}

#[test]
fn new_command_accepts_an_empty_shell() {
    let command = Command::new(&["ls"], Some(&[]));
    assert!(command.shell().is_empty());
    assert_eq!(command.cmd(), &strings(&["ls"]));
}

#[test]
fn command_clone_is_equal() {
    let command = Command::new(&["uname", "-a"], Some(&["/bin/zsh", "-c"]));
    assert_eq!(command.clone(), command);
}

#[test]
fn command_on_the_wire() {
    let command = Command::new(&["moo"], None);
    let mut out = Vec::new();
    command.put(&mut out);
    assert_eq!(out, exec_moo()[2..].to_vec());
    assert_eq!(Command::take(&out, 0), Some((command, out.len())));
}

#[test]
fn command_cut_short_is_refused() {
    let bytes = exec_moo();
    assert_eq!(Command::take(&bytes[..bytes.len() - 1], 2), None);
    assert_eq!(Command::take(&bytes[..20], 2), None);
}

#[test]
fn result_is_successful_only_on_exit_code_zero() {
    let ok = CommandResult::new(Some(0), b"out".to_vec(), b"".to_vec());
    assert!(ok.success());
    assert_eq!(ok.exit_code(), Some(0));
    assert_eq!(ok.stdout(), &b"out".to_vec());
    assert_eq!(ok.stderr(), &Vec::<u8>::new());

    let failed = CommandResult::new(Some(1), Vec::new(), b"no".to_vec());
    assert!(!failed.success());
    assert_eq!(failed.exit_code(), Some(1));
    assert_eq!(failed.stderr(), &b"no".to_vec());

    let negative = CommandResult::new(Some(-1), Vec::new(), Vec::new());
    assert!(!negative.success());

    let killed = CommandResult::new(None, Vec::new(), Vec::new());
    assert!(!killed.success());
    assert_eq!(killed.exit_code(), None);
}

#[test]
fn result_keeps_bytes_that_are_not_text() {
    let raw = vec![0u8, 0xff, 0xfe, b'\n', b' ', 0x80];
    let result = CommandResult::new(Some(0), raw.clone(), raw.clone());
    assert_eq!(result.stdout(), &raw);
    assert_eq!(result.stderr(), &raw);
    assert_eq!(CommandResult::decode(&result.encode()), Some(result));
}

#[test]
fn result_clone_is_equal() {
    let result = CommandResult::new(Some(3), b"a".to_vec(), b"b".to_vec());
    assert_eq!(result.clone(), result);
}

#[test]
fn result_on_the_wire() {
    let result = CommandResult::new(Some(0), b"cow".to_vec(), b"err".to_vec());
    assert_eq!(result.encode(), cow_err());
    assert_eq!(CommandResult::decode(&cow_err()), Some(result));
}

#[test]
fn result_without_exit_code_on_the_wire() {
    let result = CommandResult::new(None, Vec::new(), b"killed".to_vec());
    let mut expected = vec![0u8, 0];
    expected.extend_from_slice(&[0, 0, 0, 0, 0, 0, 0, 0]);
    expected.extend_from_slice(&[6, 0, 0, 0, 0, 0, 0, 0]);
    expected.extend_from_slice(b"killed");
    assert_eq!(result.encode(), expected);
    let back = CommandResult::decode(&expected).unwrap();
    assert_eq!(back.exit_code(), None);
    assert!(!back.success());
    assert_eq!(back, result);
}

#[test]
fn result_with_a_failing_exit_code_on_the_wire() {
    let result = CommandResult::new(Some(1), Vec::new(), Vec::new());
    let mut expected = vec![0u8, 1, 1, 0, 0, 0];
    expected.extend_from_slice(&[0u8; 16]);
    assert_eq!(result.encode(), expected);
    assert_eq!(CommandResult::decode(&expected), Some(result));
}

#[test]
fn result_that_is_malformed_is_refused() {
    let good = cow_err();
    assert_eq!(CommandResult::decode(&[]), None);
    assert_eq!(CommandResult::decode(&good[..good.len() - 1]), None);
    assert_eq!(CommandResult::decode(&good[..1]), None);
    assert_eq!(CommandResult::decode(&good[..6]), None);
    assert_eq!(CommandResult::decode(&good[..17]), None);
    let mut longer = good.clone();
    longer.push(0);
    assert_eq!(CommandResult::decode(&longer), None);
    let mut tagged = good.clone();
    tagged[0] = 2;
    assert_eq!(CommandResult::decode(&tagged), None);
    let mut coded = good.clone();
    coded[1] = 7;
    assert_eq!(CommandResult::decode(&coded), None);
}

#[test]
fn result_whose_flag_belies_its_exit_code_is_refused() {
    let mut claims_failure = cow_err();
    claims_failure[0] = 0;
    assert_eq!(CommandResult::decode(&claims_failure), None);

    let mut claims_success = cow_err();
    claims_success[2] = 1;
    assert_eq!(CommandResult::decode(&claims_success), None);

    let mut killed_but_fine = vec![1u8, 0];
    killed_but_fine.extend_from_slice(&[0u8; 16]);
    assert_eq!(CommandResult::decode(&killed_but_fine), None);
}

#[test]
fn request_on_the_wire() {
    let probe = RemoteProvider::Nix(NixRemoteProvider::Available);
    assert_eq!(probe.encode(), vec![0, 0]);
    assert_eq!(RemoteProvider::decode(&[0, 0]), Some(probe));

    let exec = RemoteProvider::Nix(NixRemoteProvider::Exec(Command::new(&["moo"], None)));
    assert_eq!(exec.encode(), exec_moo());
    assert_eq!(RemoteProvider::decode(&exec_moo()), Some(exec));
}

#[test]
fn exec_request_gives_back_the_command() {
    let command = Command::new(
        &["printf", "%s\\n", "gr\u{fc}\u{df}e", ""],
        Some(&["/usr/bin/env", "bash", "-c"]),
    );
    let sent = RemoteProvider::Nix(NixRemoteProvider::Exec(command.clone())).encode();
    match RemoteProvider::decode(&sent) {
        Some(RemoteProvider::Nix(NixRemoteProvider::Exec(back))) => {
            assert_eq!(back, command);
            assert_eq!(back.shell(), command.shell());
            assert_eq!(back.cmd(), command.cmd());
        }
        other => panic!("not an exec request: {:?}", other),
    }
}

#[test]
fn exec_request_with_nothing_in_it_gives_back_the_command() {
    let command = Command::new(&[], Some(&[]));
    let sent = RemoteProvider::Nix(NixRemoteProvider::Exec(command.clone())).encode();
    let mut expected = vec![0u8, 1];
    expected.extend_from_slice(&[0u8; 16]);
    assert_eq!(sent, expected);
    assert_eq!(
        RemoteProvider::decode(&sent),
        Some(RemoteProvider::Nix(NixRemoteProvider::Exec(command)))
    );
}

#[test]
fn request_that_is_malformed_is_refused() {
    let good = exec_moo();
    assert_eq!(RemoteProvider::decode(&[]), None);
    assert_eq!(RemoteProvider::decode(&[0]), None);
    assert_eq!(RemoteProvider::decode(&[1, 0]), None);
    assert_eq!(RemoteProvider::decode(&[0, 2]), None);
    assert_eq!(RemoteProvider::decode(&[0, 0, 0]), None);
    assert_eq!(RemoteProvider::decode(&good[..good.len() - 1]), None);
    let mut longer = good.clone();
    longer.push(0);
    assert_eq!(RemoteProvider::decode(&longer), None);
    let mut not_text = good.clone();
    let last = not_text.len() - 1;
    not_text[last] = 0xff;
    assert_eq!(RemoteProvider::decode(&not_text), None);
}

#[test]
fn nix_request_on_the_wire() {
    let mut out = vec![7u8];
    NixRemoteProvider::Available.put(&mut out);
    assert_eq!(out, vec![7, 0]);
    assert_eq!(NixRemoteProvider::take(&out, 1), Some((NixRemoteProvider::Available, 2)));

    let exec = NixRemoteProvider::Exec(Command::new(&["moo"], None));
    let mut out = Vec::new();
    exec.put(&mut out);
    assert_eq!(out, exec_moo()[1..].to_vec());
    assert_eq!(NixRemoteProvider::take(&exec_moo(), 1), Some((exec, exec_moo().len())));
    assert_eq!(NixRemoteProvider::take(&[], 0), None);
    assert_eq!(NixRemoteProvider::take(&[3], 0), None);
    assert_eq!(NixRemoteProvider::take(&[1, 0], 0), None);
}

#[test]
fn nix_is_available_where_the_platform_is_posix() {
    assert!(Nix::available(&Host::local(true)));
    assert!(!Nix::available(&Host::local(false)));
    assert!(Nix::available(&Host::remote(true)));
    assert!(!Nix::available(&Host::remote(false)));
}

#[test]
fn availability_is_the_same_each_time() {
    let host = Host::local(true);
    let first = Nix::available(&host);
    let second = Nix::available(&host);
    assert_eq!(first, second);
    let other = Host::remote(false);
    assert_eq!(Nix::available(&other), Nix::available(&other));
}

#[test]
fn try_new_gives_a_handle_only_where_nix_is_available() {
    let posix = Host::local(true);
    let other = Host::local(false);
    assert!(Nix::try_new(&posix, &["ls"], None).is_some());
    assert!(Nix::try_new(&other, &["ls"], None).is_none());
    assert!(Nix::try_new(&Host::remote(false), &["ls"], None).is_none());
}

#[test]
fn handle_runs_the_command_with_its_shell() {
    let host = Host::local(true);
    let handle = Nix::try_new(&host, &["ls", "-l"], Some(&["/bin/bash", "-x", "-c"])).unwrap();
    assert_eq!(
        handle.exec(),
        Step::Spawn("/bin/bash".to_string(), strings(&["-x", "-c", "ls", "-l"]), Pending::Spawning)
    );
}

#[test]
fn handle_with_a_shell_of_one_token_runs_it_with_the_command() {
    let host = Host::local(true);
    let handle = Nix::try_new(&host, &["-v"], Some(&["/usr/bin/true"])).unwrap();
    assert_eq!(
        handle.exec(),
        Step::Spawn("/usr/bin/true".to_string(), strings(&["-v"]), Pending::Spawning)
    );
}

#[test]
fn handle_with_an_empty_shell_is_refused() {
    let host = Host::local(true);
    let handle = Nix::try_new(&host, &["ls"], Some(&[])).unwrap();
    assert_eq!(handle.exec(), Step::Done(Err(Error::InvalidShellConfiguration)));
}

#[test]
fn handle_for_a_remote_host_sends_the_command() {
    let host = Host::remote(true);
    let handle = Nix::try_new(&host, &["moo"], None).unwrap();
    assert_eq!(handle.exec(), Step::Request(exec_moo(), Pending::Executing));
}

#[test]
fn factory_gives_the_nix_handle() {
    let host = Host::local(true);
    let provider = factory(&host, &["whoami"], None);
    match provider {
        Ok(p) => assert_eq!(
            p.exec(),
            Step::Spawn("/bin/sh".to_string(), strings(&["-c", "whoami"]), Pending::Spawning)
        ),
        Err(e) => panic!("no provider: {:?}", e),
    }
}

#[test]
fn factory_fails_where_no_provider_is_available() {
    let host = Host::local(false);
    match factory(&host, &["whoami"], None) {
        Ok(_) => panic!("a provider for a host that has none"),
        Err(e) => assert_eq!(e, Error::ProviderUnavailable("Command")),
    }
    let remote = Host::remote(false);
    assert!(matches!(
        factory(&remote, &["whoami"], None),
        Err(Error::ProviderUnavailable("Command"))
    ));
}

#[test]
fn factory_agrees_with_itself_on_one_host() {
    let posix = Host::remote(true);
    assert!(factory(&posix, &["a"], None).is_ok());
    assert!(factory(&posix, &["b"], Some(&["sh"])).is_ok());
    let other = Host::local(false);
    assert!(factory(&other, &["a"], None).is_err());
    assert!(factory(&other, &["b"], Some(&["sh"])).is_err());
}

#[test]
fn agent_answers_the_probe() {
    let probe = RemoteProvider::decode(&[0, 0]).unwrap();
    assert_eq!(probe.exec(&Host::local(true)), Served::Available(true));
    let probe = RemoteProvider::decode(&[0, 0]).unwrap();
    assert_eq!(probe.exec(&Host::local(false)), Served::Available(false));
    assert_eq!(NixRemoteProvider::Available.exec(&Host::local(true)), Served::Available(true));
}

#[test]
fn agent_runs_the_command_it_was_sent() {
    let request = RemoteProvider::decode(&exec_moo()).unwrap();
    assert_eq!(
        request.exec(&Host::local(true)),
        Served::Exec(Step::Spawn(
            "/bin/sh".to_string(),
            strings(&["-c", "moo"]),
            Pending::Spawning
        ))
    );
}

#[test]
fn agent_refuses_a_command_without_a_shell() {
    let request = NixRemoteProvider::Exec(Command::new(&["moo"], Some(&[])));
    assert_eq!(
        request.exec(&Host::local(true)),
        Served::Exec(Step::Done(Err(Error::InvalidShellConfiguration)))
    );
}
