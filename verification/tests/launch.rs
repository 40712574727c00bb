use with_limits::exit::{EXIT_CANNOT_INVOKE, EXIT_NOT_FOUND};
use with_limits::launch::{
    build_target_command, check_native, default_unix_shell, depends_on_available, plan,
    spawn_failure, summary, windows_helper_switch, wrap_windows_command, CommandLine, Request, SpawnFault, Word,
};
use with_limits::{
    status_exit_code, CpuLimit, ExitStatus, HumanDuration, MemoryBudget, MemorySpec, NiceSetting,
    Platform,
};

fn request(memory: Option<&str>, cpu: Option<&str>, time: Option<&str>) -> Request {
    Request {
        script: true,
        command_words: 0,
        memory: memory.map(|text| text.parse::<MemorySpec>().unwrap()),
        cpu: cpu.map(|text| text.parse::<CpuLimit>().unwrap()),
        time: time.map(|text| text.parse::<HumanDuration>().unwrap()),
        require_native: false,
    }
}

/// The words of a command line; texts stand between angle brackets.
fn words(line: &CommandLine<&'static str>) -> Vec<String> {
    let show = |word: &Word<&'static str>| match word {
        Word::Text(text) => format!("<{text}>"),
        Word::Native(text) => text.to_string(),
    };
    let mut words = vec![show(&line.program)];
    words.extend(line.arguments.iter().map(show));
    words
}

#[test]
fn a_request_without_limits_is_held_to_the_default_memory_limit() {
    let request = request(None, None, None);
    let spec = request.memory_spec().unwrap();
    assert_eq!(spec, Some("auto".parse().unwrap()));
    assert!(depends_on_available(spec));
    let plan = plan(&request, 10_000, NiceSetting::Unset).unwrap();
    assert_eq!(
        plan.budget,
        MemoryBudget {
            process_limit: Some(7_000),
            host_reserve: Some(3_000),
        }
    );
    assert_eq!(plan.nice, Some(10));
}

#[test]
fn other_limits_leave_memory_alone() {
    for request in [request(None, Some("1"), None), request(None, None, Some("5s"))] {
        assert_eq!(request.memory_spec().unwrap(), None);
        assert!(!depends_on_available(None));
        let plan = plan(&request, 10_000, NiceSetting::Text("off")).unwrap();
        assert_eq!(
            plan.budget,
            MemoryBudget {
                process_limit: None,
                host_reserve: None,
            }
        );
        assert_eq!(plan.nice, None);
    }
    let fixed = request(Some("4KiB"), Some("1"), Some("5s"));
    assert!(!depends_on_available(fixed.memory_spec().unwrap()));
}

#[test]
fn a_request_needs_a_command() {
    let mut empty = request(None, None, Some("1s"));
    empty.script = false;
    let error = "specify a command after --, or use -c";
    assert_eq!(empty.memory_spec(), Err(error.to_string()));
    assert_eq!(
        plan(&empty, 1, NiceSetting::NotText).err(),
        Some(error.to_string())
    );
    empty.command_words = 1;
    assert!(empty.memory_spec().is_ok());
}

#[test]
fn limits_that_are_sampled_are_not_native() {
    let refused = |mut request: Request, platform| {
        let plan = plan(&request, 10_000, NiceSetting::Unset).unwrap();
        assert_eq!(check_native(&request, &plan, platform), Ok(()));
        request.require_native = true;
        check_native(&request, &plan, platform).err()
    };
    let memory = "native memory enforcement is unavailable on this platform";
    let cpu = "native CPU enforcement is unavailable on this platform";
    for platform in [Platform::Linux, Platform::MacOs, Platform::OtherUnix] {
        assert_eq!(
            refused(request(Some("1GiB"), None, None), platform).as_deref(),
            Some(memory)
        );
        assert_eq!(
            refused(request(None, Some("1"), None), platform).as_deref(),
            Some(cpu)
        );
        assert_eq!(refused(request(None, None, Some("1s")), platform), None);
    }
    assert_eq!(
        refused(request(None, None, None), Platform::Windows).as_deref(),
        Some(memory)
    );
    assert_eq!(
        refused(request(Some("1GiB"), None, None), Platform::Windows).as_deref(),
        Some(memory)
    );
    assert_eq!(
        refused(request(None, Some("1"), Some("5s")), Platform::Windows),
        None
    );
}

#[test]
fn a_bad_niceness_stops_the_launch() {
    let error = plan(
        &request(None, None, Some("1s")),
        1,
        NiceSetting::Text("20"),
    );
    assert_eq!(
        error.err().as_deref(),
        Some("WITH_LIMITS_NICE must be from 1 through 19, or off")
    );
}

#[test]
fn scripts_go_to_the_shell() {
    let script = || Some("exit 7".to_string());
    let line = |platform, shell, comspec| {
        words(&build_target_command(platform, script(), shell, comspec, Vec::new()).ok().unwrap())
    };
    assert_eq!(
        line(Platform::MacOs, None, None),
        ["</bin/zsh>", "<-c>", "<exit 7>"]
    );
    assert_eq!(
        line(Platform::Linux, None, Some("ignored")),
        ["</bin/sh>", "<-c>", "<exit 7>"]
    );
    assert_eq!(
        line(Platform::OtherUnix, Some("bash"), None),
        ["bash", "<-c>", "<exit 7>"]
    );
    assert_eq!(
        line(Platform::Windows, None, None),
        ["<cmd.exe>", "</D>", "</S>", "</C>", "<exit 7>"]
    );
    assert_eq!(
        line(Platform::Windows, None, Some("comspec")),
        ["comspec", "</D>", "</S>", "</C>", "<exit 7>"]
    );
    assert_eq!(
        line(Platform::Windows, Some("pwsh"), Some("comspec")),
        ["pwsh", "</D>", "</S>", "</C>", "<exit 7>"]
    );
    assert_eq!(default_unix_shell(Platform::MacOs), "/bin/zsh");
    assert_eq!(default_unix_shell(Platform::Linux), "/bin/sh");
}

#[test]
fn commands_are_called_as_they_stand() {
    let line = build_target_command(
        Platform::Linux,
        None,
        None,
        None,
        vec!["python", "-c", "print()"],
    );
    assert_eq!(
        words(&line.ok().unwrap()),
        ["python", "-c", "print()"]
    );
    let error = build_target_command::<&str>(Platform::Linux, None, None, None, Vec::new());
    assert_eq!(error.err().as_deref(), Some("missing command"));
}

#[test]
fn a_windows_command_is_launched_by_the_helper() {
    let target = build_target_command(Platform::Windows, None, None, None, vec!["tool", "a", "b"]);
    let wrapped = wrap_windows_command("with-limits.exe", target.ok().unwrap());
    assert_eq!(
        words(&wrapped),
        ["with-limits.exe", "<--internal-windows-launch-helper>", "tool", "a", "b"]
    );
    assert_eq!(windows_helper_switch(), "--internal-windows-launch-helper");
}

#[test]
fn commands_that_do_not_start_have_their_own_exit_codes() {
    assert_eq!(
        spawn_failure(SpawnFault::NotFound, "tool", "?"),
        (Some(EXIT_NOT_FOUND), "command not found: tool".to_string())
    );
    assert_eq!(
        spawn_failure(SpawnFault::PermissionDenied, "tool", "denied"),
        (
            Some(EXIT_CANNOT_INVOKE),
            "cannot invoke tool: denied".to_string()
        )
    );
    assert_eq!(
        spawn_failure(SpawnFault::Other, "tool", "no memory"),
        (None, "could not start command: no memory".to_string())
    );
    assert_eq!((EXIT_CANNOT_INVOKE, EXIT_NOT_FOUND), (126, 127));
}

#[test]
fn a_status_is_passed_on() {
    let status = |code, signal| ExitStatus { code, signal };
    assert_eq!(status_exit_code(Platform::Linux, status(Some(7), None)), 7);
    assert_eq!(status_exit_code(Platform::Linux, status(None, Some(9))), 137);
    assert_eq!(status_exit_code(Platform::MacOs, status(None, Some(15))), 143);
    assert_eq!(status_exit_code(Platform::Linux, status(None, None)), 125);
    assert_eq!(
        status_exit_code(Platform::Windows, status(Some(300), None)),
        300
    );
    assert_eq!(status_exit_code(Platform::Windows, status(None, None)), 125);
}

#[test]
fn the_summary_lists_the_limits() {
    let said = |platform, memory, cores, time, nice| {
        summary(false, true, platform, memory, cores, time, nice).unwrap()
    };
    assert_eq!(
        said(
            Platform::Linux,
            Some(8 << 30),
            Some("2"),
            Some("1800s"),
            Some(10)
        ),
        "memory 8.0 GiB (sampled), CPU 2 cores (sampled), time 1800s, niceness +10"
    );
    assert_eq!(
        said(Platform::Windows, None, Some("0.5"), None, Some(3)),
        "CPU 0.5 cores (native), priority below normal"
    );
    assert_eq!(said(Platform::MacOs, None, None, Some("5s"), None), "time 5s");
    assert_eq!(said(Platform::MacOs, None, None, None, None), "");
}

#[test]
fn the_summary_is_for_terminals_and_can_be_turned_off() {
    for (quiet, terminal) in [(true, true), (true, false), (false, false)] {
        assert_eq!(
            summary(quiet, terminal, Platform::Linux, Some(1), None, None, None),
            None
        );
    }
}
