use with_limits::controller::Order;
use with_limits::signals::{
    reaction, signal_processes, Delivery, GroupReply, Reaction, Signal, SignalRun, SignalStep,
};
use with_limits::throttle::{sleep_slice, slept, ThrottleError};
use with_limits::controller::Control;
use with_limits::watch::{Action, Ending, Notice, Settings, Sighting, SupervisionError, Watch};
use with_limits::{
    supervise, Binary64, Controller, CpuLimit, Duration, ExitStatus, HumanDuration, MemorySpec,
    Platform, ProcessRecord, Supervisor,
};

/// A process of a simulated host.
#[derive(Clone)]
struct Process {
    pid: u32,
    parent: u32,
    group: i32,
    memory: u64,
    cpu: f64,
    /// Signals that it does not mind.
    ignores: Vec<Signal>,
    /// The exit code with which it answers a request to end, where it catches that.
    catches: Option<i32>,
    /// When it ends by itself, and with which exit code.
    exits: Option<(u64, i32)>,
    stopped: bool,
    ended: Option<ExitStatus>,
    reaped: bool,
    received: Vec<Signal>,
}

fn process(pid: u32, parent: u32, group: i32) -> Process {
    Process {
        pid,
        parent,
        group,
        memory: 1,
        cpu: 0.0,
        ignores: Vec::new(),
        catches: None,
        exits: None,
        stopped: false,
        ended: None,
        reaped: false,
        received: Vec::new(),
    }
}

/// A simulated host on which a command with the process number 100 runs.
struct Host {
    now: u64,
    processes: Vec<Process>,
    available: u64,
    measured: Vec<u64>,
    announced: Vec<String>,
    /// Signals that reach the supervisor, and when.
    signals: Vec<(u64, Signal)>,
    /// Whether the supervisor stopped itself.
    stopped_self: bool,
    /// When signals went out to the processes.
    sent: Vec<(u64, Signal)>,
    refuses: Vec<Signal>,
    hidden: bool,
    pauses: u64,
}

impl Host {
    fn new(processes: Vec<Process>) -> Host {
        Host {
            now: 0,
            processes,
            available: u64::MAX,
            measured: Vec::new(),
            announced: Vec::new(),
            signals: Vec::new(),
            stopped_self: false,
            sent: Vec::new(),
            refuses: Vec::new(),
            hidden: false,
            pauses: 0,
        }
    }

    fn process(&mut self, pid: u32) -> &mut Process {
        self.processes.iter_mut().find(|p| p.pid == pid).unwrap()
    }

    fn clock(&self) -> Duration {
        Duration::from_millis(self.now)
    }

    fn pass(&mut self, millis: u64) {
        self.now += millis;
        let now = self.now;
        for p in &mut self.processes {
            if let Some((at, code)) = p.exits {
                if p.ended.is_none() && !p.stopped && now >= at {
                    p.ended = Some(ExitStatus {
                        code: Some(code),
                        signal: None,
                    });
                }
            }
        }
    }

    fn wait(&mut self) -> Option<ExitStatus> {
        let root = self.process(100);
        root.reaped = root.ended.is_some();
        root.ended
    }

    fn table(&self) -> Vec<ProcessRecord> {
        self.processes
            .iter()
            .filter(|p| !(p.pid == 100 && self.hidden))
            .filter(|p| p.ended.is_none() || (p.pid == 100 && !p.reaped))
            .map(|p| ProcessRecord {
                pid: p.pid,
                parent: Some(p.parent),
                start_time: 5,
                memory: if p.ended.is_none() { p.memory } else { 0 },
                cpu: Binary64::from_bits(if p.stopped { 0 } else { p.cpu.to_bits() }),
            })
            .collect()
    }

    fn deliver(&mut self, target: i32, signal: Signal) -> Delivery {
        if self.refuses.contains(&signal) {
            return Delivery::Refused(1);
        }
        let mut reached = false;
        for p in &mut self.processes {
            let meant = if target < 0 {
                p.group == -target
            } else {
                p.pid as i32 == target
            };
            if !meant || p.ended.is_some() {
                continue;
            }
            reached = true;
            p.received.push(signal);
            match signal {
                Signal::Stop => p.stopped = true,
                Signal::TerminalStop => p.stopped = true,
                Signal::Continue => p.stopped = false,
                Signal::Kill => {
                    p.ended = Some(ExitStatus {
                        code: None,
                        signal: Some(9),
                    })
                }
                Signal::User1 | Signal::User2 | Signal::WindowChange => {}
                _ if p.ignores.contains(&signal) => {}
                _ => {
                    p.ended = Some(match p.catches {
                        Some(code) => ExitStatus {
                            code: Some(code),
                            signal: None,
                        },
                        None => ExitStatus {
                            code: None,
                            signal: Some(15),
                        },
                    })
                }
            }
        }
        if reached {
            Delivery::Delivered
        } else {
            Delivery::NoSuchProcess
        }
    }

    fn signal(&mut self, signal: Signal, mut run: SignalRun) -> bool {
        self.sent.push((self.now, signal));
        loop {
            match run.step() {
                SignalStep::Send(target) => run.sent(self.deliver(target, signal)),
                SignalStep::Inspect(pid) => {
                    let group = self
                        .processes
                        .iter()
                        .find(|p| p.pid as i32 == pid && p.ended.is_none())
                        .map(|p| p.group);
                    run.inspected(match group {
                        Some(group) => GroupReply::Group(group),
                        None => GroupReply::NoSuchProcess,
                    })
                }
                SignalStep::Done(result) => return result.is_ok(),
            }
        }
    }

    /// Passes signals on as they come; says whether one of them ends programs.
    fn wait_for_signal(&mut self, supervisor: &Supervisor, at_most: u64) -> bool {
        let until = self.now + at_most;
        while let Some(i) = self.signals.iter().position(|(at, _)| *at <= until) {
            let (at, signal) = self.signals.remove(i);
            let gap = at.saturating_sub(self.now);
            self.pass(gap);
            let run = signal_processes(100, supervisor.targets()).ok().unwrap();
            self.signal(signal, run);
            match reaction(signal) {
                Reaction::EndCommand => return true,
                Reaction::StopSelf => self.stopped_self = true,
                Reaction::GoOn => {}
            }
        }
        let gap = until - self.now;
        self.pass(gap);
        false
    }

    fn run(&mut self, settings: Settings) -> (Ending<Duration>, Supervisor) {
        let mut controller = Controller::prepare(settings.platform);
        controller.attach(100, 50).unwrap();
        let mut supervisor = supervise(settings, controller, 100);
        for _ in 0..100_000 {
            match supervisor.action() {
                Action::Look { inspect } => {
                    self.pass(1);
                    let status = if inspect { self.wait() } else { None };
                    supervisor.looked(status, &self.table(), self.clock());
                }
                Action::Recheck => {
                    let status = self.wait();
                    supervisor.rechecked(status);
                }
                Action::Measure => {
                    self.measured.push(self.now);
                    supervisor.measured(self.available, self.clock());
                }
                Action::Announce(notice) => {
                    self.announced.push(notice.message());
                    supervisor.done(self.clock());
                }
                Action::Control(_) => match supervisor.order() {
                    Ok(Order::Signal { signal, run }) => {
                        if self.signal(signal, run) {
                            supervisor.done(self.clock());
                        } else {
                            supervisor.failed();
                        }
                    }
                    Ok(Order::EndJob { code }) => {
                        for p in &mut self.processes {
                            p.ended = Some(ExitStatus {
                                code: Some(code as i32),
                                signal: None,
                            });
                        }
                        supervisor.done(self.clock());
                    }
                    Ok(Order::Nothing) => supervisor.done(self.clock()),
                    Err(_) => supervisor.failed(),
                },
                Action::Pause(pause) => {
                    let started = self.now;
                    let past = |now: u64| match settings.time {
                        Some(limit) => !Duration::from_millis(now).shorter_than(limit),
                        None => false,
                    };
                    while let Some(slice) = sleep_slice(
                        pause,
                        Duration::from_millis(self.now - started),
                        past(self.now),
                    ) {
                        self.pass(slice.subsec_nanos() as u64 / 1_000_000);
                    }
                    self.pauses += self.now - started;
                    let counted = slept(Duration::from_millis(self.now - started), pause);
                    supervisor.slept(counted, self.clock());
                }
                Action::Sleep(span) => {
                    self.pass(span.subsec_nanos() as u64 / 1_000_000);
                    supervisor.slept(span, self.clock());
                }
                Action::Wait(span) => {
                    let millis = span.as_secs() * 1_000 + span.subsec_nanos() as u64 / 1_000_000;
                    let signalled = self.wait_for_signal(&supervisor, millis);
                    supervisor.waited(signalled, self.clock());
                }
                Action::End(ending) => return (ending, supervisor),
            }
        }
        panic!("the watch does not end");
    }

    fn exit_code(&mut self, settings: Settings) -> i32 {
        let platform = settings.platform;
        self.run(settings).0.exit_code(platform)
    }

    fn running(&self) -> usize {
        self.processes.iter().filter(|p| p.ended.is_none()).count()
    }
}

fn span(text: &str) -> Duration {
    text.parse::<HumanDuration>().unwrap().0
}

fn settings(time: &str) -> Settings {
    Settings {
        platform: Platform::Linux,
        memory: None,
        reserve: None,
        cpu: None,
        time: Some(span(time)),
        kill_after: span("2s"),
        poll_interval: span("250ms"),
        first_pause: span("210ms"),
    }
}

fn bytes(text: &str) -> u64 {
    text.parse::<MemorySpec>().unwrap().resolve(0)
}

fn command() -> Process {
    process(100, 50, 100)
}

#[test]
fn preserves_the_command_exit_code() {
    let mut root = command();
    root.exits = Some((40, 7));
    assert_eq!(Host::new(vec![root]).exit_code(settings("5s")), 7);
}

#[test]
fn preserves_a_short_commands_status_past_its_deadline() {
    let mut root = command();
    root.exits = Some((50, 7));
    let mut host = Host::new(vec![root]);
    let code = host.exit_code(Settings {
        poll_interval: span("3s"),
        ..settings("2s")
    });
    assert_eq!(code, 7);
    assert!(host.now > 2_000);
    assert!(host.announced.is_empty());
}

#[test]
fn returns_124_when_time_expires() {
    let mut root = command();
    root.ignores = vec![Signal::Terminate];
    let mut host = Host::new(vec![root]);
    let code = host.exit_code(Settings {
        kill_after: span("100ms"),
        ..settings("100ms")
    });
    assert_eq!(code, 124);
    assert!(host.now < 5_000);
    assert_eq!(host.announced, ["time limit exceeded"]);
    assert_eq!(host.running(), 0);
}

#[test]
fn memory_limit_stops_a_resident_workload() {
    let mut root = command();
    root.memory = bytes("64MiB");
    let mut host = Host::new(vec![root]);
    let code = host.exit_code(Settings {
        memory: Some(bytes("24MiB")),
        kill_after: span("100ms"),
        poll_interval: span("25ms"),
        ..settings("5s")
    });
    assert_eq!(code, 137);
    assert_eq!(
        host.announced,
        ["memory limit exceeded (64.0 MiB > 24.0 MiB)"]
    );
    assert!(host.now < 5_000);
}

#[test]
fn terminates_a_descendant_that_creates_its_own_session() {
    let mut escaped = process(200, 100, 200);
    escaped.exits = Some((20_000, 0));
    let mut root = command();
    root.exits = Some((10_000, 0));
    let mut host = Host::new(vec![root, escaped]);
    let code = host.exit_code(Settings {
        kill_after: span("100ms"),
        ..settings("750ms")
    });
    assert_eq!(code, 124);
    assert!(host.process(200).ended.is_some());
}

#[test]
fn requests_graceful_termination_before_forcing_the_tree() {
    let mut root = command();
    root.catches = Some(23);
    let mut host = Host::new(vec![root]);
    let code = host.exit_code(Settings {
        poll_interval: span("25ms"),
        ..settings("250ms")
    });
    assert_eq!(code, 124);
    assert_eq!(host.process(100).received, [Signal::Terminate]);
    assert_eq!(host.process(100).ended.unwrap().code, Some(23));
}

#[test]
fn forwards_external_termination_signals_to_the_command() {
    let mut root = command();
    root.catches = Some(23);
    let mut host = Host::new(vec![root]);
    host.signals = vec![(300, Signal::Terminate)];
    let code = host.exit_code(Settings {
        kill_after: span("500ms"),
        poll_interval: span("25ms"),
        ..settings("5s")
    });
    assert_eq!(code, 23);
    assert_eq!(host.process(100).received, [Signal::Terminate]);
}

fn assert_forces_ignored_signal(signal: Signal) {
    let mut root = command();
    root.ignores = vec![signal];
    let mut host = Host::new(vec![root]);
    host.signals = vec![(400, signal)];
    let code = host.exit_code(Settings {
        kill_after: span("100ms"),
        poll_interval: span("3s"),
        ..settings("10s")
    });
    assert_eq!(code, 137);
    assert!(host.now < 400 + 2_000);
    assert_eq!(host.running(), 0);
    assert_eq!(host.process(100).received, [signal, Signal::Kill]);
    assert_eq!(host.sent[0], (400, signal));
    assert!(host.sent[1].0 >= 500);
}

#[test]
fn forces_an_externally_terminated_command_that_ignores_sigterm() {
    assert_forces_ignored_signal(Signal::Terminate);
}

#[test]
fn forces_an_externally_terminated_command_that_ignores_sigquit() {
    assert_forces_ignored_signal(Signal::Quit);
}

#[test]
fn forwards_application_signals_without_starting_termination() {
    let mut root = command();
    root.catches = Some(23);
    let mut host = Host::new(vec![root]);
    host.signals = vec![
        (100, Signal::User1),
        (110, Signal::User2),
        (120, Signal::WindowChange),
        (1_000, Signal::Terminate),
    ];
    let code = host.exit_code(Settings {
        kill_after: span("100ms"),
        poll_interval: span("3s"),
        ..settings("5s")
    });
    assert_eq!(code, 23);
    assert_eq!(
        host.process(100).received,
        [
            Signal::User1,
            Signal::User2,
            Signal::WindowChange,
            Signal::Terminate
        ]
    );
    assert!(host.now >= 1_000);
}

#[test]
fn forwards_job_control_to_the_command_tree() {
    let mut root = command();
    root.catches = Some(23);
    let mut host = Host::new(vec![root, process(101, 100, 101)]);
    host.process(101).catches = Some(0);
    host.signals = vec![
        (100, Signal::TerminalStop),
        (200, Signal::Continue),
        (300, Signal::Terminate),
    ];
    let code = host.exit_code(Settings {
        poll_interval: span("25ms"),
        ..settings("5s")
    });
    assert_eq!(code, 23);
    assert!(host.stopped_self);
    let all = [Signal::TerminalStop, Signal::Continue, Signal::Terminate];
    assert_eq!(host.process(100).received, all);
    assert_eq!(host.process(101).received, all);
}

#[test]
fn accepts_combined_resource_limits() {
    let mut root = command();
    root.exits = Some((300, 0));
    let mut host = Host::new(vec![root]);
    host.available = 10_000;
    let code = host.exit_code(Settings {
        memory: Some(7_000),
        reserve: Some(3_000),
        cpu: Some("1".parse::<CpuLimit>().unwrap().0),
        ..settings("5s")
    });
    assert_eq!(code, 0);
    assert!(host.announced.is_empty());
}

#[test]
fn a_crossed_reserve_stops_the_command() {
    let mut host = Host::new(vec![command()]);
    host.available = 2_999;
    let (ending, supervisor) = host.run(Settings {
        memory: Some(7_000),
        reserve: Some(3_000),
        ..settings("5s")
    });
    assert!(matches!(
        ending,
        Ending::Limit(Notice::HostReserve {
            available: 2_999,
            reserve: 3_000
        })
    ));
    assert_eq!(ending.exit_code(Platform::Linux), 137);
    assert_eq!(
        host.announced,
        ["host memory reserve crossed (2.9 KiB available < 2.9 KiB reserved)"]
    );
    assert!(supervisor.last_run().is_none());
}

#[test]
fn the_reserve_is_measured_once_a_second() {
    let mut host = Host::new(vec![command()]);
    host.available = 3_000;
    let code = host.exit_code(Settings {
        reserve: Some(3_000),
        poll_interval: span("100ms"),
        ..settings("5s")
    });
    assert_eq!(code, 124);
    assert_eq!(host.measured.len(), 6);
    assert!(host.measured.windows(2).all(|w| w[1] - w[0] >= 1_000));
}

#[test]
fn a_command_without_a_reserve_is_not_measured() {
    let mut host = Host::new(vec![command()]);
    host.available = 0;
    let code = host.exit_code(Settings {
        reserve: Some(0),
        ..settings("1s")
    });
    assert_eq!(code, 124);
    assert!(host.measured.is_empty());
}

#[test]
fn a_busy_command_is_paused_to_its_allowance() {
    let mut root = command();
    root.cpu = 200.0;
    let mut host = Host::new(vec![root]);
    let code = host.exit_code(Settings {
        cpu: Some("0.5".parse::<CpuLimit>().unwrap().0),
        poll_interval: span("100ms"),
        ..settings("20s")
    });
    assert_eq!(code, 124);
    assert!(!host.process(100).stopped || host.process(100).ended.is_some());
    let stops = host.sent.iter().filter(|s| s.1 == Signal::Stop).count();
    let goes = host.sent.iter().filter(|s| s.1 == Signal::Continue).count();
    assert_eq!(stops, goes);
    assert!(host.pauses > 14_000, "{}", host.pauses);
}

#[test]
fn an_idle_command_is_only_paused_for_its_first_sample() {
    let mut root = command();
    root.cpu = 40.0;
    let mut host = Host::new(vec![root]);
    let code = host.exit_code(Settings {
        cpu: Some("0.5".parse::<CpuLimit>().unwrap().0),
        ..settings("3s")
    });
    assert_eq!(code, 124);
    assert_eq!(host.pauses, 210);
    let signals: Vec<Signal> = host.sent.iter().map(|s| s.1).collect();
    assert_eq!(
        signals,
        [Signal::Stop, Signal::Continue, Signal::Terminate]
    );
}

#[test]
fn a_command_that_cannot_be_stopped_goes_on_and_is_given_up() {
    let mut host = Host::new(vec![command()]);
    host.refuses = vec![Signal::Stop];
    let (ending, supervisor) = host.run(Settings {
        cpu: Some("1".parse::<CpuLimit>().unwrap().0),
        ..settings("5s")
    });
    assert!(matches!(ending, Ending::Aborted));
    assert_eq!(ending.exit_code(Platform::Linux), 125);
    let signals: Vec<Signal> = host.sent.iter().map(|s| s.1).collect();
    assert_eq!(signals, [Signal::Stop, Signal::Continue]);
    let run = supervisor.last_run().unwrap();
    host.signal(Signal::Kill, run);
    assert_eq!(host.running(), 0);
}

/// A watch over a busy command that is about to be paused for a second, of three that are owed.
fn watch_before_a_pause() -> Watch {
    let mut watch = Watch::new(Settings {
        cpu: Some("1".parse::<CpuLimit>().unwrap().0),
        ..settings("60s")
    });
    let seen = Sighting {
        rss: 1,
        cpu: Binary64::from_bits(400.0_f64.to_bits()),
        count: 1,
        observed: true,
    };
    let start = Duration::zero();
    watch.looked(None, seen, start);
    watch.done(start);
    watch.slept(span("210ms"), start);
    watch.looked(None, seen, start);
    watch.done(start);
    watch.waited(false, start);
    watch.looked(None, seen, Duration::from_secs(1));
    assert!(matches!(watch.action(), Action::Control(Control::Suspend)));
    assert_eq!(watch.pause_debt(), Duration::from_secs(3));
    watch
}

#[test]
fn a_pause_counts_though_its_processes_cannot_go_on() {
    let mut watch = watch_before_a_pause();
    let now = Duration::from_secs(2);
    watch.done(now);
    assert!(matches!(watch.action(), Action::Pause(d) if d == Duration::from_secs(1)));
    watch.slept(Duration::from_millis(900), now);
    assert!(matches!(watch.action(), Action::Control(Control::Resume)));
    watch.failed();
    assert!(matches!(watch.action(), Action::End(Ending::Aborted)));
    assert_eq!(watch.pause_debt(), Duration::from_millis(2_100));

    let mut watch = watch_before_a_pause();
    watch.done(now);
    watch.slept(Duration::from_secs(1), now);
    watch.done(now);
    assert!(matches!(watch.action(), Action::Wait(d) if d.is_zero()));
    assert_eq!(watch.pause_debt(), Duration::from_secs(2));
}

#[test]
fn nothing_is_paid_where_the_processes_cannot_be_stopped() {
    let mut watch = watch_before_a_pause();
    watch.failed();
    assert!(matches!(watch.action(), Action::Control(Control::Resume)));
    watch.done(Duration::from_secs(2));
    assert!(matches!(watch.action(), Action::End(Ending::Aborted)));
    assert_eq!(watch.pause_debt(), Duration::from_secs(3));
}

#[test]
fn a_sample_that_is_no_number_is_a_failure() {
    let mut root = command();
    root.cpu = f64::NAN;
    let mut host = Host::new(vec![root]);
    let (ending, supervisor) = host.run(Settings {
        cpu: Some("1".parse::<CpuLimit>().unwrap().0),
        ..settings("5s")
    });
    match ending {
        Ending::Failed(e) => {
            assert_eq!(e, SupervisionError::Throttle(ThrottleError::Interval));
            assert_eq!(e.message(), ThrottleError::Interval.message());
        }
        _ => panic!("no failure"),
    }
    assert!(supervisor.last_run().is_some());
}

#[test]
fn a_command_that_cannot_be_seen_is_looked_for_again() {
    let mut host = Host::new(vec![command()]);
    host.hidden = true;
    let (ending, supervisor) = host.run(settings("5s"));
    match ending {
        Ending::Failed(e) => {
            assert_eq!(e, SupervisionError::Unobserved);
            assert_eq!(
                e.message(),
                "could not observe the running command in the process table"
            );
        }
        _ => panic!("no failure"),
    }
    assert_eq!(ending.exit_code(Platform::Linux), 125);
    assert!(supervisor.last_run().is_some());
    assert_eq!(supervisor.status(), None);
}

#[test]
fn a_command_is_over_when_nothing_of_it_is_left() {
    let mut root = command();
    root.exits = Some((100, 3));
    let mut orphan = process(101, 100, 100);
    orphan.exits = Some((2_000, 0));
    let mut host = Host::new(vec![root.clone(), orphan.clone()]);
    assert_eq!(host.exit_code(settings("5s")), 3);
    assert!(host.now >= 2_000);

    let mut host = Host::new(vec![root.clone(), orphan.clone()]);
    assert_eq!(host.exit_code(settings("1s")), 124);
    assert!(host.now < 2_000);

    let mut host = Host::new(vec![root, orphan]);
    host.signals = vec![(500, Signal::Interrupt)];
    assert_eq!(host.exit_code(settings("5s")), 3);
    assert!(host.now < 2_000);
}

#[test]
fn a_windows_command_is_over_when_it_ends() {
    let mut root = command();
    root.exits = Some((100, 300));
    let mut host = Host::new(vec![root, process(101, 100, 100)]);
    let code = host.exit_code(Settings {
        platform: Platform::Windows,
        cpu: Some("1".parse::<CpuLimit>().unwrap().0),
        ..settings("5s")
    });
    assert_eq!(code, 300);
    assert_eq!(host.pauses, 0);

    let mut host = Host::new(vec![command()]);
    let code = host.exit_code(Settings {
        platform: Platform::Windows,
        ..settings("1s")
    });
    assert_eq!(code, 124);
    assert_eq!(host.process(100).ended.unwrap().code, Some(1));
}

#[test]
fn processes_left_after_killing_are_a_failure() {
    let mut host = Host::new(vec![command()]);
    host.refuses = Vec::new();
    let mut controller = Controller::prepare(Platform::Linux);
    controller.attach(100, 50).unwrap();
    let mut supervisor = supervise(settings("1s"), controller, 100);
    let table = host.table();
    let mut now = Duration::from_secs(1);
    supervisor.looked(None, &table, now);
    assert!(matches!(
        supervisor.action(),
        Action::Announce(Notice::TimeLimit { .. })
    ));
    supervisor.done(now);
    assert_eq!(supervisor.failure_context(), "");
    supervisor.looked(None, &table, now);
    supervisor.done(now);
    assert_eq!(
        supervisor.failure_context(),
        "could not inspect command during termination"
    );
    supervisor.looked(None, &table, now);
    assert!(matches!(supervisor.action(), Action::Sleep(d) if d == Duration::from_millis(25)));
    now = Duration::from_secs(3);
    supervisor.slept(Duration::from_millis(25), now);
    supervisor.done(now);
    assert_eq!(
        supervisor.failure_context(),
        "could not inspect command after forced termination"
    );
    supervisor.looked(None, &table, now);
    now = Duration::from_secs(5);
    supervisor.slept(Duration::from_millis(25), now);
    match supervisor.action() {
        Action::End(Ending::Failed(e)) => {
            assert_eq!(e, SupervisionError::StillThere(1));
            assert_eq!(
                e.message(),
                "process tree still contains 1 process(es) after forced termination"
            );
        }
        _ => panic!("no failure"),
    }
    assert!(supervisor.last_run().is_some());
}

#[test]
fn times_past_the_end_of_the_clock_are_failures() {
    let end = Duration::new(u64::MAX, 999_999_999);
    let host = Host::new(vec![command()]);
    let start = |settings| {
        let mut controller = Controller::prepare(Platform::Linux);
        controller.attach(100, 50).unwrap();
        supervise(settings, controller, 100)
    };
    let failure = |supervisor: &Supervisor| match supervisor.action() {
        Action::End(Ending::Failed(e)) => e,
        _ => panic!("no failure"),
    };

    let mut supervisor = start(Settings {
        reserve: Some(1),
        ..settings("1s")
    });
    supervisor.looked(None, &host.table(), Duration::zero());
    supervisor.measured(5, end);
    assert_eq!(failure(&supervisor), SupervisionError::MemorySchedule);
    assert_eq!(
        failure(&supervisor).message(),
        "platform clock cannot schedule memory sampling"
    );

    let mut supervisor = start(settings("1s"));
    supervisor.looked(None, &host.table(), Duration::zero());
    supervisor.waited(true, end);
    assert_eq!(failure(&supervisor), SupervisionError::GraceTooLong);
    assert_eq!(
        failure(&supervisor).message(),
        "termination grace period is too large"
    );

    let mut supervisor = start(settings("1s"));
    supervisor.looked(None, &host.table(), Duration::zero());
    supervisor.waited(true, Duration::zero());
    supervisor.looked(None, &host.table(), Duration::zero());
    supervisor.slept(Duration::zero(), end);
    supervisor.done(end);
    assert_eq!(failure(&supervisor), SupervisionError::VerificationSchedule);
}

#[test]
fn what_cannot_be_inspected_is_given_up() {
    let mut controller = Controller::prepare(Platform::Linux);
    controller.attach(100, 50).unwrap();
    let mut supervisor = supervise(settings("1s"), controller, 100);
    assert_eq!(
        supervisor.failure_context(),
        "could not inspect command status"
    );
    supervisor.looked(None, &[], Duration::zero());
    assert!(matches!(supervisor.action(), Action::Recheck));
    assert_eq!(
        supervisor.failure_context(),
        "could not recheck an unobserved command"
    );
    supervisor.failed();
    assert!(matches!(supervisor.action(), Action::End(Ending::Aborted)));
}
