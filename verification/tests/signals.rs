use with_limits::controller::{windows_cpu_rate, AttachError, Controller, Order};
use with_limits::signals::{
    forwarded_signals, reaction, signal_processes, Deed, Delivery, Fault, GroupReply, Reaction,
    Signal, SignalError, SignalRun, SignalStep,
};
use with_limits::{Binary64, Platform, ProcessIdentity};

fn targets(pids: &[u32]) -> Vec<ProcessIdentity> {
    pids.iter()
        .map(|pid| ProcessIdentity {
            pid: *pid,
            start_time: 1,
        })
        .collect()
}

/// Runs to the end; gives whom the signal went to, and the result.
fn drive(
    mut run: SignalRun,
    deliver: fn(i32) -> Delivery,
    group: fn(i32) -> GroupReply,
) -> (Vec<i32>, Result<(), SignalError>) {
    let mut sent = Vec::new();
    loop {
        match run.step() {
            SignalStep::Send(pid) => {
                sent.push(pid);
                run.sent(deliver(pid));
            }
            SignalStep::Inspect(pid) => run.inspected(group(pid)),
            SignalStep::Done(result) => return (sent, result),
        }
    }
}

fn all_well(_: i32) -> Delivery {
    Delivery::Delivered
}

fn own_groups(pid: i32) -> GroupReply {
    match pid {
        102 => GroupReply::Group(102),
        103 => GroupReply::NoSuchProcess,
        _ => GroupReply::Group(100),
    }
}

#[test]
fn signals_reach_the_group_and_those_that_left_it() {
    let run = signal_processes(100, targets(&[100, 101, 102, 103, 1, 0])).unwrap();
    assert_eq!(
        drive(run, all_well, own_groups),
        (vec![-100, 102, 103], Ok(()))
    );
}

#[test]
fn unsafe_groups_are_refused() {
    for group in [1, 0, -1, -100, i32::MIN] {
        let error = signal_processes(group, targets(&[100])).err().unwrap();
        assert_eq!(error, SignalError::UnsafeGroup(group));
        assert_eq!(
            error.message(),
            format!("refusing unsafe child process group {group}")
        );
    }
}

#[test]
fn where_the_group_cannot_be_signalled_each_process_is() {
    let run = signal_processes(100, targets(&[100, 101])).unwrap();
    let deliver = |pid| {
        if pid < 0 {
            Delivery::Refused(1)
        } else {
            Delivery::Delivered
        }
    };
    assert_eq!(
        drive(run, deliver, own_groups),
        (vec![-100, 100, 101], Ok(()))
    );
}

#[test]
fn a_group_that_cannot_be_signalled_is_an_error_where_nothing_else_was() {
    let deliver = |_| Delivery::Refused(1);
    let group_fault = Fault {
        target: -100,
        deed: Deed::Signal,
        errno: 1,
    };
    let run = signal_processes(100, targets(&[1])).unwrap();
    let (sent, result) = drive(run, deliver, own_groups);
    assert_eq!(sent, vec![-100]);
    assert_eq!(result, Err(SignalError::Refused(group_fault)));
    assert_eq!(
        result.unwrap_err().message(),
        "could not signal process target -100"
    );

    let run = signal_processes(100, targets(&[101])).unwrap();
    assert_eq!(
        drive(run, deliver, own_groups).1,
        Err(SignalError::Refused(Fault {
            target: 101,
            deed: Deed::Signal,
            errno: 1,
        }))
    );
}

#[test]
fn processes_that_are_gone_are_no_error() {
    let run = signal_processes(100, targets(&[100, 101])).unwrap();
    let group = |_| GroupReply::NoSuchProcess;
    assert_eq!(
        drive(run, |_| Delivery::NoSuchProcess, group),
        (vec![-100, 100, 101], Ok(()))
    );
}

#[test]
fn the_first_refusal_is_reported_after_all_were_tried() {
    let run = signal_processes(100, targets(&[101, 102, 104])).unwrap();
    let group = |pid| {
        if pid == 101 {
            GroupReply::Refused(13)
        } else {
            GroupReply::Group(7)
        }
    };
    let deliver = |pid| {
        if pid == 102 {
            Delivery::Refused(1)
        } else {
            Delivery::Delivered
        }
    };
    let (sent, result) = drive(run, deliver, group);
    assert_eq!(sent, vec![-100, 101, 102, 104]);
    let error = result.unwrap_err();
    assert_eq!(
        error,
        SignalError::Refused(Fault {
            target: 101,
            deed: Deed::Inspect,
            errno: 13,
        })
    );
    assert_eq!(error.message(), "could not inspect process target 101");
}

#[test]
fn numbers_that_signals_do_not_take_end_the_run() {
    let run = signal_processes(100, targets(&[102, 0x8000_0000, 104])).unwrap();
    let (sent, result) = drive(run, all_well, own_groups);
    assert_eq!(sent, vec![-100, 102]);
    let error = result.unwrap_err();
    assert_eq!(error, SignalError::PidTooLarge(0x8000_0000));
    assert_eq!(
        error.message(),
        "tracked PID is too large: out of range integral type conversion attempted"
    );
}

#[test]
fn signals_that_end_programs_end_the_command() {
    for signal in [
        Signal::Hangup,
        Signal::Interrupt,
        Signal::Quit,
        Signal::Terminate,
    ] {
        assert_eq!(reaction(signal), Reaction::EndCommand);
    }
    for signal in [
        Signal::User1,
        Signal::User2,
        Signal::WindowChange,
        Signal::Continue,
    ] {
        assert_eq!(reaction(signal), Reaction::GoOn);
    }
    assert_eq!(reaction(Signal::TerminalStop), Reaction::StopSelf);
    let forwarded = forwarded_signals();
    assert_eq!(forwarded.len(), 9);
    assert!(!forwarded.contains(&Signal::Kill));
    assert!(!forwarded.contains(&Signal::Stop));
}

#[test]
fn a_controller_signals_the_command_it_was_attached_to() {
    let mut controller = Controller::prepare(Platform::Linux);
    assert!(!controller.cpu_is_native());
    assert!(!controller.memory_is_native());
    assert!(controller.last_run().is_none());
    assert_eq!(
        controller.kill(&targets(&[100])).err(),
        Some(SignalError::UnsafeGroup(0))
    );
    assert_eq!(controller.attach(100, 50), Ok(()));
    assert_eq!(controller.pgid(), 100);
    controller.set_targets(&targets(&[100, 102]));
    assert_eq!(controller.targets(), targets(&[100, 102]));
    for (order, expected) in [
        (controller.terminate(&targets(&[102])), Signal::Terminate),
        (controller.kill(&targets(&[102])), Signal::Kill),
        (controller.suspend(&targets(&[102])), Signal::Stop),
        (controller.resume(&targets(&[102])), Signal::Continue),
    ] {
        match order.ok().unwrap() {
            Order::Signal { signal, run } => {
                assert_eq!(signal, expected);
                assert_eq!(drive(run, all_well, own_groups), (vec![-100, 102], Ok(())));
            }
            _ => panic!("no signal"),
        }
    }
    let last = controller.last_run().unwrap();
    assert_eq!(drive(last, all_well, own_groups), (vec![-100, 102], Ok(())));
    controller.disarm();
    assert!(controller.last_run().is_none());
}

#[test]
fn a_windows_job_is_ended_as_a_whole() {
    let mut controller = Controller::prepare(Platform::Windows);
    assert!(controller.cpu_is_native());
    assert!(!controller.memory_is_native());
    assert_eq!(controller.attach(0, 0), Ok(()));
    let none = targets(&[]);
    assert!(matches!(
        controller.terminate(&none),
        Ok(Order::EndJob { code: 1 })
    ));
    assert!(matches!(
        controller.kill(&none),
        Ok(Order::EndJob { code: 137 })
    ));
    assert!(matches!(controller.suspend(&none), Ok(Order::Nothing)));
    assert!(matches!(controller.resume(&none), Ok(Order::Nothing)));
    assert!(controller.last_run().is_none());
}

#[test]
fn only_a_proper_command_is_placed_under_control() {
    let attach = |child, supervisor| Controller::prepare(Platform::MacOs).attach(child, supervisor);
    assert_eq!(attach(0x8000_0000, 5), Err(AttachError::ChildTooLarge));
    assert_eq!(attach(1, 5), Err(AttachError::UnsafeGroup(1)));
    assert_eq!(attach(0, 5), Err(AttachError::UnsafeGroup(0)));
    assert_eq!(attach(9, u32::MAX), Err(AttachError::SupervisorTooLarge));
    let mut controller = Controller::prepare(Platform::MacOs);
    assert_eq!(controller.attach(9, 5), Ok(()));
    assert_eq!(controller.attach(9, 5), Err(AttachError::AlreadyAttached));
    for (error, words) in [
        (
            AttachError::ChildTooLarge,
            "child PID is too large: out of range integral type conversion attempted",
        ),
        (
            AttachError::UnsafeGroup(1),
            "refusing unsafe child process group 1",
        ),
        (
            AttachError::SupervisorTooLarge,
            "supervisor PID is too large: out of range integral type conversion attempted",
        ),
        (
            AttachError::AlreadyAttached,
            "signal forwarding is already attached",
        ),
    ] {
        assert_eq!(error.message(), words);
    }
}

#[test]
fn a_windows_job_is_held_to_a_share_of_all_processors() {
    let rate = |cores: f64, processors| {
        windows_cpu_rate(Binary64::from_bits(cores.to_bits()), processors)
    };
    assert_eq!(rate(1.0, 8), Ok(1_250));
    assert_eq!(rate(0.5, 3), Ok(1_666));
    assert_eq!(rate(16.0, 8), Ok(10_000));
    assert_eq!(rate(1.0, 0), Ok(10_000));
    assert_eq!(rate(f64::INFINITY, 4), Ok(10_000));
    assert_eq!(rate(f64::NAN, 4), Ok(10_000));
    assert_eq!(rate(0.01, 64), Ok(1));
    assert_eq!(
        rate(0.01, 128),
        Err("CPU limit is below the Windows Job Object resolution on this host".to_string())
    );
}
