use with_limits::controller::Order;
use with_limits::forwarding::Forwarder;
use with_limits::signals::{
    forwarded_signals, Delivery, GroupReply, Reaction, Signal, SignalError, SignalStep,
};
use with_limits::{Controller, Platform, ProcessIdentity};

fn targets(pids: &[u32]) -> Vec<ProcessIdentity> {
    pids.iter()
        .map(|pid| ProcessIdentity {
            pid: *pid,
            start_time: 1,
        })
        .collect()
}

fn attached() -> Forwarder {
    let mut controller = Controller::prepare(Platform::Linux);
    controller.attach(100, 50).unwrap();
    Forwarder::attached(&controller)
}

/// Passes a signal on, where the processes from 200 on have left the group; gives whom it went
/// to.
fn pass_on(forwarder: &Forwarder, signal: Signal) -> Vec<i32> {
    let mut run = match forwarder.forward(signal).ok().unwrap() {
        Order::Signal { signal: sent, run } => {
            assert_eq!(sent, signal);
            run
        }
        _ => panic!("no signal"),
    };
    let mut sent = Vec::new();
    loop {
        match run.step() {
            SignalStep::Send(pid) => {
                sent.push(pid);
                run.sent(Delivery::Delivered);
            }
            SignalStep::Inspect(pid) => {
                run.inspected(GroupReply::Group(if pid < 200 { 100 } else { pid }))
            }
            SignalStep::Done(_) => return sent,
        }
    }
}

#[test]
fn received_signals_go_to_the_group_and_to_targets_outside_it() {
    let mut forwarder = attached();
    for signal in forwarded_signals() {
        assert_eq!(pass_on(&forwarder, signal), [-100]);
    }
    forwarder.set_targets(&targets(&[300]));
    forwarder.set_targets(&targets(&[100, 101, 200, 1, 201]));
    for signal in forwarded_signals() {
        assert_eq!(pass_on(&forwarder, signal), [-100, 200, 201]);
    }
    forwarder.set_targets(&targets(&[200, 0x8000_0000, 201]));
    assert_eq!(pass_on(&forwarder, Signal::Hangup), [-100, 200]);
}

#[test]
fn signals_that_end_programs_are_waited_for_once() {
    for signal in forwarded_signals() {
        let mut forwarder = attached();
        let ends = [
            Signal::Hangup,
            Signal::Interrupt,
            Signal::Quit,
            Signal::Terminate,
        ]
        .contains(&signal);
        let expected = if ends {
            Reaction::EndCommand
        } else if signal == Signal::TerminalStop {
            Reaction::StopSelf
        } else {
            Reaction::GoOn
        };
        assert!(!forwarder.wait_for_forwarded_signal());
        assert_eq!(forwarder.forwarded(signal), expected);
        assert_eq!(forwarder.wait_for_forwarded_signal(), ends);
        assert!(!forwarder.wait_for_forwarded_signal());
    }
}

#[test]
fn each_wait_answers_one_signal() {
    let mut forwarder = attached();
    for signal in [
        Signal::Interrupt,
        Signal::User1,
        Signal::Terminate,
        Signal::TerminalStop,
        Signal::Quit,
    ] {
        forwarder.forwarded(signal);
    }
    for _ in 0..3 {
        assert!(forwarder.wait_for_forwarded_signal());
    }
    assert!(!forwarder.wait_for_forwarded_signal());
}

#[test]
fn nothing_is_passed_on_before_there_is_a_command() {
    let forwarder = Forwarder::attached(&Controller::prepare(Platform::Linux));
    assert_eq!(
        forwarder.forward(Signal::Terminate).err(),
        Some(SignalError::UnsafeGroup(0))
    );
}
