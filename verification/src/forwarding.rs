//! The passing on of signals that the supervisor receives to the command's processes.
use crate::controller::{Controller, ControllerState, Order};
use crate::process_tree::{copy_of, ProcessIdentity};
use crate::signals::{
    fits_up_to, follows, is_forwarded, law_a_run_begins, law_every_target_is_reached, reaction,
    reaction_to, signal_processes, GroupReply, Reaction, Replies, RunState, Signal, SignalError,
    SignalPhase,
};
use vstd::prelude::*;

verus! {

/// A forwarder's state.
pub struct ForwarderState {
    /// The command's process group.
    pub pgid: i32,
    /// The processes that are known.
    pub targets: Seq<ProcessIdentity>,
    /// How many signals that end programs were passed on and not yet waited for.
    pub notices: nat,
}

impl ForwarderState {
    /// Whether something is what there is to be done for a signal that was received: it goes to
    /// the command's group and to the processes that are known.
    pub open spec fn is_forwarding(self, signal: Signal, r: Result<Order, SignalError>) -> bool {
        if self.pgid <= 1 {
            r == Err::<Order, SignalError>(SignalError::UnsafeGroup(self.pgid))
        } else {
            &&& r matches Ok(Order::Signal { signal: sent, run })
            &&& sent == signal
            &&& run@ == RunState::start(self.pgid, self.targets)
            &&& run@.wf()
        }
    }

    /// The forwarder once a signal was passed on: one that ends programs is noted.
    pub open spec fn after_forwarding(self, signal: Signal) -> ForwarderState {
        if reaction_to(signal) == Reaction::EndCommand && self.notices < u64::MAX {
            ForwarderState { notices: self.notices + 1, ..self }
        } else {
            self
        }
    }

    /// The forwarder once signals were passed on, one after the other.
    pub open spec fn after_all(self, signals: Seq<Signal>) -> ForwarderState
        decreases signals.len(),
    {
        if signals.len() == 0 {
            self
        } else {
            self.after_all(signals.drop_last()).after_forwarding(signals.last())
        }
    }

    /// The forwarder after a wait, and whether there was something to wait for.
    pub open spec fn after_wait(self) -> (ForwarderState, bool) {
        if self.notices > 0 {
            (ForwarderState { notices: (self.notices - 1) as nat, ..self }, true)
        } else {
            (self, false)
        }
    }
}

/// What passes signals on.
pub struct Forwarder {
    pgid: i32,
    targets: Vec<ProcessIdentity>,
    notices: u64,
}

impl View for Forwarder {
    type V = ForwarderState;

    closed spec fn view(&self) -> ForwarderState {
        ForwarderState {
            pgid: self.pgid,
            targets: self.targets@,
            notices: self.notices as nat,
        }
    }
}

impl Forwarder {
    /// A forwarder to the processes that are under control.
    pub fn attached(controller: &Controller) -> (r: Self)
        ensures
            r@ == (ForwarderState {
                pgid: controller@.pgid,
                targets: controller@.targets,
                notices: 0,
            }),
    {
        Forwarder { pgid: controller.pgid(), targets: controller.targets(), notices: 0 }
    }

    /// Takes in which processes there are.
    pub fn set_targets(&mut self, targets: &[ProcessIdentity])
        ensures
            final(self)@ == (ForwarderState { targets: targets@, ..old(self)@ }),
    {
        self.targets = copy_of(targets);
    }

    /// What there is to be done for a signal that was received.
    pub fn forward(&self, signal: Signal) -> (r: Result<Order, SignalError>)
        ensures
            self@.is_forwarding(signal, r),
    {
        match signal_processes(self.pgid, copy_of(self.targets.as_slice())) {
            Ok(run) => Ok(Order::Signal { signal, run }),
            Err(e) => Err(e),
        }
    }

    /// Takes in that a signal was passed on; says what the supervisor does then.
    pub fn forwarded(&mut self, signal: Signal) -> (r: Reaction)
        ensures
            r == reaction_to(signal),
            final(self)@ == old(self)@.after_forwarding(signal),
    {
        let r: Reaction = reaction(signal);
        if let Reaction::EndCommand = r {
            if self.notices < u64::MAX {
                self.notices = self.notices + 1;
            }
        }
        r
    }

    /// Whether a signal that ends programs was passed on; each counts for one wait.
    pub fn wait_for_forwarded_signal(&mut self) -> (r: bool)
        ensures
            (final(self)@, r) == old(self)@.after_wait(),
    {
        if self.notices > 0 {
            self.notices = self.notices - 1;
            true
        } else {
            false
        }
    }
}

/// Whether a signal is one of the four that end programs.
pub open spec fn ends_programs(signal: Signal) -> bool {
    ||| signal == Signal::Hangup
    ||| signal == Signal::Interrupt
    ||| signal == Signal::Quit
    ||| signal == Signal::Terminate
}

/// A signal that the supervisor receives and handles once a command is attached goes to the
/// command's group, to every target outside it, and to no one else. Where a target's number is
/// larger than signals take, that holds of the targets before it.
pub proof fn law_a_received_signal_is_passed_on(
    state: ControllerState,
    child: u32,
    supervisor: u32,
    f: ForwarderState,
    signal: Signal,
    order: Result<Order, SignalError>,
    r: Replies,
    s: RunState,
)
    requires
        !state.platform.is_windows(),
        state.attach(child, supervisor).1 is Ok,
        f.pgid == state.attach(child, supervisor).0.pgid,
        is_forwarded(signal),
        f.is_forwarding(signal, order),
        follows(r, s),
        s.phase == SignalPhase::Done,
        s.pgid == f.pgid,
        s.targets == f.targets,
    ensures
        order matches Ok(Order::Signal { signal: sent, run }) && sent == signal && run@
            == RunState::start(child as i32, f.targets) && follows(r, run@),
        s.sent.contains((-(child as int)) as i32),
        forall|i: int|
            0 <= i < f.targets.len() && fits_up_to(f.targets, i) && (#[trigger] f.targets[i]).pid
                > 1 && (r.group is Refused || (r.groups)(i) != GroupReply::Group(child as i32))
                ==> s.sent.contains(f.targets[i].pid as i32),
        forall|pid: i32| #[trigger]
            s.sent.contains(pid) ==> pid == -(child as int) || pid > 1 && exists|i: int|
                0 <= i < f.targets.len() && #[trigger] f.targets[i].pid == pid,
{
    law_a_run_begins(r, f.pgid, f.targets);
    law_every_target_is_reached(r, s);
}

/// What follows once a signal was passed on: the four that end programs are noted for one wait
/// each, the stop from the keyboard stops the supervisor too, and nothing more follows from the
/// others.
pub proof fn law_a_received_signal_is_answered(f: ForwarderState, signal: Signal)
    requires
        is_forwarded(signal),
        f.notices < u64::MAX,
    ensures
        reaction_to(signal) == Reaction::EndCommand <==> ends_programs(signal),
        reaction_to(signal) == Reaction::StopSelf <==> signal == Signal::TerminalStop,
        ends_programs(signal) ==> f.after_forwarding(signal).after_wait() == (f, true),
        !ends_programs(signal) ==> f.after_forwarding(signal) == f,
        f.notices == 0 ==> f.after_forwarding(signal).after_wait() == (f, ends_programs(signal)),
{
}

/// However many signals are passed on, those among them that end programs are all noted, each
/// for one wait.
pub proof fn law_each_wait_answers_one_signal(f: ForwarderState, signals: Seq<Signal>)
    requires
        f.notices + signals.filter(|s: Signal| ends_programs(s)).len() <= u64::MAX,
    ensures
        f.after_all(signals) == (ForwarderState {
            notices: f.notices + signals.filter(|s: Signal| ends_programs(s)).len(),
            ..f
        }),
    decreases signals.len(),
{
    reveal(Seq::filter);
    if signals.len() > 0 {
        law_each_wait_answers_one_signal(f, signals.drop_last());
    }
}

} // verus!
