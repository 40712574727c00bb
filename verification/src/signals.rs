//! Signals to a command's processes, and those that are passed on to it.
use crate::process_tree::ProcessIdentity;
use crate::quantities::law_decimals_read_as_themselves;
use crate::reading::law_whole_numbers_with_a_sign;
use crate::text::{decimal, push_decimal, signed, IntegerFault};
use vstd::prelude::*;
use vstd::string::StringExecFns;

verus! {

/// A signal.
#[derive(Clone, Copy, Debug, PartialEq, Eq, Structural)]
pub enum Signal {
    /// The terminal is gone.
    Hangup,
    /// An interruption from the keyboard.
    Interrupt,
    /// A quit from the keyboard.
    Quit,
    /// A request to end.
    Terminate,
    /// An end that cannot be refused.
    Kill,
    /// A stop that cannot be refused.
    Stop,
    /// A stop from the keyboard.
    TerminalStop,
    /// The end of a stop.
    Continue,
    /// The first signal that programs give a meaning of their own.
    User1,
    /// The second signal that programs give a meaning of their own.
    User2,
    /// The window has another size.
    WindowChange,
}

/// What the supervisor does once it has passed a signal on.
#[derive(Clone, Copy, Debug, PartialEq, Eq, Structural)]
pub enum Reaction {
    /// It sees that the command ends.
    EndCommand,
    /// It stops itself.
    StopSelf,
    /// It goes on.
    GoOn,
}

/// Whether the supervisor passes a signal on to the command.
pub open spec fn is_forwarded(signal: Signal) -> bool {
    signal != Signal::Kill && signal != Signal::Stop
}

/// What the supervisor does once it has passed a signal on: a signal that ends programs ends
/// the command, a stop from the keyboard stops the supervisor too.
pub open spec fn reaction_to(signal: Signal) -> Reaction {
    match signal {
        Signal::Hangup | Signal::Interrupt | Signal::Quit | Signal::Terminate => {
            Reaction::EndCommand
        },
        Signal::TerminalStop => Reaction::StopSelf,
        _ => Reaction::GoOn,
    }
}

/// The signals that the supervisor passes on.
pub fn forwarded_signals() -> (r: Vec<Signal>)
    ensures
        forall|signal: Signal| r@.contains(signal) == is_forwarded(signal),
        r@.no_duplicates(),
{
    let mut r: Vec<Signal> = Vec::new();
    r.push(Signal::Hangup);
    r.push(Signal::Interrupt);
    r.push(Signal::Quit);
    r.push(Signal::Terminate);
    r.push(Signal::User1);
    r.push(Signal::User2);
    r.push(Signal::WindowChange);
    r.push(Signal::TerminalStop);
    r.push(Signal::Continue);
    proof {
        assert(r@[0] == Signal::Hangup && r@[1] == Signal::Interrupt && r@[2] == Signal::Quit
            && r@[3] == Signal::Terminate && r@[4] == Signal::User1 && r@[5] == Signal::User2
            && r@[6] == Signal::WindowChange && r@[7] == Signal::TerminalStop && r@[8]
            == Signal::Continue);
    }
    r
}

/// What the supervisor does once it has passed a signal on.
pub fn reaction(signal: Signal) -> (r: Reaction)
    ensures
        r == reaction_to(signal),
{
    match signal {
        Signal::Hangup | Signal::Interrupt | Signal::Quit | Signal::Terminate => {
            Reaction::EndCommand
        },
        Signal::TerminalStop => Reaction::StopSelf,
        _ => Reaction::GoOn,
    }
}

/// How the sending of a signal went.
#[derive(Clone, Copy, Debug, PartialEq, Eq, Structural)]
pub enum Delivery {
    /// The signal was sent.
    Delivered,
    /// There is no such process any more.
    NoSuchProcess,
    /// The system refused, with this error number.
    Refused(i32),
}

/// The answer to the question for a process's group.
#[derive(Clone, Copy, Debug, PartialEq, Eq, Structural)]
pub enum GroupReply {
    /// The process belongs to this group.
    Group(i32),
    /// There is no such process any more.
    NoSuchProcess,
    /// The system refused, with this error number.
    Refused(i32),
}

/// What was being done when the system refused.
#[derive(Clone, Copy, Debug, PartialEq, Eq, Structural)]
pub enum Deed {
    /// The sending of a signal.
    Signal,
    /// The question for a group.
    Inspect,
}

/// A refusal by the system.
#[derive(Clone, Copy, Debug, PartialEq, Eq, Structural)]
pub struct Fault {
    /// The process, or the group with a minus sign.
    pub target: i32,
    /// What was being done.
    pub deed: Deed,
    /// The system's error number.
    pub errno: i32,
}

/// Why a signal did not reach the command.
#[derive(Clone, Copy, Debug, PartialEq, Eq, Structural)]
pub enum SignalError {
    /// The group is not one that a command can have.
    UnsafeGroup(i32),
    /// A process number is larger than signals take.
    PidTooLarge(u32),
    /// The system refused.
    Refused(Fault),
}

/// A whole number with its sign.
pub open spec fn signed_decimal(n: int) -> Seq<char> {
    if n < 0 {
        "-"@ + decimal((-n) as nat)
    } else {
        decimal(n as nat)
    }
}

/// Writes a whole number with its sign at the end of a text.
pub(crate) fn push_signed(text: &mut String, n: i32)
    ensures
        final(text)@ == old(text)@ + signed_decimal(n as int),
{
    let wide: i64 = n as i64;
    if wide < 0 {
        text.append("-");
        push_decimal(text, (-wide) as u64);
    } else {
        push_decimal(text, wide as u64);
    }
    proof {
        assert(text@ =~= old(text)@ + signed_decimal(n as int));
    }
}

impl SignalError {
    /// The error in words, without the system's own.
    pub open spec fn words(self) -> Seq<char> {
        match self {
            SignalError::UnsafeGroup(group) => "refusing unsafe child process group "@
                + signed_decimal(group as int),
            SignalError::PidTooLarge(
                _,
            ) => "tracked PID is too large: out of range integral type conversion attempted"@,
            SignalError::Refused(fault) => match fault.deed {
                Deed::Signal => "could not signal process target "@ + signed_decimal(
                    fault.target as int,
                ),
                Deed::Inspect => "could not inspect process target "@ + signed_decimal(
                    fault.target as int,
                ),
            },
        }
    }

    /// The error in words, without the system's own.
    pub fn message(self) -> (text: String)
        ensures
            text@ == self.words(),
    {
        let mut text: String = String::new();
        match self {
            SignalError::UnsafeGroup(group) => {
                text.append("refusing unsafe child process group ");
                push_signed(&mut text, group);
            },
            SignalError::PidTooLarge(_) => {
                text.append(
                    "tracked PID is too large: out of range integral type conversion attempted",
                );
            },
            SignalError::Refused(fault) => {
                match fault.deed {
                    Deed::Signal => {
                        text.append("could not signal process target ");
                    },
                    Deed::Inspect => {
                        text.append("could not inspect process target ");
                    },
                }
                push_signed(&mut text, fault.target);
            },
        }
        proof {
            assert(text@ =~= self.words());
        }
        text
    }
}

/// What a run is waiting for.
#[derive(Clone, Copy, Debug, PartialEq, Eq, Structural)]
pub enum SignalPhase {
    /// The signal goes to the group.
    Group,
    /// The question for the next target's group.
    Inspect,
    /// The signal goes to the next target.
    Send,
    /// Every target has been seen to.
    Done,
}

/// A run's state: the targets seen to so far, and what came of them.
pub struct RunState {
    pub pgid: i32,
    pub targets: Seq<ProcessIdentity>,
    pub index: int,
    pub group_fault: Option<Fault>,
    pub first_fault: Option<Fault>,
    pub reached_one: bool,
    pub phase: SignalPhase,
    /// Whom the signal was sent to, in order.
    pub sent: Seq<i32>,
}

/// What to do next.
#[derive(Clone, Copy, Debug, PartialEq, Eq)]
pub enum SignalStep {
    /// Send the signal to this process, or to this group where there is a minus sign.
    Send(i32),
    /// Ask for this process's group.
    Inspect(i32),
    /// Nothing more: the run is over.
    Done(Result<(), SignalError>),
}

/// A process number that signals take.
pub open spec fn fits(pid: u32) -> bool {
    pid <= 0x7fff_ffff
}

/// Goes on to the next target that a signal may go to.
pub open spec fn settled(s: RunState) -> RunState
    decreases s.targets.len() - s.index,
{
    if s.index < 0 || s.index >= s.targets.len() || !fits(s.targets[s.index].pid) {
        RunState { phase: SignalPhase::Done, ..s }
    } else if s.targets[s.index].pid <= 1 {
        settled(RunState { index: s.index + 1, ..s })
    } else if s.group_fault is Some {
        RunState { phase: SignalPhase::Send, ..s }
    } else {
        RunState { phase: SignalPhase::Inspect, ..s }
    }
}

/// The fault already there, or else this one.
pub open spec fn or_fault(first: Option<Fault>, next: Option<Fault>) -> Option<Fault> {
    match first {
        Some(f) => Some(f),
        None => next,
    }
}

/// The fault in a delivery, where there is one.
pub open spec fn delivery_fault(target: i32, delivery: Delivery) -> Option<Fault> {
    match delivery {
        Delivery::Refused(errno) => Some(Fault { target, deed: Deed::Signal, errno }),
        _ => None,
    }
}

/// The fault in a reply, where there is one.
pub open spec fn reply_fault(target: i32, reply: GroupReply) -> Option<Fault> {
    match reply {
        GroupReply::Refused(errno) => Some(Fault { target, deed: Deed::Inspect, errno }),
        _ => None,
    }
}

impl RunState {
    /// A run at its start: the signal goes to the group first.
    pub open spec fn start(pgid: i32, targets: Seq<ProcessIdentity>) -> RunState {
        RunState {
            pgid,
            targets,
            index: 0,
            group_fault: None,
            first_fault: None,
            reached_one: false,
            phase: SignalPhase::Group,
            sent: Seq::empty(),
        }
    }

    /// Whether the state is one that a run can be in.
    pub open spec fn wf(self) -> bool {
        &&& self.pgid > 1
        &&& 0 <= self.index <= self.targets.len()
        &&& self.phase == SignalPhase::Group ==> self.index == 0
        &&& self.phase == SignalPhase::Inspect || self.phase == SignalPhase::Send ==> self.index
            < self.targets.len() && 1 < self.targets[self.index].pid <= 0x7fff_ffff
        &&& self.phase == SignalPhase::Inspect ==> self.group_fault is None
    }

    /// A bound on the answers that a run still waits for.
    pub open spec fn left(self) -> int {
        match self.phase {
            SignalPhase::Group => (2 * self.targets.len() + 1) as int,
            SignalPhase::Inspect => 2 * (self.targets.len() - self.index),
            SignalPhase::Send => 2 * (self.targets.len() - self.index) - 1,
            SignalPhase::Done => 0,
        }
    }

    /// The next target's process number.
    pub open spec fn target(self) -> i32 {
        self.targets[self.index].pid as i32
    }

    /// What the run comes to: the first refusal, or the group's where nothing else was reached.
    pub open spec fn result(self) -> Result<(), SignalError> {
        if self.index < self.targets.len() {
            Err(SignalError::PidTooLarge(self.targets[self.index].pid))
        } else {
            match self.first_fault {
                Some(fault) => Err(SignalError::Refused(fault)),
                None => match self.group_fault {
                    Some(fault) => if self.reached_one {
                        Ok(())
                    } else {
                        Err(SignalError::Refused(fault))
                    },
                    None => Ok(()),
                },
            }
        }
    }

    /// What to do next.
    pub open spec fn step(self) -> SignalStep {
        match self.phase {
            SignalPhase::Group => SignalStep::Send((-self.pgid) as i32),
            SignalPhase::Inspect => SignalStep::Inspect(self.target()),
            SignalPhase::Send => SignalStep::Send(self.target()),
            SignalPhase::Done => SignalStep::Done(self.result()),
        }
    }

    /// The state after the signal was sent.
    pub open spec fn after_send(self, delivery: Delivery) -> RunState {
        if self.phase == SignalPhase::Group {
            settled(
                RunState {
                    group_fault: delivery_fault((-self.pgid) as i32, delivery),
                    sent: self.sent.push((-self.pgid) as i32),
                    ..self
                },
            )
        } else {
            let fault = delivery_fault(self.target(), delivery);
            settled(
                RunState {
                    index: self.index + 1,
                    first_fault: or_fault(self.first_fault, fault),
                    reached_one: self.reached_one || fault is None,
                    sent: self.sent.push(self.target()),
                    ..self
                },
            )
        }
    }

    /// The state after the question for a group was answered: a target outside the command's
    /// group needs a signal of its own.
    pub open spec fn after_inspection(self, reply: GroupReply) -> RunState {
        if reply == GroupReply::Group(self.pgid) {
            settled(RunState { index: self.index + 1, ..self })
        } else {
            RunState {
                first_fault: or_fault(self.first_fault, reply_fault(self.target(), reply)),
                phase: SignalPhase::Send,
                ..self
            }
        }
    }
}

/// The sending of one signal to the command's group and to those of its processes that have
/// left the group.
pub struct SignalRun {
    pgid: i32,
    targets: Vec<ProcessIdentity>,
    index: usize,
    group_fault: Option<Fault>,
    first_fault: Option<Fault>,
    reached_one: bool,
    phase: SignalPhase,
    sent: Ghost<Seq<i32>>,
}

impl View for SignalRun {
    type V = RunState;

    closed spec fn view(&self) -> RunState {
        RunState {
            pgid: self.pgid,
            targets: self.targets@,
            index: self.index as int,
            group_fault: self.group_fault,
            first_fault: self.first_fault,
            reached_one: self.reached_one,
            phase: self.phase,
            sent: self.sent@,
        }
    }
}

/// Goes on to the next target only ever ends in a state that a run can be in.
proof fn lemma_settled_wf(s: RunState)
    requires
        s.pgid > 1,
        0 <= s.index <= s.targets.len(),
    ensures
        settled(s).wf(),
        settled(s).pgid == s.pgid,
        settled(s).targets == s.targets,
    decreases s.targets.len() - s.index,
{
    if s.index < s.targets.len() && s.targets[s.index].pid <= 1 {
        lemma_settled_wf(RunState { index: s.index + 1, ..s });
    }
}

/// A run over these targets.
pub fn signal_processes(pgid: i32, targets: Vec<ProcessIdentity>) -> (r: Result<
    SignalRun,
    SignalError,
>)
    ensures
        match r {
            Ok(run) => pgid > 1 && run@ == RunState::start(pgid, targets@) && run@.wf(),
            Err(e) => pgid <= 1 && e == SignalError::UnsafeGroup(pgid),
        },
{
    if pgid <= 1 {
        return Err(SignalError::UnsafeGroup(pgid));
    }
    Ok(
        SignalRun {
            pgid,
            targets,
            index: 0,
            group_fault: None,
            first_fault: None,
            reached_one: false,
            phase: SignalPhase::Group,
            sent: Ghost(Seq::<i32>::empty()),
        },
    )
}

impl SignalRun {
    /// What to do next. A signal goes to the command's group, or to a process number above one.
    pub fn step(&self) -> (r: SignalStep)
        requires
            self@.wf(),
        ensures
            r == self@.step(),
            r matches SignalStep::Send(pid) ==> pid == -self@.pgid || pid > 1,
            r matches SignalStep::Inspect(pid) ==> pid > 1,
    {
        match self.phase {
            SignalPhase::Group => SignalStep::Send(-self.pgid),
            SignalPhase::Inspect => SignalStep::Inspect(self.targets[self.index].pid as i32),
            SignalPhase::Send => SignalStep::Send(self.targets[self.index].pid as i32),
            SignalPhase::Done => {
                if self.index < self.targets.len() {
                    return SignalStep::Done(
                        Err(SignalError::PidTooLarge(self.targets[self.index].pid)),
                    );
                }
                match self.first_fault {
                    Some(fault) => SignalStep::Done(Err(SignalError::Refused(fault))),
                    None => match self.group_fault {
                        Some(fault) => if self.reached_one {
                            SignalStep::Done(Ok(()))
                        } else {
                            SignalStep::Done(Err(SignalError::Refused(fault)))
                        },
                        None => SignalStep::Done(Ok(())),
                    },
                }
            },
        }
    }

    /// Goes on to the next target that a signal may go to.
    fn settle(&mut self)
        requires
            old(self)@.pgid > 1,
            old(self)@.index <= old(self)@.targets.len(),
        ensures
            final(self)@ == settled(old(self)@),
            final(self)@.wf(),
    {
        let ghost goal = settled(self@);
        proof {
            lemma_settled_wf(self@);
        }
        while self.index < self.targets.len() && self.targets[self.index].pid <= 1
            invariant
                self.index <= self.targets@.len(),
                settled(self@) == goal,
            decreases self.targets@.len() - self.index,
        {
            let ghost before = self@;
            self.index = self.index + 1;
            proof {
                assert(self@ == RunState { index: before.index + 1, ..before });
            }
        }
        let ghost at = self@;
        if self.index >= self.targets.len() || self.targets[self.index].pid > 0x7fff_ffff {
            self.phase = SignalPhase::Done;
            proof {
                assert(self@ == RunState { phase: SignalPhase::Done, ..at });
            }
        } else if self.group_fault.is_some() {
            self.phase = SignalPhase::Send;
            proof {
                assert(self@ == RunState { phase: SignalPhase::Send, ..at });
            }
        } else {
            self.phase = SignalPhase::Inspect;
            proof {
                assert(self@ == RunState { phase: SignalPhase::Inspect, ..at });
            }
        }
    }

    /// Takes in how the sending of the signal went.
    pub fn sent(&mut self, delivery: Delivery)
        requires
            old(self)@.wf(),
            old(self)@.step() is Send,
        ensures
            final(self)@ == old(self)@.after_send(delivery),
            final(self)@.wf(),
    {
        let ghost before = self@;
        if let SignalPhase::Group = self.phase {
            let target: i32 = -self.pgid;
            self.group_fault = match delivery {
                Delivery::Refused(errno) => Some(Fault { target, deed: Deed::Signal, errno }),
                _ => None,
            };
            self.sent = Ghost(self.sent@.push(target));
            proof {
                assert(self@ == RunState {
                    group_fault: delivery_fault((-before.pgid) as i32, delivery),
                    sent: before.sent.push((-before.pgid) as i32),
                    ..before
                });
            }
        } else {
            let target: i32 = self.targets[self.index].pid as i32;
            match delivery {
                Delivery::Refused(errno) => {
                    if self.first_fault.is_none() {
                        self.first_fault = Some(Fault { target, deed: Deed::Signal, errno });
                    }
                },
                _ => {
                    self.reached_one = true;
                },
            }
            assert(self.index < self.targets.len());
            self.index = self.index + 1;
            self.sent = Ghost(self.sent@.push(target));
            proof {
                let fault = delivery_fault(before.target(), delivery);
                assert(self@ == RunState {
                    index: before.index + 1,
                    first_fault: or_fault(before.first_fault, fault),
                    reached_one: before.reached_one || fault is None,
                    sent: before.sent.push(before.target()),
                    ..before
                });
            }
        }
        self.settle();
    }

    /// Takes in the answer to the question for a group.
    pub fn inspected(&mut self, reply: GroupReply)
        requires
            old(self)@.wf(),
            old(self)@.step() is Inspect,
        ensures
            final(self)@ == old(self)@.after_inspection(reply),
            final(self)@.wf(),
    {
        let ghost before = self@;
        let within: bool = match reply {
            GroupReply::Group(group) => group == self.pgid,
            _ => false,
        };
        if within {
            assert(self.index < self.targets.len());
            self.index = self.index + 1;
            proof {
                assert(self@ == RunState { index: before.index + 1, ..before });
            }
            self.settle();
        } else {
            if let GroupReply::Refused(errno) = reply {
                if self.first_fault.is_none() {
                    self.first_fault = Some(
                        Fault {
                            target: self.targets[self.index].pid as i32,
                            deed: Deed::Inspect,
                            errno,
                        },
                    );
                }
            }
            self.phase = SignalPhase::Send;
        }
    }
}

/// What the system answers in the course of a run: to the signal for the group, and for each
/// target, by its position, to the question for its group and to a signal of its own.
pub struct Replies {
    pub group: Delivery,
    pub groups: spec_fn(int) -> GroupReply,
    pub deliveries: spec_fn(int) -> Delivery,
}

/// Whether a target gets a signal of its own: one that a signal may go to and that the group's
/// signal does not reach.
pub open spec fn singled_out(
    r: Replies,
    pgid: i32,
    targets: Seq<ProcessIdentity>,
    i: int,
) -> bool {
    targets[i].pid > 1 && (r.group is Refused || (r.groups)(i) != GroupReply::Group(pgid))
}

/// The first refusal over one target.
pub open spec fn own_fault(
    r: Replies,
    pgid: i32,
    targets: Seq<ProcessIdentity>,
    i: int,
) -> Option<Fault> {
    let pid = targets[i].pid as i32;
    let asked = if targets[i].pid > 1 && !(r.group is Refused) {
        reply_fault(pid, (r.groups)(i))
    } else {
        None
    };
    let sent = if singled_out(r, pgid, targets, i) {
        delivery_fault(pid, (r.deliveries)(i))
    } else {
        None
    };
    or_fault(asked, sent)
}

/// The first refusal over the first targets.
pub open spec fn first_fault_before(
    r: Replies,
    pgid: i32,
    targets: Seq<ProcessIdentity>,
    n: int,
) -> Option<Fault>
    decreases n,
{
    if n <= 0 {
        None
    } else {
        or_fault(
            first_fault_before(r, pgid, targets, n - 1),
            own_fault(r, pgid, targets, n - 1),
        )
    }
}

/// Whether a signal of its own reached one of the first targets.
pub open spec fn reached_before(
    r: Replies,
    pgid: i32,
    targets: Seq<ProcessIdentity>,
    n: int,
) -> bool {
    exists|i: int|
        0 <= i < n && #[trigger] singled_out(r, pgid, targets, i) && !((r.deliveries)(
            i,
        ) is Refused)
}

/// Whom the signal goes to, up to a position in the targets.
pub open spec fn sent_before(
    r: Replies,
    pgid: i32,
    targets: Seq<ProcessIdentity>,
    n: int,
) -> Seq<i32>
    decreases n,
{
    if n <= 0 {
        seq![(-pgid) as i32]
    } else if singled_out(r, pgid, targets, n - 1) {
        sent_before(r, pgid, targets, n - 1).push(targets[n - 1].pid as i32)
    } else {
        sent_before(r, pgid, targets, n - 1)
    }
}

/// A run's state once the targets before its position are seen to.
pub open spec fn seen_to(r: Replies, s: RunState) -> bool {
    &&& s.pgid > 1
    &&& 0 <= s.index <= s.targets.len()
    &&& forall|i: int| 0 <= i < s.index ==> fits(#[trigger] s.targets[i].pid)
    &&& s.group_fault == delivery_fault((-s.pgid) as i32, r.group)
    &&& s.first_fault == first_fault_before(r, s.pgid, s.targets, s.index)
    &&& s.reached_one == reached_before(r, s.pgid, s.targets, s.index)
    &&& s.sent == sent_before(r, s.pgid, s.targets, s.index)
}

/// Whether a run's state is the one that these answers lead to.
pub open spec fn follows(r: Replies, s: RunState) -> bool {
    &&& s.wf()
    &&& match s.phase {
        SignalPhase::Group => s == RunState::start(s.pgid, s.targets),
        SignalPhase::Inspect => seen_to(r, s),
        SignalPhase::Send => {
            let asked = if r.group is Refused {
                None
            } else {
                reply_fault(s.target(), (r.groups)(s.index))
            };
            let before = first_fault_before(r, s.pgid, s.targets, s.index);
            &&& seen_to(r, RunState { first_fault: before, ..s })
            &&& s.first_fault == or_fault(before, asked)
            &&& singled_out(r, s.pgid, s.targets, s.index)
        },
        SignalPhase::Done => {
            &&& seen_to(r, s)
            &&& s.index == s.targets.len() || !fits(s.targets[s.index].pid)
        },
    }
}

/// One more target is reached, or not.
proof fn lemma_reached_one_more(r: Replies, pgid: i32, targets: Seq<ProcessIdentity>, n: int)
    requires
        0 <= n,
    ensures
        reached_before(r, pgid, targets, n + 1) == (reached_before(r, pgid, targets, n) || (
        singled_out(r, pgid, targets, n) && !((r.deliveries)(n) is Refused))),
{
    if reached_before(r, pgid, targets, n) {
        let i = choose|i: int|
            0 <= i < n && #[trigger] singled_out(r, pgid, targets, i) && !((r.deliveries)(
                i,
            ) is Refused);
        assert(0 <= i < n + 1 && singled_out(r, pgid, targets, i));
    }
    if singled_out(r, pgid, targets, n) && !((r.deliveries)(n) is Refused) {
        assert(0 <= n < n + 1 && singled_out(r, pgid, targets, n));
    }
}

/// Going on to the next target keeps to the answers.
proof fn lemma_settled_follows(r: Replies, s: RunState)
    requires
        seen_to(r, s),
    ensures
        follows(r, settled(s)),
    decreases s.targets.len() - s.index,
{
    lemma_settled_wf(s);
    if s.index < s.targets.len() && fits(s.targets[s.index].pid) {
        if s.targets[s.index].pid <= 1 {
            lemma_reached_one_more(r, s.pgid, s.targets, s.index);
            lemma_settled_follows(r, RunState { index: s.index + 1, ..s });
        }
    }
}

/// A run that has just begun follows whatever the system is going to answer.
pub proof fn law_a_run_begins(r: Replies, pgid: i32, targets: Seq<ProcessIdentity>)
    requires
        pgid > 1,
    ensures
        follows(r, RunState::start(pgid, targets)),
{
}

/// The answer that the system gives for what the run asked takes the run on to a state that
/// follows the answers too, and nearer to its end.
pub proof fn law_a_run_follows_the_answers(r: Replies, s: RunState)
    requires
        follows(r, s),
    ensures
        0 <= s.left(),
        s.phase == SignalPhase::Group ==> follows(r, s.after_send(r.group)) && s.after_send(
            r.group,
        ).left() < s.left(),
        s.phase == SignalPhase::Inspect ==> follows(r, s.after_inspection((r.groups)(s.index)))
            && s.after_inspection((r.groups)(s.index)).left() < s.left(),
        s.phase == SignalPhase::Send ==> follows(r, s.after_send((r.deliveries)(s.index)))
            && s.after_send((r.deliveries)(s.index)).left() < s.left(),
{
    let pgid = s.pgid;
    let targets = s.targets;
    match s.phase {
        SignalPhase::Group => {
            let next = RunState {
                group_fault: delivery_fault((-pgid) as i32, r.group),
                sent: s.sent.push((-pgid) as i32),
                ..s
            };
            assert(next.sent =~= seq![(-pgid) as i32]);
            assert(seen_to(r, next));
            lemma_settled_follows(r, next);
            lemma_settled_left(next);
        },
        SignalPhase::Inspect => {
            if (r.groups)(s.index) == GroupReply::Group(pgid) {
                let next = RunState { index: s.index + 1, ..s };
                lemma_reached_one_more(r, pgid, targets, s.index);
                assert(seen_to(r, next));
                lemma_settled_follows(r, next);
                lemma_settled_left(next);
            } else {
                let next = s.after_inspection((r.groups)(s.index));
                assert(RunState {
                    first_fault: first_fault_before(r, pgid, targets, s.index),
                    ..next
                } == RunState { phase: SignalPhase::Send, ..s });
            }
        },
        SignalPhase::Send => {
            let fault = delivery_fault(s.target(), (r.deliveries)(s.index));
            let next = RunState {
                index: s.index + 1,
                first_fault: or_fault(s.first_fault, fault),
                reached_one: s.reached_one || fault is None,
                sent: s.sent.push(s.target()),
                ..s
            };
            lemma_reached_one_more(r, pgid, targets, s.index);
            assert(seen_to(r, next));
            lemma_settled_follows(r, next);
            lemma_settled_left(next);
        },
        SignalPhase::Done => {},
    }
}

/// Going on to the next target takes a run no further from its end.
proof fn lemma_settled_left(s: RunState)
    requires
        0 <= s.index <= s.targets.len(),
    ensures
        settled(s).left() <= 2 * (s.targets.len() - s.index),
    decreases s.targets.len() - s.index,
{
    if s.index < s.targets.len() && s.targets[s.index].pid <= 1 {
        lemma_settled_left(RunState { index: s.index + 1, ..s });
    }
}

/// There is no first refusal just where no target has one.
proof fn lemma_no_fault_before(r: Replies, pgid: i32, targets: Seq<ProcessIdentity>, n: int)
    ensures
        first_fault_before(r, pgid, targets, n) is None <==> forall|i: int|
            0 <= i < n ==> #[trigger] own_fault(r, pgid, targets, i) is None,
    decreases n,
{
    if n > 0 {
        lemma_no_fault_before(r, pgid, targets, n - 1);
        if first_fault_before(r, pgid, targets, n) is None {
            assert forall|i: int| 0 <= i < n implies #[trigger] own_fault(
                r,
                pgid,
                targets,
                i,
            ) is None by {
                if i < n - 1 {
                }
            }
        } else if first_fault_before(r, pgid, targets, n - 1) is None {
            assert(own_fault(r, pgid, targets, n - 1) is Some);
        }
    }
}

/// A run succeeds where every process number fits, the system refused nothing over a single
/// target, and it either took the group's signal or took a target's own.
pub proof fn law_when_a_run_succeeds(r: Replies, s: RunState)
    requires
        follows(r, s),
        s.phase == SignalPhase::Done,
    ensures
        s.result() is Ok <==> {
            &&& forall|i: int| 0 <= i < s.targets.len() ==> fits(#[trigger] s.targets[i].pid)
            &&& forall|i: int|
                0 <= i < s.targets.len() ==> #[trigger] own_fault(
                    r,
                    s.pgid,
                    s.targets,
                    i,
                ) is None
            &&& !(r.group is Refused) || reached_before(
                r,
                s.pgid,
                s.targets,
                s.targets.len() as int,
            )
        },
{
    lemma_no_fault_before(r, s.pgid, s.targets, s.index);
    if s.index < s.targets.len() {
        assert(!fits(s.targets[s.index].pid));
    }
}

/// Whom the signal goes to: the group, and the targets that are singled out.
proof fn lemma_sent_before(r: Replies, pgid: i32, targets: Seq<ProcessIdentity>, n: int)
    requires
        pgid > 1,
        n <= targets.len(),
        forall|i: int| 0 <= i < n ==> fits(#[trigger] targets[i].pid),
    ensures
        sent_before(r, pgid, targets, n).contains((-pgid) as i32),
        forall|i: int|
            0 <= i < n && #[trigger] singled_out(r, pgid, targets, i) ==> sent_before(
                r,
                pgid,
                targets,
                n,
            ).contains(targets[i].pid as i32),
        forall|pid: i32| #[trigger]
            sent_before(r, pgid, targets, n).contains(pid) ==> pid == -pgid || exists|i: int|
                0 <= i < n && #[trigger] singled_out(r, pgid, targets, i) && targets[i].pid == pid,
    decreases n,
{
    let sent = sent_before(r, pgid, targets, n);
    if n <= 0 {
        assert(sent[0] == (-pgid) as i32);
    } else {
        lemma_sent_before(r, pgid, targets, n - 1);
        let before = sent_before(r, pgid, targets, n - 1);
        if singled_out(r, pgid, targets, n - 1) {
            assert forall|pid: i32| before.contains(pid) implies sent.contains(pid) by {
                let k = choose|k: int| 0 <= k < before.len() && before[k] == pid;
                assert(sent[k] == pid);
            }
            assert(sent[before.len() as int] == targets[n - 1].pid as i32);
            assert(fits(targets[n - 1].pid));
            assert forall|pid: i32| #[trigger] sent.contains(pid) implies pid == -pgid || exists|
                i: int,
            |
                0 <= i < n && #[trigger] singled_out(r, pgid, targets, i) && targets[i].pid
                    == pid by {
                let k = choose|k: int| 0 <= k < sent.len() && sent[k] == pid;
                if k < before.len() {
                    assert(before[k] == pid);
                    assert(before.contains(pid));
                } else {
                    assert(singled_out(r, pgid, targets, n - 1) && targets[n - 1].pid == pid);
                }
            }
        }
    }
}

/// Whether signals take the numbers of the targets up to a position.
pub open spec fn fits_up_to(targets: Seq<ProcessIdentity>, i: int) -> bool {
    forall|j: int| 0 <= j <= i ==> fits(#[trigger] targets[j].pid)
}

/// A run leaves no target out: each that a signal may go to belongs to the group, which took
/// the signal, or got a signal of its own. And it reaches no one else: the signal goes to the
/// group and to targets with a process number above one. Where a target's number is larger than
/// signals take, the run ends there.
pub proof fn law_every_target_is_reached(r: Replies, s: RunState)
    requires
        follows(r, s),
        s.phase == SignalPhase::Done,
    ensures
        s.sent.contains((-s.pgid) as i32),
        forall|i: int|
            0 <= i < s.targets.len() && fits_up_to(s.targets, i) && (#[trigger] s.targets[i]).pid
                > 1 ==> {
                ||| s.sent.contains(s.targets[i].pid as i32)
                ||| !(r.group is Refused) && (r.groups)(i) == GroupReply::Group(s.pgid)
            },
        forall|pid: i32| #[trigger]
            s.sent.contains(pid) ==> pid == -s.pgid || pid > 1 && exists|i: int|
                0 <= i < s.targets.len() && #[trigger] s.targets[i].pid == pid,
{
    lemma_sent_before(r, s.pgid, s.targets, s.index);
    assert forall|i: int|
        0 <= i < s.targets.len() && fits_up_to(s.targets, i) && (#[trigger] s.targets[i]).pid
            > 1 implies s.sent.contains(s.targets[i].pid as i32) || !(r.group is Refused)
        && (r.groups)(i) == GroupReply::Group(s.pgid) by {
        if s.index <= i {
            assert(fits(s.targets[s.index].pid));
        }
        if !(!(r.group is Refused) && (r.groups)(i) == GroupReply::Group(s.pgid)) {
            assert(singled_out(r, s.pgid, s.targets, i));
        }
    }
    assert forall|pid: i32| #[trigger] s.sent.contains(pid) implies pid == -s.pgid || pid > 1
        && exists|i: int| 0 <= i < s.targets.len() && #[trigger] s.targets[i].pid == pid by {
        if pid != -s.pgid {
            let i = choose|i: int|
                0 <= i < s.index && #[trigger] singled_out(r, s.pgid, s.targets, i)
                    && s.targets[i].pid == pid;
            assert(s.targets[i].pid == pid);
        }
    }
}

/// Targets with different process numbers are singled out once each.
proof fn lemma_sent_once(r: Replies, pgid: i32, targets: Seq<ProcessIdentity>, n: int)
    requires
        pgid > 1,
        n <= targets.len(),
        forall|i: int| 0 <= i < n ==> fits(#[trigger] targets[i].pid),
        forall|i: int, j: int|
            0 <= i < j < n ==> (#[trigger] targets[i]).pid != (#[trigger] targets[j]).pid,
    ensures
        sent_before(r, pgid, targets, n).no_duplicates(),
    decreases n,
{
    if n > 0 {
        lemma_sent_once(r, pgid, targets, n - 1);
        lemma_sent_before(r, pgid, targets, n - 1);
        let before = sent_before(r, pgid, targets, n - 1);
        if singled_out(r, pgid, targets, n - 1) {
            let pid = targets[n - 1].pid as i32;
            assert(fits(targets[n - 1].pid));
            if before.contains(pid) {
                let i = choose|i: int|
                    0 <= i < n - 1 && #[trigger] singled_out(r, pgid, targets, i)
                        && targets[i].pid == pid;
                assert(targets[i].pid != targets[n - 1].pid);
            }
            let sent = sent_before(r, pgid, targets, n);
            assert forall|i: int, j: int|
                0 <= i < sent.len() && 0 <= j < sent.len() && i != j implies sent[i] != sent[j] by {
                if i == before.len() {
                    assert(before.contains(before[j]));
                } else if j == before.len() {
                    assert(before.contains(before[i]));
                }
            }
        }
    }
}

/// Where no two targets share a process number, no one gets the signal twice.
pub proof fn law_no_one_is_signalled_twice(r: Replies, s: RunState)
    requires
        follows(r, s),
        s.phase == SignalPhase::Done,
        forall|i: int, j: int|
            0 <= i < j < s.targets.len() ==> (#[trigger] s.targets[i]).pid != (
            #[trigger] s.targets[j]).pid,
    ensures
        s.sent.no_duplicates(),
{
    lemma_sent_once(r, s.pgid, s.targets, s.index);
}

/// The signals that are passed on are those that programs may handle, and the two that they may
/// not are kept.
pub proof fn law_which_signals_are_passed_on(signal: Signal)
    ensures
        is_forwarded(signal) <==> match signal {
            Signal::Hangup => true,
            Signal::Interrupt => true,
            Signal::Quit => true,
            Signal::Terminate => true,
            Signal::TerminalStop => true,
            Signal::Continue => true,
            Signal::User1 => true,
            Signal::User2 => true,
            Signal::WindowChange => true,
            Signal::Kill => false,
            Signal::Stop => false,
        },
{
}

/// A whole number that an `i32` holds reads back as itself.
pub proof fn law_whole_numbers_read_back(n: i32)
    ensures
        signed(signed_decimal(n as int)) == Ok::<int, IntegerFault>(n as int),
{
    reveal_strlit("-");
    let magnitude = if n < 0 {
        (-(n as int)) as nat
    } else {
        n as nat
    };
    law_decimals_read_as_themselves(magnitude);
    law_whole_numbers_with_a_sign(decimal(magnitude));
    assert("-"@ =~= seq!['-']);
}

/// What a run does next: it sends to the group, asks for a target's group, or sends to the
/// target.
pub proof fn law_what_a_run_asks_for(s: RunState)
    requires
        s.wf(),
    ensures
        s.phase == SignalPhase::Group ==> s.step() == SignalStep::Send((-s.pgid) as i32),
        s.phase == SignalPhase::Inspect ==> s.step() == SignalStep::Inspect(
            s.targets[s.index].pid as i32,
        ),
        s.phase == SignalPhase::Send ==> s.step() == SignalStep::Send(
            s.targets[s.index].pid as i32,
        ),
        s.phase == SignalPhase::Done <==> s.step() is Done,
{
}

/// The first refusal over a target is the one that counts.
proof fn lemma_first_fault(r: Replies, pgid: i32, targets: Seq<ProcessIdentity>, i: int, n: int)
    requires
        0 <= i < n,
        forall|j: int| 0 <= j < i ==> #[trigger] own_fault(r, pgid, targets, j) is None,
        own_fault(r, pgid, targets, i) is Some,
    ensures
        first_fault_before(r, pgid, targets, n) == own_fault(r, pgid, targets, i),
    decreases n,
{
    if n > i + 1 {
        lemma_first_fault(r, pgid, targets, i, n - 1);
    } else {
        lemma_no_fault_before(r, pgid, targets, i);
    }
}

/// The first refusal over a target is told: the question for its group, or the signal of its
/// own.
pub proof fn law_the_first_refusal_is_told(r: Replies, s: RunState, i: int, errno: i32)
    requires
        follows(r, s),
        s.phase == SignalPhase::Done,
        forall|j: int| 0 <= j < s.targets.len() ==> fits(#[trigger] s.targets[j].pid),
        !(r.group is Refused),
        0 <= i < s.targets.len(),
        s.targets[i].pid > 1,
        forall|j: int|
            0 <= j < i ==> !((#[trigger] (r.groups)(j)) is Refused) && !((r.deliveries)(
                j,
            ) is Refused),
    ensures
        (r.groups)(i) == GroupReply::Refused(errno) ==> s.result() == Err::<(), SignalError>(
            SignalError::Refused(
                Fault { target: s.targets[i].pid as i32, deed: Deed::Inspect, errno },
            ),
        ),
        !((r.groups)(i) is Refused) && (r.groups)(i) != GroupReply::Group(s.pgid) && (r.deliveries)(
            i,
        ) == Delivery::Refused(errno) ==> s.result() == Err::<(), SignalError>(
            SignalError::Refused(
                Fault { target: s.targets[i].pid as i32, deed: Deed::Signal, errno },
            ),
        ),
{
    if s.index < s.targets.len() {
        assert(fits(s.targets[s.index].pid));
    }
    assert forall|j: int| 0 <= j < i implies #[trigger] own_fault(
        r,
        s.pgid,
        s.targets,
        j,
    ) is None by {
        assert(!((r.groups)(j) is Refused));
    }
    if own_fault(r, s.pgid, s.targets, i) is Some {
        lemma_first_fault(r, s.pgid, s.targets, i, s.targets.len() as int);
    }
}

/// A target whose number is larger than signals take is told, the first of them.
pub proof fn law_a_number_too_large_is_told(r: Replies, s: RunState, i: int)
    requires
        follows(r, s),
        s.phase == SignalPhase::Done,
        0 <= i < s.targets.len(),
        s.targets[i].pid > 0x7fff_ffff,
        forall|j: int| 0 <= j < i ==> (#[trigger] s.targets[j]).pid <= 0x7fff_ffff,
    ensures
        s.result() == Err::<(), SignalError>(SignalError::PidTooLarge(s.targets[i].pid)),
{
    if s.index > i {
        assert(fits(s.targets[i].pid));
    } else if s.index < i {
        assert(s.targets[s.index].pid <= 0x7fff_ffff);
    }
}

/// Where the system refuses nothing, a run succeeds. Where it refuses the group's signal, the
/// run succeeds if a target takes a signal of its own, and the refusal is told if there is no
/// target to take one.
pub proof fn law_what_becomes_of_a_group_signal(r: Replies, s: RunState, errno: i32)
    requires
        follows(r, s),
        s.phase == SignalPhase::Done,
        forall|j: int| 0 <= j < s.targets.len() ==> fits(#[trigger] s.targets[j].pid),
        forall|j: int| 0 <= j < s.targets.len() ==> !((#[trigger] (r.deliveries)(j)) is Refused),
    ensures
        !(r.group is Refused) && (forall|j: int|
            0 <= j < s.targets.len() ==> !((#[trigger] (r.groups)(j)) is Refused)) ==> s.result()
            == Ok::<(), SignalError>(()),
        r.group is Refused && (exists|j: int|
            0 <= j < s.targets.len() && (#[trigger] s.targets[j]).pid > 1) ==> s.result() == Ok::<
            (),
            SignalError,
        >(()),
        r.group == Delivery::Refused(errno) && (forall|j: int|
            0 <= j < s.targets.len() ==> (#[trigger] s.targets[j]).pid <= 1) ==> s.result() == Err::<
            (),
            SignalError,
        >(
            SignalError::Refused(
                Fault { target: (-s.pgid) as i32, deed: Deed::Signal, errno },
            ),
        ),
{
    if s.index < s.targets.len() {
        assert(fits(s.targets[s.index].pid));
    }
    let n = s.targets.len() as int;
    lemma_no_fault_before(r, s.pgid, s.targets, n);
    if r.group is Refused || (forall|j: int|
        0 <= j < s.targets.len() ==> !((#[trigger] (r.groups)(j)) is Refused)) {
        assert forall|j: int| 0 <= j < n implies #[trigger] own_fault(
            r,
            s.pgid,
            s.targets,
            j,
        ) is None by {
            assert(!((r.deliveries)(j) is Refused));
            if !(r.group is Refused) {
                assert(!((r.groups)(j) is Refused));
            }
        }
    }
    if r.group is Refused && (exists|j: int|
        0 <= j < s.targets.len() && (#[trigger] s.targets[j]).pid > 1) {
        let j = choose|j: int| 0 <= j < s.targets.len() && (#[trigger] s.targets[j]).pid > 1;
        assert(singled_out(r, s.pgid, s.targets, j) && !((r.deliveries)(j) is Refused));
    }
}

/// Where the group took the signal and every target belongs to it, the signal goes to the group
/// and to no one else.
pub proof fn law_one_signal_is_enough_for_a_group(r: Replies, s: RunState)
    requires
        follows(r, s),
        s.phase == SignalPhase::Done,
        !(r.group is Refused),
        forall|j: int|
            0 <= j < s.targets.len() ==> #[trigger] (r.groups)(j) == GroupReply::Group(s.pgid),
    ensures
        s.sent == seq![(-s.pgid) as i32],
{
    lemma_none_singled_out(r, s.pgid, s.targets, s.index);
}

/// Targets of the group get no signal of their own.
proof fn lemma_none_singled_out(r: Replies, pgid: i32, targets: Seq<ProcessIdentity>, n: int)
    requires
        n <= targets.len(),
        !(r.group is Refused),
        forall|j: int|
            0 <= j < targets.len() ==> #[trigger] (r.groups)(j) == GroupReply::Group(pgid),
    ensures
        sent_before(r, pgid, targets, n) == seq![(-pgid) as i32],
    decreases n,
{
    if n > 0 {
        lemma_none_singled_out(r, pgid, targets, n - 1);
        assert((r.groups)(n - 1) == GroupReply::Group(pgid));
    }
}

/// Why a signal did not reach the command, in words.
pub proof fn law_signal_errors_in_words(group: i32, pid: u32, errno: i32)
    ensures
        SignalError::UnsafeGroup(group).words() == "refusing unsafe child process group "@
            + signed_decimal(group as int),
        SignalError::PidTooLarge(pid).words()
            == "tracked PID is too large: out of range integral type conversion attempted"@,
        SignalError::Refused(Fault { target: group, deed: Deed::Signal, errno }).words()
            == "could not signal process target "@ + signed_decimal(group as int),
        SignalError::Refused(Fault { target: group, deed: Deed::Inspect, errno }).words()
            == "could not inspect process target "@ + signed_decimal(group as int),
{
}

} // verus!
