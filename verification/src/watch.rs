//! The decisions that keep a command within its limits.
//!
//! A watch says what is to be done next; once that has been done it is told what came of it.
use crate::binary64::{Binary64, Num};
use crate::controller::Control;
use crate::duration::{longest, Duration};
use crate::exit::{
    exit_code_of, status_exit_code, ExitStatus, EXIT_MEMORY, EXIT_TIMEOUT, EXIT_WRAPPER_ERROR,
};
use crate::format::{format_bytes, size_text};
use crate::memory::host_reserve_crossed;
use crate::platform::Platform;
use crate::text::{decimal, push_decimal};
use crate::throttle::{
    left_of, longest_pause, owed_after, shorter, CpuThrottle, ThrottleError,
};
use vstd::prelude::*;
use vstd::string::StringExecFns;

verus! {

/// The limits of a command, and the pace at which they are watched.
#[derive(Clone, Copy, Debug)]
pub struct Settings {
    /// The system that the command runs on.
    pub platform: Platform,
    /// The memory that the command may have resident, in bytes.
    pub memory: Option<u64>,
    /// The memory that is to stay available to others, in bytes.
    pub reserve: Option<u64>,
    /// The CPU allowance, in cores.
    pub cpu: Option<Binary64>,
    /// The time that the command may take.
    pub time: Option<Duration>,
    /// How long the command may take to end when asked.
    pub kill_after: Duration,
    /// How long to wait between two looks.
    pub poll_interval: Duration,
    /// How long the command is stopped while the first CPU sample is taken.
    pub first_pause: Duration,
}

/// What settings stand for; times are in nanoseconds.
pub struct Rules {
    pub platform: Platform,
    pub memory: Option<u64>,
    pub reserve: Option<u64>,
    pub cpu: Option<Num>,
    pub time: Option<nat>,
    pub kill_after: nat,
    pub poll_interval: nat,
    pub first_pause: nat,
}

impl View for Settings {
    type V = Rules;

    open spec fn view(&self) -> Rules {
        Rules {
            platform: self.platform,
            memory: self.memory,
            reserve: self.reserve,
            cpu: match self.cpu {
                Some(cores) => Some(cores@),
                None => None,
            },
            time: match self.time {
                Some(limit) => Some(limit@),
                None => None,
            },
            kill_after: self.kill_after@,
            poll_interval: self.poll_interval@,
            first_pause: self.first_pause@,
        }
    }
}

/// A limit that was crossed. Times are of the type `T`.
#[derive(Clone, Copy, Debug)]
pub enum Notice<T> {
    /// The command has more memory than it may.
    MemoryLimit {
        /// What it has.
        used: u64,
        /// What it may have.
        limit: u64,
    },
    /// Less memory is available than is to be left to others.
    HostReserve {
        /// What is available.
        available: u64,
        /// What is to be left.
        reserve: u64,
    },
    /// The command has taken its time.
    TimeLimit {
        /// When that was noticed.
        at: T,
    },
}

/// Why a command is stopped.
#[derive(Clone, Copy, Debug)]
pub enum Cause<T> {
    /// It crossed a limit.
    Limit(Notice<T>),
    /// A signal that ends programs was passed on to it.
    Signal,
}

/// Why a command cannot be watched any longer.
#[derive(Clone, Copy, Debug, PartialEq, Eq, Structural)]
pub enum SupervisionError {
    /// The command runs but is not among the processes.
    Unobserved,
    /// A CPU sample cannot be turned into a pause.
    Throttle(ThrottleError),
    /// The next look at the available memory lies too far ahead.
    MemorySchedule,
    /// The time to end lies too far ahead.
    GraceTooLong,
    /// The last look after killing lies too far ahead.
    VerificationSchedule,
    /// So many processes were left after killing.
    StillThere(usize),
}

/// How a watch ends.
#[derive(Clone, Copy, Debug)]
pub enum Ending<T> {
    /// The command ended by itself or on a signal.
    Status(ExitStatus),
    /// The command was stopped at a limit.
    Limit(Notice<T>),
    /// The command cannot be watched any longer.
    Failed(SupervisionError),
    /// Something that was to be done could not be done.
    Aborted,
}

/// What a watch waits for.
#[derive(Clone, Copy, Debug)]
pub enum Phase<T> {
    /// A look at the command and at its processes.
    Observe,
    /// Another look at a command that is not among the processes.
    Recheck,
    /// The memory that is available.
    Measure,
    /// A word on a limit that was crossed.
    Announce(Notice<T>),
    /// The processes to stop, for the first CPU sample.
    FirstSuspend,
    /// The first CPU sample.
    FirstSleep,
    /// A look at the processes, with the first CPU sample.
    FirstLook,
    /// The processes to go on, after the first CPU sample.
    FirstResume,
    /// The processes to stop, for a pause.
    Suspend {
        /// How long.
        pause: T,
    },
    /// The end of a pause.
    Sleep {
        /// How long it is.
        pause: T,
    },
    /// The processes to go on, after a pause.
    Resume {
        /// How long it was.
        slept: T,
    },
    /// The processes to go on, since not all could be stopped.
    Rescue,
    /// The next round, or a signal.
    Wait {
        /// How long at most.
        at_most: T,
    },
    /// A look at the processes before they are asked to end.
    Gather(Notice<T>),
    /// The processes to be asked to end.
    Terminate(Notice<T>),
    /// A look at what has not ended yet.
    Grace {
        /// Why it should.
        cause: Cause<T>,
        /// When it is killed.
        until: T,
    },
    /// A moment between two such looks.
    GraceSleep {
        /// Why it should end.
        cause: Cause<T>,
        /// When it is killed.
        until: T,
    },
    /// The processes to be killed.
    Kill(Cause<T>),
    /// A look at what is left after killing.
    Verify {
        /// Why it was killed.
        cause: Cause<T>,
        /// When to give up.
        until: T,
    },
    /// A moment between two such looks.
    VerifySleep {
        /// Why it was killed.
        cause: Cause<T>,
        /// When to give up.
        until: T,
    },
    /// Nothing: the watch is over.
    Ended(Ending<T>),
}

/// What is to be done next.
#[derive(Clone, Copy, Debug)]
pub enum Action<T> {
    /// Look at the processes, and first at the command where `inspect` is set.
    Look {
        /// Whether to look at the command.
        inspect: bool,
    },
    /// Look at the command.
    Recheck,
    /// Find out how much memory is available.
    Measure,
    /// Say that a limit was crossed.
    Announce(Notice<T>),
    /// See to the processes.
    Control(Control),
    /// Sleep for so long, or until the time limit.
    Pause(T),
    /// Sleep for so long.
    Sleep(T),
    /// Wait for a signal that ends programs, for so long at most.
    Wait(T),
    /// Nothing: the watch is over.
    End(Ending<T>),
}

/// A notice with its time in nanoseconds.
pub open spec fn notice_view(notice: Notice<Duration>) -> Notice<nat> {
    match notice {
        Notice::MemoryLimit { used, limit } => Notice::MemoryLimit { used, limit },
        Notice::HostReserve { available, reserve } => Notice::HostReserve { available, reserve },
        Notice::TimeLimit { at } => Notice::TimeLimit { at: at@ },
    }
}

/// A cause with its time in nanoseconds.
pub open spec fn cause_view(cause: Cause<Duration>) -> Cause<nat> {
    match cause {
        Cause::Limit(notice) => Cause::Limit(notice_view(notice)),
        Cause::Signal => Cause::Signal,
    }
}

/// An ending with its time in nanoseconds.
pub open spec fn ending_view(ending: Ending<Duration>) -> Ending<nat> {
    match ending {
        Ending::Status(status) => Ending::Status(status),
        Ending::Limit(notice) => Ending::Limit(notice_view(notice)),
        Ending::Failed(e) => Ending::Failed(e),
        Ending::Aborted => Ending::Aborted,
    }
}

/// A phase with its times in nanoseconds.
pub open spec fn phase_view(phase: Phase<Duration>) -> Phase<nat> {
    match phase {
        Phase::Observe => Phase::Observe,
        Phase::Recheck => Phase::Recheck,
        Phase::Measure => Phase::Measure,
        Phase::Announce(notice) => Phase::Announce(notice_view(notice)),
        Phase::FirstSuspend => Phase::FirstSuspend,
        Phase::FirstSleep => Phase::FirstSleep,
        Phase::FirstLook => Phase::FirstLook,
        Phase::FirstResume => Phase::FirstResume,
        Phase::Suspend { pause } => Phase::Suspend { pause: pause@ },
        Phase::Sleep { pause } => Phase::Sleep { pause: pause@ },
        Phase::Resume { slept } => Phase::Resume { slept: slept@ },
        Phase::Rescue => Phase::Rescue,
        Phase::Wait { at_most } => Phase::Wait { at_most: at_most@ },
        Phase::Gather(notice) => Phase::Gather(notice_view(notice)),
        Phase::Terminate(notice) => Phase::Terminate(notice_view(notice)),
        Phase::Grace { cause, until } => Phase::Grace { cause: cause_view(cause), until: until@ },
        Phase::GraceSleep { cause, until } => Phase::GraceSleep {
            cause: cause_view(cause),
            until: until@,
        },
        Phase::Kill(cause) => Phase::Kill(cause_view(cause)),
        Phase::Verify { cause, until } => Phase::Verify {
            cause: cause_view(cause),
            until: until@,
        },
        Phase::VerifySleep { cause, until } => Phase::VerifySleep {
            cause: cause_view(cause),
            until: until@,
        },
        Phase::Ended(ending) => Phase::Ended(ending_view(ending)),
    }
}

/// An action with its times in nanoseconds.
pub open spec fn action_view(action: Action<Duration>) -> Action<nat> {
    match action {
        Action::Look { inspect } => Action::Look { inspect },
        Action::Recheck => Action::Recheck,
        Action::Measure => Action::Measure,
        Action::Announce(notice) => Action::Announce(notice_view(notice)),
        Action::Control(control) => Action::Control(control),
        Action::Pause(span) => Action::Pause(span@),
        Action::Sleep(span) => Action::Sleep(span@),
        Action::Wait(span) => Action::Wait(span@),
        Action::End(ending) => Action::End(ending_view(ending)),
    }
}

/// What a look at the processes shows.
#[derive(Clone, Copy, Debug)]
pub struct Sighting {
    /// The memory that they have resident, in bytes.
    pub rss: u64,
    /// The CPU time that they take, in percent of one core.
    pub cpu: Binary64,
    /// How many there are.
    pub count: usize,
    /// Whether the command itself is among them.
    pub observed: bool,
}

/// What a sighting stands for.
pub struct Seen {
    pub rss: u64,
    pub cpu: Num,
    pub count: usize,
    pub observed: bool,
}

impl View for Sighting {
    type V = Seen;

    open spec fn view(&self) -> Seen {
        Seen { rss: self.rss, cpu: self.cpu@, count: self.count, observed: self.observed }
    }
}

/// How long at most to sleep between two looks at processes that should end, in nanoseconds.
pub open spec fn look_interval() -> nat {
    25_000_000
}

/// How long to look for what is left after killing, in nanoseconds.
pub open spec fn verification_time() -> nat {
    2_000_000_000
}

/// How long to leave the available memory unmeasured, in nanoseconds.
pub open spec fn memory_interval() -> nat {
    1_000_000_000
}

/// A watch's state; times are in nanoseconds since the command was started.
pub struct WatchState {
    pub rules: Rules,
    /// How the command ended, once that is known.
    pub status: Option<ExitStatus>,
    /// The CPU time that the processes took at the last look.
    pub cpu: Num,
    /// How many processes there were at the last look.
    pub count: usize,
    /// The pauses that are owed.
    pub debt: nat,
    /// When the last CPU sample was taken.
    pub last_sample: nat,
    /// Whether there was a CPU sample.
    pub sampled: bool,
    /// When the available memory is to be measured next.
    pub next_check: nat,
    pub phase: Phase<nat>,
}

impl WatchState {
    /// A watch over a command that has just started.
    pub open spec fn start(rules: Rules) -> WatchState {
        WatchState {
            rules,
            status: None,
            cpu: Num::Finite { negative: false, units: 0 },
            count: 0,
            debt: 0,
            last_sample: 0,
            sampled: false,
            next_check: 0,
            phase: Phase::Observe,
        }
    }

    /// The same with another phase.
    pub open spec fn to(self, phase: Phase<nat>) -> WatchState {
        WatchState { phase, ..self }
    }

    /// The end.
    pub open spec fn end(self, ending: Ending<nat>) -> WatchState {
        self.to(Phase::Ended(ending))
    }

    /// Whether the phase calls for a look at the command along with its processes.
    pub open spec fn inspects(self) -> bool {
        self.phase is Observe || self.phase is Grace || self.phase is Verify
    }

    /// What is to be done in the phase.
    pub open spec fn action(self) -> Action<nat> {
        match self.phase {
            Phase::Observe => Action::Look { inspect: self.status is None },
            Phase::Grace { .. } | Phase::Verify { .. } => Action::Look { inspect: true },
            Phase::FirstLook | Phase::Gather(_) => Action::Look { inspect: false },
            Phase::Recheck => Action::Recheck,
            Phase::Measure => Action::Measure,
            Phase::Announce(notice) => Action::Announce(notice),
            Phase::FirstSuspend | Phase::Suspend { .. } => Action::Control(Control::Suspend),
            Phase::FirstResume | Phase::Resume { .. } | Phase::Rescue => Action::Control(
                Control::Resume,
            ),
            Phase::FirstSleep => Action::Pause(self.rules.first_pause),
            Phase::Sleep { pause } => Action::Pause(pause),
            Phase::Wait { at_most } => Action::Wait(at_most),
            Phase::Terminate(_) => Action::Control(Control::Terminate),
            Phase::GraceSleep { .. } => Action::Sleep(
                shorter(look_interval(), self.rules.kill_after),
            ),
            Phase::Kill(_) => Action::Control(Control::Kill),
            Phase::VerifySleep { .. } => Action::Sleep(look_interval()),
            Phase::Ended(ending) => Action::End(ending),
        }
    }

    /// The round's last step: the CPU allowance, where the system does not keep it itself. What
    /// a sample shows above the allowance is owed as a pause.
    pub open spec fn check_cpu(self, now: nat) -> WatchState {
        match self.rules.cpu {
            Some(cores) => if self.rules.platform.is_windows() {
                self.to(Phase::Wait { at_most: self.rules.poll_interval })
            } else if !self.sampled {
                self.to(Phase::FirstSuspend)
            } else {
                match owed_after(self.debt, self.cpu, cores, left_of(now, self.last_sample)) {
                    Err(e) => self.end(Ending::Failed(SupervisionError::Throttle(e))),
                    Ok(debt) => {
                        let s = WatchState { debt, last_sample: now, ..self };
                        if debt == 0 {
                            s.to(Phase::Wait { at_most: self.rules.poll_interval })
                        } else {
                            s.to(Phase::Suspend { pause: shorter(debt, longest_pause()) })
                        }
                    },
                }
            },
            None => self.to(Phase::Wait { at_most: self.rules.poll_interval }),
        }
    }

    /// The time limit, then the CPU allowance.
    pub open spec fn check_time(self, now: nat) -> WatchState {
        if self.rules.time matches Some(limit) && now >= limit {
            self.to(Phase::Announce(Notice::TimeLimit { at: now }))
        } else {
            self.check_cpu(now)
        }
    }

    /// The limit on the command's memory, then the memory left to others, then the rest.
    pub open spec fn check_memory(self, rss: u64, now: nat) -> WatchState {
        if self.rules.memory matches Some(limit) && rss > limit {
            self.to(Phase::Announce(Notice::MemoryLimit { used: rss, limit: self.rules.memory->0 }))
        } else if self.rules.reserve matches Some(reserve) && reserve > 0 && now
            >= self.next_check {
            self.to(Phase::Measure)
        } else {
            self.check_time(now)
        }
    }

    /// A round: a command that has ended is left at that once nothing of it is left, and one
    /// that cannot be seen is looked for again.
    pub open spec fn judge(self, seen: Seen, now: nat) -> WatchState {
        match self.status {
            Some(status) => if self.rules.platform.is_windows() || seen.count == 0 {
                self.end(Ending::Status(status))
            } else {
                self.check_memory(seen.rss, now)
            },
            None => if seen.observed {
                self.check_memory(seen.rss, now)
            } else {
                self.to(Phase::Recheck)
            },
        }
    }

    /// The ending of a stop once nothing is left; none where the command's status is still to
    /// come.
    pub open spec fn stopped(self, cause: Cause<nat>) -> Option<Ending<nat>> {
        if self.count > 0 {
            None
        } else {
            match cause {
                Cause::Limit(notice) => Some(Ending::Limit(notice)),
                Cause::Signal => match self.status {
                    Some(status) => Some(Ending::Status(status)),
                    None => None,
                },
            }
        }
    }

    /// Time to end is given until some time; then the processes are killed.
    pub open spec fn grace_or_kill(self, cause: Cause<nat>, until: nat, now: nat) -> WatchState {
        if now < until {
            self.to(Phase::Grace { cause, until })
        } else {
            self.to(Phase::Kill(cause))
        }
    }

    /// Time to end is given from now on.
    pub open spec fn begin_grace(self, cause: Cause<nat>, now: nat) -> WatchState {
        if now + self.rules.kill_after > longest() {
            self.end(Ending::Failed(SupervisionError::GraceTooLong))
        } else {
            self.grace_or_kill(cause, now + self.rules.kill_after, now)
        }
    }

    /// What is left after killing is looked for until some time; then that is a failure.
    pub open spec fn verify_or_fail(self, cause: Cause<nat>, until: nat, now: nat) -> WatchState {
        if now < until {
            self.to(Phase::Verify { cause, until })
        } else {
            self.end(Ending::Failed(SupervisionError::StillThere(self.count)))
        }
    }

    /// What is left after killing is looked for from now on.
    pub open spec fn begin_verification(self, cause: Cause<nat>, now: nat) -> WatchState {
        if now + verification_time() > longest() {
            self.end(Ending::Failed(SupervisionError::VerificationSchedule))
        } else {
            self.verify_or_fail(cause, now + verification_time(), now)
        }
    }

    /// After a look at the processes, and at the command where that was called for.
    pub open spec fn after_look(
        self,
        status: Option<ExitStatus>,
        seen: Seen,
        now: nat,
    ) -> WatchState {
        let s = WatchState {
            status: if self.inspects() && self.status is None {
                status
            } else {
                self.status
            },
            cpu: seen.cpu,
            count: seen.count,
            ..self
        };
        match self.phase {
            Phase::Observe => s.judge(seen, now),
            Phase::FirstLook => s.to(Phase::FirstResume),
            Phase::Gather(notice) => s.to(Phase::Terminate(notice)),
            Phase::Grace { cause, until } => match s.stopped(cause) {
                Some(ending) => s.end(ending),
                None => s.to(Phase::GraceSleep { cause, until }),
            },
            Phase::Verify { cause, until } => match s.stopped(cause) {
                Some(ending) => s.end(ending),
                None => s.to(Phase::VerifySleep { cause, until }),
            },
            _ => s,
        }
    }

    /// After another look at a command that is not among the processes.
    pub open spec fn after_recheck(self, status: Option<ExitStatus>) -> WatchState {
        match status {
            Some(ended) => WatchState { status, ..self }.end(Ending::Status(ended)),
            None => self.end(Ending::Failed(SupervisionError::Unobserved)),
        }
    }

    /// After the available memory was measured.
    pub open spec fn after_measure(self, available: u64, now: nat) -> WatchState {
        if now + memory_interval() > longest() {
            self.end(Ending::Failed(SupervisionError::MemorySchedule))
        } else {
            let s = WatchState { next_check: now + memory_interval(), ..self };
            if self.rules.reserve matches Some(reserve) && reserve > 0 && available < reserve {
                s.to(
                    Phase::Announce(
                        Notice::HostReserve { available, reserve: self.rules.reserve->0 },
                    ),
                )
            } else {
                s.check_time(now)
            }
        }
    }

    /// After the processes were seen to, or a limit was spoken of.
    pub open spec fn after_done(self, now: nat) -> WatchState {
        match self.phase {
            Phase::Announce(notice) => self.to(Phase::Gather(notice)),
            Phase::FirstSuspend => self.to(Phase::FirstSleep),
            Phase::FirstResume => WatchState { last_sample: now, sampled: true, ..self }.to(
                Phase::Wait { at_most: 0 },
            ),
            Phase::Suspend { pause } => self.to(Phase::Sleep { pause }),
            Phase::Resume { slept } => {
                let debt = left_of(self.debt, slept);
                WatchState { debt, ..self }.to(
                    Phase::Wait {
                        at_most: if debt == 0 {
                            self.rules.poll_interval
                        } else {
                            0
                        },
                    },
                )
            },
            Phase::Rescue => self.end(Ending::Aborted),
            Phase::Terminate(notice) => self.begin_grace(Cause::Limit(notice), now),
            Phase::Kill(cause) => self.begin_verification(cause, now),
            _ => self,
        }
    }

    /// After something could not be done. Processes of which some may have stopped go on first,
    /// and a pause that was made counts though its processes could not be made to go on.
    pub open spec fn after_failure(self) -> WatchState {
        match self.phase {
            Phase::FirstSuspend | Phase::Suspend { .. } => self.to(Phase::Rescue),
            Phase::Resume { slept } => WatchState { debt: left_of(self.debt, slept), ..self }.end(
                Ending::Aborted,
            ),
            Phase::Ended(_) => self,
            _ => self.end(Ending::Aborted),
        }
    }

    /// After a sleep of which this much counts.
    pub open spec fn after_sleep(self, slept: nat, now: nat) -> WatchState {
        match self.phase {
            Phase::FirstSleep => self.to(Phase::FirstLook),
            Phase::Sleep { .. } => self.to(Phase::Resume { slept }),
            Phase::GraceSleep { cause, until } => self.grace_or_kill(cause, until, now),
            Phase::VerifySleep { cause, until } => self.verify_or_fail(cause, until, now),
            _ => self,
        }
    }

    /// After a wait in which a signal that ends programs was passed on, or none.
    pub open spec fn after_wait(self, signalled: bool, now: nat) -> WatchState {
        if signalled {
            self.begin_grace(Cause::Signal, now)
        } else {
            self.to(Phase::Observe)
        }
    }
}

/// A watch over a command.
pub struct Watch {
    settings: Settings,
    status: Option<ExitStatus>,
    cpu: Binary64,
    count: usize,
    throttle: CpuThrottle,
    last_sample: Duration,
    sampled: bool,
    next_check: Duration,
    phase: Phase<Duration>,
}

impl View for Watch {
    type V = WatchState;

    closed spec fn view(&self) -> WatchState {
        WatchState {
            rules: self.settings@,
            status: self.status,
            cpu: self.cpu@,
            count: self.count,
            debt: self.throttle.pause_debt@,
            last_sample: self.last_sample@,
            sampled: self.sampled,
            next_check: self.next_check@,
            phase: phase_view(self.phase),
        }
    }
}

impl Watch {
    /// A watch over a command that has just started.
    pub fn new(settings: Settings) -> (r: Self)
        ensures
            r@ == WatchState::start(settings@),
    {
        Watch {
            settings,
            status: None,
            cpu: Binary64::zero(false),
            count: 0,
            throttle: CpuThrottle::new(),
            last_sample: Duration::zero(),
            sampled: false,
            next_check: Duration::zero(),
            phase: Phase::Observe,
        }
    }

    /// What the watch waits for.
    pub fn phase(&self) -> (r: Phase<Duration>)
        ensures
            phase_view(r) == self@.phase,
    {
        self.phase
    }

    /// How the command ended, once that is known.
    pub fn status(&self) -> (r: Option<ExitStatus>)
        ensures
            r == self@.status,
    {
        self.status
    }

    /// How long the processes still have to pause.
    pub fn pause_debt(&self) -> (r: Duration)
        ensures
            r@ == self@.debt,
    {
        self.throttle.pause_debt
    }

    /// What is to be done next.
    pub fn action(&self) -> (r: Action<Duration>)
        ensures
            action_view(r) == self@.action(),
    {
        match self.phase {
            Phase::Observe => Action::Look { inspect: self.status.is_none() },
            Phase::Grace { .. } | Phase::Verify { .. } => Action::Look { inspect: true },
            Phase::FirstLook | Phase::Gather(_) => Action::Look { inspect: false },
            Phase::Recheck => Action::Recheck,
            Phase::Measure => Action::Measure,
            Phase::Announce(notice) => Action::Announce(notice),
            Phase::FirstSuspend | Phase::Suspend { .. } => Action::Control(Control::Suspend),
            Phase::FirstResume | Phase::Resume { .. } | Phase::Rescue => Action::Control(
                Control::Resume,
            ),
            Phase::FirstSleep => Action::Pause(self.settings.first_pause),
            Phase::Sleep { pause } => Action::Pause(pause),
            Phase::Wait { at_most } => Action::Wait(at_most),
            Phase::Terminate(_) => Action::Control(Control::Terminate),
            Phase::GraceSleep { .. } => Action::Sleep(
                Duration::from_millis(25).min(self.settings.kill_after),
            ),
            Phase::Kill(_) => Action::Control(Control::Kill),
            Phase::VerifySleep { .. } => Action::Sleep(Duration::from_millis(25)),
            Phase::Ended(ending) => Action::End(ending),
        }
    }

    /// The CPU allowance, where the system does not keep it itself.
    fn check_cpu(&mut self, now: Duration)
        ensures
            final(self)@ == old(self)@.check_cpu(now@),
    {
        let wait: Phase<Duration> = Phase::Wait { at_most: self.settings.poll_interval };
        let cores: Binary64 = match self.settings.cpu {
            None => {
                self.phase = wait;
                return ;
            },
            Some(cores) => cores,
        };
        if self.settings.platform.is_windows() {
            self.phase = wait;
            return ;
        }
        if !self.sampled {
            self.phase = Phase::FirstSuspend;
            return ;
        }
        let sample: Duration = now.saturating_sub(self.last_sample);
        match self.throttle.record(self.cpu, cores, sample) {
            Err(e) => {
                self.phase = Phase::Ended(Ending::Failed(SupervisionError::Throttle(e)));
            },
            Ok(()) => {
                self.last_sample = now;
                self.phase = match self.throttle.pause() {
                    None => wait,
                    Some(pause) => Phase::Suspend { pause },
                };
            },
        }
    }

    /// The time limit, then the CPU allowance.
    fn check_time(&mut self, now: Duration)
        ensures
            final(self)@ == old(self)@.check_time(now@),
    {
        if let Some(limit) = self.settings.time {
            if !now.shorter_than(limit) {
                self.phase = Phase::Announce(Notice::TimeLimit { at: now });
                return ;
            }
        }
        self.check_cpu(now);
    }

    /// The limit on the command's memory, then the memory left to others, then the rest.
    fn check_memory(&mut self, rss: u64, now: Duration)
        ensures
            final(self)@ == old(self)@.check_memory(rss, now@),
    {
        if let Some(limit) = self.settings.memory {
            if rss > limit {
                self.phase = Phase::Announce(Notice::MemoryLimit { used: rss, limit });
                return ;
            }
        }
        if let Some(reserve) = self.settings.reserve {
            if reserve > 0 && !now.shorter_than(self.next_check) {
                self.phase = Phase::Measure;
                return ;
            }
        }
        self.check_time(now);
    }

    /// A round, with what was seen.
    fn judge(&mut self, seen: Sighting, now: Duration)
        ensures
            final(self)@ == old(self)@.judge(seen@, now@),
    {
        match self.status {
            Some(status) => {
                if self.settings.platform.is_windows() || seen.count == 0 {
                    self.phase = Phase::Ended(Ending::Status(status));
                } else {
                    self.check_memory(seen.rss, now);
                }
            },
            None => {
                if seen.observed {
                    self.check_memory(seen.rss, now);
                } else {
                    self.phase = Phase::Recheck;
                }
            },
        }
    }

    /// The ending of a stop once nothing is left.
    fn stopped(&self, cause: Cause<Duration>) -> (r: Option<Ending<Duration>>)
        ensures
            match r {
                Some(ending) => self@.stopped(cause_view(cause)) == Some(ending_view(ending)),
                None => self@.stopped(cause_view(cause)) is None,
            },
    {
        if self.count > 0 {
            return None;
        }
        match cause {
            Cause::Limit(notice) => Some(Ending::Limit(notice)),
            Cause::Signal => match self.status {
                Some(status) => Some(Ending::Status(status)),
                None => None,
            },
        }
    }

    /// Time to end until some time; then the processes are killed.
    fn grace_or_kill(&mut self, cause: Cause<Duration>, until: Duration, now: Duration)
        ensures
            final(self)@ == old(self)@.grace_or_kill(cause_view(cause), until@, now@),
    {
        if now.shorter_than(until) {
            self.phase = Phase::Grace { cause, until };
        } else {
            self.phase = Phase::Kill(cause);
        }
    }

    /// Time to end from now on.
    fn begin_grace(&mut self, cause: Cause<Duration>, now: Duration)
        ensures
            final(self)@ == old(self)@.begin_grace(cause_view(cause), now@),
    {
        match now.checked_add(self.settings.kill_after) {
            None => {
                self.phase = Phase::Ended(Ending::Failed(SupervisionError::GraceTooLong));
            },
            Some(until) => {
                until.check_longest();
                self.grace_or_kill(cause, until, now);
            },
        }
    }

    /// A search for what is left after killing until some time; then that is a failure.
    fn verify_or_fail(&mut self, cause: Cause<Duration>, until: Duration, now: Duration)
        ensures
            final(self)@ == old(self)@.verify_or_fail(cause_view(cause), until@, now@),
    {
        if now.shorter_than(until) {
            self.phase = Phase::Verify { cause, until };
        } else {
            self.phase = Phase::Ended(Ending::Failed(SupervisionError::StillThere(self.count)));
        }
    }

    /// A search for what is left after killing from now on.
    fn begin_verification(&mut self, cause: Cause<Duration>, now: Duration)
        ensures
            final(self)@ == old(self)@.begin_verification(cause_view(cause), now@),
    {
        match now.checked_add(Duration::from_secs(2)) {
            None => {
                self.phase = Phase::Ended(Ending::Failed(SupervisionError::VerificationSchedule));
            },
            Some(until) => {
                until.check_longest();
                self.verify_or_fail(cause, until, now);
            },
        }
    }

    /// Takes in what a look at the processes showed, and what a look at the command did where
    /// that was called for.
    pub fn looked(&mut self, status: Option<ExitStatus>, seen: Sighting, now: Duration)
        requires
            old(self)@.action() is Look,
        ensures
            final(self)@ == old(self)@.after_look(status, seen@, now@),
    {
        self.cpu = seen.cpu;
        self.count = seen.count;
        let inspects: bool = match self.phase {
            Phase::Observe | Phase::Grace { .. } | Phase::Verify { .. } => true,
            _ => false,
        };
        if inspects && self.status.is_none() {
            self.status = status;
        }
        match self.phase {
            Phase::Observe => {
                self.judge(seen, now);
            },
            Phase::FirstLook => {
                self.phase = Phase::FirstResume;
            },
            Phase::Gather(notice) => {
                self.phase = Phase::Terminate(notice);
            },
            Phase::Grace { cause, until } => {
                self.phase = match self.stopped(cause) {
                    Some(ending) => Phase::Ended(ending),
                    None => Phase::GraceSleep { cause, until },
                };
            },
            Phase::Verify { cause, until } => {
                self.phase = match self.stopped(cause) {
                    Some(ending) => Phase::Ended(ending),
                    None => Phase::VerifySleep { cause, until },
                };
            },
            _ => {},
        }
    }

    /// Takes in what another look at the command showed.
    pub fn rechecked(&mut self, status: Option<ExitStatus>)
        requires
            old(self)@.action() is Recheck,
        ensures
            final(self)@ == old(self)@.after_recheck(status),
    {
        match status {
            Some(ended) => {
                self.status = status;
                self.phase = Phase::Ended(Ending::Status(ended));
            },
            None => {
                self.phase = Phase::Ended(Ending::Failed(SupervisionError::Unobserved));
            },
        }
    }

    /// Takes in how much memory is available.
    pub fn measured(&mut self, available: u64, now: Duration)
        requires
            old(self)@.action() is Measure,
        ensures
            final(self)@ == old(self)@.after_measure(available, now@),
    {
        match now.checked_add(Duration::from_secs(1)) {
            None => {
                self.phase = Phase::Ended(Ending::Failed(SupervisionError::MemorySchedule));
                return ;
            },
            Some(next) => {
                next.check_longest();
                self.next_check = next;
            },
        }
        if let Some(reserve) = self.settings.reserve {
            if host_reserve_crossed(reserve, available) {
                self.phase = Phase::Announce(Notice::HostReserve { available, reserve });
                return ;
            }
        }
        self.check_time(now);
    }

    /// Takes in that the processes were seen to, or that a limit was spoken of.
    pub fn done(&mut self, now: Duration)
        requires
            old(self)@.action() is Control || old(self)@.action() is Announce,
        ensures
            final(self)@ == old(self)@.after_done(now@),
    {
        match self.phase {
            Phase::Announce(notice) => {
                self.phase = Phase::Gather(notice);
            },
            Phase::FirstSuspend => {
                self.phase = Phase::FirstSleep;
            },
            Phase::FirstResume => {
                self.last_sample = now;
                self.sampled = true;
                self.phase = Phase::Wait { at_most: Duration::zero() };
            },
            Phase::Suspend { pause } => {
                self.phase = Phase::Sleep { pause };
            },
            Phase::Resume { slept } => {
                self.throttle.consume_pause(slept);
                self.phase = Phase::Wait {
                    at_most: if self.throttle.pause_debt.is_zero() {
                        self.settings.poll_interval
                    } else {
                        Duration::zero()
                    },
                };
            },
            Phase::Rescue => {
                self.phase = Phase::Ended(Ending::Aborted);
            },
            Phase::Terminate(notice) => {
                self.begin_grace(Cause::Limit(notice), now);
            },
            Phase::Kill(cause) => {
                self.begin_verification(cause, now);
            },
            _ => {},
        }
    }

    /// Takes in that what was to be done could not be done.
    pub fn failed(&mut self)
        ensures
            final(self)@ == old(self)@.after_failure(),
    {
        if let Phase::Resume { slept } = self.phase {
            self.throttle.consume_pause(slept);
        }
        self.phase = match self.phase {
            Phase::FirstSuspend | Phase::Suspend { .. } => Phase::Rescue,
            Phase::Ended(ending) => Phase::Ended(ending),
            _ => Phase::Ended(Ending::Aborted),
        };
    }

    /// Takes in that the sleep is over, and how much of it counts.
    pub fn slept(&mut self, slept: Duration, now: Duration)
        requires
            old(self)@.action() is Pause || old(self)@.action() is Sleep,
        ensures
            final(self)@ == old(self)@.after_sleep(slept@, now@),
    {
        match self.phase {
            Phase::FirstSleep => {
                self.phase = Phase::FirstLook;
            },
            Phase::Sleep { .. } => {
                self.phase = Phase::Resume { slept };
            },
            Phase::GraceSleep { cause, until } => {
                self.grace_or_kill(cause, until, now);
            },
            Phase::VerifySleep { cause, until } => {
                self.verify_or_fail(cause, until, now);
            },
            _ => {},
        }
    }

    /// Takes in that the wait is over, and whether a signal that ends programs was passed on.
    pub fn waited(&mut self, signalled: bool, now: Duration)
        requires
            old(self)@.action() is Wait,
        ensures
            final(self)@ == old(self)@.after_wait(signalled, now@),
    {
        if signalled {
            self.begin_grace(Cause::Signal, now);
        } else {
            self.phase = Phase::Observe;
        }
    }
}

/// A notice in words.
pub open spec fn notice_words<T>(notice: Notice<T>) -> Seq<char> {
    match notice {
        Notice::MemoryLimit { used, limit } => "memory limit exceeded ("@ + size_text(used as nat)
            + " > "@ + size_text(limit as nat) + ")"@,
        Notice::HostReserve { available, reserve } => "host memory reserve crossed ("@
            + size_text(available as nat) + " available < "@ + size_text(reserve as nat) + " reserved)"@,
        Notice::TimeLimit { .. } => "time limit exceeded"@,
    }
}

impl Notice<Duration> {
    /// The notice in words.
    pub fn message(self) -> (text: String)
        ensures
            text@ == notice_words(self),
    {
        let mut text: String = String::new();
        match self {
            Notice::MemoryLimit { used, limit } => {
                text.append("memory limit exceeded (");
                text.append(format_bytes(used).as_str());
                text.append(" > ");
                text.append(format_bytes(limit).as_str());
                text.append(")");
            },
            Notice::HostReserve { available, reserve } => {
                text.append("host memory reserve crossed (");
                text.append(format_bytes(available).as_str());
                text.append(" available < ");
                text.append(format_bytes(reserve).as_str());
                text.append(" reserved)");
            },
            Notice::TimeLimit { .. } => {
                text.append("time limit exceeded");
            },
        }
        proof {
            assert(text@ =~= notice_words(self));
        }
        text
    }
}

impl SupervisionError {
    /// The error in words.
    pub open spec fn words(self) -> Seq<char> {
        match self {
            SupervisionError::Unobserved =>
                "could not observe the running command in the process table"@,
            SupervisionError::Throttle(e) => e.words(),
            SupervisionError::MemorySchedule =>
                "platform clock cannot schedule memory sampling"@,
            SupervisionError::GraceTooLong => "termination grace period is too large"@,
            SupervisionError::VerificationSchedule =>
                "platform clock cannot schedule the check after forced termination"@,
            SupervisionError::StillThere(count) => "process tree still contains "@ + decimal(
                count as nat,
            ) + " process(es) after forced termination"@,
        }
    }

    /// The error in words.
    pub fn message(self) -> (text: String)
        ensures
            text@ == self.words(),
    {
        let mut text: String = String::new();
        match self {
            SupervisionError::Unobserved => {
                text.append("could not observe the running command in the process table");
            },
            SupervisionError::Throttle(e) => {
                text.append(e.message().as_str());
            },
            SupervisionError::MemorySchedule => {
                text.append("platform clock cannot schedule memory sampling");
            },
            SupervisionError::GraceTooLong => {
                text.append("termination grace period is too large");
            },
            SupervisionError::VerificationSchedule => {
                text.append("platform clock cannot schedule the check after forced termination");
            },
            SupervisionError::StillThere(count) => {
                text.append("process tree still contains ");
                push_decimal(&mut text, count as u64);
                text.append(" process(es) after forced termination");
            },
        }
        proof {
            assert(text@ =~= self.words());
        }
        text
    }
}

/// The exit code that an ending comes to.
pub open spec fn ending_code<T>(platform: Platform, ending: Ending<T>) -> int {
    match ending {
        Ending::Status(status) => exit_code_of(platform, status),
        Ending::Limit(notice) => match notice {
            Notice::TimeLimit { .. } => EXIT_TIMEOUT as int,
            _ => EXIT_MEMORY as int,
        },
        Ending::Failed(_) => EXIT_WRAPPER_ERROR as int,
        Ending::Aborted => EXIT_WRAPPER_ERROR as int,
    }
}

impl Ending<Duration> {
    /// The exit code that the ending comes to.
    pub fn exit_code(self, platform: Platform) -> (code: i32)
        ensures
            code == ending_code(platform, self),
    {
        match self {
            Ending::Status(status) => status_exit_code(platform, status),
            Ending::Limit(notice) => match notice {
                Notice::TimeLimit { .. } => EXIT_TIMEOUT as i32,
                _ => EXIT_MEMORY as i32,
            },
            Ending::Failed(_) => EXIT_WRAPPER_ERROR as i32,
            Ending::Aborted => EXIT_WRAPPER_ERROR as i32,
        }
    }
}

/// Whether the rules bear a notice out.
pub open spec fn borne_out(rules: Rules, notice: Notice<nat>) -> bool {
    match notice {
        Notice::MemoryLimit { used, limit } => rules.memory == Some(limit) && used > limit,
        Notice::HostReserve { available, reserve } => rules.reserve == Some(reserve) && available
            < reserve,
        Notice::TimeLimit { at } => rules.time matches Some(limit) && at >= limit,
    }
}

/// Whether the rules bear a cause out.
pub open spec fn cause_borne_out(rules: Rules, cause: Cause<nat>) -> bool {
    match cause {
        Cause::Limit(notice) => borne_out(rules, notice),
        Cause::Signal => true,
    }
}

/// Whether the watch has had the processes stopped and not yet had them go on.
pub open spec fn holds(phase: Phase<nat>) -> bool {
    ||| phase is FirstSleep
    ||| phase is FirstLook
    ||| phase is FirstResume
    ||| phase is Sleep
    ||| phase is Resume
    ||| phase is Rescue
}

/// What holds of every state of a watch: a command is stopped only for a limit of its own that
/// it crossed or for a signal, only a sampled CPU allowance has it pause, and the watch ends
/// with the command's own status, or at a limit with no process left.
pub open spec fn sound(s: WatchState) -> bool {
    &&& match s.phase {
        Phase::Announce(notice) => borne_out(s.rules, notice),
        Phase::Gather(notice) => borne_out(s.rules, notice),
        Phase::Terminate(notice) => borne_out(s.rules, notice),
        Phase::Grace { cause, .. } => cause_borne_out(s.rules, cause),
        Phase::GraceSleep { cause, .. } => cause_borne_out(s.rules, cause),
        Phase::Kill(cause) => cause_borne_out(s.rules, cause),
        Phase::Verify { cause, .. } => cause_borne_out(s.rules, cause),
        Phase::VerifySleep { cause, .. } => cause_borne_out(s.rules, cause),
        Phase::Ended(Ending::Limit(notice)) => borne_out(s.rules, notice) && s.count == 0,
        Phase::Ended(Ending::Status(status)) => s.status == Some(status),
        Phase::Suspend { pause } => pause > 0 && pause == shorter(s.debt, longest_pause()),
        _ => true,
    }
    &&& holds(s.phase) || s.phase is FirstSuspend || s.phase is Suspend ==> s.rules.cpu is Some
        && !s.rules.platform.is_windows()
}

/// A watch that has just begun is sound.
pub proof fn law_a_watch_begins_sound(rules: Rules)
    ensures
        sound(WatchState::start(rules)),
{
}

/// Whatever comes of what a sound watch asked for, the watch stays sound, and a status that is
/// known stays as it is.
pub proof fn law_a_watch_stays_sound(
    s: WatchState,
    status: Option<ExitStatus>,
    seen: Seen,
    available: u64,
    slept: nat,
    signalled: bool,
    now: nat,
)
    requires
        sound(s),
    ensures
        s.action() is Look ==> {
            let t = s.after_look(status, seen, now);
            sound(t) && t.rules == s.rules && (s.status is Some ==> t.status == s.status)
        },
        s.action() is Recheck ==> sound(s.after_recheck(status)) && s.after_recheck(status).rules
            == s.rules,
        s.action() is Measure ==> {
            let t = s.after_measure(available, now);
            sound(t) && t.rules == s.rules && t.status == s.status
        },
        s.action() is Control || s.action() is Announce ==> {
            let t = s.after_done(now);
            sound(t) && t.rules == s.rules && t.status == s.status
        },
        s.action() is Pause || s.action() is Sleep ==> {
            let t = s.after_sleep(slept, now);
            sound(t) && t.rules == s.rules && t.status == s.status
        },
        s.action() is Wait ==> {
            let t = s.after_wait(signalled, now);
            sound(t) && t.rules == s.rules && t.status == s.status
        },
        sound(s.after_failure()) && s.after_failure().rules == s.rules
            && s.after_failure().status == s.status,
{
}

/// A command that has ended with nothing of it left keeps its status, whatever limit was
/// crossed meanwhile.
pub proof fn law_the_status_comes_before_the_limits(
    s: WatchState,
    status: Option<ExitStatus>,
    ended: ExitStatus,
    seen: Seen,
    now: nat,
)
    requires
        s.phase == Phase::<nat>::Observe,
        s.status == Some(ended) || s.status is None && status == Some(ended),
        seen.count == 0,
    ensures
        s.after_look(status, seen, now).phase == Phase::<nat>::Ended(Ending::Status(ended)),
{
}

/// Whether something of the command is seen to run: the command itself, or on Unix what it has
/// left behind.
pub open spec fn still_runs(s: WatchState, status: Option<ExitStatus>, seen: Seen) -> bool {
    if s.status is None && status is None {
        seen.observed
    } else {
        !s.rules.platform.is_windows() && seen.count > 0
    }
}

/// A command of which something runs and that is seen above its memory limit is stopped for it.
pub proof fn law_too_much_memory_is_acted_on(
    s: WatchState,
    status: Option<ExitStatus>,
    seen: Seen,
    limit: u64,
    now: nat,
)
    requires
        s.phase == Phase::<nat>::Observe,
        still_runs(s, status, seen),
        s.rules.memory == Some(limit),
        seen.rss > limit,
    ensures
        s.after_look(status, seen, now).phase == Phase::<nat>::Announce(
            Notice::MemoryLimit { used: seen.rss, limit },
        ),
{
}

/// The memory left to others is measured whenever that is due, and at least a second apart;
/// where there is less than the reserve, the command is stopped for it.
pub proof fn law_the_reserve_is_watched(
    s: WatchState,
    status: Option<ExitStatus>,
    seen: Seen,
    reserve: u64,
    available: u64,
    now: nat,
    later: nat,
)
    requires
        s.phase == Phase::<nat>::Observe,
        still_runs(s, status, seen),
        s.rules.memory matches Some(limit) ==> seen.rss <= limit,
        s.rules.reserve == Some(reserve),
        reserve > 0,
        now >= s.next_check,
        later + memory_interval() <= longest(),
    ensures
        s.after_look(status, seen, now).phase == Phase::<nat>::Measure,
        ({
            let t = s.after_look(status, seen, now).after_measure(available, later);
            &&& t.next_check == later + memory_interval()
            &&& available < reserve ==> t.phase == Phase::<nat>::Announce(
                Notice::HostReserve { available, reserve },
            )
            &&& available >= reserve ==> !(t.phase is Announce && t.phase->Announce_0
                is HostReserve)
        }),
{
}

/// A command that has taken its time is stopped at the next look, unless it is stopped for its
/// memory or the memory left to others is to be measured first; and that measurement is
/// followed by the same.
pub proof fn law_the_time_limit_is_acted_on(
    s: WatchState,
    status: Option<ExitStatus>,
    seen: Seen,
    available: u64,
    limit: nat,
    now: nat,
)
    requires
        s.rules.time == Some(limit),
        now >= limit,
    ensures
        s.phase == Phase::<nat>::Observe && still_runs(s, status, seen) ==> {
            let t = s.after_look(status, seen, now);
            ||| t.phase == Phase::<nat>::Announce(Notice::TimeLimit { at: now })
            ||| t.phase is Announce && t.phase->Announce_0 is MemoryLimit
            ||| t.phase is Measure
        },
        s.phase == Phase::<nat>::Measure && now + memory_interval() <= longest() ==> {
            let t = s.after_measure(available, now);
            ||| t.phase == Phase::<nat>::Announce(Notice::TimeLimit { at: now })
            ||| t.phase is Announce && t.phase->Announce_0 is HostReserve
        },
{
}

/// A limit that was crossed leads, by way of a word on it and a look at the processes, to a
/// request to end.
pub proof fn law_a_crossed_limit_is_followed_by_a_request_to_end(
    s: WatchState,
    notice: Notice<nat>,
    status: Option<ExitStatus>,
    seen: Seen,
    now: nat,
    later: nat,
)
    requires
        s.phase == Phase::<nat>::Announce(notice),
    ensures
        s.action() == Action::<nat>::Announce(notice),
        s.after_done(now).action() == (Action::<nat>::Look { inspect: false }),
        s.after_done(now).after_look(status, seen, later).action() == Action::<nat>::Control(
            Control::Terminate,
        ),
{
}

/// Processes that were asked to end, or got a signal that ends programs, have the whole of
/// their time before they are killed; and once that time is up they are.
pub proof fn law_no_process_is_killed_before_its_time(
    s: WatchState,
    notice: Notice<nat>,
    status: Option<ExitStatus>,
    seen: Seen,
    slept: nat,
    now: nat,
)
    ensures
        s.phase == Phase::<nat>::Terminate(notice) && s.after_done(now).phase is Kill
            ==> s.rules.kill_after == 0,
        s.phase == Phase::<nat>::Terminate(notice) && s.after_done(now).phase is Grace
            ==> s.after_done(now).phase == (Phase::<nat>::Grace {
            cause: Cause::Limit(notice),
            until: now + s.rules.kill_after,
        }),
        s.phase is Wait && s.after_wait(true, now).phase is Kill ==> s.rules.kill_after == 0,
        s.phase is Wait && s.after_wait(true, now).phase is Grace ==> s.after_wait(true, now).phase
            == (Phase::<nat>::Grace { cause: Cause::Signal, until: now + s.rules.kill_after }),
        s.phase matches Phase::Grace { cause, until } ==> {
            let t = s.after_look(status, seen, now);
            t.phase is Ended || t.phase == (Phase::<nat>::GraceSleep { cause, until })
        },
        s.phase matches Phase::GraceSleep { cause, until } ==> {
            let t = s.after_sleep(slept, now);
            if now < until {
                t.phase == (Phase::<nat>::Grace { cause, until })
            } else {
                t.phase == Phase::<nat>::Kill(cause)
            }
        },
{
}

/// A stop ends well only once no process is left; two seconds after killing, what is left is a
/// failure.
pub proof fn law_a_stop_leaves_nothing(
    s: WatchState,
    status: Option<ExitStatus>,
    seen: Seen,
    slept: nat,
    now: nat,
)
    ensures
        s.phase is Grace || s.phase is Verify ==> (s.after_look(status, seen, now).phase is Ended
            ==> seen.count == 0),
        s.phase is Kill && now + verification_time() <= longest() ==> s.after_done(now).phase == (
        Phase::<nat>::Verify {
            cause: s.phase->Kill_0,
            until: now + verification_time(),
        }),
        s.phase matches Phase::VerifySleep { cause, until } && now >= until ==> s.after_sleep(
            slept,
            now,
        ).phase == Phase::<nat>::Ended(Ending::Failed(SupervisionError::StillThere(s.count))),
{
}

/// A signal that ends programs is answered at once, and ends the watch with the command's own
/// status.
pub proof fn law_a_signal_keeps_the_status(
    s: WatchState,
    status: Option<ExitStatus>,
    seen: Seen,
    until: nat,
    now: nat,
)
    requires
        s.phase == (Phase::<nat>::Grace { cause: Cause::Signal, until }) || s.phase == (Phase::<
            nat,
        >::Verify { cause: Cause::Signal, until }),
    ensures
        s.after_look(status, seen, now).phase matches Phase::Ended(ending) ==> {
            &&& ending is Status
            &&& Some(ending->Status_0) == if s.status is Some {
                s.status
            } else {
                status
            }
        },
        seen.count == 0 && (s.status is Some || status is Some) ==> s.after_look(
            status,
            seen,
            now,
        ).phase is Ended,
{
}

/// Processes that were stopped for a pause go on: nothing but having them go on leads out of a
/// pause, whether or not all of them could be stopped. Only where something fails does the
/// watch end instead.
pub proof fn law_a_pause_is_followed_by_going_on(
    s: WatchState,
    status: Option<ExitStatus>,
    seen: Seen,
    slept: nat,
    now: nat,
)
    requires
        holds(s.phase) || s.phase is FirstSuspend || s.phase is Suspend,
    ensures
        s.phase is FirstSuspend || s.phase is Suspend ==> holds(s.after_done(now).phase)
            && s.after_failure().phase is Rescue,
        s.action() is Pause ==> holds(s.after_sleep(slept, now).phase),
        s.action() is Look ==> s.after_look(status, seen, now).phase is FirstResume,
        !(s.action() is Pause) && !(s.action() is Look) ==> s.action() == Action::<nat>::Control(
            Control::Suspend,
        ) || s.action() == Action::<nat>::Control(Control::Resume),
{
}

/// What was paused is taken off what is owed, whether or not the processes could be made to go
/// on; the next round follows at once while something is owed. Where they could not be stopped,
/// nothing is taken off.
pub proof fn law_a_pause_is_paid(s: WatchState, pause: nat, slept: nat, now: nat, later: nat)
    requires
        s.phase == (Phase::<nat>::Suspend { pause }),
    ensures
        s.after_done(now).after_sleep(slept, now).after_failure().debt == left_of(s.debt, slept),
        s.after_failure().debt == s.debt,
        s.after_failure().after_done(later).debt == s.debt,
        s.after_failure().after_failure().debt == s.debt,
        ({
            let t = s.after_done(now).after_sleep(slept, now).after_done(later);
            &&& t.debt == left_of(s.debt, slept)
            &&& t.phase == (Phase::<nat>::Wait {
                at_most: if t.debt == 0 {
                    s.rules.poll_interval
                } else {
                    0
                },
            })
        }),
{
}

/// The exit code tells what happened: the command's own where it ended by itself or on a
/// signal, 124 where it had taken its time, 137 where memory ran short, and 125 where it could
/// not be watched.
pub proof fn law_exit_codes_tell_what_happened(s: WatchState, ending: Ending<nat>)
    requires
        sound(s),
        s.phase == Phase::<nat>::Ended(ending),
    ensures
        match ending {
            Ending::Status(status) => s.status == Some(status) && ending_code(
                s.rules.platform,
                ending,
            ) == exit_code_of(s.rules.platform, status),
            Ending::Limit(Notice::TimeLimit { at }) => ending_code(s.rules.platform, ending) == 124
                && s.rules.time is Some && at >= s.rules.time->0,
            Ending::Limit(Notice::MemoryLimit { used, limit }) => ending_code(
                s.rules.platform,
                ending,
            ) == 137 && s.rules.memory == Some(limit) && used > limit,
            Ending::Limit(Notice::HostReserve { available, reserve }) => ending_code(
                s.rules.platform,
                ending,
            ) == 137 && s.rules.reserve == Some(reserve) && available < reserve,
            _ => ending_code(s.rules.platform, ending) == 125,
        },
{
}

/// Whether nothing stops the command at this look: its memory is within its limit, no
/// measurement of what is left to others is due, and its time is not up.
pub open spec fn within_other_limits(s: WatchState, rss: u64, now: nat) -> bool {
    &&& s.rules.memory matches Some(limit) ==> rss <= limit
    &&& s.rules.reserve matches Some(reserve) ==> reserve == 0 || now < s.next_check
    &&& s.rules.time matches Some(limit) ==> now < limit
}

/// A CPU allowance is kept on every system but Windows, which keeps it itself: the first look
/// leads to a first sample, and each later one to a pause wherever one is owed. The pause is as
/// long as what is owed, a second at most.
pub proof fn law_the_cpu_allowance_is_kept(
    s: WatchState,
    status: Option<ExitStatus>,
    seen: Seen,
    cores: Num,
    now: nat,
)
    requires
        s.phase == Phase::<nat>::Observe,
        still_runs(s, status, seen),
        within_other_limits(s, seen.rss, now),
        s.rules.cpu == Some(cores),
        s.rules.platform != Platform::Windows,
    ensures
        !s.sampled ==> {
            let t = s.after_look(status, seen, now);
            t.phase == Phase::<nat>::FirstSuspend && t.action() == Action::<nat>::Control(
                Control::Suspend,
            ) && t.debt == s.debt && !t.sampled
        },
        s.sampled ==> {
            let t = s.after_look(status, seen, now);
            let sample = if now < s.last_sample {
                0
            } else {
                now - s.last_sample
            };
            match owed_after(s.debt, seen.cpu, cores, sample as nat) {
                Err(e) => t.phase == Phase::<nat>::Ended(
                    Ending::Failed(SupervisionError::Throttle(e)),
                ),
                Ok(debt) => {
                    &&& t.debt == debt
                    &&& t.last_sample == now
                    &&& t.sampled
                    &&& debt == 0 ==> t.action() == Action::<nat>::Wait(s.rules.poll_interval)
                    &&& debt > 0 ==> t.action() == Action::<nat>::Control(Control::Suspend)
                    &&& 0 < debt <= 1_000_000_000 ==> t.phase == (Phase::<nat>::Suspend {
                        pause: debt,
                    })
                    &&& debt > 1_000_000_000 ==> t.phase == (Phase::<nat>::Suspend {
                        pause: 1_000_000_000,
                    })
                },
            }
        },
{
}

/// The same holds once the memory left to others was measured and is enough, with the CPU time
/// of the look before.
pub proof fn law_the_cpu_allowance_is_kept_after_measuring(
    s: WatchState,
    available: u64,
    cores: Num,
    now: nat,
)
    requires
        s.phase == Phase::<nat>::Measure,
        now + 1_000_000_000 <= longest(),
        s.rules.reserve matches Some(reserve) ==> available >= reserve,
        s.rules.time matches Some(limit) ==> now < limit,
        s.rules.cpu == Some(cores),
        s.rules.platform != Platform::Windows,
    ensures
        s.after_measure(available, now).next_check == now + 1_000_000_000,
        !s.sampled ==> s.after_measure(available, now).phase == Phase::<nat>::FirstSuspend,
        s.sampled ==> {
            let t = s.after_measure(available, now);
            let sample = if now < s.last_sample {
                0
            } else {
                now - s.last_sample
            };
            match owed_after(s.debt, s.cpu, cores, sample as nat) {
                Err(e) => t.phase == Phase::<nat>::Ended(
                    Ending::Failed(SupervisionError::Throttle(e)),
                ),
                Ok(debt) => {
                    &&& t.debt == debt
                    &&& t.last_sample == now
                    &&& debt == 0 ==> t.action() == Action::<nat>::Wait(s.rules.poll_interval)
                    &&& 0 < debt <= 1_000_000_000 ==> t.phase == (Phase::<nat>::Suspend {
                        pause: debt,
                    })
                    &&& debt > 1_000_000_000 ==> t.phase == (Phase::<nat>::Suspend {
                        pause: 1_000_000_000,
                    })
                },
            }
        },
{
}

/// A command within its limits, without a CPU allowance or on a system that keeps it, is left
/// alone until the next look, with nothing noted but what was seen.
pub proof fn law_a_command_within_its_limits_is_left_alone(
    s: WatchState,
    status: Option<ExitStatus>,
    seen: Seen,
    available: u64,
    now: nat,
)
    requires
        s.rules.cpu is None || s.rules.platform == Platform::Windows,
    ensures
        s.phase == Phase::<nat>::Observe && still_runs(s, status, seen) && within_other_limits(
            s,
            seen.rss,
            now,
        ) ==> s.after_look(status, seen, now) == (WatchState {
            status: if s.status is Some {
                s.status
            } else {
                status
            },
            cpu: seen.cpu,
            count: seen.count,
            phase: Phase::Wait { at_most: s.rules.poll_interval },
            ..s
        }),
        s.phase == Phase::<nat>::Measure && now + 1_000_000_000 <= longest() && (
        s.rules.reserve matches Some(reserve) ==> available >= reserve) && (s.rules.time matches Some(
            limit,
        ) ==> now < limit) ==> s.after_measure(available, now) == (WatchState {
            next_check: now + 1_000_000_000,
            phase: Phase::Wait { at_most: s.rules.poll_interval },
            ..s
        }),
{
}

/// A first sample stops the processes, sleeps for as long as it takes, looks at them, has them
/// go on, and counts from then; nothing is owed for it.
pub proof fn law_a_first_sample(
    s: WatchState,
    status: Option<ExitStatus>,
    seen: Seen,
    slept: nat,
    t1: nat,
    t2: nat,
    t3: nat,
    t4: nat,
)
    requires
        s.phase == Phase::<nat>::FirstSuspend,
    ensures
        s.action() == Action::<nat>::Control(Control::Suspend),
        s.after_done(t1).action() == Action::<nat>::Pause(s.rules.first_pause),
        s.after_done(t1).after_sleep(slept, t2).action() == (Action::<nat>::Look {
            inspect: false,
        }),
        ({
            let looked = s.after_done(t1).after_sleep(slept, t2).after_look(status, seen, t3);
            &&& looked.action() == Action::<nat>::Control(Control::Resume)
            &&& looked.after_done(t4) == (WatchState {
                cpu: seen.cpu,
                count: seen.count,
                last_sample: t4,
                sampled: true,
                phase: Phase::Wait { at_most: 0 },
                ..s
            })
        }),
{
}

/// A pause stops the processes, sleeps for as long as it is, has them go on, and takes what was
/// slept off what is owed.
pub proof fn law_a_pause(s: WatchState, pause: nat, slept: nat, t1: nat, t2: nat, t3: nat)
    requires
        s.phase == (Phase::<nat>::Suspend { pause }),
    ensures
        s.action() == Action::<nat>::Control(Control::Suspend),
        s.after_done(t1).action() == Action::<nat>::Pause(pause),
        s.after_done(t1).after_sleep(slept, t2).action() == Action::<nat>::Control(
            Control::Resume,
        ),
        ({
            let t = s.after_done(t1).after_sleep(slept, t2).after_done(t3);
            &&& slept < s.debt ==> t == (WatchState {
                debt: (s.debt - slept) as nat,
                phase: Phase::Wait { at_most: 0 },
                ..s
            })
            &&& slept >= s.debt ==> t == (WatchState {
                debt: 0,
                phase: Phase::Wait { at_most: s.rules.poll_interval },
                ..s
            })
        }),
{
}

/// A round follows a wait without a signal, and nothing else changes by waiting.
pub proof fn law_a_round_follows_a_wait(s: WatchState, at_most: nat, now: nat)
    requires
        s.phase == (Phase::<nat>::Wait { at_most }),
    ensures
        s.action() == Action::<nat>::Wait(at_most),
        s.after_wait(false, now) == (WatchState { phase: Phase::Observe, ..s }),
        s.after_wait(false, now).action() == (Action::<nat>::Look { inspect: s.status is None }),
{
}

/// A command that has ended is over on Windows at once, and elsewhere once nothing of it is
/// left; its status is the first that was found.
pub proof fn law_an_ended_command_is_over(
    s: WatchState,
    status: Option<ExitStatus>,
    ended: ExitStatus,
    seen: Seen,
    now: nat,
)
    requires
        s.phase == Phase::<nat>::Observe,
        s.status == Some(ended) || s.status is None && status == Some(ended),
        s.rules.platform == Platform::Windows || seen.count == 0,
    ensures
        s.after_look(status, seen, now) == (WatchState {
            status: Some(ended),
            cpu: seen.cpu,
            count: seen.count,
            phase: Phase::Ended(Ending::Status(ended)),
            ..s
        }),
{
}

/// A command that is not known to have ended and cannot be seen is looked for once more: either
/// it has ended by then, or it cannot be watched.
pub proof fn law_an_unseen_command(
    s: WatchState,
    seen: Seen,
    now: nat,
    later: Option<ExitStatus>,
)
    requires
        s.phase == Phase::<nat>::Observe,
        s.status is None,
        !seen.observed,
    ensures
        ({
            let t = s.after_look(None, seen, now);
            &&& t.action() == Action::<nat>::Recheck
            &&& later is Some ==> t.after_recheck(later) == (WatchState {
                status: later,
                cpu: seen.cpu,
                count: seen.count,
                phase: Phase::Ended(Ending::Status(later->0)),
                ..s
            })
            &&& later is None ==> t.after_recheck(later).phase == Phase::<nat>::Ended(
                Ending::Failed(SupervisionError::Unobserved),
            )
        }),
{
}

/// A stop changes nothing but what was seen and how far the stop has come.
pub proof fn law_a_stop_changes_nothing_else(
    s: WatchState,
    status: Option<ExitStatus>,
    seen: Seen,
    slept: nat,
    now: nat,
)
    requires
        s.phase is Announce || s.phase is Gather || s.phase is Terminate || s.phase is Grace
            || s.phase is GraceSleep || s.phase is Kill || s.phase is Verify
            || s.phase is VerifySleep,
    ensures
        s.action() is Look ==> {
            let t = s.after_look(status, seen, now);
            &&& t == (WatchState {
                status: t.status,
                cpu: seen.cpu,
                count: seen.count,
                phase: t.phase,
                ..s
            })
            &&& t.status == if s.status is None && !(s.phase is Gather) {
                status
            } else {
                s.status
            }
        },
        s.action() is Control || s.action() is Announce ==> s.after_done(now) == (WatchState {
            phase: s.after_done(now).phase,
            ..s
        }),
        s.action() is Sleep ==> s.after_sleep(slept, now) == (WatchState {
            phase: s.after_sleep(slept, now).phase,
            ..s
        }),
{
}

/// Processes that are to end have until a time that is fixed when they are asked: the time they
/// are given from then, unless that lies past the end of the clock.
pub proof fn law_the_time_to_end(s: WatchState, now: nat)
    ensures
        s.phase matches Phase::Terminate(notice) ==> {
            let until = now + s.rules.kill_after;
            let t = s.after_done(now);
            &&& until > 18_446_744_073_709_551_615_999_999_999 ==> t.phase == Phase::<nat>::Ended(
                Ending::Failed(SupervisionError::GraceTooLong),
            )
            &&& until <= 18_446_744_073_709_551_615_999_999_999 && s.rules.kill_after > 0
                ==> t.phase == (Phase::<nat>::Grace { cause: Cause::Limit(notice), until })
            &&& until <= 18_446_744_073_709_551_615_999_999_999 && s.rules.kill_after == 0
                ==> t.phase == Phase::<nat>::Kill(Cause::Limit(notice))
        },
        s.phase is Wait ==> {
            let until = now + s.rules.kill_after;
            let t = s.after_wait(true, now);
            &&& t == (WatchState { phase: t.phase, ..s })
            &&& until > 18_446_744_073_709_551_615_999_999_999 ==> t.phase == Phase::<nat>::Ended(
                Ending::Failed(SupervisionError::GraceTooLong),
            )
            &&& until <= 18_446_744_073_709_551_615_999_999_999 && s.rules.kill_after > 0
                ==> t.phase == (Phase::<nat>::Grace { cause: Cause::Signal, until })
            &&& until <= 18_446_744_073_709_551_615_999_999_999 && s.rules.kill_after == 0
                ==> t.phase == Phase::<nat>::Kill(Cause::Signal)
        },
        s.phase is Kill ==> {
            let until = now + 2_000_000_000;
            let t = s.after_done(now);
            &&& until > 18_446_744_073_709_551_615_999_999_999 ==> t.phase == Phase::<nat>::Ended(
                Ending::Failed(SupervisionError::VerificationSchedule),
            )
            &&& until <= 18_446_744_073_709_551_615_999_999_999 ==> t.phase == (Phase::<
                nat,
            >::Verify { cause: s.phase->Kill_0, until })
        },
{
}

/// A stop at a limit is over just when no process is left, and ends with that limit; until then
/// the next look follows a short sleep, of 25 milliseconds at most.
pub proof fn law_a_stop_at_a_limit_is_over_when_nothing_is_left(
    s: WatchState,
    notice: Notice<nat>,
    until: nat,
    status: Option<ExitStatus>,
    seen: Seen,
    slept: nat,
    now: nat,
    later: nat,
)
    ensures
        s.phase == (Phase::<nat>::Grace { cause: Cause::Limit(notice), until }) ==> {
            let t = s.after_look(status, seen, now);
            &&& seen.count == 0 ==> t.phase == Phase::<nat>::Ended(Ending::Limit(notice))
            &&& seen.count > 0 ==> {
                &&& s.rules.kill_after >= 25_000_000 ==> t.action() == Action::<nat>::Sleep(
                    25_000_000,
                )
                &&& s.rules.kill_after < 25_000_000 ==> t.action() == Action::<nat>::Sleep(
                    s.rules.kill_after,
                )
                &&& later < until ==> t.after_sleep(slept, later).phase == s.phase
                &&& later >= until ==> t.after_sleep(slept, later).action() == Action::<
                    nat,
                >::Control(Control::Kill)
            }
        },
        s.phase == (Phase::<nat>::Verify { cause: Cause::Limit(notice), until }) ==> {
            let t = s.after_look(status, seen, now);
            &&& seen.count == 0 ==> t.phase == Phase::<nat>::Ended(Ending::Limit(notice))
            &&& seen.count > 0 ==> {
                &&& t.action() == Action::<nat>::Sleep(25_000_000)
                &&& later < until ==> t.after_sleep(slept, later).phase == s.phase
                &&& later >= until ==> t.after_sleep(slept, later).phase == Phase::<nat>::Ended(
                    Ending::Failed(SupervisionError::StillThere(seen.count)),
                )
            }
        },
{
}

/// After a signal that ends programs the watch is over just when no process is left and the
/// command's status is known; until then it goes on as a stop at a limit does.
pub proof fn law_a_stop_on_a_signal_is_over_when_nothing_is_left(
    s: WatchState,
    until: nat,
    status: Option<ExitStatus>,
    seen: Seen,
    slept: nat,
    now: nat,
    later: nat,
)
    ensures
        s.phase == (Phase::<nat>::Grace { cause: Cause::Signal, until }) || s.phase == (Phase::<
            nat,
        >::Verify { cause: Cause::Signal, until }) ==> {
            let t = s.after_look(status, seen, now);
            let known = if s.status is Some {
                s.status
            } else {
                status
            };
            &&& seen.count == 0 && known is Some ==> t.phase == Phase::<nat>::Ended(
                Ending::Status(known->0),
            )
            &&& seen.count > 0 || known is None ==> {
                &&& t.action() is Sleep
                &&& later < until ==> t.after_sleep(slept, later).phase == s.phase
                &&& later >= until && s.phase is Grace ==> t.after_sleep(slept, later).action()
                    == Action::<nat>::Control(Control::Kill)
                &&& later >= until && s.phase is Verify ==> t.after_sleep(slept, later).phase
                    == Phase::<nat>::Ended(
                    Ending::Failed(SupervisionError::StillThere(seen.count)),
                )
            }
        },
{
}

/// What cannot be done ends the watch, but for a stop of the processes, after which they go on
/// first; a watch that has ended stays as it is.
pub proof fn law_what_cannot_be_done(s: WatchState, now: nat)
    ensures
        s.phase is FirstSuspend || s.phase is Suspend ==> {
            &&& s.after_failure().action() == Action::<nat>::Control(Control::Resume)
            &&& s.after_failure().after_done(now).phase == Phase::<nat>::Ended(Ending::Aborted)
            &&& s.after_failure().after_failure().phase == Phase::<nat>::Ended(Ending::Aborted)
        },
        !(s.phase is FirstSuspend) && !(s.phase is Suspend) && !(s.phase is Ended)
            ==> s.after_failure().phase == Phase::<nat>::Ended(Ending::Aborted),
        s.phase is Ended ==> s.after_failure() == s && s.action() == Action::<nat>::End(
            s.phase->Ended_0,
        ),
{
}

/// What each phase of a stop asks for.
pub proof fn law_what_a_stop_asks_for(s: WatchState)
    ensures
        s.phase matches Phase::Announce(notice) ==> s.action() == Action::<nat>::Announce(notice),
        s.phase is Gather ==> s.action() == (Action::<nat>::Look { inspect: false }),
        s.phase is Terminate ==> s.action() == Action::<nat>::Control(Control::Terminate),
        s.phase is Grace || s.phase is Verify ==> s.action() == (Action::<nat>::Look {
            inspect: true,
        }),
        s.phase is Kill ==> s.action() == Action::<nat>::Control(Control::Kill),
        s.phase is Measure ==> s.action() == Action::<nat>::Measure,
        s.phase is Rescue ==> s.action() == Action::<nat>::Control(Control::Resume),
{
}

/// A watch begins with a look, owing nothing, with its first measurement due at once.
pub proof fn law_a_watch_begins(settings: Settings)
    ensures
        ({
            let s = WatchState::start(settings@);
            &&& s.action() == (Action::<nat>::Look { inspect: true })
            &&& s.status is None && s.debt == 0 && !s.sampled && s.next_check == 0
                && s.last_sample == 0 && s.count == 0
            &&& s.cpu == (Num::Finite { negative: false, units: 0 })
            &&& s.rules.platform == settings.platform && s.rules.memory == settings.memory
                && s.rules.reserve == settings.reserve
            &&& s.rules.kill_after == settings.kill_after@ && s.rules.poll_interval
                == settings.poll_interval@ && s.rules.first_pause == settings.first_pause@
            &&& settings.cpu matches Some(cores) ==> s.rules.cpu == Some(cores@)
            &&& settings.cpu is None ==> s.rules.cpu is None
            &&& settings.time matches Some(limit) ==> s.rules.time == Some(limit@)
            &&& settings.time is None ==> s.rules.time is None
        }),
{
}

/// What is to be done is handed out as it is, with its times.
pub proof fn law_actions_are_handed_out(action: Action<Duration>)
    ensures
        match action_view(action) {
            Action::Look { inspect } => action == (Action::<Duration>::Look { inspect }),
            Action::Recheck => action is Recheck,
            Action::Measure => action is Measure,
            Action::Control(control) => action == Action::<Duration>::Control(control),
            Action::Pause(nanos) => action is Pause && action->Pause_0@ == nanos,
            Action::Sleep(nanos) => action is Sleep && action->Sleep_0@ == nanos,
            Action::Wait(nanos) => action is Wait && action->Wait_0@ == nanos,
            Action::Announce(Notice::MemoryLimit { used, limit }) => action == Action::<
                Duration,
            >::Announce(Notice::MemoryLimit { used, limit }),
            Action::Announce(Notice::HostReserve { available, reserve }) => action == Action::<
                Duration,
            >::Announce(Notice::HostReserve { available, reserve }),
            Action::Announce(Notice::TimeLimit { at }) => action is Announce
                && action->Announce_0 is TimeLimit && action->Announce_0->at@ == at,
            Action::End(Ending::Status(status)) => action == Action::<Duration>::End(
                Ending::Status(status),
            ),
            Action::End(Ending::Failed(e)) => action == Action::<Duration>::End(Ending::Failed(e)),
            Action::End(Ending::Aborted) => action == Action::<Duration>::End(Ending::Aborted),
            Action::End(Ending::Limit(_)) => action is End && action->End_0 is Limit,
        },
{
}

/// A look notes what was seen, and leaves all else as it is but the pauses that are owed where
/// a sample counts.
pub proof fn law_a_look_notes_what_was_seen(
    s: WatchState,
    status: Option<ExitStatus>,
    seen: Seen,
    now: nat,
)
    requires
        s.phase == Phase::<nat>::Observe,
    ensures
        ({
            let t = s.after_look(status, seen, now);
            &&& t == (WatchState {
                status: if s.status is Some {
                    s.status
                } else {
                    status
                },
                cpu: seen.cpu,
                count: seen.count,
                debt: t.debt,
                last_sample: t.last_sample,
                phase: t.phase,
                ..s
            })
            &&& t.debt != s.debt || t.last_sample != s.last_sample ==> s.sampled
                && s.rules.cpu is Some && s.rules.platform != Platform::Windows
                && within_other_limits(s, seen.rss, now) && still_runs(s, status, seen)
        }),
{
}

/// A measurement is followed by the next one a second later at the earliest, and leaves all else
/// as it is but the pauses that are owed; one that cannot be scheduled is a failure.
pub proof fn law_a_measurement_schedules_the_next(s: WatchState, available: u64, now: nat)
    requires
        s.phase == Phase::<nat>::Measure,
    ensures
        ({
            let t = s.after_measure(available, now);
            &&& now + 1_000_000_000 > 18_446_744_073_709_551_615_999_999_999 ==> t == (WatchState {
                phase: Phase::Ended(Ending::Failed(SupervisionError::MemorySchedule)),
                ..s
            })
            &&& now + 1_000_000_000 <= 18_446_744_073_709_551_615_999_999_999 ==> t == (
            WatchState {
                next_check: now + 1_000_000_000,
                debt: t.debt,
                last_sample: t.last_sample,
                phase: t.phase,
                ..s
            })
        }),
{
}

/// A limit that was crossed, in words.
pub proof fn law_notices_in_words(used: u64, limit: u64, at: nat)
    ensures
        notice_words(Notice::<nat>::MemoryLimit { used, limit }) == "memory limit exceeded ("@
            + size_text(used as nat) + " > "@ + size_text(limit as nat) + ")"@,
        notice_words(Notice::<nat>::HostReserve { available: used, reserve: limit })
            == "host memory reserve crossed ("@ + size_text(used as nat) + " available < "@
            + size_text(limit as nat) + " reserved)"@,
        notice_words(Notice::<nat>::TimeLimit { at }) == "time limit exceeded"@,
{
}

/// Why a command cannot be watched any longer, in words.
pub proof fn law_errors_in_words(count: usize)
    ensures
        SupervisionError::Unobserved.words()
            == "could not observe the running command in the process table"@,
        SupervisionError::Throttle(ThrottleError::Debt).words() == "CPU throttle debt overflowed"@,
        SupervisionError::Throttle(ThrottleError::Interval).words()
            == "CPU throttle interval is too large: "@
            + "cannot convert float seconds to Duration: "@ + "value is either too big or NaN"@,
        SupervisionError::Throttle(ThrottleError::Negative).words()
            == "CPU throttle interval is too large: "@
            + "cannot convert float seconds to Duration: "@ + "value is negative"@,
        SupervisionError::MemorySchedule.words()
            == "platform clock cannot schedule memory sampling"@,
        SupervisionError::GraceTooLong.words() == "termination grace period is too large"@,
        SupervisionError::VerificationSchedule.words()
            == "platform clock cannot schedule the check after forced termination"@,
        SupervisionError::StillThere(count).words() == "process tree still contains "@ + decimal(
            count as nat,
        ) + " process(es) after forced termination"@,
{
}

/// Each ending has its exit code: the command's own, 124 for its time, 137 for memory, and 125
/// where the watch failed.
pub proof fn law_the_codes_of_endings(
    platform: Platform,
    code: i32,
    signal: Option<u8>,
    n: u64,
    m: u64,
    at: nat,
    error: SupervisionError,
)
    ensures
        ending_code(platform, Ending::<nat>::Status(ExitStatus { code: Some(code), signal }))
            == code,
        ending_code(platform, Ending::<nat>::Limit(Notice::TimeLimit { at })) == 124,
        ending_code(platform, Ending::<nat>::Limit(Notice::MemoryLimit { used: n, limit: m }))
            == 137,
        ending_code(
            platform,
            Ending::<nat>::Limit(Notice::HostReserve { available: n, reserve: m }),
        ) == 137,
        ending_code(platform, Ending::<nat>::Failed(error)) == 125,
        ending_code(platform, Ending::<nat>::Aborted) == 125,
{
}

} // verus!
