//! Control over the command's processes: what each order comes to on each system.
use crate::accuracy::lemma_times_whole;
use crate::binary64::{
    below, lemma_round_exact, lemma_round_monotone, lemma_whole_exact, lemma_whole_exact_one, one,
    overflow_units, product, quotient, ratio, round_units, whole_u64, Binary64, Num,
};
use crate::platform::Platform;
use crate::process_tree::{copy_of, ProcessIdentity};
use crate::signals::{
    push_signed, signal_processes, signed_decimal, RunState, Signal, SignalError, SignalPhase,
    SignalRun,
};
use crate::throttle::lemma_round_error_or_half;
use vstd::arithmetic::power2::{
    lemma2_to64, lemma2_to64_rest, lemma_pow2_adds, lemma_pow2_pos, lemma_pow2_strictly_increases,
    pow2,
};
use vstd::prelude::*;
use vstd::string::StringExecFns;

verus! {

/// What can be asked of the command's processes.
#[derive(Clone, Copy, Debug, PartialEq, Eq, Structural)]
pub enum Control {
    /// To end.
    Terminate,
    /// To end without being asked.
    Kill,
    /// To stop for a while.
    Suspend,
    /// To go on.
    Resume,
}

/// The signal that asks for it on Unix.
pub open spec fn signal_for(control: Control) -> Signal {
    match control {
        Control::Terminate => Signal::Terminate,
        Control::Kill => Signal::Kill,
        Control::Suspend => Signal::Stop,
        Control::Resume => Signal::Continue,
    }
}

/// The exit code with which it ends the job on Windows, where it does.
pub open spec fn job_code_for(control: Control) -> Option<u32> {
    match control {
        Control::Terminate => Some(1),
        Control::Kill => Some(137),
        _ => None,
    }
}

/// What there is to be done for it.
pub enum Order {
    /// Send a signal as the run says.
    Signal {
        /// The signal.
        signal: Signal,
        /// Whom it goes to.
        run: SignalRun,
    },
    /// End the Windows job.
    EndJob {
        /// The exit code of its processes.
        code: u32,
    },
    /// Nothing.
    Nothing,
}

/// Why a command cannot be placed under control.
#[derive(Clone, Copy, Debug, PartialEq, Eq, Structural)]
pub enum AttachError {
    /// The command's process number is larger than signals take.
    ChildTooLarge,
    /// No group of a command has this number.
    UnsafeGroup(i32),
    /// The supervisor's process number is larger than signals take.
    SupervisorTooLarge,
    /// A command is under control already.
    AlreadyAttached,
}

impl AttachError {
    /// The error in words.
    pub open spec fn words(self) -> Seq<char> {
        match self {
            AttachError::ChildTooLarge => "child PID is too large: "@
                + "out of range integral type conversion attempted"@,
            AttachError::UnsafeGroup(group) => "refusing unsafe child process group "@
                + signed_decimal(group as int),
            AttachError::SupervisorTooLarge => "supervisor PID is too large: "@
                + "out of range integral type conversion attempted"@,
            AttachError::AlreadyAttached => "signal forwarding is already attached"@,
        }
    }

    /// The error in words.
    pub fn message(self) -> (text: String)
        ensures
            text@ == self.words(),
    {
        let mut text: String = String::new();
        match self {
            AttachError::ChildTooLarge => {
                text.append("child PID is too large: ");
                text.append("out of range integral type conversion attempted");
            },
            AttachError::UnsafeGroup(group) => {
                text.append("refusing unsafe child process group ");
                push_signed(&mut text, group);
            },
            AttachError::SupervisorTooLarge => {
                text.append("supervisor PID is too large: ");
                text.append("out of range integral type conversion attempted");
            },
            AttachError::AlreadyAttached => {
                text.append("signal forwarding is already attached");
            },
        }
        proof {
            assert(text@ =~= self.words());
        }
        text
    }
}

/// A controller's state.
pub struct ControllerState {
    pub platform: Platform,
    /// The command's process group; zero before there is one.
    pub pgid: i32,
    /// Whether a command is under control.
    pub attached: bool,
    /// Whether the command is to be killed where the controller is let go.
    pub armed: bool,
    /// The processes that are known.
    pub targets: Seq<ProcessIdentity>,
}

/// The largest process number that signals take.
pub const LARGEST_PID: u32 = 0x7fff_ffff;

impl ControllerState {
    /// A controller before there is a command.
    pub open spec fn prepared(platform: Platform) -> ControllerState {
        ControllerState {
            platform,
            pgid: 0,
            attached: false,
            armed: true,
            targets: Seq::empty(),
        }
    }

    /// The controller once a command was placed under it, and whether that succeeded. A Windows
    /// job takes any process.
    pub open spec fn attach(self, child: u32, supervisor: u32) -> (
        ControllerState,
        Result<(), AttachError>,
    ) {
        if self.platform.is_windows() {
            (ControllerState { attached: true, ..self }, Ok(()))
        } else if child > LARGEST_PID {
            (self, Err(AttachError::ChildTooLarge))
        } else {
            let placed = ControllerState { pgid: child as i32, ..self };
            if child <= 1 {
                (placed, Err(AttachError::UnsafeGroup(child as i32)))
            } else if supervisor > LARGEST_PID {
                (placed, Err(AttachError::SupervisorTooLarge))
            } else if self.attached {
                (placed, Err(AttachError::AlreadyAttached))
            } else {
                (ControllerState { attached: true, ..placed }, Ok(()))
            }
        }
    }

    /// Whether something is what there is to be done for an order to these targets: on Windows
    /// the job ends, or nothing happens; elsewhere a signal goes to the group and the targets.
    pub open spec fn is_order(
        self,
        control: Control,
        targets: Seq<ProcessIdentity>,
        r: Result<Order, SignalError>,
    ) -> bool {
        if self.platform.is_windows() {
            match job_code_for(control) {
                Some(code) => r == Ok::<Order, SignalError>(Order::EndJob { code }),
                None => r == Ok::<Order, SignalError>(Order::Nothing),
            }
        } else if self.pgid <= 1 {
            r == Err::<Order, SignalError>(SignalError::UnsafeGroup(self.pgid))
        } else {
            &&& r matches Ok(Order::Signal { signal, run })
            &&& signal == signal_for(control)
            &&& run@ == RunState::start(self.pgid, targets)
            &&& run@.wf()
        }
    }

    /// Whether a run is what is left to be done where the controller is let go: the processes
    /// that are known are killed, unless it was disarmed. A Windows job ends by itself.
    pub open spec fn is_last_run(self, r: Option<SignalRun>) -> bool {
        if self.armed && !self.platform.is_windows() && self.pgid > 1 {
            &&& r matches Some(run)
            &&& run@ == RunState::start(self.pgid, self.targets)
            &&& run@.wf()
        } else {
            r is None
        }
    }
}

/// Control over the command's processes.
pub struct Controller {
    platform: Platform,
    pgid: i32,
    attached: bool,
    armed: bool,
    targets: Vec<ProcessIdentity>,
}

impl View for Controller {
    type V = ControllerState;

    closed spec fn view(&self) -> ControllerState {
        ControllerState {
            platform: self.platform,
            pgid: self.pgid,
            attached: self.attached,
            armed: self.armed,
            targets: self.targets@,
        }
    }
}

impl Controller {
    /// A controller before there is a command. It is armed.
    pub fn prepare(platform: Platform) -> (r: Self)
        ensures
            r@ == ControllerState::prepared(platform),
    {
        let r = Controller {
            platform,
            pgid: 0,
            attached: false,
            armed: true,
            targets: Vec::new(),
        };
        proof {
            assert(r@.targets =~= Seq::empty());
        }
        r
    }

    /// Places a command under control.
    pub fn attach(&mut self, child: u32, supervisor: u32) -> (r: Result<(), AttachError>)
        ensures
            (final(self)@, r) == old(self)@.attach(child, supervisor),
    {
        if self.platform.is_windows() {
            self.attached = true;
            return Ok(());
        }
        if child > LARGEST_PID {
            return Err(AttachError::ChildTooLarge);
        }
        self.pgid = child as i32;
        if self.pgid <= 1 {
            return Err(AttachError::UnsafeGroup(self.pgid));
        }
        if supervisor > LARGEST_PID {
            return Err(AttachError::SupervisorTooLarge);
        }
        if self.attached {
            return Err(AttachError::AlreadyAttached);
        }
        self.attached = true;
        Ok(())
    }

    /// Takes in which processes there are.
    pub fn set_targets(&mut self, targets: &[ProcessIdentity])
        ensures
            final(self)@ == (ControllerState { targets: targets@, ..old(self)@ }),
    {
        self.targets = copy_of(targets);
    }

    /// The processes that are known.
    pub fn targets(&self) -> (r: Vec<ProcessIdentity>)
        ensures
            r@ == self@.targets,
    {
        copy_of(self.targets.as_slice())
    }

    /// The command's process group.
    pub fn pgid(&self) -> (r: i32)
        ensures
            r == self@.pgid,
    {
        self.pgid
    }

    /// Signals the group and the targets; on Windows, ends the job or does nothing.
    fn order(&self, control: Control, targets: &[ProcessIdentity]) -> (r: Result<
        Order,
        SignalError,
    >)
        ensures
            self@.is_order(control, targets@, r),
    {
        if self.platform.is_windows() {
            return match control {
                Control::Terminate => Ok(Order::EndJob { code: 1 }),
                Control::Kill => Ok(Order::EndJob { code: 137 }),
                _ => Ok(Order::Nothing),
            };
        }
        let signal: Signal = match control {
            Control::Terminate => Signal::Terminate,
            Control::Kill => Signal::Kill,
            Control::Suspend => Signal::Stop,
            Control::Resume => Signal::Continue,
        };
        match signal_processes(self.pgid, copy_of(targets)) {
            Ok(run) => Ok(Order::Signal { signal, run }),
            Err(e) => Err(e),
        }
    }

    /// Asks the processes to end.
    pub fn terminate(&self, targets: &[ProcessIdentity]) -> (r: Result<Order, SignalError>)
        ensures
            self@.is_order(Control::Terminate, targets@, r),
    {
        self.order(Control::Terminate, targets)
    }

    /// Ends the processes.
    pub fn kill(&self, targets: &[ProcessIdentity]) -> (r: Result<Order, SignalError>)
        ensures
            self@.is_order(Control::Kill, targets@, r),
    {
        self.order(Control::Kill, targets)
    }

    /// Stops the processes for a while.
    pub fn suspend(&self, targets: &[ProcessIdentity]) -> (r: Result<Order, SignalError>)
        ensures
            self@.is_order(Control::Suspend, targets@, r),
    {
        self.order(Control::Suspend, targets)
    }

    /// Lets the processes go on.
    pub fn resume(&self, targets: &[ProcessIdentity]) -> (r: Result<Order, SignalError>)
        ensures
            self@.is_order(Control::Resume, targets@, r),
    {
        self.order(Control::Resume, targets)
    }

    /// Whether the system itself holds the command to its CPU allowance.
    pub fn cpu_is_native(&self) -> (r: bool)
        ensures
            r == self@.platform.is_windows(),
    {
        self.platform.is_windows()
    }

    /// Whether the system itself holds the command to its memory: none does.
    pub fn memory_is_native(&self) -> (r: bool)
        ensures
            !r,
    {
        false
    }

    /// Leaves the command be where the controller is let go.
    pub fn disarm(&mut self)
        ensures
            final(self)@ == (ControllerState { armed: false, ..old(self)@ }),
    {
        self.armed = false;
    }

    /// What is left to be done where the controller is let go: the run that kills the processes
    /// that are known.
    pub fn last_run(&self) -> (r: Option<SignalRun>)
        ensures
            self@.is_last_run(r),
    {
        if !self.armed || self.platform.is_windows() {
            return None;
        }
        match signal_processes(self.pgid, copy_of(self.targets.as_slice())) {
            Ok(run) => Some(run),
            Err(_) => None,
        }
    }
}

/// The share of a host's processor time that some cores come to, in ten-thousandths.
pub open spec fn processor_share(cores: Num, processors: u32) -> Num {
    let n = if processors == 0 {
        1nat
    } else {
        processors as nat
    };
    product(quotient(cores, ratio(n, 1)), ratio(10_000, 1))
}

/// The rate to which a Windows job is held: the whole ten-thousandths of the host's processor
/// time, all of them at most; nothing where there is not one.
pub open spec fn job_rate(cores: Num, processors: u32) -> Option<u32> {
    let share = processor_share(cores, processors);
    if below(share, ratio(1, 1)) {
        None
    } else if share is NotANumber || whole_u64(share) > 10_000 {
        Some(10_000)
    } else {
        Some(whole_u64(share) as u32)
    }
}

/// The rate to which a Windows job is held, or what is wrong with the limit.
pub fn windows_cpu_rate(cores: Binary64, processors: u32) -> (r: Result<u32, String>)
    ensures
        match r {
            Ok(rate) => job_rate(cores@, processors) == Some(rate) && 1 <= rate <= 10_000,
            Err(e) => job_rate(cores@, processors) is None && e@
                == "CPU limit is below the Windows Job Object resolution on this host"@,
        },
{
    let n: u64 = if processors == 0 {
        1
    } else {
        processors as u64
    };
    let share: Binary64 = cores.over(Binary64::from_u64(n)).times(Binary64::from_u64(10_000));
    if share.less_than(Binary64::from_u64(1)) {
        return Err("CPU limit is below the Windows Job Object resolution on this host".to_owned());
    }
    let whole: u64 = share.to_u64();
    proof {
        lemma_whole_exact_one();
        lemma_pow2_pos(1074);
        let unit = one();
        if let Num::Finite { negative, units } = share@ {
            assert(!negative && units >= unit);
            assert(units / unit >= 1) by (nonlinear_arith)
                requires
                    units >= unit,
                    unit > 0,
            ;
        }
    }
    if whole > 10_000 || !share.equals(share) {
        return Ok(10_000);
    }
    Ok(whole as u32)
}

/// A controller that was disarmed kills nothing when it is let go; one that was not kills, on
/// Unix, every process that it knows.
pub proof fn law_letting_go(state: ControllerState, r: Option<SignalRun>)
    requires
        state.is_last_run(r),
    ensures
        !state.armed ==> r is None,
        state.armed && !state.platform.is_windows() && state.pgid > 1 ==> r is Some
            && r->Some_0@.targets == state.targets && r->Some_0@.pgid == state.pgid,
{
}

/// A command under control on Unix has a group that signals can go to: no order to it is
/// refused.
pub proof fn law_an_attached_command_can_be_signalled(
    state: ControllerState,
    child: u32,
    supervisor: u32,
    control: Control,
    targets: Seq<ProcessIdentity>,
    r: Result<Order, SignalError>,
)
    requires
        state.attach(child, supervisor).1 is Ok,
        state.attach(child, supervisor).0.is_order(control, targets, r),
    ensures
        r is Ok,
{
}

/// Each order has a signal of its own on Unix: a request to end, the end that cannot be
/// refused, the stop that cannot be refused, and the end of that stop.
pub proof fn law_orders_and_their_signals(
    state: ControllerState,
    targets: Seq<ProcessIdentity>,
    control: Control,
    r: Result<Order, SignalError>,
)
    requires
        state.platform != Platform::Windows,
        state.is_order(control, targets, r),
    ensures
        state.pgid <= 1 ==> r == Err::<Order, SignalError>(SignalError::UnsafeGroup(state.pgid)),
        state.pgid > 1 ==> {
            &&& r matches Ok(Order::Signal { signal, run })
            &&& run@.pgid == state.pgid
            &&& run@.targets == targets
            &&& run@.phase == SignalPhase::Group
            &&& run@.sent.len() == 0
            &&& control == Control::Terminate ==> signal == Signal::Terminate
            &&& control == Control::Kill ==> signal == Signal::Kill
            &&& control == Control::Suspend ==> signal == Signal::Stop
            &&& control == Control::Resume ==> signal == Signal::Continue
        },
{
}

/// On Windows a request to end ends the job with 1, the end that cannot be refused ends it with
/// 137, and nothing stops it for a while.
pub proof fn law_orders_on_windows(
    state: ControllerState,
    targets: Seq<ProcessIdentity>,
    control: Control,
    r: Result<Order, SignalError>,
)
    requires
        state.platform == Platform::Windows,
        state.is_order(control, targets, r),
    ensures
        control == Control::Terminate ==> r == Ok::<Order, SignalError>(Order::EndJob { code: 1 }),
        control == Control::Kill ==> r == Ok::<Order, SignalError>(Order::EndJob { code: 137 }),
        control == Control::Suspend || control == Control::Resume ==> r == Ok::<Order, SignalError>(
            Order::Nothing,
        ),
{
}

/// A command is placed under control once, as the leader of its own group; on Unix its number
/// and the supervisor's have to be ones that signals take, and its own above one.
pub proof fn law_placing_a_command(state: ControllerState, child: u32, supervisor: u32)
    ensures
        ({
            let (after, r) = state.attach(child, supervisor);
            &&& after.platform == state.platform
            &&& after.armed == state.armed
            &&& after.targets == state.targets
            &&& state.platform == Platform::Windows ==> r is Ok && after.attached && after.pgid
                == state.pgid
            &&& state.platform != Platform::Windows ==> {
                &&& r is Ok <==> 1 < child <= 0x7fff_ffff && supervisor <= 0x7fff_ffff
                    && !state.attached
                &&& r is Ok ==> after.attached && after.pgid == child
                &&& r is Err ==> after.attached == state.attached
                &&& child > 0x7fff_ffff ==> r == Err::<(), AttachError>(AttachError::ChildTooLarge)
                    && after.pgid == state.pgid
                &&& child <= 0x7fff_ffff ==> after.pgid == child
                &&& child <= 1 ==> r == Err::<(), AttachError>(
                    AttachError::UnsafeGroup(child as i32),
                )
                &&& 1 < child <= 0x7fff_ffff && supervisor > 0x7fff_ffff ==> r == Err::<
                    (),
                    AttachError,
                >(AttachError::SupervisorTooLarge)
                &&& 1 < child <= 0x7fff_ffff && supervisor <= 0x7fff_ffff && state.attached ==> r
                    == Err::<(), AttachError>(AttachError::AlreadyAttached)
            }
        }),
{
}

/// A controller starts out armed, with no command and no processes.
pub proof fn law_a_controller_starts_out_armed(platform: Platform)
    ensures
        ControllerState::prepared(platform).armed,
        !ControllerState::prepared(platform).attached,
        ControllerState::prepared(platform).platform == platform,
        ControllerState::prepared(platform).pgid == 0,
        ControllerState::prepared(platform).targets.len() == 0,
{
}

/// The errors of an attachment in words.
pub proof fn law_attachment_errors_in_words(group: i32)
    ensures
        AttachError::ChildTooLarge.words() == "child PID is too large: "@
            + "out of range integral type conversion attempted"@,
        AttachError::UnsafeGroup(group).words() == "refusing unsafe child process group "@
            + signed_decimal(group as int),
        AttachError::SupervisorTooLarge.words() == "supervisor PID is too large: "@
            + "out of range integral type conversion attempted"@,
        AttachError::AlreadyAttached.words() == "signal forwarding is already attached"@,
{
}

/// The rate of a Windows job is the share of all processors that the cores come to, in whole
/// ten-thousandths: all of them at most, and none where there is not one. `slack` is what
/// rounding may add or take away.
pub proof fn law_the_rate_of_a_job(cores: nat, processors: u32, count: nat)
    requires
        count == if processors == 0 {
            1nat
        } else {
            processors as nat
        },
        cores <= pow2(40) * one(),
    ensures
        ({
            let e = pow2(53);
            let slack = 60_000 * cores + 10_002 * (count * e);
            match job_rate(Num::Finite { negative: false, units: cores }, processors) {
                Some(rate) => {
                    &&& 1 <= rate <= 10_000
                    &&& 2 * ((rate * one() * count - 10_000 * cores) * e) <= slack
                    &&& rate < 10_000 ==> 2 * ((10_000 * cores - (rate + 1) * one() * count) * e)
                        <= slack
                },
                None => 2 * ((10_000 * cores - one() * count) * e) <= slack,
            }
        }),
{
    let u = one();
    let e = pow2(53);
    let n = count;
    lemma2_to64();
    lemma2_to64_rest();
    lemma_pow2_pos(1074);
    lemma_whole_exact_one();
    lemma_whole_exact(n);
    let d = n * u;
    assert(d > 0) by (nonlinear_arith)
        requires
            d == n * u,
            n > 0,
            u > 0,
    ;
    let x = round_units(cores * u, d);
    lemma_round_error_or_half(cores * u, d);
    assert(2 * ((x * n - cores) * e) <= 2 * cores + n * e && 2 * ((cores - x * n) * e) <= 2 * cores
        + n * e) by (nonlinear_arith)
        requires
            d == n * u,
            2 * ((x * d - cores * u) * e) <= 2 * (cores * u) + d * e,
            2 * ((cores * u - x * d) * e) <= 2 * (cores * u) + d * e,
            u > 0,
    ;
    // The share stays within the format.
    lemma_pow2_adds(40, 1074);
    lemma_pow2_strictly_increases(40 + 1074, 2098);
    lemma_round_exact(1, 40 + 1074, d);
    assert((cores * u) * d <= (1 * pow2(40 + 1074) * d) * d) by (nonlinear_arith)
        requires
            cores <= pow2(40) * u,
            pow2(40 + 1074) == pow2(40) * u,
            d == n * u,
            n >= 1,
    ;
    lemma_round_monotone(cores * u, d, 1 * pow2(40 + 1074) * d, d);
    assert(x <= pow2(40) * u);
    lemma_pow2_adds(23, 40);
    assert(x * 10_000 <= pow2(63) * u) by (nonlinear_arith)
        requires
            x <= pow2(40) * u,
            pow2(63) == pow2(23) * pow2(40),
            pow2(23) >= 10_000,
    ;
    lemma_times_whole(x, 10_000);
    let y = round_units(x * (10_000 * u), u);
    lemma_pow2_adds(63, 1074);
    lemma_pow2_strictly_increases(63 + 1074, 2098);
    let share = Num::Finite { negative: false, units: y };
    assert(processor_share(Num::Finite { negative: false, units: cores }, processors) == share);
    assert(x * n <= 2 * cores + n) by (nonlinear_arith)
        requires
            2 * ((x * n - cores) * e) <= 2 * cores + n * e,
            e >= 2,
            cores >= 0,
            n >= 0,
    ;
    let a = y - 10_000 * x;
    let b = x * n - cores;
    assert((cores - x * n) * e == -(b * e) && (10_000 * x - y) * e == -(a * e)) by (nonlinear_arith)
        requires
            b == x * n - cores,
            a == y - 10_000 * x,
    ;
    assert(x * 10_000 == 10_000 * x);
    let slack = 60_000 * cores + 10_002 * (n * e);
    let gap = y * n - 10_000 * cores;
    assert(gap * e == n * (a * e) + 10_000 * (b * e)) by (nonlinear_arith)
        requires
            gap == y * n - 10_000 * cores,
            a == y - 10_000 * x,
            b == x * n - cores,
    ;
    assert(2 * (n * (a * e)) <= 20_000 * (x * n) + n * e && -2 * (n * (a * e)) <= 20_000 * (x * n)
        + n * e) by (nonlinear_arith)
        requires
            2 * (a * e) <= 20_000 * x + e,
            -2 * (a * e) <= 20_000 * x + e,
            n > 0,
    ;
    assert(20_000 * n <= n * e) by (nonlinear_arith)
        requires
            e >= 20_000,
    ;
    assert(2 * (gap * e) <= slack && -2 * (gap * e) <= slack);
    vstd::arithmetic::div_mod::lemma_fundamental_div_mod(y as int, u as int);
    let whole = y / u;
    assert(whole * u <= y < (whole + 1) * u) by (nonlinear_arith)
        requires
            y == u * whole + y % u,
            0 <= y % u < u,
    ;
    assert(whole <= pow2(63)) by (nonlinear_arith)
        requires
            whole * u <= y,
            y <= pow2(63) * u,
            u > 0,
    ;
    if y < u {
        assert(2 * ((10_000 * cores - u * n) * e) <= slack) by (nonlinear_arith)
            requires
                -2 * (gap * e) <= slack,
                gap == y * n - 10_000 * cores,
                y < u,
                n > 0,
                e > 0,
        ;
    } else {
        assert(whole >= 1) by (nonlinear_arith)
            requires
                u <= y < (whole + 1) * u,
                u > 0,
        ;
        let rate = if whole > 10_000 {
            10_000nat
        } else {
            whole
        };
        assert(2 * ((rate * u * n - 10_000 * cores) * e) <= slack) by (nonlinear_arith)
            requires
                2 * (gap * e) <= slack,
                gap == y * n - 10_000 * cores,
                rate <= whole,
                whole * u <= y,
                n > 0,
                e > 0,
        ;
        if rate < 10_000 {
            assert(2 * ((10_000 * cores - (rate + 1) * u * n) * e) <= slack) by (nonlinear_arith)
                requires
                    -2 * (gap * e) <= slack,
                    gap == y * n - 10_000 * cores,
                    rate == whole,
                    y < (whole + 1) * u,
                    n > 0,
                    e > 0,
            ;
        }
    }
}

/// Twice as many cores as there are processors, or more, take up all the processor time.
pub proof fn law_more_cores_than_processors(cores: nat, processors: u32, count: nat)
    requires
        count == if processors == 0 {
            1nat
        } else {
            processors as nat
        },
        cores >= 2 * (count * one()),
    ensures
        job_rate(Num::Finite { negative: false, units: cores }, processors) == Some(10_000u32),
{
    let u = one();
    let d = count * u;
    lemma2_to64();
    lemma2_to64_rest();
    lemma_pow2_pos(1074);
    lemma_whole_exact_one();
    lemma_whole_exact(count);
    assert(d > 0) by (nonlinear_arith)
        requires
            d == count * u,
            count > 0,
            u > 0,
    ;
    let x = round_units(cores * u, d);
    lemma_round_exact(2, 1074, d);
    assert((2 * u * d) * d <= (cores * u) * d) by (nonlinear_arith)
        requires
            cores >= 2 * d,
    ;
    lemma_round_monotone(2 * u * d, d, cores * u, d);
    assert(x >= 2 * u);
    if x < overflow_units() {
        lemma_whole_exact(10_000);
        let y = round_units(x * (10_000 * u), u);
        lemma_round_exact(20_000, 1074, u);
        assert((20_000 * u * u) * u <= (x * (10_000 * u)) * u) by (nonlinear_arith)
            requires
                x >= 2 * u,
        ;
        lemma_round_monotone(20_000 * u * u, u, x * (10_000 * u), u);
        assert(y >= 20_000 * u);
        vstd::arithmetic::div_mod::lemma_div_is_ordered((20_000 * u) as int, y as int, u as int);
        vstd::arithmetic::div_mod::lemma_div_by_multiple(20_000, u as int);
        assert(y / u >= 20_000);
    } else {
        lemma_whole_exact(10_000);
        assert(10_000 * u > 0);
    }
}

} // verus!
