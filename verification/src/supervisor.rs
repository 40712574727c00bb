//! The supervision of a command: the watch over it, its processes, and the control over them.
use crate::controller::{signal_for, Control, Controller, ControllerState, Order};
use crate::duration::Duration;
use crate::exit::ExitStatus;
use crate::process_tree::{
    distinct, distinct_ids, held_to_u64, listed, refreshed, root_retired, total_cpu, total_memory,
    ProcessIdentity, ProcessRecord, ProcessTree, Usage,
};
use crate::signals::{SignalError, SignalRun};
use crate::watch::{
    action_view, law_too_much_memory_is_acted_on, sound, Action, Cause, Ending, Notice, Phase, Seen,
    Settings, Sighting, SupervisionError, Watch, WatchState,
};
use vstd::prelude::*;

verus! {

/// Whether the command may be left to itself: it has ended, or was stopped.
pub open spec fn released(phase: Phase<nat>) -> bool {
    phase matches Phase::Ended(ending) && (ending is Status || ending is Limit)
}

/// Whether a look finds out that the command has ended.
pub open spec fn root_exits(watch: WatchState, status: Option<ExitStatus>) -> bool {
    watch.phase is Observe && watch.status is None && status is Some
}

/// What a look shows: the memory and the CPU time of all processes that were found, and how
/// many are left once a command that has ended is taken out.
pub open spec fn seen_in(
    found: ProcessTree,
    left: ProcessTree,
    table: Seq<ProcessRecord>,
) -> Seen {
    Seen {
        rss: held_to_u64(total_memory(found.ids(), table)),
        cpu: total_cpu(found.ids(), table),
        count: left.ids().len() as usize,
        observed: left.observed(),
    }
}

/// The words for a failure to do what is to be done.
pub open spec fn failure_words(phase: Phase<nat>) -> Seq<char> {
    match phase {
        Phase::Observe => "could not inspect command status"@,
        Phase::Recheck => "could not recheck an unobserved command"@,
        Phase::Grace { .. } => "could not inspect command during termination"@,
        Phase::Verify { .. } => "could not inspect command after forced termination"@,
        _ => ""@,
    }
}

/// The supervision of a command.
pub struct Supervisor {
    watch: Watch,
    tree: ProcessTree,
    controller: Controller,
    seen: Ghost<bool>,
}

impl Supervisor {
    /// The state of the watch over the command.
    pub closed spec fn watch(self) -> WatchState {
        self.watch@
    }

    /// The command's processes.
    pub closed spec fn tree(self) -> ProcessTree {
        self.tree
    }

    /// The state of the control over them.
    pub closed spec fn controller(self) -> ControllerState {
        self.controller@
    }

    /// Whether there was a look at the processes.
    pub closed spec fn seen(self) -> bool {
        self.seen@
    }

    /// What holds throughout: the watch is sound, the processes under control are those of the
    /// tree, and letting go of them kills them unless the command has ended or was stopped.
    pub open spec fn wf(self) -> bool {
        &&& sound(self.watch())
        &&& self.tree().wf()
        &&& self.watch().rules.platform == self.controller().platform
        &&& self.controller().armed == !released(self.watch().phase)
        &&& self.seen() ==> {
            &&& self.controller().targets == self.tree().ids()
            &&& self.watch().count == self.tree().ids().len()
        }
        &&& !self.seen() ==> self.watch().phase is Observe || self.watch().phase is Ended
            && !released(self.watch().phase)
    }

    /// The supervisor after the watch moved on: once the command may be left to itself, the
    /// controller is disarmed.
    pub open spec fn moved(self, after: Supervisor, watch: WatchState) -> bool {
        &&& after.watch() == watch
        &&& after.tree() == self.tree()
        &&& after.seen() == self.seen()
        &&& after.controller() == ControllerState {
            armed: self.controller().armed && !released(watch.phase),
            ..self.controller()
        }
    }

    /// The supervisor after a look at a snapshot: `found` are the processes that the look
    /// found, and where the command turned out to have ended, it is taken out of them.
    pub open spec fn looked_at(
        self,
        found: ProcessTree,
        after: Supervisor,
        status: Option<ExitStatus>,
        table: Seq<ProcessRecord>,
        now: nat,
    ) -> bool {
        &&& refreshed(self.tree(), found, table)
        &&& if root_exits(self.watch(), status) {
            root_retired(found, after.tree())
        } else {
            after.tree() == found
        }
        &&& after.seen()
        &&& after.watch() == self.watch().after_look(
            status,
            seen_in(found, after.tree(), table),
            now,
        )
        &&& after.controller() == ControllerState {
            targets: after.tree().ids(),
            armed: self.controller().armed && !released(after.watch().phase),
            ..self.controller()
        }
    }

    /// What is to be done next.
    pub fn action(&self) -> (r: Action<Duration>)
        ensures
            action_view(r) == self.watch().action(),
    {
        self.watch.action()
    }

    /// How the command ended, once that is known.
    pub fn status(&self) -> (r: Option<ExitStatus>)
        ensures
            r == self.watch().status,
    {
        self.watch.status()
    }

    /// The command's processes.
    pub fn targets(&self) -> (r: Vec<ProcessIdentity>)
        ensures
            r@ == self.controller().targets,
    {
        self.controller.targets()
    }

    /// The words for a failure to do what is to be done; none where the failure speaks for
    /// itself.
    pub fn failure_context(&self) -> (text: &'static str)
        ensures
            text@ == failure_words(self.watch().phase),
    {
        match self.watch.phase() {
            Phase::Observe => "could not inspect command status",
            Phase::Recheck => "could not recheck an unobserved command",
            Phase::Grace { .. } => "could not inspect command during termination",
            Phase::Verify { .. } => "could not inspect command after forced termination",
            _ => "",
        }
    }

    /// What there is to be done where the processes are to be seen to.
    pub fn order(&self) -> (r: Result<Order, SignalError>)
        requires
            self.watch().action() is Control,
        ensures
            self.controller().is_order(
                self.watch().action()->Control_0,
                self.controller().targets,
                r,
            ),
    {
        let targets: Vec<ProcessIdentity> = self.controller.targets();
        match self.watch.action() {
            Action::Control(Control::Terminate) => self.controller.terminate(targets.as_slice()),
            Action::Control(Control::Kill) => self.controller.kill(targets.as_slice()),
            Action::Control(Control::Suspend) => self.controller.suspend(targets.as_slice()),
            _ => self.controller.resume(targets.as_slice()),
        }
    }

    /// What is left to be done where the supervisor is let go.
    pub fn last_run(&self) -> (r: Option<SignalRun>)
        ensures
            self.controller().is_last_run(r),
    {
        self.controller.last_run()
    }

    /// Disarms the controller once the command may be left to itself.
    fn release(&mut self)
        ensures
            final(self).watch() == old(self).watch(),
            final(self).tree() == old(self).tree(),
            final(self).seen() == old(self).seen(),
            final(self).controller() == (ControllerState {
                armed: old(self).controller().armed && !released(old(self).watch().phase),
                ..old(self).controller()
            }),
    {
        match self.watch.phase() {
            Phase::Ended(Ending::Status(_)) | Phase::Ended(Ending::Limit(_)) => {
                self.controller.disarm();
            },
            _ => {},
        }
    }

    /// Takes in a snapshot of the processes, and how the command ended where that was looked
    /// at and it has.
    pub fn looked(&mut self, status: Option<ExitStatus>, table: &[ProcessRecord], now: Duration)
        requires
            old(self).wf(),
            old(self).watch().action() is Look,
            distinct(table@),
        ensures
            final(self).wf(),
            exists|found: ProcessTree| #[trigger]
                old(self).looked_at(found, *final(self), status, table@, now@),
    {
        let observing: bool = match self.watch.phase() {
            Phase::Observe => true,
            _ => false,
        };
        let usage: Usage = self.tree.refresh(table);
        let ghost found = self.tree;
        if observing && self.watch.status().is_none() && status.is_some() {
            self.tree.retire_root();
        }
        let targets: Vec<ProcessIdentity> = self.tree.identities();
        self.controller.set_targets(targets.as_slice());
        let seen = Sighting {
            rss: usage.rss_bytes,
            cpu: usage.cpu_percent,
            count: targets.len(),
            observed: self.tree.observed_root(),
        };
        self.seen = Ghost(true);
        self.watch.looked(status, seen, now);
        self.release();
        proof {
            assert(seen@ == seen_in(found, self.tree, table@));
            assert(old(self).looked_at(found, *self, status, table@, now@));
        }
    }

    /// Takes in how the command ended, if another look showed that it has.
    pub fn rechecked(&mut self, status: Option<ExitStatus>)
        requires
            old(self).wf(),
            old(self).watch().action() is Recheck,
        ensures
            final(self).wf(),
            old(self).moved(*final(self), old(self).watch().after_recheck(status)),
    {
        self.watch.rechecked(status);
        self.release();
    }

    /// Takes in how much memory is available.
    pub fn measured(&mut self, available: u64, now: Duration)
        requires
            old(self).wf(),
            old(self).watch().action() is Measure,
        ensures
            final(self).wf(),
            old(self).moved(*final(self), old(self).watch().after_measure(available, now@)),
    {
        self.watch.measured(available, now);
        self.release();
    }

    /// Takes in that the processes were seen to, or that a limit was spoken of.
    pub fn done(&mut self, now: Duration)
        requires
            old(self).wf(),
            old(self).watch().action() is Control || old(self).watch().action() is Announce,
        ensures
            final(self).wf(),
            old(self).moved(*final(self), old(self).watch().after_done(now@)),
    {
        self.watch.done(now);
        self.release();
    }

    /// Takes in that what was to be done could not be done.
    pub fn failed(&mut self)
        requires
            old(self).wf(),
        ensures
            final(self).wf(),
            old(self).moved(*final(self), old(self).watch().after_failure()),
    {
        self.watch.failed();
        self.release();
    }

    /// Takes in that the sleep is over, and how much of it counts.
    pub fn slept(&mut self, slept: Duration, now: Duration)
        requires
            old(self).wf(),
            old(self).watch().action() is Pause || old(self).watch().action() is Sleep,
        ensures
            final(self).wf(),
            old(self).moved(*final(self), old(self).watch().after_sleep(slept@, now@)),
    {
        self.watch.slept(slept, now);
        self.release();
    }

    /// Takes in that the wait is over, and whether a signal that ends programs was passed on.
    pub fn waited(&mut self, signalled: bool, now: Duration)
        requires
            old(self).wf(),
            old(self).watch().action() is Wait,
        ensures
            final(self).wf(),
            old(self).moved(*final(self), old(self).watch().after_wait(signalled, now@)),
    {
        self.watch.waited(signalled, now);
        self.release();
    }
}

/// The supervision of a command that was placed under control just now.
pub fn supervise(settings: Settings, controller: Controller, root: u32) -> (r: Supervisor)
    requires
        controller@.armed,
        controller@.platform == settings.platform,
    ensures
        r.wf(),
        r.watch() == WatchState::start(settings@),
        r.controller() == controller@,
        r.tree().root() == root,
        !r.tree().retired(),
        r.tree().ids() == seq![ProcessIdentity { pid: root, start_time: 0 }],
        !r.seen(),
{
    Supervisor {
        watch: Watch::new(settings),
        tree: ProcessTree::new(root),
        controller,
        seen: Ghost(false),
    }
}

/// An order on Unix goes to the command's group and to the processes of its tree, to each of
/// them once.
pub proof fn law_orders_go_to_the_tree(
    s: Supervisor,
    control: Control,
    r: Result<Order, SignalError>,
)
    requires
        s.wf(),
        s.seen(),
        !s.controller().platform.is_windows(),
        s.controller().pgid > 1,
        s.controller().is_order(control, s.controller().targets, r),
    ensures
        r matches Ok(Order::Signal { signal, run }) && signal == signal_for(control) && run@.pgid
            == s.controller().pgid && run@.targets == s.tree().ids() && distinct_ids(
            run@.targets,
        ),
{
}

/// Where the command cannot be watched any longer, letting go of it kills every process that is
/// known of it: on Unix the controller signals them, and a Windows job ends by itself.
pub proof fn law_nothing_is_left_unwatched(s: Supervisor, r: Option<SignalRun>)
    requires
        s.wf(),
        s.seen(),
        !released(s.watch().phase),
        s.controller().is_last_run(r),
        !s.controller().platform.is_windows(),
        s.controller().pgid > 1,
    ensures
        r matches Some(run) && run@.pgid == s.controller().pgid && run@.targets == s.tree().ids(),
{
}

/// Where a command was stopped at a limit, no process is left of it, and letting go of it kills
/// nothing.
pub proof fn law_a_limit_leaves_no_process(s: Supervisor, r: Option<SignalRun>)
    requires
        s.wf(),
        s.watch().phase matches Phase::Ended(ending) && ending is Limit,
        s.controller().is_last_run(r),
    ensures
        s.tree().ids().len() == 0,
        r is None,
{
}

/// The command is left to itself once it has ended or was stopped at a limit, and not where the
/// watch over it failed or goes on.
pub proof fn law_when_a_command_is_left_to_itself(
    phase: Phase<nat>,
    status: ExitStatus,
    notice: Notice<nat>,
    error: SupervisionError,
)
    ensures
        released(Phase::Ended(Ending::Status(status))),
        released(Phase::Ended(Ending::Limit(notice))),
        !released(Phase::Ended(Ending::Failed(error))),
        !released(Phase::Ended(Ending::Aborted)),
        !(phase is Ended) ==> !released(phase),
{
}

/// A look keeps the command's group, and takes its processes as the targets of orders; a command
/// that turns out to have ended is no longer among them.
pub proof fn law_what_a_look_takes_in(
    s: Supervisor,
    found: ProcessTree,
    after: Supervisor,
    status: Option<ExitStatus>,
    table: Seq<ProcessRecord>,
    now: nat,
    i: int,
)
    requires
        s.looked_at(found, after, status, table, now),
    ensures
        after.controller().pgid == s.controller().pgid,
        after.controller().platform == s.controller().platform,
        after.controller().attached == s.controller().attached,
        after.controller().armed ==> s.controller().armed,
        after.controller().targets == after.tree().ids(),
        s.watch().phase is Observe && s.watch().status is None && status is Some && 0 <= i
            < after.tree().ids().len() ==> after.tree().ids()[i].pid != s.tree().root(),
        !(s.watch().phase is Observe) || s.watch().status is Some || status is None ==> after.tree()
            == found,
{
    let root = found.root();
    let keep = |id: ProcessIdentity| id.pid != root;
    if root_exits(s.watch(), status) && 0 <= i < after.tree().ids().len() {
        found.ids().lemma_filter_pred(keep, i);
        assert(after.tree().ids() == found.ids().filter(keep));
        assert(keep(after.tree().ids()[i]));
    }
}

/// What a look shows is the memory and the CPU time of every process that was found, the root
/// among them, and how many are left.
pub proof fn law_what_a_look_shows(
    found: ProcessTree,
    left: ProcessTree,
    table: Seq<ProcessRecord>,
)
    ensures
        ({
            let seen = seen_in(found, left, table);
            &&& total_memory(found.ids(), table) <= u64::MAX ==> seen.rss == total_memory(
                found.ids(),
                table,
            )
            &&& total_memory(found.ids(), table) > u64::MAX ==> seen.rss == u64::MAX
            &&& seen.cpu == total_cpu(found.ids(), table)
            &&& left.ids().len() <= usize::MAX ==> seen.count == left.ids().len()
            &&& seen.observed == left.observed()
        }),
{
}

/// A command whose processes together have more memory than its limit is found out at the next
/// look, and stopped for it.
pub proof fn law_too_much_memory_is_found_out(
    s: Supervisor,
    found: ProcessTree,
    after: Supervisor,
    table: Seq<ProcessRecord>,
    limit: u64,
    now: nat,
)
    requires
        s.looked_at(found, after, None, table, now),
        s.watch().phase is Observe,
        s.watch().status is None,
        !s.tree().retired(),
        listed(table, s.tree().root()),
        s.watch().rules.memory == Some(limit),
        total_memory(found.ids(), table) > limit,
        limit < u64::MAX,
    ensures
        after.watch().phase matches Phase::Announce(Notice::MemoryLimit { used, limit: most })
            && most == limit && used > limit,
        after.controller().armed == s.controller().armed,
{
    let seen = seen_in(found, after.tree(), table);
    law_too_much_memory_is_acted_on(s.watch(), None, seen, limit, now);
}

/// Whatever else the watch takes in changes neither the tree nor the targets, nor the group.
pub proof fn law_only_a_look_changes_the_tree(s: Supervisor, after: Supervisor, watch: WatchState)
    requires
        s.moved(after, watch),
    ensures
        after.tree() == s.tree(),
        after.watch() == watch,
        after.controller().targets == s.controller().targets,
        after.controller().pgid == s.controller().pgid,
        after.controller().platform == s.controller().platform,
        !(watch.phase is Ended) ==> after.controller().armed == s.controller().armed,
        watch.phase matches Phase::Ended(Ending::Status(_)) ==> !after.controller().armed,
        watch.phase matches Phase::Ended(Ending::Limit(_)) ==> !after.controller().armed,
        watch.phase matches Phase::Ended(Ending::Failed(_)) ==> after.controller().armed
            == s.controller().armed,
{
}

/// The words for what cannot be looked at.
pub proof fn law_failures_in_words(cause: Cause<nat>, until: nat)
    ensures
        failure_words(Phase::Observe) == "could not inspect command status"@,
        failure_words(Phase::Recheck) == "could not recheck an unobserved command"@,
        failure_words(Phase::Grace { cause, until })
            == "could not inspect command during termination"@,
        failure_words(Phase::Verify { cause, until })
            == "could not inspect command after forced termination"@,
        failure_words(Phase::Measure) == ""@,
{
}

} // verus!
