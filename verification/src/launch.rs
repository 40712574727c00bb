//! The launch of a command: what it is held to, how it is called, and what is said of it.
use crate::exit::{EXIT_CANNOT_INVOKE, EXIT_NOT_FOUND};
use crate::format::{format_bytes, size_text};
use crate::limits::{
    auto_share, memory_amount, CpuLimit, HumanDuration, MemoryAmount, MemorySpec,
};
use crate::memory::{
    amount_of, budget, law_auto_and_reserve_make_up_the_whole, resolve_memory_budget, MemoryBudget,
};
use crate::nice::{parse_nice_adjustment, setting_adjustment, NiceSetting};
use crate::platform::Platform;
use crate::signals::{push_signed, signed_decimal};
use crate::text::{law_alike, law_nothing_else_is_trimmed};
use vstd::prelude::*;
use vstd::string::StringExecFns;

verus! {

/// What is asked for on the command line, as far as a launch depends on it.
#[derive(Clone, Copy, Debug)]
pub struct Request {
    /// Whether there is a command for the shell.
    pub script: bool,
    /// How many words the command has otherwise.
    pub command_words: usize,
    /// The limit on memory.
    pub memory: Option<MemorySpec>,
    /// The CPU allowance.
    pub cpu: Option<CpuLimit>,
    /// The time limit.
    pub time: Option<HumanDuration>,
    /// Whether only limits that the system itself keeps will do.
    pub require_native: bool,
}

impl Request {
    /// Whether there is anything to run.
    pub open spec fn has_command(self) -> bool {
        self.script || self.command_words > 0
    }

    /// The limit on memory that is in force: where no limit at all is asked for, the share
    /// that `auto` stands for.
    pub open spec fn memory_in_force(self) -> Option<MemoryAmount> {
        if self.memory is None && self.cpu is None && self.time is None {
            Some(MemoryAmount::AvailableFraction(auto_share()))
        } else {
            amount_of(self.memory)
        }
    }

    /// The limit on memory that is in force, or what is wrong with the request: there has to
    /// be a command.
    pub fn memory_spec(&self) -> (r: Result<Option<MemorySpec>, String>)
        ensures
            match r {
                Ok(spec) => self.has_command() && amount_of(spec) == self.memory_in_force(),
                Err(e) => !self.has_command() && e@ == "specify a command after --, or use -c"@,
            },
    {
        if !self.script && self.command_words == 0 {
            return Err("specify a command after --, or use -c".to_owned());
        }
        if self.memory.is_none() && self.cpu.is_none() && self.time.is_none() {
            Ok(Some(MemorySpec::auto()))
        } else {
            Ok(self.memory)
        }
    }
}

/// Whether a limit depends on how much memory is available.
pub fn depends_on_available(spec: Option<MemorySpec>) -> (r: bool)
    ensures
        r == (amount_of(spec) matches Some(MemoryAmount::AvailableFraction(_))),
{
    match spec {
        Some(MemorySpec::AvailableFraction(_)) => true,
        _ => false,
    }
}

/// What a command is held to.
#[derive(Clone, Copy, Debug)]
pub struct Plan {
    /// Its memory.
    pub budget: MemoryBudget,
    /// How far its niceness is raised.
    pub nice: Option<i32>,
}

/// What a request comes to where so much memory is available, or what is wrong with it.
pub open spec fn planned(
    request: Request,
    available: u64,
    nice: NiceSetting,
) -> Result<Plan, Seq<char>> {
    if !request.has_command() {
        Err("specify a command after --, or use -c"@)
    } else {
        match setting_adjustment(nice) {
            Err(e) => Err(e),
            Ok(nice) => Ok(Plan { budget: budget(request.memory_in_force(), available), nice }),
        }
    }
}

/// What a request comes to where so much memory is available.
pub fn plan(request: &Request, available: u64, nice: NiceSetting) -> (r: Result<Plan, String>)
    ensures
        match r {
            Ok(plan) => planned(*request, available, nice) == Ok::<Plan, Seq<char>>(plan),
            Err(e) => planned(*request, available, nice) == Err::<Plan, Seq<char>>(e@),
        },
{
    let spec: Option<MemorySpec> = match request.memory_spec() {
        Err(e) => {
            return Err(e);
        },
        Ok(spec) => spec,
    };
    let budget: MemoryBudget = match resolve_memory_budget(spec, available) {
        Err(e) => {
            return Err(e);
        },
        Ok(budget) => budget,
    };
    match parse_nice_adjustment(nice) {
        Err(e) => Err(e),
        Ok(nice) => Ok(Plan { budget, nice }),
    }
}

/// What is wrong with a request for limits that the system itself keeps: none keeps a limit on
/// memory, and only Windows keeps a CPU allowance.
pub open spec fn native_fault(
    request: Request,
    plan: Plan,
    platform: Platform,
) -> Option<Seq<char>> {
    if !request.require_native {
        None
    } else if plan.budget.process_limit is Some {
        Some("native memory enforcement is unavailable on this platform"@)
    } else if request.cpu is Some && !platform.is_windows() {
        Some("native CPU enforcement is unavailable on this platform"@)
    } else {
        None
    }
}

/// Whether the system keeps the limits itself as far as that is asked for. That is asked once
/// the command is prepared.
pub fn check_native(request: &Request, plan: &Plan, platform: Platform) -> (r: Result<(), String>)
    ensures
        match r {
            Ok(()) => native_fault(*request, *plan, platform) is None,
            Err(e) => native_fault(*request, *plan, platform) == Some(e@),
        },
{
    if request.require_native {
        if plan.budget.process_limit.is_some() {
            return Err("native memory enforcement is unavailable on this platform".to_owned());
        }
        if request.cpu.is_some() && !platform.is_windows() {
            return Err("native CPU enforcement is unavailable on this platform".to_owned());
        }
    }
    Ok(())
}

/// A request without any limit is held to seven tenths of the memory that is available, and
/// leaves the rest to the host.
pub proof fn law_no_limit_means_auto(request: Request, available: u64, nice: NiceSetting)
    requires
        request.has_command(),
        request.memory is None,
        request.cpu is None,
        request.time is None,
        setting_adjustment(nice) is Ok,
    ensures
        ({
            let limit = MemoryAmount::AvailableFraction(auto_share()).resolved(available);
            planned(request, available, nice) matches Ok(plan) && plan.budget == MemoryBudget {
                process_limit: Some(limit),
                host_reserve: Some((available - limit) as u64),
            } && limit <= available
        }),
{
    law_auto_and_reserve_make_up_the_whole(available);
}

/// A limit on memory is never one that the system itself keeps.
pub proof fn law_memory_is_never_native(
    request: Request,
    platform: Platform,
    available: u64,
    nice: NiceSetting,
    plan: Plan,
)
    requires
        request.require_native,
        request.memory_in_force() is Some,
        planned(request, available, nice) == Ok::<Plan, Seq<char>>(plan),
    ensures
        native_fault(request, plan, platform) is Some,
{
}

/// A word of a command line: a text, or a word of the system's own kind.
pub enum Word<T> {
    /// A text.
    Text(String),
    /// A word of the system's own kind.
    Native(T),
}

/// What a word stands for.
pub enum WordState<T> {
    Text(Seq<char>),
    Native(T),
}

/// What a word stands for.
pub open spec fn word<T>(w: Word<T>) -> WordState<T> {
    match w {
        Word::Text(text) => WordState::Text(text@),
        Word::Native(native) => WordState::Native(native),
    }
}

/// What words stand for.
pub open spec fn line<T>(words: Seq<Word<T>>) -> Seq<WordState<T>> {
    words.map_values(|w: Word<T>| word(w))
}

/// A program and its arguments.
pub struct CommandLine<T> {
    /// The program.
    pub program: Word<T>,
    /// Its arguments.
    pub arguments: Vec<Word<T>>,
}

impl<T> CommandLine<T> {
    /// The program and its arguments, one after the other.
    pub open spec fn words(self) -> Seq<WordState<T>> {
        seq![word(self.program)] + line(self.arguments@)
    }
}

/// The path of the shell that runs scripts on a Unix where no other is asked for.
pub open spec fn default_shell(platform: Platform) -> Seq<char> {
    if platform == Platform::MacOs {
        "/bin/zsh"@
    } else {
        "/bin/sh"@
    }
}

/// The path of the shell that runs scripts on a Unix where no other is asked for.
pub fn default_unix_shell(platform: Platform) -> (r: &'static str)
    ensures
        r@ == default_shell(platform),
{
    match platform {
        Platform::MacOs => "/bin/zsh",
        _ => "/bin/sh",
    }
}

/// The shell that runs scripts: the one that is asked for, or else on Windows the one that
/// `COMSPEC` names, or else the system's.
pub open spec fn shell_word<T>(
    platform: Platform,
    shell: Option<T>,
    comspec: Option<T>,
) -> WordState<T> {
    match shell {
        Some(shell) => WordState::Native(shell),
        None => if platform.is_windows() {
            match comspec {
                Some(comspec) => WordState::Native(comspec),
                None => WordState::Text("cmd.exe"@),
            }
        } else {
            WordState::Text(default_shell(platform))
        },
    }
}

/// The switches with which the shell takes a script.
pub open spec fn shell_switches<T>(platform: Platform) -> Seq<WordState<T>> {
    if platform.is_windows() {
        seq![WordState::Text("/D"@), WordState::Text("/S"@), WordState::Text("/C"@)]
    } else {
        seq![WordState::Text("-c"@)]
    }
}

/// The command line of what was asked for: a script goes to the shell, anything else is called
/// as it stands.
pub open spec fn target_words<T>(
    platform: Platform,
    script: Option<Seq<char>>,
    shell: Option<T>,
    comspec: Option<T>,
    command: Seq<T>,
) -> Option<Seq<WordState<T>>> {
    match script {
        Some(script) => Some(
            seq![shell_word(platform, shell, comspec)] + shell_switches(platform)
                + seq![WordState::Text(script)],
        ),
        None => if command.len() == 0 {
            None
        } else {
            Some(command.map_values(|w: T| WordState::Native(w)))
        },
    }
}

/// A text as a word.
fn text_word<T>(text: &str) -> (w: Word<T>)
    ensures
        word(w) == WordState::<T>::Text(text@),
{
    let mut copy: String = String::new();
    copy.append(text);
    proof {
        assert(copy@ =~= text@);
    }
    Word::Text(copy)
}

/// What a text that may be missing stands for.
pub open spec fn text_view(text: Option<String>) -> Option<Seq<char>> {
    match text {
        Some(text) => Some(text@),
        None => None,
    }
}

/// The command line of what was asked for.
pub fn build_target_command<T>(
    platform: Platform,
    script: Option<String>,
    shell: Option<T>,
    comspec: Option<T>,
    command: Vec<T>,
) -> (r: Result<CommandLine<T>, String>)
    ensures
        match r {
            Ok(target) => target_words(platform, text_view(script), shell, comspec, command@)
                == Some(target.words()),
            Err(e) => target_words(platform, text_view(script), shell, comspec, command@) is None
                && e@ == "missing command"@,
        },
{
    if let Some(script) = script {
        let program: Word<T> = match shell {
            Some(shell) => Word::Native(shell),
            None => if platform.is_windows() {
                match comspec {
                    Some(comspec) => Word::Native(comspec),
                    None => text_word("cmd.exe"),
                }
            } else {
                text_word(default_unix_shell(platform))
            },
        };
        let mut arguments: Vec<Word<T>> = Vec::new();
        if platform.is_windows() {
            arguments.push(text_word("/D"));
            arguments.push(text_word("/S"));
            arguments.push(text_word("/C"));
        } else {
            arguments.push(text_word("-c"));
        }
        let ghost switches = arguments@;
        arguments.push(Word::Text(script));
        let target = CommandLine { program, arguments };
        proof {
            assert(line(switches) =~= shell_switches(platform));
            assert(target.words() =~= seq![shell_word(platform, shell, comspec)] + shell_switches(
                platform,
            ) + seq![WordState::Text(script@)]);
        }
        return Ok(target);
    }
    let mut rest: Vec<T> = command;
    if rest.len() == 0 {
        return Err("missing command".to_owned());
    }
    let program: Word<T> = Word::Native(rest.remove(0));
    let mut arguments: Vec<Word<T>> = Vec::new();
    let ghost native = |w: T| WordState::<T>::Native(w);
    while rest.len() > 0
        invariant
            native == (|w: T| WordState::<T>::Native(w)),
            command@.len() > 0,
            word(program) == WordState::<T>::Native(command@[0]),
            rest@.len() + arguments@.len() + 1 == command@.len(),
            rest@ =~= command@.skip(1 + arguments@.len() as int),
            line(arguments@) =~= command@.subrange(1, 1 + arguments@.len() as int).map_values(
                native,
            ),
        decreases rest@.len(),
    {
        let ghost before = arguments@;
        arguments.push(Word::Native(rest.remove(0)));
        proof {
            assert(arguments@.last() == Word::Native(command@[1 + before.len() as int]));
            assert(line(arguments@) =~= line(before).push(word(arguments@.last())));
        }
    }
    let target = CommandLine { program, arguments };
    proof {
        assert(target.words() =~= command@.map_values(native));
    }
    Ok(target)
}

/// The switch with which the program launches a command from within a Windows job.
pub open spec fn helper_switch() -> Seq<char> {
    "--internal-windows-launch-helper"@
}

/// The switch with which the program launches a command from within a Windows job.
pub fn windows_helper_switch() -> (r: &'static str)
    ensures
        r@ == helper_switch(),
{
    "--internal-windows-launch-helper"
}

/// The command line that launches a command from within a Windows job: the program itself, the
/// switch, and the command.
pub fn wrap_windows_command<T>(program: T, target: CommandLine<T>) -> (r: CommandLine<T>)
    ensures
        r.words() == seq![WordState::Native(program), WordState::Text(helper_switch())]
            + target.words(),
{
    let mut arguments: Vec<Word<T>> = Vec::new();
    arguments.push(text_word(windows_helper_switch()));
    let ghost before = target.arguments@;
    arguments.push(target.program);
    let mut rest: Vec<Word<T>> = target.arguments;
    while rest.len() > 0
        invariant
            arguments@.len() >= 2,
            word(arguments@[0]) == WordState::<T>::Text(helper_switch()),
            arguments@[1] == target.program,
            rest@.len() + arguments@.len() == before.len() + 2,
            rest@ =~= before.skip(arguments@.len() - 2),
            arguments@.skip(2) =~= before.take(arguments@.len() - 2),
        decreases rest@.len(),
    {
        arguments.push(rest.remove(0));
    }
    let r = CommandLine { program: Word::Native(program), arguments };
    proof {
        assert(arguments@.skip(2) =~= before);
        assert(arguments@ =~= seq![arguments@[0], arguments@[1]] + before);
        assert(line(arguments@) =~= seq![word(arguments@[0]), word(arguments@[1])] + line(before));
        assert(r.words() =~= seq![
            WordState::Native(program),
            WordState::Text(helper_switch()),
        ] + target.words());
    }
    r
}

/// Why a command did not start.
#[derive(Clone, Copy, Debug, PartialEq, Eq, Structural)]
pub enum SpawnFault {
    /// There is no such command.
    NotFound,
    /// The command may not be called.
    PermissionDenied,
    /// Anything else.
    Other,
}

/// The exit code for a command that did not start, where there is one of its own.
pub open spec fn spawn_code(fault: SpawnFault) -> Option<u8> {
    match fault {
        SpawnFault::NotFound => Some(EXIT_NOT_FOUND),
        SpawnFault::PermissionDenied => Some(EXIT_CANNOT_INVOKE),
        SpawnFault::Other => None,
    }
}

/// What is said of a command that did not start.
pub open spec fn spawn_words(fault: SpawnFault, program: Seq<char>, error: Seq<char>) -> Seq<char> {
    match fault {
        SpawnFault::NotFound => "command not found: "@ + program,
        SpawnFault::PermissionDenied => "cannot invoke "@ + program + ": "@ + error,
        SpawnFault::Other => "could not start command: "@ + error,
    }
}

/// The exit code for a command that did not start, where there is one of its own, and what is
/// said of it.
pub fn spawn_failure(fault: SpawnFault, program: &str, error: &str) -> (r: (Option<u8>, String))
    ensures
        r.0 == spawn_code(fault),
        r.1@ == spawn_words(fault, program@, error@),
{
    let mut text: String = String::new();
    let code: Option<u8> = match fault {
        SpawnFault::NotFound => {
            text.append("command not found: ");
            text.append(program);
            Some(EXIT_NOT_FOUND)
        },
        SpawnFault::PermissionDenied => {
            text.append("cannot invoke ");
            text.append(program);
            text.append(": ");
            text.append(error);
            Some(EXIT_CANNOT_INVOKE)
        },
        SpawnFault::Other => {
            text.append("could not start command: ");
            text.append(error);
            None
        },
    };
    proof {
        assert(text@ =~= spawn_words(fault, program@, error@));
    }
    (code, text)
}

/// How a limit is kept.
pub open spec fn method(native: bool) -> Seq<char> {
    if native {
        " (native)"@
    } else {
        " (sampled)"@
    }
}

/// What a part that may be missing adds to a list.
pub open spec fn listed_with(list: Seq<char>, part: Option<Seq<char>>) -> Seq<char> {
    match part {
        None => list,
        Some(part) => if list.len() == 0 {
            part
        } else {
            list + ", "@ + part
        },
    }
}

/// What is said of a command's priority.
pub open spec fn priority_words(platform: Platform, nice: i32) -> Seq<char> {
    if platform.is_windows() {
        "priority below normal"@
    } else {
        "niceness +"@ + signed_decimal(nice as int)
    }
}

/// What is said of a command that is about to start: the limits it is held to, and how each is
/// kept.
pub open spec fn summary_words(
    platform: Platform,
    memory: Option<u64>,
    cores: Option<Seq<char>>,
    time: Option<Seq<char>>,
    nice: Option<i32>,
) -> Seq<char> {
    let memory_part = match memory {
        Some(bytes) => Some("memory "@ + size_text(bytes as nat) + method(false)),
        None => None,
    };
    let cpu_part = match cores {
        Some(cores) => Some("CPU "@ + cores + " cores"@ + method(platform.is_windows())),
        None => None,
    };
    let time_part = match time {
        Some(time) => Some("time "@ + time),
        None => None,
    };
    let nice_part = match nice {
        Some(nice) => Some(priority_words(platform, nice)),
        None => None,
    };
    listed_with(
        listed_with(listed_with(listed_with(seq![], memory_part), cpu_part), time_part),
        nice_part,
    )
}

/// Starts a further part of a list.
fn open_part(list: &mut String, empty: bool)
    requires
        empty == (old(list)@.len() == 0),
    ensures
        final(list)@ == (if empty {
            seq![]
        } else {
            old(list)@ + ", "@
        }),
{
    if !empty {
        list.append(", ");
    }
    proof {
        assert(empty ==> list@ =~= seq![]);
    }
}

/// What is said of a command that is about to start, unless that is not wanted, or there is no
/// terminal to say it on.
pub fn summary(
    quiet: bool,
    terminal: bool,
    platform: Platform,
    memory: Option<u64>,
    cores: Option<&str>,
    time: Option<&str>,
    nice: Option<i32>,
) -> (r: Option<String>)
    ensures
        match r {
            Some(text) => !quiet && terminal && text@ == summary_words(
                platform,
                memory,
                match cores {
                    Some(cores) => Some(cores@),
                    None => None,
                },
                match time {
                    Some(time) => Some(time@),
                    None => None,
                },
                nice,
            ),
            None => quiet || !terminal,
        },
{
    if quiet || !terminal {
        return None;
    }
    Some(list_limits(platform, memory, cores, time, nice))
}

/// The limits that a command is held to, one after the other. The numbers of cores and of
/// seconds are handed in as they are written.
fn list_limits(
    platform: Platform,
    memory: Option<u64>,
    cores: Option<&str>,
    time: Option<&str>,
    nice: Option<i32>,
) -> (text: String)
    ensures
        text@ == summary_words(
            platform,
            memory,
            match cores {
                Some(cores) => Some(cores@),
                None => None,
            },
            match time {
                Some(time) => Some(time@),
                None => None,
            },
            nice,
        ),
{
    let mut text: String = String::new();
    let mut empty: bool = true;
    proof {
        reveal_strlit("memory ");
        reveal_strlit("CPU ");
        reveal_strlit("time ");
        assert(text@ =~= seq![]);
    }
    if let Some(bytes) = memory {
        open_part(&mut text, empty);
        let ghost before = text@;
        text.append("memory ");
        text.append(format_bytes(bytes).as_str());
        text.append(" (sampled)");
        empty = false;
        proof {
            assert(text@ =~= before + ("memory "@ + size_text(bytes as nat) + method(false)));
        }
    }
    let ghost first = text@;
    if let Some(cores) = cores {
        open_part(&mut text, empty);
        let ghost before = text@;
        text.append("CPU ");
        text.append(cores);
        text.append(" cores");
        if platform.is_windows() {
            text.append(" (native)");
        } else {
            text.append(" (sampled)");
        }
        empty = false;
        proof {
            let part = "CPU "@ + cores@ + " cores"@ + method(platform.is_windows());
            assert(text@ =~= before + part);
            assert(text@ =~= listed_with(first, Some(part)));
        }
    }
    let ghost second = text@;
    if let Some(time) = time {
        open_part(&mut text, empty);
        let ghost before = text@;
        text.append("time ");
        text.append(time);
        empty = false;
        proof {
            assert(text@ =~= before + ("time "@ + time@));
            assert(text@ =~= listed_with(second, Some("time "@ + time@)));
        }
    }
    let ghost third = text@;
    if let Some(nice) = nice {
        open_part(&mut text, empty);
        let ghost before = text@;
        if platform.is_windows() {
            text.append("priority below normal");
        } else {
            text.append("niceness +");
            push_signed(&mut text, nice);
        }
        proof {
            assert(text@ =~= before + priority_words(platform, nice));
            assert(text@ =~= listed_with(third, Some(priority_words(platform, nice))));
        }
    }
    text
}

/// A limit on memory that is asked for is the one in force; where only other limits are asked
/// for, none is, and where none at all is asked for, `auto` is.
pub proof fn law_the_memory_limit_in_force(request: Request, spec: MemorySpec)
    ensures
        request.memory == Some(spec) ==> request.memory_in_force() == Some(spec@),
        request.memory is None && (request.cpu is Some || request.time is Some)
            ==> request.memory_in_force() is None,
        request.memory is None && request.cpu is None && request.time is None
            ==> request.memory_in_force() == Some(memory_amount("auto"@)->Ok_0),
{
    reveal_strlit("auto");
    law_nothing_else_is_trimmed("auto"@);
    law_alike("auto"@, "auto"@);
}

/// A request that has a command and a good setting comes to a plan, and no other does: the plan
/// holds the command to just what is asked for.
pub proof fn law_what_a_request_comes_to(request: Request, available: u64, nice: NiceSetting)
    ensures
        !request.script && request.command_words == 0 ==> planned(request, available, nice) == Err::<
            Plan,
            Seq<char>,
        >("specify a command after --, or use -c"@),
        request.script || request.command_words > 0 ==> match setting_adjustment(nice) {
            Err(e) => planned(request, available, nice) == Err::<Plan, Seq<char>>(e),
            Ok(n) => planned(request, available, nice) matches Ok(plan) && {
                &&& plan.nice == n
                &&& request.memory is None && (request.cpu is Some || request.time is Some)
                    ==> plan.budget.process_limit is None && plan.budget.host_reserve is None
                &&& request.memory matches Some(MemorySpec::Bytes(bytes))
                    ==> plan.budget.process_limit == Some(bytes) && plan.budget.host_reserve is None
                &&& request.memory matches Some(MemorySpec::AvailableFraction(share)) ==> {
                    let limit = MemoryAmount::AvailableFraction(share@).resolved(available);
                    &&& plan.budget.process_limit == Some(limit)
                    &&& limit <= available ==> plan.budget.host_reserve == Some(
                        (available - limit) as u64,
                    )
                }
            },
        },
{
}

/// Only where limits that the system itself keeps are required can a plan fail for want of them:
/// always with a limit on memory, and with a CPU allowance anywhere but on Windows.
pub proof fn law_what_is_native(request: Request, plan: Plan, platform: Platform)
    ensures
        !request.require_native ==> native_fault(request, plan, platform) is None,
        request.require_native ==> {
            &&& plan.budget.process_limit is Some ==> native_fault(request, plan, platform) == Some(
                "native memory enforcement is unavailable on this platform"@,
            )
            &&& plan.budget.process_limit is None && request.cpu is Some && platform
                != Platform::Windows ==> native_fault(request, plan, platform) == Some(
                "native CPU enforcement is unavailable on this platform"@,
            )
            &&& plan.budget.process_limit is None && (request.cpu is None || platform
                == Platform::Windows) ==> native_fault(request, plan, platform) is None
        },
{
}

/// A script goes to a shell, as its last word, behind `-c`, or on Windows behind the switches
/// that do without the registry and keep the quotation marks.
pub proof fn law_scripts_go_to_a_shell<T>(
    platform: Platform,
    script: Seq<char>,
    shell: Option<T>,
    comspec: Option<T>,
    command: Seq<T>,
)
    ensures
        target_words(platform, Some(script), shell, comspec, command) matches Some(words) && {
            &&& words.last() == WordState::<T>::Text(script)
            &&& platform != Platform::Windows ==> words.len() == 3 && words[1] == WordState::<
                T,
            >::Text("-c"@)
            &&& platform == Platform::Windows ==> words.len() == 5 && words[1] == WordState::<
                T,
            >::Text("/D"@) && words[2] == WordState::<T>::Text("/S"@) && words[3] == WordState::<
                T,
            >::Text("/C"@)
            &&& shell matches Some(named) ==> words[0] == WordState::Native(named)
            &&& shell is None && platform == Platform::Windows ==> words[0] == match comspec {
                Some(named) => WordState::Native(named),
                None => WordState::Text("cmd.exe"@),
            }
            &&& shell is None && platform == Platform::MacOs ==> words[0] == WordState::<T>::Text(
                "/bin/zsh"@,
            )
            &&& shell is None && platform != Platform::Windows && platform != Platform::MacOs
                ==> words[0] == WordState::<T>::Text("/bin/sh"@)
        },
{
}

/// Anything but a script is called as it stands, word for word.
pub proof fn law_commands_are_called_as_they_stand<T>(
    platform: Platform,
    shell: Option<T>,
    comspec: Option<T>,
    command: Seq<T>,
)
    ensures
        command.len() == 0 ==> target_words(platform, None, shell, comspec, command) is None,
        command.len() > 0 ==> (target_words(platform, None, shell, comspec, command) matches Some(
            words,
        ) && words.len() == command.len() && forall|i: int|
            0 <= i < words.len() ==> #[trigger] words[i] == WordState::Native(command[i])),
{
}

/// A command that is not there ends with 127, one that may not be called with 126, and both are
/// named; any other failure is told as it is.
pub proof fn law_commands_that_do_not_start(program: Seq<char>, error: Seq<char>)
    ensures
        spawn_code(SpawnFault::NotFound) == Some(127u8),
        spawn_code(SpawnFault::PermissionDenied) == Some(126u8),
        spawn_code(SpawnFault::Other) is None,
        spawn_words(SpawnFault::NotFound, program, error) == "command not found: "@ + program,
        spawn_words(SpawnFault::PermissionDenied, program, error) == "cannot invoke "@ + program
            + ": "@ + error,
        spawn_words(SpawnFault::Other, program, error) == "could not start command: "@ + error,
{
}

/// Each limit is told behind those before it, with a comma between them: memory, CPU, time,
/// priority.
pub proof fn law_each_limit_is_told(
    platform: Platform,
    bytes: u64,
    memory: Option<u64>,
    cores: Seq<char>,
    cpu: Option<Seq<char>>,
    seconds: Seq<char>,
    time: Option<Seq<char>>,
    nice: i32,
)
    ensures
        summary_words(platform, None, None, None, None) == Seq::<char>::empty(),
        summary_words(platform, Some(bytes), None, None, None) == "memory "@ + size_text(
            bytes as nat,
        ) + " (sampled)"@,
        ({
            let before = summary_words(platform, memory, None, None, None);
            let part = "CPU "@ + cores + " cores"@ + if platform == Platform::Windows {
                " (native)"@
            } else {
                " (sampled)"@
            };
            summary_words(platform, memory, Some(cores), None, None) == if memory is None {
                part
            } else {
                before + ", "@ + part
            }
        }),
        ({
            let before = summary_words(platform, memory, cpu, None, None);
            let part = "time "@ + seconds;
            summary_words(platform, memory, cpu, Some(seconds), None) == if memory is None
                && cpu is None {
                part
            } else {
                before + ", "@ + part
            }
        }),
        ({
            let before = summary_words(platform, memory, cpu, time, None);
            let part = if platform == Platform::Windows {
                "priority below normal"@
            } else {
                "niceness +"@ + signed_decimal(nice as int)
            };
            summary_words(platform, memory, cpu, time, Some(nice)) == if memory is None
                && cpu is None && time is None {
                part
            } else {
                before + ", "@ + part
            }
        }),
{
    reveal_strlit("memory ");
    reveal_strlit("CPU ");
    reveal_strlit("time ");
}

} // verus!
