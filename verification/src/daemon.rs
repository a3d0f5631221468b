//! Controlling the background daemon. Stopping it, replacing it before a
//! new one starts, and reporting on it alternate outside work (files,
//! signals, waiting) with decisions; the decisions are the step functions
//! here, each from a state and the outcome of the last action to the next
//! state and action. The caller performs each action and reports back.
use vstd::prelude::*;

use crate::pidfile::{
    lemma_record_roundtrip, parse_pid, parse_pid_record, pid_of_text, record_of_text, record_text,
    PidRecord,
};
use crate::text::{decimal, push_decimal};

verus! {

/// How many times the daemon is checked after being asked to stop.
pub open spec fn max_polls() -> u32 {
    30
}

/// How long to wait between two checks, in milliseconds.
pub open spec fn poll_interval_ms() -> u64 {
    100
}

/// A signal sent to the daemon.
#[derive(PartialEq, Eq, Structural, Clone, Copy, Debug)]
pub enum StopSignal {
    /// Ask it to stop (`SIGTERM`).
    Terminate,
    /// Force it to stop (`SIGKILL`).
    Kill,
}

/// The signal's number.
pub fn signal_number(s: StopSignal) -> (n: i32)
    ensures
        n == (match s {
            StopSignal::Terminate => 15i32,
            StopSignal::Kill => 9i32,
        }),
{
    match s {
        StopSignal::Terminate => 15,
        StopSignal::Kill => 9,
    }
}

/// What the user is told.
#[derive(PartialEq, Eq, Structural, Clone, Copy, Debug)]
pub enum Notice {
    /// No PID file: the daemon is likely not running.
    NoPidFile,
    /// The PID file could not be read.
    UnreadablePidFile,
    /// The PID file holds no valid PID.
    InvalidPid,
    /// The recorded daemon is not running; its PID file is removed.
    StalePid(i32),
    /// The daemon is being asked to stop.
    Stopping(i32),
    /// The daemon has stopped.
    Stopped,
    /// The daemon did not stop and is being killed.
    ForceKilling,
    /// A running daemon is being stopped before a new one starts.
    StoppingOld(i32),
    /// The old daemon did not stop and is being killed.
    ForceKillingOld,
    /// Status: stopped, no PID file.
    StatusStopped,
    /// Status: a PID file is there but names no running daemon.
    StatusStale,
    /// Status: running, as the PID file records.
    StatusRunning(PidRecord),
}

/// What the caller is asked to do next.
#[derive(PartialEq, Eq, Structural, Clone, Copy, Debug)]
pub enum DaemonAction {
    /// Find out whether the PID file exists; answer `Exists`.
    CheckPidFile,
    /// Read the PID file; answer `Content`.
    ReadPidFile,
    /// Find out whether the process is running; answer `Running`.
    Probe(i32),
    /// Send the process a signal; answer `Done`.
    Signal(i32, StopSignal),
    /// Wait this many milliseconds; answer `Done`.
    Sleep(u64),
    /// Remove the PID file, whether or not that succeeds; answer `Done`.
    RemovePidFile,
    /// Tell the user; answer `Done`.
    Say(Notice),
    /// Start the new background daemon; answer `Done`.
    Launch,
    /// Nothing more to do.
    Halt,
}

/// The outcome of the last action.
pub enum DaemonEvent {
    /// The last action needs no answer (or there was no last action).
    Done,
    /// Whether the PID file exists.
    Exists(bool),
    /// The PID file's text, or `None` where it could not be read.
    Content(Option<String>),
    /// Whether the process is running.
    Running(bool),
}

// ---------------------------------------------------------------------------
// Stopping the daemon
// ---------------------------------------------------------------------------

/// Where stopping the daemon stands.
#[derive(PartialEq, Eq, Structural, Clone, Copy, Debug)]
pub enum StopState {
    Begin,
    AwaitExists,
    AwaitContent,
    AwaitFirstProbe(i32),
    StaleNoticed,
    StoppingNoticed(i32),
    Signalled(i32),
    /// The `n`th wait after the stop signal is under way.
    Slept(i32, u32),
    /// The `n`th check after the stop signal is under way.
    AwaitPoll(i32, u32),
    StoppedNoticed,
    ForceNoticed(i32),
    Killed,
    Finish,
}

/// One step of stopping the daemon.
pub open spec fn stop_next(s: StopState, e: DaemonEvent) -> (StopState, DaemonAction) {
    match (s, e) {
        (StopState::Begin, _) => (StopState::AwaitExists, DaemonAction::CheckPidFile),
        (StopState::AwaitExists, DaemonEvent::Exists(false)) => (
            StopState::Finish,
            DaemonAction::Say(Notice::NoPidFile),
        ),
        (StopState::AwaitExists, DaemonEvent::Exists(true)) => (
            StopState::AwaitContent,
            DaemonAction::ReadPidFile,
        ),
        (StopState::AwaitContent, DaemonEvent::Content(None)) => (
            StopState::Finish,
            DaemonAction::Say(Notice::UnreadablePidFile),
        ),
        (StopState::AwaitContent, DaemonEvent::Content(Some(t))) => match pid_of_text(t@) {
            None => (StopState::Finish, DaemonAction::Say(Notice::InvalidPid)),
            Some(pid) => (StopState::AwaitFirstProbe(pid), DaemonAction::Probe(pid)),
        },
        (StopState::AwaitFirstProbe(pid), DaemonEvent::Running(false)) => (
            StopState::StaleNoticed,
            DaemonAction::Say(Notice::StalePid(pid)),
        ),
        (StopState::AwaitFirstProbe(pid), DaemonEvent::Running(true)) => (
            StopState::StoppingNoticed(pid),
            DaemonAction::Say(Notice::Stopping(pid)),
        ),
        (StopState::StaleNoticed, DaemonEvent::Done) => (
            StopState::Finish,
            DaemonAction::RemovePidFile,
        ),
        (StopState::StoppingNoticed(pid), DaemonEvent::Done) => (
            StopState::Signalled(pid),
            DaemonAction::Signal(pid, StopSignal::Terminate),
        ),
        (StopState::Signalled(pid), DaemonEvent::Done) => (
            StopState::Slept(pid, 1),
            DaemonAction::Sleep(poll_interval_ms()),
        ),
        (StopState::Slept(pid, n), DaemonEvent::Done) => (
            StopState::AwaitPoll(pid, n),
            DaemonAction::Probe(pid),
        ),
        (StopState::AwaitPoll(pid, n), DaemonEvent::Running(false)) => (
            StopState::StoppedNoticed,
            DaemonAction::Say(Notice::Stopped),
        ),
        (StopState::AwaitPoll(pid, n), DaemonEvent::Running(true)) => if n < max_polls() {
            (StopState::Slept(pid, (n + 1) as u32), DaemonAction::Sleep(poll_interval_ms()))
        } else {
            (StopState::ForceNoticed(pid), DaemonAction::Say(Notice::ForceKilling))
        },
        (StopState::StoppedNoticed, DaemonEvent::Done) => (
            StopState::Finish,
            DaemonAction::RemovePidFile,
        ),
        (StopState::ForceNoticed(pid), DaemonEvent::Done) => (
            StopState::Killed,
            DaemonAction::Signal(pid, StopSignal::Kill),
        ),
        (StopState::Killed, DaemonEvent::Done) => (StopState::Finish, DaemonAction::RemovePidFile),
        _ => (StopState::Finish, DaemonAction::Halt),
    }
}

/// One step of stopping the daemon.
pub fn stop_step(s: StopState, e: &DaemonEvent) -> (r: (StopState, DaemonAction))
    ensures
        r == stop_next(s, *e),
{
    match (s, e) {
        (StopState::Begin, _) => (StopState::AwaitExists, DaemonAction::CheckPidFile),
        (StopState::AwaitExists, DaemonEvent::Exists(false)) => (
            StopState::Finish,
            DaemonAction::Say(Notice::NoPidFile),
        ),
        (StopState::AwaitExists, DaemonEvent::Exists(true)) => (
            StopState::AwaitContent,
            DaemonAction::ReadPidFile,
        ),
        (StopState::AwaitContent, DaemonEvent::Content(None)) => (
            StopState::Finish,
            DaemonAction::Say(Notice::UnreadablePidFile),
        ),
        (StopState::AwaitContent, DaemonEvent::Content(Some(t))) => match parse_pid(t.as_str()) {
            None => (StopState::Finish, DaemonAction::Say(Notice::InvalidPid)),
            Some(pid) => (StopState::AwaitFirstProbe(pid), DaemonAction::Probe(pid)),
        },
        (StopState::AwaitFirstProbe(pid), DaemonEvent::Running(false)) => (
            StopState::StaleNoticed,
            DaemonAction::Say(Notice::StalePid(pid)),
        ),
        (StopState::AwaitFirstProbe(pid), DaemonEvent::Running(true)) => (
            StopState::StoppingNoticed(pid),
            DaemonAction::Say(Notice::Stopping(pid)),
        ),
        (StopState::StaleNoticed, DaemonEvent::Done) => (
            StopState::Finish,
            DaemonAction::RemovePidFile,
        ),
        (StopState::StoppingNoticed(pid), DaemonEvent::Done) => (
            StopState::Signalled(pid),
            DaemonAction::Signal(pid, StopSignal::Terminate),
        ),
        (StopState::Signalled(pid), DaemonEvent::Done) => (
            StopState::Slept(pid, 1),
            DaemonAction::Sleep(100),
        ),
        (StopState::Slept(pid, n), DaemonEvent::Done) => (
            StopState::AwaitPoll(pid, n),
            DaemonAction::Probe(pid),
        ),
        (StopState::AwaitPoll(_pid, _n), DaemonEvent::Running(false)) => (
            StopState::StoppedNoticed,
            DaemonAction::Say(Notice::Stopped),
        ),
        (StopState::AwaitPoll(pid, n), DaemonEvent::Running(true)) => if n < 30 {
            (StopState::Slept(pid, n + 1), DaemonAction::Sleep(100))
        } else {
            (StopState::ForceNoticed(pid), DaemonAction::Say(Notice::ForceKilling))
        },
        (StopState::StoppedNoticed, DaemonEvent::Done) => (
            StopState::Finish,
            DaemonAction::RemovePidFile,
        ),
        (StopState::ForceNoticed(pid), DaemonEvent::Done) => (
            StopState::Killed,
            DaemonAction::Signal(pid, StopSignal::Kill),
        ),
        (StopState::Killed, DaemonEvent::Done) => (StopState::Finish, DaemonAction::RemovePidFile),
        _ => (StopState::Finish, DaemonAction::Halt),
    }
}

// ---------------------------------------------------------------------------
// Replacing a running daemon before starting a new one in the background
// ---------------------------------------------------------------------------

/// Where replacing the old daemon stands.
#[derive(PartialEq, Eq, Structural, Clone, Copy, Debug)]
pub enum StartState {
    Begin,
    AwaitExists,
    AwaitContent,
    AwaitFirstProbe(i32),
    StoppingNoticed(i32),
    Signalled(i32),
    /// The `n`th wait after the stop signal is under way.
    Slept(i32, u32),
    /// The `n`th check after the stop signal is under way.
    AwaitPoll(i32, u32),
    /// The check after the waiting is under way.
    AwaitFinalProbe(i32),
    ForceNoticed(i32),
    Killed,
    RemovingOld,
    Launched,
    Finish,
}

/// One step of replacing the old daemon and launching the new one.
pub open spec fn start_next(s: StartState, e: DaemonEvent) -> (StartState, DaemonAction) {
    match (s, e) {
        (StartState::Begin, _) => (StartState::AwaitExists, DaemonAction::CheckPidFile),
        (StartState::AwaitExists, DaemonEvent::Exists(false)) => (
            StartState::Launched,
            DaemonAction::Launch,
        ),
        (StartState::AwaitExists, DaemonEvent::Exists(true)) => (
            StartState::AwaitContent,
            DaemonAction::ReadPidFile,
        ),
        (StartState::AwaitContent, DaemonEvent::Content(None)) => (
            StartState::RemovingOld,
            DaemonAction::RemovePidFile,
        ),
        (StartState::AwaitContent, DaemonEvent::Content(Some(t))) => match pid_of_text(t@) {
            None => (StartState::RemovingOld, DaemonAction::RemovePidFile),
            Some(pid) => (StartState::AwaitFirstProbe(pid), DaemonAction::Probe(pid)),
        },
        (StartState::AwaitFirstProbe(pid), DaemonEvent::Running(false)) => (
            StartState::RemovingOld,
            DaemonAction::RemovePidFile,
        ),
        (StartState::AwaitFirstProbe(pid), DaemonEvent::Running(true)) => (
            StartState::StoppingNoticed(pid),
            DaemonAction::Say(Notice::StoppingOld(pid)),
        ),
        (StartState::StoppingNoticed(pid), DaemonEvent::Done) => (
            StartState::Signalled(pid),
            DaemonAction::Signal(pid, StopSignal::Terminate),
        ),
        (StartState::Signalled(pid), DaemonEvent::Done) => (
            StartState::Slept(pid, 1),
            DaemonAction::Sleep(poll_interval_ms()),
        ),
        (StartState::Slept(pid, n), DaemonEvent::Done) => (
            StartState::AwaitPoll(pid, n),
            DaemonAction::Probe(pid),
        ),
        (StartState::AwaitPoll(pid, n), DaemonEvent::Running(false)) => (
            StartState::AwaitFinalProbe(pid),
            DaemonAction::Probe(pid),
        ),
        (StartState::AwaitPoll(pid, n), DaemonEvent::Running(true)) => if n < max_polls() {
            (StartState::Slept(pid, (n + 1) as u32), DaemonAction::Sleep(poll_interval_ms()))
        } else {
            (StartState::AwaitFinalProbe(pid), DaemonAction::Probe(pid))
        },
        (StartState::AwaitFinalProbe(pid), DaemonEvent::Running(false)) => (
            StartState::RemovingOld,
            DaemonAction::RemovePidFile,
        ),
        (StartState::AwaitFinalProbe(pid), DaemonEvent::Running(true)) => (
            StartState::ForceNoticed(pid),
            DaemonAction::Say(Notice::ForceKillingOld),
        ),
        (StartState::ForceNoticed(pid), DaemonEvent::Done) => (
            StartState::Killed,
            DaemonAction::Signal(pid, StopSignal::Kill),
        ),
        (StartState::Killed, DaemonEvent::Done) => (
            StartState::RemovingOld,
            DaemonAction::RemovePidFile,
        ),
        (StartState::RemovingOld, DaemonEvent::Done) => (
            StartState::Launched,
            DaemonAction::Launch,
        ),
        _ => (StartState::Finish, DaemonAction::Halt),
    }
}

/// One step of replacing the old daemon and launching the new one.
pub fn start_step(s: StartState, e: &DaemonEvent) -> (r: (StartState, DaemonAction))
    ensures
        r == start_next(s, *e),
{
    match (s, e) {
        (StartState::Begin, _) => (StartState::AwaitExists, DaemonAction::CheckPidFile),
        (StartState::AwaitExists, DaemonEvent::Exists(false)) => (
            StartState::Launched,
            DaemonAction::Launch,
        ),
        (StartState::AwaitExists, DaemonEvent::Exists(true)) => (
            StartState::AwaitContent,
            DaemonAction::ReadPidFile,
        ),
        (StartState::AwaitContent, DaemonEvent::Content(None)) => (
            StartState::RemovingOld,
            DaemonAction::RemovePidFile,
        ),
        (StartState::AwaitContent, DaemonEvent::Content(Some(t))) => match parse_pid(t.as_str()) {
            None => (StartState::RemovingOld, DaemonAction::RemovePidFile),
            Some(pid) => (StartState::AwaitFirstProbe(pid), DaemonAction::Probe(pid)),
        },
        (StartState::AwaitFirstProbe(_pid), DaemonEvent::Running(false)) => (
            StartState::RemovingOld,
            DaemonAction::RemovePidFile,
        ),
        (StartState::AwaitFirstProbe(pid), DaemonEvent::Running(true)) => (
            StartState::StoppingNoticed(pid),
            DaemonAction::Say(Notice::StoppingOld(pid)),
        ),
        (StartState::StoppingNoticed(pid), DaemonEvent::Done) => (
            StartState::Signalled(pid),
            DaemonAction::Signal(pid, StopSignal::Terminate),
        ),
        (StartState::Signalled(pid), DaemonEvent::Done) => (
            StartState::Slept(pid, 1),
            DaemonAction::Sleep(100),
        ),
        (StartState::Slept(pid, n), DaemonEvent::Done) => (
            StartState::AwaitPoll(pid, n),
            DaemonAction::Probe(pid),
        ),
        (StartState::AwaitPoll(pid, _n), DaemonEvent::Running(false)) => (
            StartState::AwaitFinalProbe(pid),
            DaemonAction::Probe(pid),
        ),
        (StartState::AwaitPoll(pid, n), DaemonEvent::Running(true)) => if n < 30 {
            (StartState::Slept(pid, n + 1), DaemonAction::Sleep(100))
        } else {
            (StartState::AwaitFinalProbe(pid), DaemonAction::Probe(pid))
        },
        (StartState::AwaitFinalProbe(_pid), DaemonEvent::Running(false)) => (
            StartState::RemovingOld,
            DaemonAction::RemovePidFile,
        ),
        (StartState::AwaitFinalProbe(pid), DaemonEvent::Running(true)) => (
            StartState::ForceNoticed(pid),
            DaemonAction::Say(Notice::ForceKillingOld),
        ),
        (StartState::ForceNoticed(pid), DaemonEvent::Done) => (
            StartState::Killed,
            DaemonAction::Signal(pid, StopSignal::Kill),
        ),
        (StartState::Killed, DaemonEvent::Done) => (
            StartState::RemovingOld,
            DaemonAction::RemovePidFile,
        ),
        (StartState::RemovingOld, DaemonEvent::Done) => (
            StartState::Launched,
            DaemonAction::Launch,
        ),
        _ => (StartState::Finish, DaemonAction::Halt),
    }
}

// ---------------------------------------------------------------------------
/// The first `count` checks after the stop signal to the old daemon each
/// asked about `p` and found it running.
pub open spec fn old_checks_found_running(events: Seq<DaemonEvent>, p: i32, count: nat) -> bool {
    forall|j: nat|
        j < count ==> #[trigger] start_action_at(events, 6 + 2 * j) == DaemonAction::Probe(p)
            && events[(7 + 2 * j) as int] == DaemonEvent::Running(true)
}

/// The old daemon `p` was sent the stop signal at step 4, and the waiting
/// that followed ended at the `n`th check: the checks before it found `p`
/// running, and the `n`th found it gone, or was the 30th and found it
/// running; then `p` was checked once more.
pub open spec fn waited_for_old(events: Seq<DaemonEvent>, p: i32, n: nat) -> bool {
    &&& 1 <= n <= 30
    &&& start_action_at(events, 4) == DaemonAction::Signal(p, StopSignal::Terminate)
    &&& old_checks_found_running(events, p, (n - 1) as nat)
    &&& start_action_at(events, 4 + 2 * n) == DaemonAction::Probe(p)
    &&& (events[(5 + 2 * n) as int] == DaemonEvent::Running(false) || (n == 30 && events[(5 + 2 * n) as int]
        == DaemonEvent::Running(true)))
    &&& start_action_at(events, 5 + 2 * n) == DaemonAction::Probe(p)
}

/// Where a run of replacing the old daemon can stand after `i` steps.
pub open spec fn start_reachable(events: Seq<DaemonEvent>, i: nat, s: StartState) -> bool {
    match s {
        StartState::Begin => i == 0,
        StartState::AwaitExists => i == 1,
        StartState::AwaitContent => i == 2,
        StartState::AwaitFirstProbe(p) => i == 3 && recorded_pid(events, p),
        StartState::StoppingNoticed(p) => i == 4 && recorded_pid(events, p),
        StartState::Signalled(p) => i == 5 && recorded_pid(events, p) && start_action_at(events, 4)
            == DaemonAction::Signal(p, StopSignal::Terminate),
        StartState::Slept(p, n) => 1 <= n <= 30 && i == 4 + 2 * n && recorded_pid(events, p)
            && start_action_at(events, 4) == DaemonAction::Signal(p, StopSignal::Terminate)
            && old_checks_found_running(events, p, (n - 1) as nat),
        StartState::AwaitPoll(p, n) => 1 <= n <= 30 && i == 5 + 2 * n && recorded_pid(events, p)
            && start_action_at(events, 4) == DaemonAction::Signal(p, StopSignal::Terminate)
            && old_checks_found_running(events, p, (n - 1) as nat) && start_action_at(
            events,
            (4 + 2 * n) as nat,
        ) == DaemonAction::Probe(p),
        StartState::AwaitFinalProbe(p) => recorded_pid(events, p) && exists|n: nat|
            i == 6 + 2 * n && #[trigger] waited_for_old(events, p, n),
        StartState::ForceNoticed(p) => recorded_pid(events, p) && exists|n: nat|
            i == 7 + 2 * n && #[trigger] waited_for_old(events, p, n) && events[(6 + 2 * n) as int]
                == DaemonEvent::Running(true),
        _ => true,
    }
}

proof fn lemma_start_reachable(events: Seq<DaemonEvent>, i: nat)
    requires
        i <= events.len(),
    ensures
        start_reachable(events, i, start_state_at(events, i)),
    decreases i,
{
    if i > 0 {
        let k = (i - 1) as nat;
        lemma_start_reachable(events, k);
        let s = start_state_at(events, k);
        let e = events[k as int];
        let t = start_state_at(events, i);
        assert(t == start_next(s, e).0);
        match t {
            StartState::Slept(p, n) => {
                if n > 1 {
                    let m = (n - 1) as u32;
                    assert(s == StartState::AwaitPoll(p, m));
                    assert(e == DaemonEvent::Running(true));
                    assert forall|j: nat| j < (n - 1) as nat implies #[trigger] start_action_at(
                        events,
                        6 + 2 * j,
                    ) == DaemonAction::Probe(p) && events[(7 + 2 * j) as int]
                        == DaemonEvent::Running(true) by {
                        if j < (m - 1) as nat {
                        } else {
                            assert(j == (m - 1) as nat);
                            assert(6 + 2 * j == 4 + 2 * m);
                            assert(7 + 2 * j == k);
                        }
                    }
                }
            },
            StartState::AwaitPoll(p, n) => {
                assert(s == StartState::Slept(p, n));
                assert(start_action_at(events, k) == DaemonAction::Probe(p));
            },
            StartState::AwaitFinalProbe(p) => {
                match s {
                    StartState::AwaitPoll(q, n) => {
                        assert(q == p);
                        let w = n as nat;
                        assert(k == 5 + 2 * w);
                        assert(start_action_at(events, k) == DaemonAction::Probe(p));
                        assert(waited_for_old(events, p, w));
                        assert(i == 6 + 2 * w);
                    },
                    _ => {},
                }
            },
            StartState::ForceNoticed(p) => {
                match s {
                    StartState::AwaitFinalProbe(q) => {
                        assert(q == p);
                        let w = choose|n: nat| k == 6 + 2 * n && #[trigger] waited_for_old(events, p, n);
                        assert(e == DaemonEvent::Running(true));
                        assert(i == 7 + 2 * w);
                        assert(waited_for_old(events, p, w));
                    },
                    _ => {},
                }
            },
            _ => {},
        }
    }
}

/// Replacing acts on one process only, the one whose PID the PID file
/// gives: every check and every signal goes to that PID, and the stop
/// signal goes out once, at step 4.
pub proof fn lemma_start_targets_recorded_pid(events: Seq<DaemonEvent>, i: nat)
    requires
        i < events.len(),
    ensures
        match start_action_at(events, i) {
            DaemonAction::Probe(q) => recorded_pid(events, q),
            DaemonAction::Signal(q, sig) => recorded_pid(events, q) && (sig
                == StopSignal::Terminate ==> i == 4),
            _ => true,
        },
{
    lemma_start_reachable(events, i);
}

/// The old daemon is killed only as a last resort: a kill signal goes out
/// to the process that was sent the stop signal at step 4, only once the
/// waiting is over (every check found it running up to the 30th, or a
/// check found it gone) and the check after the waiting found it running.
pub proof fn lemma_start_kill_only_after_waiting(events: Seq<DaemonEvent>, k: nat, p: i32)
    requires
        k < events.len(),
        start_action_at(events, k) == DaemonAction::Signal(p, StopSignal::Kill),
    ensures
        exists|n: nat|
            k == 7 + 2 * n && #[trigger] waited_for_old(events, p, n) && events[(6 + 2 * n) as int]
                == DaemonEvent::Running(true),
{
    lemma_start_reachable(events, k);
    assert(start_state_at(events, k) == StartState::ForceNoticed(p));
}

// Reporting on the daemon
// ---------------------------------------------------------------------------

/// Where finding the daemon's status stands.
#[derive(PartialEq, Eq, Structural, Clone, Copy, Debug)]
pub enum StatusState {
    Begin,
    AwaitExists,
    AwaitContent,
    AwaitProbe(PidRecord),
    Finish,
}

/// One step of finding the daemon's status.
pub open spec fn status_next(s: StatusState, e: DaemonEvent) -> (StatusState, DaemonAction) {
    match (s, e) {
        (StatusState::Begin, _) => (StatusState::AwaitExists, DaemonAction::CheckPidFile),
        (StatusState::AwaitExists, DaemonEvent::Exists(false)) => (
            StatusState::Finish,
            DaemonAction::Say(Notice::StatusStopped),
        ),
        (StatusState::AwaitExists, DaemonEvent::Exists(true)) => (
            StatusState::AwaitContent,
            DaemonAction::ReadPidFile,
        ),
        (StatusState::AwaitContent, DaemonEvent::Content(Some(t))) => match record_of_text(t@) {
            Some(rec) => (StatusState::AwaitProbe(rec), DaemonAction::Probe(rec.pid)),
            None => (StatusState::Finish, DaemonAction::Say(Notice::StatusStale)),
        },
        (StatusState::AwaitContent, DaemonEvent::Content(None)) => (
            StatusState::Finish,
            DaemonAction::Say(Notice::StatusStale),
        ),
        (StatusState::AwaitProbe(rec), DaemonEvent::Running(true)) => (
            StatusState::Finish,
            DaemonAction::Say(Notice::StatusRunning(rec)),
        ),
        (StatusState::AwaitProbe(rec), DaemonEvent::Running(false)) => (
            StatusState::Finish,
            DaemonAction::Say(Notice::StatusStale),
        ),
        _ => (StatusState::Finish, DaemonAction::Halt),
    }
}

/// One step of finding the daemon's status.
pub fn status_step(s: StatusState, e: &DaemonEvent) -> (r: (StatusState, DaemonAction))
    ensures
        r == status_next(s, *e),
{
    match (s, e) {
        (StatusState::Begin, _) => (StatusState::AwaitExists, DaemonAction::CheckPidFile),
        (StatusState::AwaitExists, DaemonEvent::Exists(false)) => (
            StatusState::Finish,
            DaemonAction::Say(Notice::StatusStopped),
        ),
        (StatusState::AwaitExists, DaemonEvent::Exists(true)) => (
            StatusState::AwaitContent,
            DaemonAction::ReadPidFile,
        ),
        (StatusState::AwaitContent, DaemonEvent::Content(Some(t))) => match parse_pid_record(
            t.as_str(),
        ) {
            Some(rec) => (StatusState::AwaitProbe(rec), DaemonAction::Probe(rec.pid)),
            None => (StatusState::Finish, DaemonAction::Say(Notice::StatusStale)),
        },
        (StatusState::AwaitContent, DaemonEvent::Content(None)) => (
            StatusState::Finish,
            DaemonAction::Say(Notice::StatusStale),
        ),
        (StatusState::AwaitProbe(rec), DaemonEvent::Running(true)) => (
            StatusState::Finish,
            DaemonAction::Say(Notice::StatusRunning(rec)),
        ),
        (StatusState::AwaitProbe(_rec), DaemonEvent::Running(false)) => (
            StatusState::Finish,
            DaemonAction::Say(Notice::StatusStale),
        ),
        _ => (StatusState::Finish, DaemonAction::Halt),
    }
}

// ---------------------------------------------------------------------------
// The command line of the background daemon
// ---------------------------------------------------------------------------

/// The arguments the background daemon is started with.
pub open spec fn daemon_arguments(port: u16, no_log: bool, no_wait: bool) -> Seq<Seq<char>> {
    let base = seq!["start"@, "--foreground"@, "--port"@, decimal(port as nat)];
    let with_log = if no_log {
        base.push("--no-log"@)
    } else {
        base
    };
    if no_wait {
        with_log.push("--no-wait"@)
    } else {
        with_log
    }
}

/// The arguments the background daemon is started with: it runs the
/// server in the foreground on the given port, with the given flags.
pub fn daemon_args(port: u16, no_log: bool, no_wait: bool) -> (r: Vec<String>)
    ensures
        r.deep_view() == daemon_arguments(port, no_log, no_wait),
{
    let mut r: Vec<String> = Vec::new();
    r.push(String::from_str("start"));
    r.push(String::from_str("--foreground"));
    r.push(String::from_str("--port"));
    let mut p = String::new();
    push_decimal(&mut p, port as u32);
    assert(p@ =~= decimal(port as nat));
    r.push(p);
    if no_log {
        r.push(String::from_str("--no-log"));
    }
    if no_wait {
        r.push(String::from_str("--no-wait"));
    }
    assert(r.deep_view() =~= daemon_arguments(port, no_log, no_wait));
    r
}

// ---------------------------------------------------------------------------
// Runs of the procedures, and what holds of them
// ---------------------------------------------------------------------------

/// Whether `e` is an answer of the kind that action `a` asks for.
pub open spec fn answers(a: DaemonAction, e: DaemonEvent) -> bool {
    match a {
        DaemonAction::CheckPidFile => e is Exists,
        DaemonAction::ReadPidFile => e is Content,
        DaemonAction::Probe(_) => e is Running,
        DaemonAction::Halt => true,
        _ => e is Done,
    }
}

/// The state of stopping the daemon after `i` steps, the `j`th step
/// receiving `events[j]`.
pub open spec fn stop_state_at(events: Seq<DaemonEvent>, i: nat) -> StopState
    decreases i,
{
    if i == 0 {
        StopState::Begin
    } else {
        stop_next(stop_state_at(events, (i - 1) as nat), events[i - 1]).0
    }
}

/// The action of step `i` of stopping the daemon.
pub open spec fn stop_action_at(events: Seq<DaemonEvent>, i: nat) -> DaemonAction {
    stop_next(stop_state_at(events, i), events[i as int]).1
}

/// A bound on the steps left to stop the daemon.
pub open spec fn stop_bound(s: StopState) -> nat {
    match s {
        StopState::Begin => 68,
        StopState::AwaitExists => 67,
        StopState::AwaitContent => 66,
        StopState::AwaitFirstProbe(_) => 65,
        StopState::StoppingNoticed(_) => 64,
        StopState::Signalled(_) => 63,
        StopState::Slept(_, n) => 4 + 2 * polls_left(n),
        StopState::AwaitPoll(_, n) => 3 + 2 * polls_left(n),
        StopState::ForceNoticed(_) => 2,
        StopState::StaleNoticed => 1,
        StopState::StoppedNoticed => 1,
        StopState::Killed => 1,
        StopState::Finish => 0,
    }
}

/// How many of the checks after the stop signal are still to come after
/// the `n`th.
pub open spec fn polls_left(n: u32) -> nat {
    if n >= 30 {
        0
    } else {
        (30 - n) as nat
    }
}

/// Stopping the daemon comes to an end: every step that does not halt
/// lowers a bound that starts at 68, so no run takes more than 68 steps
/// before it halts.
pub proof fn lemma_stop_steps_bounded(s: StopState, e: DaemonEvent)
    ensures
        stop_bound(StopState::Begin) == 68,
        stop_next(s, e).1 != DaemonAction::Halt ==> stop_bound(stop_next(s, e).0) < stop_bound(s),
{
}

/// Where a run of stopping the daemon can stand after `i` steps.
pub open spec fn stop_reachable(events: Seq<DaemonEvent>, i: nat, s: StopState) -> bool {
    match s {
        StopState::Begin => i == 0,
        StopState::AwaitExists => i == 1,
        StopState::AwaitContent => i == 2,
        StopState::AwaitFirstProbe(p) => i == 3 && recorded_pid(events, p),
        StopState::StoppingNoticed(p) => i == 4 && recorded_pid(events, p),
        StopState::Signalled(p) => i == 5 && recorded_pid(events, p) && stop_action_at(events, 4)
            == DaemonAction::Signal(p, StopSignal::Terminate),
        StopState::Slept(p, n) => 1 <= n <= 30 && i == 4 + 2 * n && recorded_pid(events, p)
            && stop_action_at(events, 4) == DaemonAction::Signal(p, StopSignal::Terminate)
            && checks_found_running(events, p, (n - 1) as nat),
        StopState::AwaitPoll(p, n) => 1 <= n <= 30 && i == 5 + 2 * n && recorded_pid(events, p)
            && stop_action_at(events, 4) == DaemonAction::Signal(p, StopSignal::Terminate)
            && checks_found_running(events, p, (n - 1) as nat) && stop_action_at(
            events,
            (4 + 2 * n) as nat,
        ) == DaemonAction::Probe(p),
        StopState::ForceNoticed(p) => i == 66 && recorded_pid(events, p) && stop_action_at(events, 4)
            == DaemonAction::Signal(p, StopSignal::Terminate) && checks_found_running(events, p, 30),
        _ => true,
    }
}

/// The PID file's text, read at step 2, gives the PID `p`.
pub open spec fn recorded_pid(events: Seq<DaemonEvent>, p: i32) -> bool {
    events.len() > 2 && match events[2] {
        DaemonEvent::Content(Some(t)) => pid_of_text(t@) == Some(p),
        _ => false,
    }
}

/// The first `count` checks after the stop signal each asked about `p` and
/// found it running.
pub open spec fn checks_found_running(events: Seq<DaemonEvent>, p: i32, count: nat) -> bool {
    forall|j: nat|
        j < count ==> #[trigger] stop_action_at(events, 6 + 2 * j) == DaemonAction::Probe(p)
            && events[(7 + 2 * j) as int] == DaemonEvent::Running(true)
}

proof fn lemma_stop_reachable(events: Seq<DaemonEvent>, i: nat)
    requires
        i <= events.len(),
    ensures
        stop_reachable(events, i, stop_state_at(events, i)),
    decreases i,
{
    if i > 0 {
        let k = (i - 1) as nat;
        lemma_stop_reachable(events, k);
        let s = stop_state_at(events, k);
        let e = events[k as int];
        let t = stop_state_at(events, i);
        assert(t == stop_next(s, e).0);
        match t {
            StopState::Slept(p, n) => {
                if n > 1 {
                    let m = (n - 1) as u32;
                    assert(s == StopState::AwaitPoll(p, m));
                    assert(e == DaemonEvent::Running(true));
                    assert forall|j: nat| j < (n - 1) as nat implies #[trigger] stop_action_at(
                        events,
                        6 + 2 * j,
                    ) == DaemonAction::Probe(p) && events[(7 + 2 * j) as int] == DaemonEvent::Running(
                        true,
                    ) by {
                        if j < (m - 1) as nat {
                        } else {
                            assert(j == (m - 1) as nat);
                            assert(6 + 2 * j == 4 + 2 * m);
                            assert(7 + 2 * j == k);
                        }
                    }
                }
            },
            StopState::AwaitPoll(p, n) => {
                assert(s == StopState::Slept(p, n));
                assert(stop_action_at(events, k) == DaemonAction::Probe(p));
            },
            StopState::ForceNoticed(p) => {
                match s {
                    StopState::AwaitPoll(q, n) => {
                        assert(q == p && n >= 30);
                        assert(e == DaemonEvent::Running(true));
                        assert forall|j: nat| j < 30 implies #[trigger] stop_action_at(
                            events,
                            6 + 2 * j,
                        ) == DaemonAction::Probe(p) && events[(7 + 2 * j) as int] == DaemonEvent::Running(
                            true,
                        ) by {
                            if j < 29 {
                            } else {
                                assert(6 + 2 * j == 4 + 2 * n);
                                assert(7 + 2 * j == k);
                            }
                        }
                    },
                    _ => {},
                }
            },
            _ => {},
        }
    }
}

/// The daemon is killed only as a last resort: a kill signal goes out at
/// step 66 of stopping the daemon and no other, to the process that was
/// sent the stop signal at step 4, and only after each of the 30 checks
/// that followed found that process still running.
pub proof fn lemma_stop_kill_only_after_all_checks(events: Seq<DaemonEvent>, k: nat, p: i32)
    requires
        k < events.len(),
        stop_action_at(events, k) == DaemonAction::Signal(p, StopSignal::Kill),
    ensures
        k == 66,
        stop_action_at(events, 4) == DaemonAction::Signal(p, StopSignal::Terminate),
        forall|j: nat|
            j < 30 ==> #[trigger] stop_action_at(events, 6 + 2 * j) == DaemonAction::Probe(p)
                && events[(7 + 2 * j) as int] == DaemonEvent::Running(true),
{
    lemma_stop_reachable(events, k);
    let s = stop_state_at(events, k);
    assert(s == StopState::ForceNoticed(p));
}

/// Stopping acts on one process only, the one whose PID the PID file
/// gives: every check and every signal goes to that PID, and the stop
/// signal goes out once, at step 4.
pub proof fn lemma_stop_targets_recorded_pid(events: Seq<DaemonEvent>, i: nat)
    requires
        i < events.len(),
    ensures
        match stop_action_at(events, i) {
            DaemonAction::Probe(q) => recorded_pid(events, q),
            DaemonAction::Signal(q, sig) => recorded_pid(events, q) && (sig
                == StopSignal::Terminate ==> i == 4),
            _ => true,
        },
{
    lemma_stop_reachable(events, i);
}

// Replacing the old daemon

/// The state of replacing the old daemon after `i` steps.
pub open spec fn start_state_at(events: Seq<DaemonEvent>, i: nat) -> StartState
    decreases i,
{
    if i == 0 {
        StartState::Begin
    } else {
        start_next(start_state_at(events, (i - 1) as nat), events[i - 1]).0
    }
}

/// The action of step `i` of replacing the old daemon.
pub open spec fn start_action_at(events: Seq<DaemonEvent>, i: nat) -> DaemonAction {
    start_next(start_state_at(events, i), events[i as int]).1
}

/// A bound on the steps left to launch the new daemon and halt.
pub open spec fn start_bound(s: StartState) -> nat {
    match s {
        StartState::Begin => 71,
        StartState::AwaitExists => 70,
        StartState::AwaitContent => 69,
        StartState::AwaitFirstProbe(_) => 68,
        StartState::StoppingNoticed(_) => 67,
        StartState::Signalled(_) => 66,
        StartState::Slept(_, n) => 7 + 2 * polls_left(n),
        StartState::AwaitPoll(_, n) => 6 + 2 * polls_left(n),
        StartState::AwaitFinalProbe(_) => 5,
        StartState::ForceNoticed(_) => 4,
        StartState::Killed => 3,
        StartState::RemovingOld => 2,
        StartState::Launched => 1,
        StartState::Finish => 0,
    }
}

/// Replacing the old daemon comes to an end: every step that does not halt
/// lowers a bound that starts at 71.
pub proof fn lemma_start_steps_bounded(s: StartState, e: DaemonEvent)
    ensures
        start_bound(StartState::Begin) == 71,
        start_next(s, e).1 != DaemonAction::Halt ==> start_bound(start_next(s, e).0) < start_bound(
            s,
        ),
{
}

/// Whether `e` is the kind of answer that state `s` waits for.
pub open spec fn start_awaits(s: StartState, e: DaemonEvent) -> bool {
    match s {
        StartState::Begin => true,
        StartState::AwaitExists => e is Exists,
        StartState::AwaitContent => e is Content,
        StartState::AwaitFirstProbe(_) => e is Running,
        StartState::AwaitPoll(_, _) => e is Running,
        StartState::AwaitFinalProbe(_) => e is Running,
        StartState::Finish => true,
        _ => e is Done,
    }
}

/// Each action is answered by the next event as it asks.
pub open spec fn start_answered(events: Seq<DaemonEvent>) -> bool {
    forall|i: nat| i + 1 < events.len() ==> answers(#[trigger] start_action_at(events, i), events[(i + 1) as int])
}

proof fn lemma_start_launches_from(events: Seq<DaemonEvent>, i: nat)
    requires
        start_answered(events),
        i < events.len(),
        forall|j: nat| j < i ==> #[trigger] start_action_at(events, j) != DaemonAction::Launch,
        start_bound(start_state_at(events, i)) + i <= 71,
        start_bound(start_state_at(events, i)) >= 2,
        start_awaits(start_state_at(events, i), events[i as int]),
        events.len() >= 70,
    ensures
        exists|j: nat| j < 70 && #[trigger] start_action_at(events, j) == DaemonAction::Launch,
    decreases 71 - i,
{
    let s = start_state_at(events, i);
    let e = events[i as int];
    let a = start_action_at(events, i);
    if a == DaemonAction::Launch {
        assert(start_action_at(events, i) == DaemonAction::Launch);
    } else {
        let t = start_state_at(events, i + 1);
        assert(t == start_next(s, e).0);
        assert(a != DaemonAction::Halt);
        assert forall|e2: DaemonEvent| start_awaits(t, e2) == answers(a, e2) by {}
        assert(i + 1 < events.len());
        assert(answers(start_action_at(events, i), events[(i + 1) as int]));
        assert forall|j: nat| j < i + 1 implies #[trigger] start_action_at(events, j)
            != DaemonAction::Launch by {}
        lemma_start_launches_from(events, i + 1);
    }
}

/// Starting in the background always launches the new daemon: in any run
/// of 70 steps or more whose actions are each answered as they ask, the
/// launch comes within the first 70 steps.
pub proof fn lemma_start_always_launches(events: Seq<DaemonEvent>)
    requires
        events.len() >= 70,
        start_answered(events),
    ensures
        exists|j: nat| j < 70 && #[trigger] start_action_at(events, j) == DaemonAction::Launch,
{
    if exists|j: nat| j < 70 && #[trigger] start_action_at(events, j) == DaemonAction::Launch {
    } else {
        assert(start_state_at(events, 0) == StartState::Begin);
        lemma_start_launches_from(events, 0);
    }
}

/// Once finished, replacing stays finished.
proof fn lemma_start_finish_stays(events: Seq<DaemonEvent>, i: nat, j: nat)
    requires
        i <= j,
        start_state_at(events, i) == StartState::Finish,
    ensures
        start_state_at(events, j) == StartState::Finish,
    decreases j - i,
{
    if i < j {
        lemma_start_finish_stays(events, i, (j - 1) as nat);
    }
}

/// A running old daemon is asked to stop before the new one starts: when
/// step `k` announces that the old daemon `p` is being stopped and a later
/// step launches the new one, the very next step sends `p` the stop
/// signal.
pub proof fn lemma_old_daemon_stopped_before_launch(
    events: Seq<DaemonEvent>,
    k: nat,
    m: nat,
    p: i32,
)
    requires
        k < m < events.len(),
        start_action_at(events, k) == DaemonAction::Say(Notice::StoppingOld(p)),
        start_action_at(events, m) == DaemonAction::Launch,
    ensures
        start_action_at(events, k + 1) == DaemonAction::Signal(p, StopSignal::Terminate),
{
    assert(start_state_at(events, k + 1) == StartState::StoppingNoticed(p));
    if events[(k + 1) as int] != DaemonEvent::Done {
        assert(start_state_at(events, k + 2) == StartState::Finish);
        lemma_start_finish_stays(events, k + 2, m);
        if m == k + 1 {
        }
    }
}

// Reporting on the daemon

/// A bound on the steps left to report on the daemon.
pub open spec fn status_bound(s: StatusState) -> nat {
    match s {
        StatusState::Begin => 4,
        StatusState::AwaitExists => 3,
        StatusState::AwaitContent => 2,
        StatusState::AwaitProbe(_) => 1,
        StatusState::Finish => 0,
    }
}

/// Reporting comes to an end: every step that does not halt lowers a
/// bound that starts at 4.
pub proof fn lemma_status_steps_bounded(s: StatusState, e: DaemonEvent)
    ensures
        status_bound(StatusState::Begin) == 4,
        status_next(s, e).1 != DaemonAction::Halt ==> status_bound(status_next(s, e).0)
            < status_bound(s),
{
}

/// The daemon is reported running only as its PID file records it, and
/// only after that PID was found running.
pub proof fn lemma_status_running_reported(s: StatusState, e: DaemonEvent, rec: PidRecord)
    requires
        status_next(s, e).1 == DaemonAction::Say(Notice::StatusRunning(rec)),
    ensures
        s == StatusState::AwaitProbe(rec),
        e == DaemonEvent::Running(true),
{
}

/// The daemon that is stopped, replaced or reported on is the one whose
/// PID file the server wrote at its start: reading a PID file written with
/// a PID (that fits an `i32`), a port and two flags, stopping and
/// replacing check that very PID, and the status, once the PID is found
/// running, shows the recorded port and flags.
pub proof fn lemma_procedures_use_recorded_daemon(
    pid: u32,
    port: u16,
    no_log: bool,
    no_wait: bool,
    content: String,
)
    requires
        pid <= i32::MAX,
        content@ == record_text(pid, port, no_log, no_wait),
    ensures
        stop_next(StopState::AwaitContent, DaemonEvent::Content(Some(content))).1
            == DaemonAction::Probe(pid as i32),
        start_next(StartState::AwaitContent, DaemonEvent::Content(Some(content))).1
            == DaemonAction::Probe(pid as i32),
        ({
            let rec = PidRecord { pid: pid as i32, port, no_log, no_wait };
            let (s, a) = status_next(StatusState::AwaitContent, DaemonEvent::Content(Some(content)));
            &&& a == DaemonAction::Probe(pid as i32)
            &&& status_next(s, DaemonEvent::Running(true)).1 == DaemonAction::Say(
                Notice::StatusRunning(rec),
            )
        }),
{
    lemma_record_roundtrip(pid, port, no_log, no_wait);
}


/// The background daemon is started as `start --foreground --port P`,
/// where P is the port in decimal, followed by `--no-log` exactly when
/// logging is off and `--no-wait` exactly when waiting is off, each
/// independently of the other.
pub proof fn lemma_daemon_arguments_follow_settings(port: u16, no_log: bool, no_wait: bool)
    ensures
        daemon_arguments(port, no_log, no_wait).len() == 4 + (if no_log {
            1int
        } else {
            0int
        }) + (if no_wait {
            1int
        } else {
            0int
        }),
        daemon_arguments(port, no_log, no_wait)[0] == "start"@,
        daemon_arguments(port, no_log, no_wait)[1] == "--foreground"@,
        daemon_arguments(port, no_log, no_wait)[2] == "--port"@,
        daemon_arguments(port, no_log, no_wait)[3] == decimal(port as nat),
        daemon_arguments(port, no_log, no_wait).contains("--no-log"@) == no_log,
        daemon_arguments(port, no_log, no_wait).contains("--no-wait"@) == no_wait,
{
    reveal_strlit("start");
    reveal_strlit("--foreground");
    reveal_strlit("--port");
    reveal_strlit("--no-log");
    reveal_strlit("--no-wait");
    crate::text::lemma_decimal(port as nat);
    let a = daemon_arguments(port, no_log, no_wait);
    let d = decimal(port as nat);
    assert(crate::text::is_digit(d[0]));
    // the two flags differ from each other and from the fixed arguments
    assert("--no-log"@ != "--no-wait"@) by {
        assert("--no-log"@.len() != "--no-wait"@.len());
    }
    assert("--no-log"@ != "start"@) by {
        assert("--no-log"@[0] != "start"@[0]);
    }
    assert("--no-wait"@ != "start"@) by {
        assert("--no-wait"@[0] != "start"@[0]);
    }
    assert("--no-log"@ != "--foreground"@) by {
        assert("--no-log"@.len() != "--foreground"@.len());
    }
    assert("--no-wait"@ != "--foreground"@) by {
        assert("--no-wait"@.len() != "--foreground"@.len());
    }
    assert("--no-log"@ != "--port"@) by {
        assert("--no-log"@[2] != "--port"@[2]);
    }
    assert("--no-wait"@ != "--port"@) by {
        assert("--no-wait"@[2] != "--port"@[2]);
    }
    assert("--no-log"@ != d) by {
        assert("--no-log"@[0] != d[0]);
    }
    assert("--no-wait"@ != d) by {
        assert("--no-wait"@[0] != d[0]);
    }
    if no_log {
        assert(a[4] == "--no-log"@);
    }
    if no_wait {
        assert(a[a.len() - 1] == "--no-wait"@);
    }
    if !no_log {
        assert(!a.contains("--no-log"@)) by {
            if a.contains("--no-log"@) {
                let i = choose|i: int| 0 <= i < a.len() && a[i] == "--no-log"@;
            }
        }
    }
    if !no_wait {
        assert(!a.contains("--no-wait"@)) by {
            if a.contains("--no-wait"@) {
                let i = choose|i: int| 0 <= i < a.len() && a[i] == "--no-wait"@;
            }
        }
    }
}


/// What the status shows: after checking for the PID file, "stopped"
/// when there is none; otherwise, after reading it, "stale" when it cannot
/// be read or gives no PID; otherwise the recorded PID is checked, and the
/// status is "running" with the file's record when it is found running,
/// and "stale" when it is not.
pub proof fn lemma_status_report(exists: bool, content: Option<String>, running: bool)
    ensures
        status_next(StatusState::Begin, DaemonEvent::Done).1 == DaemonAction::CheckPidFile,
        ({
            let s1 = status_next(StatusState::Begin, DaemonEvent::Done).0;
            let (s2, a2) = status_next(s1, DaemonEvent::Exists(exists));
            let (s3, a3) = status_next(s2, DaemonEvent::Content(content));
            let a4 = status_next(s3, DaemonEvent::Running(running)).1;
            &&& !exists ==> a2 == DaemonAction::Say(Notice::StatusStopped)
            &&& exists ==> a2 == DaemonAction::ReadPidFile
            &&& exists ==> match content {
                None => a3 == DaemonAction::Say(Notice::StatusStale),
                Some(t) => match record_of_text(t@) {
                    None => a3 == DaemonAction::Say(Notice::StatusStale),
                    Some(rec) => a3 == DaemonAction::Probe(rec.pid) && a4 == (if running {
                        DaemonAction::Say(Notice::StatusRunning(rec))
                    } else {
                        DaemonAction::Say(Notice::StatusStale)
                    }),
                },
            }
        }),
{
}

} // verus!
