use webhook_cli::daemon::{
    daemon_args, signal_number, start_step, status_step, stop_step, DaemonAction, DaemonEvent,
    Notice, StartState, StatusState, StopSignal, StopState,
};
use webhook_cli::pidfile::PidRecord;

/// Runs a procedure against scripted answers: the process is running for
/// the first `running_checks` probes. Returns the actions in order.
fn run<S: Copy>(
    mut state: S,
    step: fn(S, &DaemonEvent) -> (S, DaemonAction),
    pid_file: Option<Option<&str>>,
    running_checks: usize,
) -> Vec<DaemonAction> {
    let mut actions = Vec::new();
    let mut event = DaemonEvent::Done;
    let mut probes = 0;
    for _ in 0..200 {
        let (next, action) = step(state, &event);
        state = next;
        actions.push(action);
        event = match action {
            DaemonAction::CheckPidFile => DaemonEvent::Exists(pid_file.is_some()),
            DaemonAction::ReadPidFile => {
                DaemonEvent::Content(pid_file.unwrap().map(|t| t.to_string()))
            }
            DaemonAction::Probe(_) => {
                probes += 1;
                DaemonEvent::Running(probes <= running_checks)
            }
            DaemonAction::Halt => break,
            _ => DaemonEvent::Done,
        };
    }
    actions
}

fn count(actions: &[DaemonAction], a: DaemonAction) -> usize {
    actions.iter().filter(|x| **x == a).count()
}

#[test]
fn signal_numbers() {
    assert_eq!(signal_number(StopSignal::Terminate), 15);
    assert_eq!(signal_number(StopSignal::Kill), 9);
}

#[test]
fn stop_without_pid_file() {
    let a = run(StopState::Begin, stop_step, None, 0);
    assert_eq!(
        a,
        vec![DaemonAction::CheckPidFile, DaemonAction::Say(Notice::NoPidFile), DaemonAction::Halt]
    );
}

#[test]
fn stop_with_unreadable_or_invalid_pid_file() {
    let a = run(StopState::Begin, stop_step, Some(None), 0);
    assert_eq!(a[2], DaemonAction::Say(Notice::UnreadablePidFile));
    let b = run(StopState::Begin, stop_step, Some(Some("garbage")), 0);
    assert_eq!(b[2], DaemonAction::Say(Notice::InvalidPid));
    assert_eq!(count(&b, DaemonAction::RemovePidFile), 0);
}

#[test]
fn stop_cleans_up_a_stale_pid_file() {
    let a = run(StopState::Begin, stop_step, Some(Some("77:9090:false:false\n")), 0);
    assert_eq!(
        a,
        vec![
            DaemonAction::CheckPidFile,
            DaemonAction::ReadPidFile,
            DaemonAction::Probe(77),
            DaemonAction::Say(Notice::StalePid(77)),
            DaemonAction::RemovePidFile,
            DaemonAction::Halt,
        ]
    );
}

#[test]
fn stop_terminates_and_waits() {
    // running at the first probe and at the next two checks, then gone
    let a = run(StopState::Begin, stop_step, Some(Some("77")), 3);
    assert_eq!(a[3], DaemonAction::Say(Notice::Stopping(77)));
    assert_eq!(a[4], DaemonAction::Signal(77, StopSignal::Terminate));
    assert_eq!(count(&a, DaemonAction::Sleep(100)), 3);
    assert_eq!(count(&a, DaemonAction::Probe(77)), 4);
    assert_eq!(count(&a, DaemonAction::Signal(77, StopSignal::Kill)), 0);
    let n = a.len();
    assert_eq!(a[n - 3], DaemonAction::Say(Notice::Stopped));
    assert_eq!(a[n - 2], DaemonAction::RemovePidFile);
}

#[test]
fn stop_kills_after_thirty_checks() {
    let a = run(StopState::Begin, stop_step, Some(Some("77")), 1000);
    assert_eq!(count(&a, DaemonAction::Sleep(100)), 30);
    assert_eq!(count(&a, DaemonAction::Probe(77)), 31);
    assert_eq!(a[65], DaemonAction::Say(Notice::ForceKilling));
    assert_eq!(a[66], DaemonAction::Signal(77, StopSignal::Kill));
    assert_eq!(a[67], DaemonAction::RemovePidFile);
    assert_eq!(a[68], DaemonAction::Halt);
    assert_eq!(a.len(), 69);
}

#[test]
fn a_misfit_answer_halts() {
    let (s, a) = stop_step(StopState::AwaitExists, &DaemonEvent::Running(true));
    assert_eq!((s, a), (StopState::Finish, DaemonAction::Halt));
}

#[test]
fn start_launches_when_nothing_runs() {
    let a = run(StartState::Begin, start_step, None, 0);
    assert_eq!(a, vec![DaemonAction::CheckPidFile, DaemonAction::Launch, DaemonAction::Halt]);
    let b = run(StartState::Begin, start_step, Some(Some("12")), 0);
    assert_eq!(
        b,
        vec![
            DaemonAction::CheckPidFile,
            DaemonAction::ReadPidFile,
            DaemonAction::Probe(12),
            DaemonAction::RemovePidFile,
            DaemonAction::Launch,
            DaemonAction::Halt,
        ]
    );
    let c = run(StartState::Begin, start_step, Some(None), 0);
    assert_eq!(c[2], DaemonAction::RemovePidFile);
    assert_eq!(c[3], DaemonAction::Launch);
}

#[test]
fn start_stops_the_old_daemon_first() {
    // old daemon exits after the stop signal: the loop breaks and checks once more
    let a = run(StartState::Begin, start_step, Some(Some("12:80:true:true")), 2);
    assert_eq!(a[3], DaemonAction::Say(Notice::StoppingOld(12)));
    assert_eq!(a[4], DaemonAction::Signal(12, StopSignal::Terminate));
    assert_eq!(count(&a, DaemonAction::Signal(12, StopSignal::Kill)), 0);
    assert_eq!(count(&a, DaemonAction::Probe(12)), 4);
    let n = a.len();
    assert_eq!(a[n - 3], DaemonAction::RemovePidFile);
    assert_eq!(a[n - 2], DaemonAction::Launch);
}

#[test]
fn start_kills_an_old_daemon_that_does_not_stop() {
    let a = run(StartState::Begin, start_step, Some(Some("12")), 1000);
    assert_eq!(count(&a, DaemonAction::Sleep(100)), 30);
    assert_eq!(count(&a, DaemonAction::Probe(12)), 32);
    assert_eq!(count(&a, DaemonAction::Say(Notice::ForceKillingOld)), 1);
    assert_eq!(count(&a, DaemonAction::Signal(12, StopSignal::Kill)), 1);
    let n = a.len();
    assert_eq!(a[n - 2], DaemonAction::Launch);
    assert!(n <= 71);
}

#[test]
fn status_reports() {
    let a = run(StatusState::Begin, status_step, None, 0);
    assert_eq!(a[1], DaemonAction::Say(Notice::StatusStopped));
    let b = run(StatusState::Begin, status_step, Some(Some("5:8080:true:false")), 1);
    assert_eq!(
        b[3],
        DaemonAction::Say(Notice::StatusRunning(PidRecord {
            pid: 5,
            port: 8080,
            no_log: true,
            no_wait: false
        }))
    );
    let c = run(StatusState::Begin, status_step, Some(Some("5")), 0);
    assert_eq!(c[3], DaemonAction::Say(Notice::StatusStale));
    let d = run(StatusState::Begin, status_step, Some(Some("x")), 0);
    assert_eq!(d[2], DaemonAction::Say(Notice::StatusStale));
}

#[test]
fn background_daemon_arguments() {
    assert_eq!(daemon_args(9090, false, false), vec!["start", "--foreground", "--port", "9090"]);
    assert_eq!(
        daemon_args(80, true, true),
        vec!["start", "--foreground", "--port", "80", "--no-log", "--no-wait"]
    );
    assert_eq!(daemon_args(0, false, true), vec!["start", "--foreground", "--port", "0", "--no-wait"]);
}

#[test]
fn procedures_act_on_the_recorded_daemon() {
    let content = webhook_cli::pidfile::pid_file_content(31337, 8443, false, true);
    let stop = run(StopState::Begin, stop_step, Some(Some(&content)), 0);
    assert_eq!(stop[2], DaemonAction::Probe(31337));
    let start = run(StartState::Begin, start_step, Some(Some(&content)), 0);
    assert_eq!(start[2], DaemonAction::Probe(31337));
    let status = run(StatusState::Begin, status_step, Some(Some(&content)), 1);
    assert_eq!(
        status[3],
        DaemonAction::Say(Notice::StatusRunning(PidRecord {
            pid: 31337,
            port: 8443,
            no_log: false,
            no_wait: true
        }))
    );
}

#[test]
fn start_kills_an_old_daemon_that_comes_back_after_the_waiting() {
    // found running, then gone at the second check, then running again at
    // the check after the waiting: it is killed
    let answers = [true, true, false, true];
    let mut state = StartState::Begin;
    let mut event = DaemonEvent::Done;
    let mut probes = 0;
    let mut actions = Vec::new();
    loop {
        let (next, action) = start_step(state, &event);
        state = next;
        actions.push(action);
        event = match action {
            DaemonAction::CheckPidFile => DaemonEvent::Exists(true),
            DaemonAction::ReadPidFile => DaemonEvent::Content(Some("9".to_string())),
            DaemonAction::Probe(_) => {
                probes += 1;
                DaemonEvent::Running(answers[probes - 1])
            }
            DaemonAction::Halt => break,
            _ => DaemonEvent::Done,
        };
    }
    assert_eq!(actions[4], DaemonAction::Signal(9, StopSignal::Terminate));
    // waiting ended at check n = 2; the kill comes at step 7 + 2n
    assert_eq!(actions[11], DaemonAction::Signal(9, StopSignal::Kill));
    assert_eq!(count(&actions, DaemonAction::Signal(9, StopSignal::Terminate)), 1);
    assert_eq!(actions[actions.len() - 2], DaemonAction::Launch);
}
