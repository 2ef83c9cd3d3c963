use fs_tracker::capture::CaptureStore;
use fs_tracker::config::{Limits, Root};
use fs_tracker::supervisor::{
    ControlChannel, ControlEvent, ControlOutcome, ControlRead, ListenerOutcome, Look, RunAction,
    RunEvent, Supervisor,
};

const SECOND: u128 = 1_000_000_000;

fn store() -> CaptureStore {
    CaptureStore::new(
        b"/out".to_vec(),
        vec![Root { id: "main".into(), path: b"/w".to_vec() }],
        Vec::new(),
        Vec::new(),
        Limits::default(),
        1,
        0,
    )
}

fn kinds(run: Supervisor) -> Vec<String> {
    let mut store = store();
    let _ended = run.end(&mut store, 0);
    store.gaps().iter().map(|gap| gap.kind.clone()).collect()
}

fn data(bytes: &[u8]) -> ControlRead {
    ControlRead::Data(bytes.to_vec())
}

#[test]
fn finish_comes_whole_or_in_pieces() {
    let mut channel = ControlChannel::new(9);
    assert_eq!(channel.fd(), 9);
    assert!(matches!(channel.receive(&data(b"finish\n")), Some(ControlEvent::Finish)));
    assert!(channel.take_line().is_none());
    let mut channel = ControlChannel::new(9);
    assert!(channel.receive(&data(b"fin")).is_none());
    assert!(channel.receive(&data(b"ish\r")).is_none());
    assert!(matches!(channel.receive(&data(b"\n")), Some(ControlEvent::Finish)));
}

#[test]
fn lines_are_taken_one_by_one() {
    let mut channel = ControlChannel::new(3);
    match channel.receive(&data(b"stop\nfinish\nrest")) {
        Some(ControlEvent::Invalid(message)) => assert_eq!(message, "stop"),
        other => panic!("{other:?}"),
    }
    assert!(matches!(channel.take_line(), Some(ControlEvent::Finish)));
    assert!(channel.take_line().is_none());
    assert!(matches!(channel.receive(&ControlRead::Closed), Some(ControlEvent::Disconnected)));
}

#[test]
fn the_end_of_the_channel_may_finish() {
    let mut channel = ControlChannel::new(3);
    assert!(channel.receive(&data(b"finish")).is_none());
    assert!(matches!(channel.receive(&ControlRead::Closed), Some(ControlEvent::Finish)));
    assert!(matches!(channel.receive(&ControlRead::Closed), Some(ControlEvent::Disconnected)));
}

#[test]
fn long_control_messages_are_dropped() {
    let mut channel = ControlChannel::new(3);
    assert!(channel.receive(&ControlRead::Data(vec![b'x'; 1024])).is_none());
    match channel.receive(&data(b"y")) {
        Some(ControlEvent::Invalid(message)) => {
            assert_eq!(message, "control message exceeded 1024 bytes")
        }
        other => panic!("{other:?}"),
    }
    assert!(matches!(channel.receive(&data(b"finish\n")), Some(ControlEvent::Finish)));
}

fn control(event: ControlEvent) -> RunEvent {
    RunEvent::Control(ControlOutcome::Event(event))
}

fn failed(code: Option<i32>, message: &str) -> RunEvent {
    RunEvent::Listener(ListenerOutcome::Failed { code, message: message.into() })
}

#[test]
fn a_run_looks_at_one_thing_after_the_other() {
    let mut run = Supervisor::new(SECOND, true);
    let mut seen = Vec::new();
    for round in 0..2 {
        seen.push(run.look());
        assert_eq!(run.advance(RunEvent::Signal(0), 0), RunAction::Nothing);
        if round == 0 {
            seen.push(run.look());
            assert_eq!(run.advance(control(ControlEvent::Finish), 0), RunAction::Send(15));
        }
        seen.push(run.look());
        assert_eq!(run.advance(RunEvent::Tick, 0), RunAction::Nothing);
        seen.push(run.look());
        let quiet = RunEvent::Listener(ListenerOutcome::Quiet);
        assert_eq!(run.advance(quiet, 0), RunAction::Nothing);
        if round == 0 {
            seen.push(run.look());
            assert_eq!(run.advance(RunEvent::Wait(Some(15)), 0), RunAction::Nothing);
        }
    }
    seen.push(run.look());
    assert_eq!(run.advance(RunEvent::Descendants(false), 0), RunAction::Nothing);
    seen.push(run.look());
    assert_eq!(
        seen,
        vec![
            Look::Signal,
            Look::Control,
            Look::Clock,
            Look::Listener,
            Look::Target,
            Look::Signal,
            Look::Clock,
            Look::Listener,
            Look::Descendants,
            Look::Over,
        ]
    );
}

#[test]
fn signals_are_passed_on_and_stop_the_run() {
    let mut run = Supervisor::new(2 * SECOND, false);
    assert_eq!(run.advance(RunEvent::Signal(0), 0), RunAction::Nothing);
    assert_eq!(run.look(), Look::Clock);
    assert_eq!(run.advance(RunEvent::Tick, 100 * SECOND), RunAction::Nothing);
    assert_eq!(run.advance(RunEvent::Signal(2), 100 * SECOND), RunAction::Send(2));
    assert_eq!(run.advance(RunEvent::Signal(1), 101 * SECOND), RunAction::Send(1));
    assert_eq!(run.advance(RunEvent::Tick, 102 * SECOND - 1), RunAction::Nothing);
    assert_eq!(run.advance(RunEvent::Tick, 102 * SECOND), RunAction::Send(9));
    assert_eq!(run.advance(RunEvent::Tick, 103 * SECOND), RunAction::Nothing);
    assert!(kinds(run).is_empty());
}

#[test]
fn a_target_that_has_ended_is_not_killed() {
    let mut run = Supervisor::new(0, false);
    assert_eq!(run.advance(RunEvent::Signal(15), 1), RunAction::Send(15));
    assert_eq!(run.advance(RunEvent::Wait(None), 2), RunAction::Nothing);
    assert_eq!(run.advance(RunEvent::Wait(Some(15)), 3), RunAction::Nothing);
    assert_eq!(run.advance(RunEvent::Tick, 10), RunAction::Nothing);
}

#[test]
fn control_events_stop_the_run() {
    let mut run = Supervisor::new(SECOND, true);
    assert_eq!(
        run.advance(RunEvent::Control(ControlOutcome::Nothing), 0),
        RunAction::Nothing
    );
    assert_eq!(
        run.advance(control(ControlEvent::Invalid("x".into())), 0),
        RunAction::Nothing
    );
    assert_eq!(run.advance(RunEvent::Signal(0), 0), RunAction::Nothing);
    assert_eq!(run.look(), Look::Control);
    assert_eq!(run.advance(control(ControlEvent::Finish), 0), RunAction::Send(15));
    assert_eq!(run.advance(RunEvent::Signal(0), 0), RunAction::Nothing);
    assert_eq!(run.look(), Look::Clock);
    assert_eq!(run.advance(RunEvent::Tick, SECOND), RunAction::Send(9));
    let mut store = store();
    let _ended = run.end(&mut store, 0);
    assert_eq!(store.gaps().len(), 1);
    assert_eq!(store.gaps()[0].kind, "control_protocol");
    assert_eq!(store.gaps()[0].detail, "unsupported control message: x");
}

#[test]
fn a_lost_control_channel_is_a_gap() {
    let mut run = Supervisor::new(SECOND, true);
    assert_eq!(run.advance(control(ControlEvent::Disconnected), 0), RunAction::Send(15));
    let mut store = store();
    let _ended = run.end(&mut store, 0);
    assert_eq!(store.gaps()[0].kind, "control_disconnected");
    assert_eq!(store.gaps()[0].detail, "control FD closed before a finish request");
    let mut run = Supervisor::new(SECOND, true);
    let lost = RunEvent::Control(ControlOutcome::Failed("bad".into()));
    assert_eq!(run.advance(lost, 0), RunAction::Send(15));
    assert_eq!(kinds(run), vec!["control_read"]);
}

#[test]
fn passed_by_notifications_are_counted_and_noted() {
    let mut run = Supervisor::new(0, false);
    for outcome in [
        ListenerOutcome::Received,
        ListenerOutcome::Quiet,
        ListenerOutcome::Bypassed { queue_full: true },
        ListenerOutcome::Bypassed { queue_full: false },
    ] {
        assert_eq!(run.advance(RunEvent::Listener(outcome), 0), RunAction::Nothing);
    }
    assert_eq!(run.advance(RunEvent::Wait(Some(7 << 8)), 1), RunAction::Nothing);
    let mut store = store();
    let (target, metrics) = run.end(&mut store, 3_500_000);
    assert_eq!(target.exit_code, Some(7));
    assert_eq!(target.signal, None);
    assert_eq!(metrics.notifications_received, 3);
    assert_eq!(metrics.queue_bypassed, 2);
    assert_eq!(metrics.elapsed_ms, 3);
    assert_eq!(store.gaps()[0].kind, "worker_queue_full");
    assert_eq!(
        store.gaps()[0].detail,
        "notification bypassed because the capture queue was full"
    );
    assert_eq!(store.gaps()[1].kind, "worker_pool_stopped");
    assert_eq!(store.gaps()[1].detail, "capture workers stopped before task completion");
}

#[test]
fn passing_errors_in_receiving_are_no_gaps() {
    let mut run = Supervisor::new(0, false);
    for event in [
        failed(Some(4), "interrupted"),
        failed(Some(2), "gone"),
        failed(Some(5), "io"),
        failed(None, "odd"),
    ] {
        assert_eq!(run.advance(event, 0), RunAction::Nothing);
    }
    let mut store = store();
    let (_target, metrics) = run.end(&mut store, 0);
    let details: Vec<&str> = store.gaps().iter().map(|gap| gap.detail.as_str()).collect();
    assert_eq!(details, vec!["io", "odd"]);
    assert_eq!(store.gaps()[0].kind, "notification_receive");
    assert_eq!(metrics.notifications_received, 0);
}

#[test]
fn descendants_have_five_seconds() {
    let mut run = Supervisor::new(0, false);
    assert_eq!(run.advance(RunEvent::Wait(Some(0)), SECOND), RunAction::Nothing);
    assert_eq!(run.advance(RunEvent::Descendants(true), 6 * SECOND), RunAction::Nothing);
    assert_eq!(run.look(), Look::Signal);
    assert_eq!(run.advance(RunEvent::Descendants(true), 6 * SECOND + 1), RunAction::Abandon);
    assert_eq!(run.look(), Look::Over);
    assert_eq!(kinds(run), vec!["descendant_timeout"]);
}

#[test]
fn panicked_workers_are_a_gap() {
    let mut run = Supervisor::new(0, false);
    run.on_workers(true);
    run.on_workers(false);
    assert_eq!(kinds(run), vec!["worker_panic"]);
}

#[test]
fn a_target_without_a_status_counts_as_killed() {
    let run = Supervisor::new(0, false);
    let (target, _metrics) = run.end(&mut store(), 0);
    assert_eq!(target.exit_code, None);
    assert_eq!(target.signal, Some(9));
}
