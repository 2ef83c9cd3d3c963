//! The course of a run: signals and control messages that stop the target, notifications
//! that are counted or passed by, the end of the target and of its descendants.
use crate::capture::{clamp_millis, saturated_millis, with_gap, CaptureStore, StoreView, NEWLINE};
use crate::contracts::{gap_views, ChangeView, Gap, GapView, RunMetrics, RunState, TargetResult};
use crate::linux::{ended, target_result};
use crate::order::same_bytes;
use crate::outside::{eintr, enoent, sigkill, sigterm};
use crate::paths::append_bytes;
use crate::report::final_state;
use crate::text::{concat2, lossy, lossy_text};
use vstd::prelude::*;
use vstd::utf8::{encode_utf8, is_ascii_chars_encode_utf8};

verus! {

/// The largest control message, in bytes.
pub const MAX_CONTROL_BYTES: usize = 1024;

/// The byte that may stand before the end of a line.
pub const CARRIAGE_RETURN: u8 = 13;

/// What the control channel asks for.
pub enum ControlEventView {
    Finish,
    Disconnected,
    Invalid(Seq<char>),
}

/// What the control channel asks for.
#[derive(Debug)]
pub enum ControlEvent {
    Finish,
    Disconnected,
    Invalid(String),
}

impl View for ControlEvent {
    type V = ControlEventView;

    open spec fn view(&self) -> ControlEventView {
        match self {
            ControlEvent::Finish => ControlEventView::Finish,
            ControlEvent::Disconnected => ControlEventView::Disconnected,
            ControlEvent::Invalid(message) => ControlEventView::Invalid(message@),
        }
    }
}

/// The event of an optional control message.
pub open spec fn event_of(event: Option<ControlEvent>) -> Option<ControlEventView> {
    match event {
        Some(found) => Some(found@),
        None => None,
    }
}

/// The descriptor of the control channel and what was read of the next message.
#[verifier::ext_equal]
pub struct ControlView {
    pub fd: i32,
    pub buffer: Seq<u8>,
}

/// Where the first newline is.
pub open spec fn first_newline(bytes: Seq<u8>) -> Option<nat>
    decreases bytes.len(),
{
    if bytes.len() == 0 {
        None
    } else if bytes[0] == NEWLINE {
        Some(0)
    } else {
        match first_newline(bytes.skip(1)) {
            Some(position) => Some(position + 1),
            None => None,
        }
    }
}

/// A line without the carriage return that it ends with.
pub open spec fn without_return(line: Seq<u8>) -> Seq<u8> {
    if line.len() > 0 && line.last() == CARRIAGE_RETURN {
        line.drop_last()
    } else {
        line
    }
}

/// What a line of the control channel asks for.
pub open spec fn line_event(line: Seq<u8>) -> ControlEventView {
    if line == encode_utf8("finish"@) {
        ControlEventView::Finish
    } else {
        ControlEventView::Invalid(lossy_text(line))
    }
}

/// The channel without its first line, and what that line asks for.
pub open spec fn line_taken(channel: ControlView) -> (ControlView, Option<ControlEventView>) {
    match first_newline(channel.buffer) {
        None => (channel, None),
        Some(position) => (
            ControlView { buffer: channel.buffer.skip(position as int + 1), ..channel },
            Some(line_event(without_return(channel.buffer.take(position as int)))),
        ),
    }
}

/// What reading from the control channel came to.
#[derive(Debug)]
pub enum ControlRead {
    Data(Vec<u8>),
    Closed,
}

/// The channel behind a piece of a message, and what it asks for then. Too long a message is
/// dropped.
pub open spec fn piece_received(channel: ControlView, piece: Seq<u8>) -> (
    ControlView,
    Option<ControlEventView>,
) {
    let buffer = channel.buffer + piece;
    if buffer.len() > MAX_CONTROL_BYTES {
        (
            ControlView { buffer: Seq::empty(), ..channel },
            Some(ControlEventView::Invalid("control message exceeded 1024 bytes"@)),
        )
    } else {
        line_taken(ControlView { buffer, ..channel })
    }
}

/// The channel behind its end, and what that asks for: a last `finish` needs no newline.
pub open spec fn channel_closed(channel: ControlView) -> (ControlView, Option<ControlEventView>) {
    if channel.buffer == encode_utf8("finish"@) {
        (ControlView { buffer: Seq::empty(), ..channel }, Some(ControlEventView::Finish))
    } else {
        (channel, Some(ControlEventView::Disconnected))
    }
}

/// The descriptor of the control channel and what was read of the next message.
#[derive(Debug)]
pub struct ControlChannel {
    fd: i32,
    buffer: Vec<u8>,
}

impl View for ControlChannel {
    type V = ControlView;

    closed spec fn view(&self) -> ControlView {
        ControlView { fd: self.fd, buffer: self.buffer@ }
    }
}

fn newline_position(bytes: &Vec<u8>) -> (position: Option<usize>)
    ensures
        match position {
            Some(found) => found < bytes@.len() <= usize::MAX && first_newline(bytes@) == Some(
                found as nat,
            ),
            None => first_newline(bytes@) is None,
        },
{
    let mut i: usize = 0;
    assert(bytes@.skip(0) =~= bytes@);
    while i < bytes.len()
        invariant
            i <= bytes@.len(),
            first_newline(bytes@) == match first_newline(bytes@.skip(i as int)) {
                Some(position) => Some((position + i) as nat),
                None => None,
            },
        decreases bytes@.len() - i,
    {
        assert(bytes@.skip(i as int).skip(1) =~= bytes@.skip(i + 1));
        if bytes[i] == NEWLINE {
            return Some(i);
        }
        i += 1;
    }
    None
}

impl ControlChannel {
    /// The channel behind a descriptor, with nothing read yet.
    pub fn new(fd: i32) -> (channel: Self)
        ensures
            channel@ == (ControlView { fd, buffer: Seq::empty() }),
    {
        let channel = ControlChannel { fd, buffer: Vec::new() };
        assert(channel@ =~= (ControlView { fd, buffer: Seq::empty() }));
        channel
    }

    /// The descriptor to read from.
    pub fn fd(&self) -> (fd: i32)
        ensures
            fd == self@.fd,
    {
        self.fd
    }

    /// Takes the first line of what was read, where there is one.
    pub fn take_line(&mut self) -> (event: Option<ControlEvent>)
        ensures
            (final(self)@, event_of(event)) == line_taken(old(self)@),
    {
        let position: usize = match newline_position(&self.buffer) {
            Some(position) => position,
            None => {
                return None;
            },
        };
        let ghost whole = self.buffer@;
        let rest = self.buffer.split_off(position + 1);
        let mut line: Vec<u8> = Vec::new();
        core::mem::swap(&mut self.buffer, &mut line);
        self.buffer = rest;
        let _newline = line.pop();
        assert(line@ =~= whole.take(position as int));
        assert(self.buffer@ =~= whole.skip(position + 1));
        let ends_with_return = line.len() > 0 && line[line.len() - 1] == CARRIAGE_RETURN;
        if ends_with_return {
            let ghost full = line@;
            let _return = line.pop();
            assert(line@ =~= full.drop_last());
        }
        assert(line@ == without_return(whole.take(position as int)));
        if same_bytes(&line, "finish".as_bytes()) {
            Some(ControlEvent::Finish)
        } else {
            Some(ControlEvent::Invalid(lossy(&line)))
        }
    }

    /// Takes in what reading came to, where no line was left to take.
    pub fn receive(&mut self, read: &ControlRead) -> (event: Option<ControlEvent>)
        ensures
            (final(self)@, event_of(event)) == match *read {
                ControlRead::Data(piece) => piece_received(old(self)@, piece@),
                ControlRead::Closed => channel_closed(old(self)@),
            },
    {
        match read {
            ControlRead::Data(piece) => {
                append_bytes(&mut self.buffer, piece);
                if self.buffer.len() > MAX_CONTROL_BYTES {
                    self.buffer = Vec::new();
                    assert(self.buffer@ =~= Seq::<u8>::empty());
                    return Some(
                        ControlEvent::Invalid("control message exceeded 1024 bytes".to_owned()),
                    );
                }
                self.take_line()
            },
            ControlRead::Closed => {
                if same_bytes(&self.buffer, "finish".as_bytes()) {
                    self.buffer = Vec::new();
                    assert(self.buffer@ =~= Seq::<u8>::empty());
                    return Some(ControlEvent::Finish);
                }
                Some(ControlEvent::Disconnected)
            },
        }
    }
}

proof fn lemma_newline_free_prefix(a: Seq<u8>, b: Seq<u8>)
    requires
        first_newline(a) is None,
    ensures
        first_newline(a + b) == match first_newline(b) {
            Some(position) => Some((position + a.len()) as nat),
            None => None,
        },
    decreases a.len(),
{
    if a.len() == 0 {
        assert(a + b =~= b);
    } else {
        assert((a + b).skip(1) =~= a.skip(1) + b);
        lemma_newline_free_prefix(a.skip(1), b);
    }
}

/// A control message may come in pieces: as long as it is not too long, a piece without a
/// newline changes nothing of what the channel asks for when the rest comes.
pub proof fn a_message_may_come_in_pieces(channel: ControlView, first: Seq<u8>, rest: Seq<u8>)
    requires
        first_newline(channel.buffer + first) is None,
        (channel.buffer + first).len() <= MAX_CONTROL_BYTES,
    ensures
        piece_received(channel, first).1 is None,
        piece_received(piece_received(channel, first).0, rest) == piece_received(
            channel,
            first + rest,
        ),
{
    assert((channel.buffer + first) + rest =~= channel.buffer + (first + rest));
}

/// The control channel never holds more than the largest message.
pub proof fn control_messages_stay_short(channel: ControlView, piece: Seq<u8>)
    ensures
        piece_received(channel, piece).0.buffer.len() <= MAX_CONTROL_BYTES,
{
    lemma_newline_is_inside(channel.buffer + piece);
}

proof fn lemma_newline_is_inside(bytes: Seq<u8>)
    ensures
        first_newline(bytes) matches Some(position) ==> position < bytes.len(),
    decreases bytes.len(),
{
    if bytes.len() > 0 {
        lemma_newline_is_inside(bytes.skip(1));
    }
}

/// The message `finish` asks for the end of the run, whether a newline ends it, a carriage
/// return and a newline, or the end of the channel.
pub proof fn finish_ends_the_run(fd: i32)
    ensures
        piece_received(
            ControlView { fd, buffer: Seq::empty() },
            encode_utf8("finish"@).push(NEWLINE),
        ) == (ControlView { fd, buffer: Seq::<u8>::empty() }, Some(ControlEventView::Finish)),
        piece_received(
            ControlView { fd, buffer: Seq::empty() },
            encode_utf8("finish"@).push(CARRIAGE_RETURN).push(NEWLINE),
        ) == (ControlView { fd, buffer: Seq::<u8>::empty() }, Some(ControlEventView::Finish)),
        channel_closed(ControlView { fd, buffer: encode_utf8("finish"@) }) == (
            ControlView { fd, buffer: Seq::<u8>::empty() },
            Some(ControlEventView::Finish),
        ),
{
    let word = encode_utf8("finish"@);
    lemma_finish_bytes();
    let plain = word.push(NEWLINE);
    let returned = word.push(CARRIAGE_RETURN).push(NEWLINE);
    assert(Seq::<u8>::empty() + plain =~= plain);
    assert(Seq::<u8>::empty() + returned =~= returned);
    lemma_newline_free(word);
    lemma_newline_free_prefix(word, seq![NEWLINE]);
    assert(plain =~= word + seq![NEWLINE]);
    assert(first_newline(seq![NEWLINE]) == Some(0nat));
    let with_return = word.push(CARRIAGE_RETURN);
    lemma_newline_free(with_return);
    lemma_newline_free_prefix(with_return, seq![NEWLINE]);
    assert(returned =~= with_return + seq![NEWLINE]);
    assert(plain.take(word.len() as int) =~= word);
    assert(returned.take(with_return.len() as int) =~= with_return);
    assert(with_return.drop_last() =~= word);
    assert(plain.skip(word.len() as int + 1) =~= Seq::<u8>::empty());
    assert(returned.skip(with_return.len() as int + 1) =~= Seq::<u8>::empty());
}

proof fn lemma_newline_free(bytes: Seq<u8>)
    requires
        forall|i: int| 0 <= i < bytes.len() ==> bytes[i] != NEWLINE,
    ensures
        first_newline(bytes) is None,
    decreases bytes.len(),
{
    if bytes.len() > 0 {
        assert forall|i: int| 0 <= i < bytes.skip(1).len() implies bytes.skip(1)[i] != NEWLINE by {
            assert(bytes.skip(1)[i] == bytes[i + 1]);
        }
        lemma_newline_free(bytes.skip(1));
    }
}

/// The word that ends a run has six bytes, none of which ends a line.
proof fn lemma_finish_bytes()
    ensures
        encode_utf8("finish"@).len() == 6,
        forall|i: int|
            0 <= i < 6 ==> encode_utf8("finish"@)[i] != NEWLINE && encode_utf8("finish"@)[i]
                != CARRIAGE_RETURN,
{
    reveal_strlit("finish");
    is_ascii_chars_encode_utf8("finish"@);
}

/// The state of a run while its target is alive.
#[verifier::ext_equal]
pub struct SupervisorView {
    pub grace: u128,
    pub gaps: Seq<GapView>,
    pub received: u64,
    pub bypassed: u64,
    pub stopping_at: Option<u128>,
    pub kill_sent: bool,
    pub status: Option<i32>,
    pub exited_at: Option<u128>,
    pub controlled: bool,
    pub look: Look,
}

/// What a run looks at, one thing after the other.
#[derive(Debug, Clone, Copy, PartialEq, Eq, Structural)]
pub enum Look {
    /// The signals that the tracker got.
    Signal,
    /// The control channel.
    Control,
    /// The clock.
    Clock,
    /// The listener for notifications.
    Listener,
    /// The target.
    Target,
    /// The descendants of a target that has ended.
    Descendants,
    /// Nothing any more: the run is over.
    Over,
}

/// The time that has passed since an earlier moment.
pub open spec fn since(now: u128, earlier: u128) -> u128 {
    if now >= earlier {
        (now - earlier) as u128
    } else {
        0
    }
}

fn passed(now: u128, earlier: u128) -> (span: u128)
    ensures
        span == since(now, earlier),
{
    if now >= earlier {
        now - earlier
    } else {
        0
    }
}

/// One more, as far as the number goes.
pub open spec fn counted(number: u64) -> u64 {
    if number == u64::MAX {
        number
    } else {
        (number + 1) as u64
    }
}

fn count(number: u64) -> (next: u64)
    ensures
        next == counted(number),
{
    if number == u64::MAX {
        number
    } else {
        number + 1
    }
}

/// The run with its stopping begun, unless it was begun earlier.
pub open spec fn stopping(run: SupervisorView, now: u128) -> SupervisorView {
    SupervisorView {
        stopping_at: match run.stopping_at {
            Some(earlier) => Some(earlier),
            None => Some(now),
        },
        ..run
    }
}

/// The run with one more gap.
pub open spec fn gapped(run: SupervisorView, kind: Seq<char>, detail: Seq<char>) -> SupervisorView {
    SupervisorView { gaps: run.gaps.push(GapView { kind, detail }), ..run }
}

/// The run with a signal taken: it is passed on to the target, and the run begins to stop.
pub open spec fn signal_taken(run: SupervisorView, signal: i32, now: u128) -> SupervisorView {
    if signal == 0 {
        run
    } else {
        stopping(run, now)
    }
}

/// What the control channel came to at one look.
#[derive(Debug)]
pub enum ControlOutcome {
    Event(ControlEvent),
    Nothing,
    Failed(String),
}

/// The run with a look at the control channel taken. A request to finish, the end of the
/// channel and a failure stop the run and end the control; the latter two are gaps, and so
/// is a message that is not understood.
pub open spec fn control_taken(run: SupervisorView, outcome: ControlOutcome, now: u128) -> SupervisorView {
    match outcome {
        ControlOutcome::Nothing => run,
        ControlOutcome::Event(event) => match event@ {
            ControlEventView::Finish => SupervisorView { controlled: false, ..stopping(run, now) },
            ControlEventView::Disconnected => SupervisorView {
                controlled: false,
                ..stopping(
                    gapped(
                        run,
                        "control_disconnected"@,
                        "control FD closed before a finish request"@,
                    ),
                    now,
                )
            },
            ControlEventView::Invalid(message) => gapped(
                run,
                "control_protocol"@,
                "unsupported control message: "@ + message,
            ),
        },
        ControlOutcome::Failed(message) => SupervisorView {
            controlled: false,
            ..stopping(gapped(run, "control_read"@, message@), now)
        },
    }
}

/// The look at the control channel makes the target stop.
pub open spec fn control_stops(outcome: ControlOutcome) -> bool {
    match outcome {
        ControlOutcome::Nothing => false,
        ControlOutcome::Event(event) => !(event is Invalid),
        ControlOutcome::Failed(_) => true,
    }
}

/// The time to stop is over: the target is still there though it was told to stop, and it
/// was not killed yet.
pub open spec fn kill_is_due(run: SupervisorView, now: u128) -> bool {
    &&& !run.kill_sent
    &&& run.status is None
    &&& run.stopping_at matches Some(earlier) && since(now, earlier) >= run.grace
}

/// The run with a look at the clock taken: the target is killed where that is due.
pub open spec fn tick_taken(run: SupervisorView, now: u128) -> SupervisorView {
    SupervisorView { kill_sent: run.kill_sent || kill_is_due(run, now), ..run }
}

/// What the listener came to at one look.
#[derive(Debug)]
pub enum ListenerOutcome {
    /// There was nothing to receive.
    Quiet,
    /// A notification was received and handed to the capture workers.
    Received,
    /// A notification was received and passed by: the queue of the capture workers is full,
    /// or they have ended.
    Bypassed { queue_full: bool },
    /// Receiving failed, with this error code and these words.
    Failed { code: Option<i32>, message: String },
}

/// The run with one more notification counted.
pub open spec fn reception_taken(run: SupervisorView) -> SupervisorView {
    SupervisorView { received: counted(run.received), ..run }
}

/// The run with a notification passed by because the capture workers could not take it.
pub open spec fn bypass_taken(run: SupervisorView, queue_full: bool) -> SupervisorView {
    let next = if queue_full {
        gapped(
            run,
            "worker_queue_full"@,
            "notification bypassed because the capture queue was full"@,
        )
    } else {
        gapped(run, "worker_pool_stopped"@, "capture workers stopped before task completion"@)
    };
    SupervisorView { bypassed: counted(run.bypassed), ..next }
}

/// The error code is that of a call that was interrupted or of a notification that is gone.
pub open spec fn is_passing_error(code: Option<i32>) -> bool {
    code == Some(4i32) || code == Some(2i32)
}

/// The run with a look at the listener taken. A notification is counted; one that is passed
/// by is a gap, and so is an error that does not pass.
pub open spec fn listener_taken(run: SupervisorView, outcome: ListenerOutcome) -> SupervisorView {
    match outcome {
        ListenerOutcome::Quiet => run,
        ListenerOutcome::Received => reception_taken(run),
        ListenerOutcome::Bypassed { queue_full } => bypass_taken(reception_taken(run), queue_full),
        ListenerOutcome::Failed { code, message } => if is_passing_error(code) {
            run
        } else {
            gapped(run, "notification_receive"@, message@)
        },
    }
}

/// The nanoseconds that descendants may outlive the target.
pub const DESCENDANT_GRACE: u128 = 5_000_000_000;

/// The descendants of a target that has ended have had their time.
pub open spec fn descendants_are_late(run: SupervisorView, alive: bool, now: u128) -> bool {
    &&& alive
    &&& run.status is Some
    &&& run.exited_at matches Some(earlier) && since(now, earlier) > DESCENDANT_GRACE
}

/// The run with a look at the descendants taken.
pub open spec fn descendants_taken(run: SupervisorView, alive: bool, now: u128) -> SupervisorView {
    if descendants_are_late(run, alive, now) {
        gapped(
            run,
            "descendant_timeout"@,
            "descendants remained alive 5 seconds after the main process exited"@,
        )
    } else {
        run
    }
}

/// The run with a look at the target taken. It ends once.
pub open spec fn wait_taken(run: SupervisorView, status: Option<i32>, now: u128) -> SupervisorView {
    match (run.status, status) {
        (None, Some(found)) => SupervisorView {
            status: Some(found),
            exited_at: Some(now),
            ..run
        },
        _ => run,
    }
}

/// The run with its capture workers ended.
pub open spec fn workers_taken(run: SupervisorView, ended_well: bool) -> SupervisorView {
    if ended_well {
        run
    } else {
        gapped(run, "worker_panic"@, "one or more capture workers panicked"@)
    }
}

/// How the target ended, as far as it is known: without a status it counts as killed.
pub open spec fn target_of(run: SupervisorView) -> TargetResult {
    match run.status {
        Some(status) => ended(status),
        None => ended(137),
    }
}

/// The store with the gaps of a run noted.
pub open spec fn gaps_handed_over(store: StoreView, gaps: Seq<GapView>) -> StoreView
    decreases gaps.len(),
{
    if gaps.len() == 0 {
        store
    } else {
        with_gap(gaps_handed_over(store, gaps.drop_last()), gaps.last())
    }
}

/// Something that happens in a run: what a look came to.
#[derive(Debug)]
pub enum RunEvent {
    /// The signal that the tracker got, zero for none.
    Signal(i32),
    /// What the control channel came to.
    Control(ControlOutcome),
    /// The clock.
    Tick,
    /// What the listener came to.
    Listener(ListenerOutcome),
    /// The wait status of the target, where it has ended.
    Wait(Option<i32>),
    /// Whether a descendant is alive.
    Descendants(bool),
}

/// What is to be done about something that has happened.
#[derive(Debug, Clone, Copy, PartialEq, Eq, Structural)]
pub enum RunAction {
    /// Nothing.
    Nothing,
    /// Send the signal to the target and its process group.
    Send(i32),
    /// End the descendants of the target.
    Abandon,
}

/// What is to be done about something that has happened: a signal is passed on, the end of
/// the control asks the target to stop, and a target or descendants that do not stop are
/// ended.
pub open spec fn action_on(run: SupervisorView, event: RunEvent, now: u128) -> RunAction {
    match event {
        RunEvent::Signal(signal) => if signal == 0 {
            RunAction::Nothing
        } else {
            RunAction::Send(signal)
        },
        RunEvent::Control(outcome) => if control_stops(outcome) {
            RunAction::Send(15)
        } else {
            RunAction::Nothing
        },
        RunEvent::Tick => if kill_is_due(run, now) {
            RunAction::Send(9)
        } else {
            RunAction::Nothing
        },
        RunEvent::Listener(outcome) => RunAction::Nothing,
        RunEvent::Wait(status) => RunAction::Nothing,
        RunEvent::Descendants(alive) => if descendants_are_late(run, alive, now) {
            RunAction::Abandon
        } else {
            RunAction::Nothing
        },
    }
}

/// What is looked at behind something that has happened. The looks go round; the run is over
/// when the target has ended and its descendants have ended or had their time.
pub open spec fn look_after(run: SupervisorView, event: RunEvent, now: u128) -> Look {
    match event {
        RunEvent::Signal(signal) => if run.controlled {
            Look::Control
        } else {
            Look::Clock
        },
        RunEvent::Control(outcome) => Look::Clock,
        RunEvent::Tick => Look::Listener,
        RunEvent::Listener(outcome) => if run.status is None {
            Look::Target
        } else {
            Look::Descendants
        },
        RunEvent::Wait(status) => Look::Signal,
        RunEvent::Descendants(alive) => if run.status is Some && (!alive || descendants_are_late(
            run,
            alive,
            now,
        )) {
            Look::Over
        } else {
            Look::Signal
        },
    }
}

/// The run behind something that has happened, but for what is looked at next.
pub open spec fn event_taken(run: SupervisorView, event: RunEvent, now: u128) -> SupervisorView {
    match event {
        RunEvent::Signal(signal) => signal_taken(run, signal, now),
        RunEvent::Control(outcome) => control_taken(run, outcome, now),
        RunEvent::Tick => tick_taken(run, now),
        RunEvent::Listener(outcome) => listener_taken(run, outcome),
        RunEvent::Wait(status) => wait_taken(run, status, now),
        RunEvent::Descendants(alive) => descendants_taken(run, alive, now),
    }
}

/// The run behind something that has happened.
pub open spec fn advanced(run: SupervisorView, event: RunEvent, now: u128) -> SupervisorView {
    SupervisorView { look: look_after(run, event, now), ..event_taken(run, event, now) }
}

/// The state of a run while its target is alive. Moments are in nanoseconds since the start
/// of the run.
#[derive(Debug)]
pub struct Supervisor {
    grace: u128,
    gaps: Vec<Gap>,
    received: u64,
    bypassed: u64,
    stopping_at: Option<u128>,
    kill_sent: bool,
    status: Option<i32>,
    exited_at: Option<u128>,
    controlled: bool,
    look: Look,
}

impl View for Supervisor {
    type V = SupervisorView;

    closed spec fn view(&self) -> SupervisorView {
        SupervisorView {
            grace: self.grace,
            gaps: gap_views(self.gaps@),
            received: self.received,
            bypassed: self.bypassed,
            stopping_at: self.stopping_at,
            kill_sent: self.kill_sent,
            status: self.status,
            exited_at: self.exited_at,
            controlled: self.controlled,
            look: self.look,
        }
    }
}

impl Supervisor {
    /// A run whose target has just been started, with the time between asking the target to
    /// stop and killing it, and whether a control channel is there.
    pub fn new(termination_grace: u128, controlled: bool) -> (run: Self)
        ensures
            run@ == (SupervisorView {
                grace: termination_grace,
                gaps: Seq::empty(),
                received: 0,
                bypassed: 0,
                stopping_at: None,
                kill_sent: false,
                status: None,
                exited_at: None,
                controlled,
                look: Look::Signal,
            }),
    {
        let run = Supervisor {
            grace: termination_grace,
            gaps: Vec::new(),
            received: 0,
            bypassed: 0,
            stopping_at: None,
            kill_sent: false,
            status: None,
            exited_at: None,
            controlled,
            look: Look::Signal,
        };
        assert(run@.gaps =~= Seq::<GapView>::empty());
        run
    }

    /// What is to be looked at next.
    pub fn look(&self) -> (look: Look)
        ensures
            look == self@.look,
    {
        self.look
    }

    fn push_gap(&mut self, kind: &str, detail: String)
        ensures
            final(self)@ == gapped(old(self)@, kind@, detail@),
    {
        let ghost held = self.gaps@;
        self.gaps.push(Gap { kind: kind.to_owned(), detail });
        assert(gap_views(self.gaps@) =~= gap_views(held).push(
            GapView { kind: kind@, detail: detail@ },
        ));
        assert(self@ =~= gapped(old(self)@, kind@, detail@));
    }

    fn stop(&mut self, now: u128)
        ensures
            final(self)@ == stopping(old(self)@, now),
    {
        if self.stopping_at.is_none() {
            self.stopping_at = Some(now);
        }
        assert(self@ =~= stopping(old(self)@, now));
    }

    fn on_control(&mut self, outcome: ControlOutcome, now: u128)
        ensures
            final(self)@ == control_taken(old(self)@, outcome, now),
    {
        match outcome {
            ControlOutcome::Nothing => {},
            ControlOutcome::Event(event) => match event {
                ControlEvent::Finish => {
                    self.stop(now);
                    self.controlled = false;
                    assert(self@ =~= control_taken(old(self)@, outcome, now));
                },
                ControlEvent::Disconnected => {
                    self.push_gap(
                        "control_disconnected",
                        "control FD closed before a finish request".to_owned(),
                    );
                    self.stop(now);
                    self.controlled = false;
                    assert(self@ =~= control_taken(old(self)@, outcome, now));
                },
                ControlEvent::Invalid(message) => {
                    self.push_gap(
                        "control_protocol",
                        concat2("unsupported control message: ", message.as_str()),
                    );
                },
            },
            ControlOutcome::Failed(message) => {
                self.push_gap("control_read", message);
                self.stop(now);
                self.controlled = false;
                assert(self@ =~= control_taken(old(self)@, outcome, now));
            },
        }
    }

    fn on_listener(&mut self, outcome: ListenerOutcome)
        ensures
            final(self)@ == listener_taken(old(self)@, outcome),
    {
        match outcome {
            ListenerOutcome::Quiet => {},
            ListenerOutcome::Received => {
                self.received = count(self.received);
                assert(self@ =~= reception_taken(old(self)@));
            },
            ListenerOutcome::Bypassed { queue_full } => {
                self.received = count(self.received);
                assert(self@ =~= reception_taken(old(self)@));
                if queue_full {
                    self.push_gap(
                        "worker_queue_full",
                        "notification bypassed because the capture queue was full".to_owned(),
                    );
                } else {
                    self.push_gap(
                        "worker_pool_stopped",
                        "capture workers stopped before task completion".to_owned(),
                    );
                }
                self.bypassed = count(self.bypassed);
                assert(self@ =~= listener_taken(old(self)@, outcome));
            },
            ListenerOutcome::Failed { code, message } => {
                let passing = match code {
                    Some(number) => number == eintr() || number == enoent(),
                    None => false,
                };
                if !passing {
                    self.push_gap("notification_receive", message);
                }
            },
        }
    }

    fn kill_due(&self, now: u128) -> (due: bool)
        ensures
            due == kill_is_due(self@, now),
    {
        let over = match self.stopping_at {
            Some(earlier) => passed(now, earlier) >= self.grace,
            None => false,
        };
        !self.kill_sent && over && self.status.is_none()
    }

    fn descendants_late(&self, alive: bool, now: u128) -> (late: bool)
        ensures
            late == descendants_are_late(self@, alive, now),
    {
        let over = match self.exited_at {
            Some(earlier) => passed(now, earlier) > DESCENDANT_GRACE,
            None => false,
        };
        alive && self.status.is_some() && over
    }

    /// Takes what a look came to and returns what is to be done about it. A moment is given in
    /// nanoseconds since the start of the run.
    pub fn advance(&mut self, event: RunEvent, now: u128) -> (action: RunAction)
        ensures
            action == action_on(old(self)@, event, now),
            final(self)@ == advanced(old(self)@, event, now),
    {
        let ghost before = self@;
        let ghost happened = event;
        let action = match event {
            RunEvent::Signal(signal) => {
                self.look = if self.controlled {
                    Look::Control
                } else {
                    Look::Clock
                };
                if signal == 0 {
                    RunAction::Nothing
                } else {
                    self.stop(now);
                    RunAction::Send(signal)
                }
            },
            RunEvent::Control(outcome) => {
                self.look = Look::Clock;
                let stops = match &outcome {
                    ControlOutcome::Nothing => false,
                    ControlOutcome::Event(event) => match event {
                        ControlEvent::Invalid(_) => false,
                        _ => true,
                    },
                    ControlOutcome::Failed(_) => true,
                };
                self.on_control(outcome, now);
                if stops {
                    RunAction::Send(sigterm())
                } else {
                    RunAction::Nothing
                }
            },
            RunEvent::Tick => {
                self.look = Look::Listener;
                if self.kill_due(now) {
                    self.kill_sent = true;
                    RunAction::Send(sigkill())
                } else {
                    RunAction::Nothing
                }
            },
            RunEvent::Listener(outcome) => {
                self.look = if self.status.is_none() {
                    Look::Target
                } else {
                    Look::Descendants
                };
                self.on_listener(outcome);
                RunAction::Nothing
            },
            RunEvent::Wait(status) => {
                self.look = Look::Signal;
                if self.status.is_none() {
                    if let Some(found) = status {
                        self.status = Some(found);
                        self.exited_at = Some(now);
                    }
                }
                RunAction::Nothing
            },
            RunEvent::Descendants(alive) => {
                let late = self.descendants_late(alive, now);
                self.look = if self.status.is_some() && (!alive || late) {
                    Look::Over
                } else {
                    Look::Signal
                };
                if late {
                    self.push_gap(
                        "descendant_timeout",
                        "descendants remained alive 5 seconds after the main process exited".to_owned(),
                    );
                    RunAction::Abandon
                } else {
                    RunAction::Nothing
                }
            },
        };
        assert(self@ =~= advanced(before, happened, now));
        action
    }

    /// Takes the end of the capture workers.
    pub fn on_workers(&mut self, ended_well: bool)
        ensures
            final(self)@ == workers_taken(old(self)@, ended_well),
    {
        if !ended_well {
            self.push_gap("worker_panic", "one or more capture workers panicked".to_owned());
        }
    }

    /// Ends the run: its gaps go to the store, and the target's end and the metrics come
    /// back.
    pub fn end(self, store: &mut CaptureStore, elapsed: u128) -> (result: (TargetResult, RunMetrics))
        ensures
            final(store)@ == gaps_handed_over(old(store)@, self@.gaps),
            result.0 == target_of(self@),
            result.1.elapsed_ms == saturated_millis(elapsed),
            result.1.notifications_received == self@.received,
            result.1.queue_bypassed == self@.bypassed,
            result.1.candidate_paths == 0,
            result.1.captured_bytes == 0,
            result.1.final_changes == 0,
    {
        let ghost all = gap_views(self.gaps@);
        assert(all.take(0) =~= Seq::<GapView>::empty());
        let mut i: usize = 0;
        while i < self.gaps.len()
            invariant
                i <= self.gaps@.len(),
                all == gap_views(self.gaps@),
                store@ == gaps_handed_over(old(store)@, all.take(i as int)),
            decreases self.gaps@.len() - i,
        {
            proof {
                assert(all.take(i + 1).drop_last() =~= all.take(i as int));
                assert(all.take(i + 1).last() == self.gaps@[i as int]@);
            }
            store.gap(self.gaps[i].kind.clone(), self.gaps[i].detail.clone());
            i += 1;
        }
        assert(all.take(all.len() as int) =~= all);
        let target = match self.status {
            Some(status) => target_result(status),
            None => target_result(128 + sigkill()),
        };
        let base = RunMetrics::default();
        let metrics = RunMetrics {
            elapsed_ms: clamp_millis(elapsed),
            notifications_received: self.received,
            queue_bypassed: self.bypassed,
            candidate_paths: base.candidate_paths,
            captured_bytes: base.captured_bytes,
            final_changes: base.final_changes,
        };
        (target, metrics)
    }
}

/// The run behind a list of things that have happened, each at its moment.
pub open spec fn advanced_by(run: SupervisorView, events: Seq<(RunEvent, u128)>) -> SupervisorView
    decreases events.len(),
{
    if events.len() == 0 {
        run
    } else {
        advanced(advanced_by(run, events.drop_last()), events.last().0, events.last().1)
    }
}

/// The target is killed once at most: once the kill is sent it stays sent, and a kill that
/// was sent is never due.
pub proof fn the_target_is_killed_once(run: SupervisorView, event: RunEvent, now: u128)
    requires
        run.kill_sent,
    ensures
        !kill_is_due(run, now),
        advanced(run, event, now).kill_sent,
{
}

/// The target is killed only when it was asked to stop and the time to stop is over.
pub proof fn a_kill_follows_a_request_to_stop(run: SupervisorView, event: RunEvent, now: u128)
    requires
        !run.kill_sent,
        advanced(run, event, now).kill_sent,
    ensures
        run.status is None,
        run.stopping_at matches Some(begun) && since(now, begun) >= run.grace,
{
}

/// The time to stop counts from the first request to stop, whatever asks for it later.
pub proof fn stopping_begins_once(run: SupervisorView, event: RunEvent, now: u128)
    requires
        run.stopping_at is Some,
    ensures
        advanced(run, event, now).stopping_at == run.stopping_at,
{
}

/// The target ends once: its status stays what it was first seen to be.
pub proof fn the_target_ends_once(run: SupervisorView, event: RunEvent, now: u128)
    requires
        run.status is Some,
    ensures
        advanced(run, event, now).status == run.status,
        target_of(advanced(run, event, now)) == target_of(run),
{
}

/// The run is over only when the target has ended; and as long as its descendants are alive
/// and have time left, it is not.
pub proof fn the_run_outlives_its_target(run: SupervisorView, event: RunEvent, now: u128)
    requires
        advanced(run, event, now).look is Over,
    ensures
        run.status is Some,
        event == RunEvent::Descendants(false) || action_on(run, event, now) == RunAction::Abandon,
{
}

/// Gaps are only ever added, and whenever a notification is passed by, one is.
pub proof fn gaps_only_grow(run: SupervisorView, event: RunEvent, now: u128)
    ensures
        run.gaps.is_prefix_of(advanced(run, event, now).gaps),
        advanced(run, event, now).bypassed != run.bypassed ==> advanced(run, event, now).gaps.len()
            > run.gaps.len(),
{
    let next = advanced(run, event, now);
    assert(run.gaps =~= next.gaps.subrange(0, run.gaps.len() as int));
}

proof fn lemma_bypasses_leave_gaps(run: SupervisorView, events: Seq<(RunEvent, u128)>)
    requires
        run.bypassed == 0,
    ensures
        advanced_by(run, events).bypassed > 0 ==> advanced_by(run, events).gaps.len() > 0,
    decreases events.len(),
{
    if events.len() > 0 {
        let before = advanced_by(run, events.drop_last());
        lemma_bypasses_leave_gaps(run, events.drop_last());
        gaps_only_grow(before, events.last().0, events.last().1);
        let after = advanced_by(run, events);
        assert(before.gaps.len() <= after.gaps.len());
    }
}

/// A run in which a notification was passed by is reported as partial, whatever else happens
/// in it.
pub proof fn a_bypass_makes_the_report_partial(
    run: SupervisorView,
    events: Seq<(RunEvent, u128)>,
    store: StoreView,
    changes: Seq<ChangeView>,
)
    requires
        run.bypassed == 0,
        advanced_by(run, events).bypassed > 0,
    ensures
        final_state(
            gaps_handed_over(store, advanced_by(run, events).gaps).gaps,
            changes,
        ) == RunState::Partial,
{
    let gaps = advanced_by(run, events).gaps;
    lemma_bypasses_leave_gaps(run, events);
    gaps_of_the_run_are_noted(store, gaps);
    let noted_gaps = gaps_handed_over(store, gaps).gaps;
    assert(noted_gaps.contains(gaps[0]));
    assert(noted_gaps.len() > 0);
}

/// Every gap of a run is noted in the store when the run ends.
pub proof fn gaps_of_the_run_are_noted(store: StoreView, gaps: Seq<GapView>)
    ensures
        forall|i: int|
            0 <= i < gaps.len() ==> gaps_handed_over(store, gaps).gaps.contains(#[trigger] gaps[i]),
        forall|gap: GapView| #[trigger]
            store.gaps.contains(gap) ==> gaps_handed_over(store, gaps).gaps.contains(gap),
    decreases gaps.len(),
{
    if gaps.len() > 0 {
        let head = gaps.drop_last();
        let before = gaps_handed_over(store, head).gaps;
        let after = gaps_handed_over(store, gaps).gaps;
        gaps_of_the_run_are_noted(store, head);
        assert forall|gap: GapView| #[trigger] before.contains(gap) implies after.contains(gap) by {
            let k = choose|k: int| 0 <= k < before.len() && before[k] == gap;
            assert(after[k] == gap);
        }
        assert(after.contains(gaps.last())) by {
            if !before.contains(gaps.last()) {
                assert(after[before.len() as int] == gaps.last());
            }
        }
        assert forall|i: int| 0 <= i < gaps.len() implies after.contains(#[trigger] gaps[i]) by {
            if i < head.len() {
                assert(before.contains(head[i]));
            }
        }
        assert forall|gap: GapView| #[trigger] store.gaps.contains(gap) implies after.contains(
            gap,
        ) by {
            assert(before.contains(gap));
        }
    }
}

/// Both runs are the same but for what is looked at next.
pub open spec fn same_but_for_the_look(a: SupervisorView, b: SupervisorView) -> bool {
    &&& a.grace == b.grace
    &&& a.gaps =~= b.gaps
    &&& a.received == b.received
    &&& a.bypassed == b.bypassed
    &&& a.stopping_at == b.stopping_at
    &&& a.kill_sent == b.kill_sent
    &&& a.status == b.status
    &&& a.exited_at == b.exited_at
    &&& a.controlled == b.controlled
}

/// Every signal that the tracker gets goes to the target, and the first request to stop begins
/// the time that the target has for it; no signal changes nothing.
pub proof fn signals_go_to_the_target(run: SupervisorView, signal: i32, now: u128)
    ensures
        signal == 0 ==> action_on(run, RunEvent::Signal(signal), now) is Nothing
            && same_but_for_the_look(advanced(run, RunEvent::Signal(signal), now), run),
        signal != 0 ==> action_on(run, RunEvent::Signal(signal), now) == RunAction::Send(signal),
        signal != 0 ==> same_but_for_the_look(
            advanced(run, RunEvent::Signal(signal), now),
            SupervisorView {
                stopping_at: if run.stopping_at is Some {
                    run.stopping_at
                } else {
                    Some(now)
                },
                ..run
            },
        ),
{
}

/// The end of the control stops the target: a request to finish without a gap, the loss of the
/// channel and a failure with one. A message that is not understood is a gap and stops nothing.
pub proof fn the_end_of_the_control_stops_the_target(
    run: SupervisorView,
    outcome: ControlOutcome,
    now: u128,
)
    ensures
        ({
            let next = advanced(run, RunEvent::Control(outcome), now);
            let action = action_on(run, RunEvent::Control(outcome), now);
            let finish = outcome is Event && outcome->Event_0 is Finish;
            let lost = outcome is Event && outcome->Event_0 is Disconnected;
            let strange = outcome is Event && outcome->Event_0 is Invalid;
            let stops = finish || lost || outcome is Failed;
            &&& outcome is Nothing ==> same_but_for_the_look(next, run)
            &&& action == RunAction::Send(15) <==> stops
            &&& action is Nothing <==> !stops
            &&& next.controlled == (run.controlled && !stops)
            &&& stops && run.stopping_at is None ==> next.stopping_at == Some(now)
            &&& run.stopping_at is Some || !stops ==> next.stopping_at == run.stopping_at
            &&& finish || outcome is Nothing ==> next.gaps == run.gaps
            &&& lost ==> next.gaps == run.gaps.push(
                GapView {
                    kind: "control_disconnected"@,
                    detail: "control FD closed before a finish request"@,
                },
            )
            &&& strange ==> next.gaps == run.gaps.push(
                GapView {
                    kind: "control_protocol"@,
                    detail: "unsupported control message: "@ + outcome->Event_0->Invalid_0@,
                },
            )
            &&& outcome is Failed ==> next.gaps == run.gaps.push(
                GapView { kind: "control_read"@, detail: outcome->Failed_0@ },
            )
            &&& next.grace == run.grace && next.received == run.received && next.bypassed
                == run.bypassed && next.kill_sent == run.kill_sent && next.status == run.status
                && next.exited_at == run.exited_at
        }),
{
}

/// The target is killed exactly where it has not ended and was not killed yet, and its time to
/// stop has passed since it was first asked to.
pub proof fn the_target_is_killed_when_its_time_is_up(run: SupervisorView, now: u128)
    ensures
        ({
            let next = advanced(run, RunEvent::Tick, now);
            let action = action_on(run, RunEvent::Tick, now);
            let passed = if run.stopping_at is Some && now >= run.stopping_at->0 {
                now - run.stopping_at->0
            } else {
                0
            };
            let due = !run.kill_sent && run.status is None && run.stopping_at is Some && passed
                >= run.grace;
            &&& due ==> action == RunAction::Send(9)
            &&& !due ==> action is Nothing
            &&& same_but_for_the_look(
                next,
                SupervisorView { kill_sent: run.kill_sent || due, ..run },
            )
        }),
{
}

/// Every notification that is received is counted, and one that is passed by is counted as such
/// too and noted, by why it was; errors that pass leave nothing behind, all others are noted.
pub proof fn notifications_are_counted_and_noted(
    run: SupervisorView,
    outcome: ListenerOutcome,
    now: u128,
)
    ensures
        ({
            let next = advanced(run, RunEvent::Listener(outcome), now);
            let more = outcome is Received || outcome is Bypassed;
            let passing = outcome is Failed && (outcome->code == Some(4i32) || outcome->code
                == Some(2i32));
            &&& action_on(run, RunEvent::Listener(outcome), now) is Nothing
            &&& more && run.received < u64::MAX ==> next.received == run.received + 1
            &&& !more || run.received == u64::MAX ==> next.received == run.received
            &&& outcome is Bypassed && run.bypassed < u64::MAX ==> next.bypassed == run.bypassed + 1
            &&& !(outcome is Bypassed) || run.bypassed == u64::MAX ==> next.bypassed
                == run.bypassed
            &&& outcome is Quiet || outcome is Received || passing ==> next.gaps == run.gaps
            &&& outcome is Bypassed && outcome->queue_full ==> next.gaps == run.gaps.push(
                GapView {
                    kind: "worker_queue_full"@,
                    detail: "notification bypassed because the capture queue was full"@,
                },
            )
            &&& outcome is Bypassed && !outcome->queue_full ==> next.gaps == run.gaps.push(
                GapView {
                    kind: "worker_pool_stopped"@,
                    detail: "capture workers stopped before task completion"@,
                },
            )
            &&& outcome is Failed && !passing ==> next.gaps == run.gaps.push(
                GapView { kind: "notification_receive"@, detail: outcome->message@ },
            )
            &&& next.grace == run.grace && next.stopping_at == run.stopping_at && next.kill_sent
                == run.kill_sent && next.status == run.status && next.exited_at == run.exited_at
                && next.controlled == run.controlled
        }),
{
}

/// The end of the target is kept as it is first seen, with its moment.
pub proof fn the_first_end_of_the_target_is_kept(
    run: SupervisorView,
    status: Option<i32>,
    now: u128,
)
    ensures
        ({
            let next = advanced(run, RunEvent::Wait(status), now);
            &&& action_on(run, RunEvent::Wait(status), now) is Nothing
            &&& run.status is None && status is Some ==> same_but_for_the_look(
                next,
                SupervisorView { status, exited_at: Some(now), ..run },
            )
            &&& run.status is Some || status is None ==> same_but_for_the_look(next, run)
        }),
{
}

/// Descendants have five seconds behind the end of the target: those that are alive for longer
/// are ended, and that is noted; the run is over then, or as soon as none is alive.
pub proof fn descendants_have_their_time(run: SupervisorView, alive: bool, now: u128)
    ensures
        ({
            let next = advanced(run, RunEvent::Descendants(alive), now);
            let action = action_on(run, RunEvent::Descendants(alive), now);
            let late = alive && run.status is Some && run.exited_at is Some && now
                > run.exited_at->0 + 5_000_000_000;
            &&& late ==> action is Abandon
            &&& !late ==> action is Nothing
            &&& late ==> same_but_for_the_look(
                next,
                SupervisorView {
                    gaps: run.gaps.push(
                        GapView {
                            kind: "descendant_timeout"@,
                            detail:
                                "descendants remained alive 5 seconds after the main process exited"@,
                        },
                    ),
                    ..run
                },
            )
            &&& !late ==> same_but_for_the_look(next, run)
            &&& next.look is Over <==> run.status is Some && (!alive || late)
            &&& next.look is Signal <==> !(next.look is Over)
        }),
{
}

/// A run looks at one thing after the other, over and over: the control channel only as long as
/// there is one, the target until it has ended, and its descendants from then on.
pub proof fn the_looks_go_round(
    run: SupervisorView,
    signal: i32,
    outcome: ControlOutcome,
    heard: ListenerOutcome,
    status: Option<i32>,
    now: u128,
)
    ensures
        run.controlled ==> advanced(run, RunEvent::Signal(signal), now).look is Control,
        !run.controlled ==> advanced(run, RunEvent::Signal(signal), now).look is Clock,
        advanced(run, RunEvent::Control(outcome), now).look is Clock,
        advanced(run, RunEvent::Tick, now).look is Listener,
        run.status is None ==> advanced(run, RunEvent::Listener(heard), now).look is Target,
        run.status is Some ==> advanced(run, RunEvent::Listener(heard), now).look is Descendants,
        advanced(run, RunEvent::Wait(status), now).look is Signal,
{
}

/// A target whose end was never seen counts as killed; any other one ended as its status says.
pub proof fn an_unseen_end_counts_as_a_kill(run: SupervisorView)
    ensures
        run.status is None ==> target_of(run).signal == Some(9i32) && target_of(run).exit_code
            is None,
        run.status is Some ==> target_of(run) == ended(run.status->0),
{
    assert(137i32 & 0x7f == 9) by (bit_vector);
}

/// Workers that did not end well are noted, and that is all that their end changes.
pub proof fn panicked_workers_are_noted(run: SupervisorView, ended_well: bool)
    ensures
        ended_well ==> workers_taken(run, ended_well) == run,
        !ended_well ==> workers_taken(run, ended_well) == (SupervisorView {
            gaps: run.gaps.push(
                GapView {
                    kind: "worker_panic"@,
                    detail: "one or more capture workers panicked"@,
                },
            ),
            ..run
        }),
{
}

/// A line of the control channel ends at its newline: what stands before it, without a carriage
/// return at its end, is a request to finish exactly where it is `finish`, and what stands behind
/// it is kept for later. Without a newline there is no line yet.
pub proof fn a_line_ends_at_its_newline(fd: i32, line: Seq<u8>, rest: Seq<u8>)
    requires
        forall|i: int| 0 <= i < line.len() ==> #[trigger] line[i] != 10,
    ensures
        ({
            let word = if line.len() > 0 && line.last() == 13 {
                line.drop_last()
            } else {
                line
            };
            let taken = line_taken(ControlView { fd, buffer: line.push(10u8) + rest });
            &&& taken.0 == (ControlView { fd, buffer: rest })
            &&& taken.1 is Some
            &&& taken.1->0 is Finish <==> word == encode_utf8("finish"@)
            &&& !(taken.1->0 is Finish) ==> taken.1->0 == ControlEventView::Invalid(lossy_text(word))
        }),
        line_taken(ControlView { fd, buffer: line }) == (
            ControlView { fd, buffer: line },
            None::<ControlEventView>,
        ),
{
    let buffer = line.push(10u8) + rest;
    lemma_newline_free(line);
    lemma_newline_free_prefix(line, seq![10u8] + rest);
    assert(buffer =~= line + (seq![10u8] + rest));
    assert((seq![10u8] + rest)[0] == NEWLINE);
    assert(first_newline(seq![10u8] + rest) == Some(0nat));
    assert(buffer.skip(line.len() as int + 1) =~= rest);
    assert(buffer.take(line.len() as int) =~= line);
}

/// A message is dropped exactly where it would be longer than the largest one.
pub proof fn long_messages_are_dropped(channel: ControlView, piece: Seq<u8>)
    ensures
        channel.buffer.len() + piece.len() > 1024 ==> piece_received(channel, piece) == (
            ControlView { fd: channel.fd, buffer: Seq::<u8>::empty() },
            Some(ControlEventView::Invalid("control message exceeded 1024 bytes"@)),
        ),
        channel.buffer.len() + piece.len() <= 1024 ==> piece_received(channel, piece) == line_taken(
            ControlView { fd: channel.fd, buffer: channel.buffer + piece },
        ),
{
}

/// The end of the channel asks for the end of the run where `finish` was written last; otherwise
/// the channel is lost.
pub proof fn a_closed_channel_finishes_or_is_lost(channel: ControlView)
    ensures
        channel_closed(channel).1 == Some(ControlEventView::Finish) <==> channel.buffer
            == encode_utf8("finish"@),
        channel_closed(channel).1 == Some(ControlEventView::Disconnected) <==> channel.buffer
            != encode_utf8("finish"@),
        channel_closed(channel).0.fd == channel.fd,
        channel.buffer != encode_utf8("finish"@) ==> channel_closed(channel).0 == channel,
{
}

/// A run begins with nothing received, asked or ended, and a look at the signals.
pub proof fn a_run_begins_with_nothing(grace: u128, controlled: bool, run: Supervisor)
    requires
        call_ensures(Supervisor::new, (grace, controlled), run),
    ensures
        run@.grace == grace,
        run@.controlled == controlled,
        run@.gaps.len() == 0,
        run@.received == 0,
        run@.bypassed == 0,
        run@.stopping_at is None,
        !run@.kill_sent,
        run@.status is None,
        run@.exited_at is None,
        run@.look is Signal,
{
}

/// A run goes on by what happens in it, and does what that calls for.
pub proof fn a_run_goes_on_by_what_happens(
    run: &mut Supervisor,
    event: RunEvent,
    now: u128,
    action: RunAction,
)
    requires
        call_ensures(Supervisor::advance, (run, event, now), action),
    ensures
        action == action_on(old(run)@, event, now),
        final(run)@ == advanced(old(run)@, event, now),
{
}

/// A run ends with the gaps of the run noted in the store, the end of its target, and its counts.
pub proof fn a_run_ends_with_its_counts(
    run: Supervisor,
    store: &mut CaptureStore,
    elapsed: u128,
    result: (TargetResult, RunMetrics),
)
    requires
        call_ensures(Supervisor::end, (run, store, elapsed), result),
    ensures
        forall|i: int|
            0 <= i < run@.gaps.len() ==> final(store)@.gaps.contains(#[trigger] run@.gaps[i]),
        final(store)@ == gaps_handed_over(old(store)@, run@.gaps),
        run@.status is None ==> result.0.signal == Some(9i32) && result.0.exit_code is None,
        run@.status is Some ==> result.0 == ended(run@.status->0),
        result.1.elapsed_ms * 1_000_000 <= elapsed,
        result.1.elapsed_ms < u64::MAX ==> elapsed < (result.1.elapsed_ms + 1) * 1_000_000,
        result.1.notifications_received == run@.received,
        result.1.queue_bypassed == run@.bypassed,
{
    gaps_of_the_run_are_noted(old(store)@, run@.gaps);
    an_unseen_end_counts_as_a_kill(run@);
}

/// The end of the workers changes the run as it says.
pub proof fn the_end_of_the_workers_is_taken(run: &mut Supervisor, ended_well: bool)
    requires
        call_ensures(Supervisor::on_workers, (run, ended_well), ()),
    ensures
        ended_well ==> final(run)@ == old(run)@,
        !ended_well ==> final(run)@.gaps == old(run)@.gaps.push(
            GapView { kind: "worker_panic"@, detail: "one or more capture workers panicked"@ },
        ),
        final(run)@.status == old(run)@.status,
{
}

/// The control channel asks for what its lines, or its end, ask for.
pub proof fn the_channel_asks_for_what_was_written(
    channel: &mut ControlChannel,
    read: ControlRead,
    event: Option<ControlEvent>,
)
    requires
        call_ensures(ControlChannel::receive, (channel, &read), event),
    ensures
        read is Data ==> (final(channel)@, event_of(event)) == piece_received(
            old(channel)@,
            read->Data_0@,
        ),
        read is Closed ==> (final(channel)@, event_of(event)) == channel_closed(old(channel)@),
{
}

/// The lines that are left in the control channel are taken one by one.
pub proof fn lines_are_taken_one_by_one(channel: &mut ControlChannel, event: Option<ControlEvent>)
    requires
        call_ensures(ControlChannel::take_line, (channel,), event),
    ensures
        (final(channel)@, event_of(event)) == line_taken(old(channel)@),
{
}

} // verus!
