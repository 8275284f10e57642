//! From raw input events to engine events, and the decisions of the event loop:
//! which messages reach the engine, and when a running correction is interrupted.
use vstd::prelude::*;

use crate::config::Config;
use crate::engine::{
    expired, invalidated, observed, with_device_state, DeviceEvent, Engine, EngineView, KeyEvent,
    READY_DELAY_MS,
};
use crate::keys::{is_pointer_button, pointer_button};
use crate::session::{Context, GuardView};

verus! {

/// `EV_SYN` and `EV_KEY` event types, `SYN_REPORT` and `SYN_DROPPED` codes
/// (Linux input-event-codes.h).
pub const EV_SYN: u16 = 0;

pub const EV_KEY: u16 = 1;

pub const SYN_REPORT: u16 = 0;

pub const SYN_DROPPED: u16 = 3;

/// What to do with one raw event of a device stream.
#[derive(Clone, Copy, Debug, PartialEq, Eq, Structural)]
pub enum StreamAction {
    Ignore,
    Lost,
    Resync,
    Key,
}

/// Tracks whether the kernel dropped events since the last full report.
pub struct EventStream {
    dropped: bool,
}

/// The stream's answer to an event, with the new value of its "dropped" flag.
pub open spec fn stream_step(dropped: bool, event_type: u16, code: u16) -> (bool, StreamAction) {
    if event_type == EV_SYN && code == SYN_DROPPED {
        (true, StreamAction::Lost)
    } else if dropped {
        if event_type == EV_SYN && code == SYN_REPORT {
            (false, StreamAction::Resync)
        } else {
            (true, StreamAction::Ignore)
        }
    } else if event_type == EV_KEY {
        (false, StreamAction::Key)
    } else {
        (false, StreamAction::Ignore)
    }
}

impl EventStream {
    pub closed spec fn dropped(&self) -> bool {
        self.dropped
    }

    pub fn new() -> (s: Self)
        ensures
            !s.dropped(),
    {
        EventStream { dropped: false }
    }

    /// After a lost-events marker everything is ignored until the next report,
    /// which asks for the device's key state to be read afresh.
    pub fn observe(&mut self, event_type: u16, code: u16) -> (r: StreamAction)
        ensures
            (final(self).dropped(), r) == stream_step(old(self).dropped(), event_type, code),
    {
        if event_type == EV_SYN && code == SYN_DROPPED {
            self.dropped = true;
            return StreamAction::Lost;
        }
        if self.dropped {
            if event_type == EV_SYN && code == SYN_REPORT {
                self.dropped = false;
                return StreamAction::Resync;
            }
            return StreamAction::Ignore;
        }
        if event_type == EV_KEY {
            StreamAction::Key
        } else {
            StreamAction::Ignore
        }
    }
}

#[derive(Clone, Copy, Debug, PartialEq, Eq, Structural)]
pub enum DeviceKind {
    Keyboard,
    Pointer,
}

/// The engine event that a key-type event of a device stands for: a pointer button
/// press is a click, other keys count only on keyboards.
pub open spec fn device_event_spec(kind: DeviceKind, device_id: u64, code: u16, value: i32) -> Option<
    DeviceEvent,
> {
    if pointer_button(code) {
        if value == 1 {
            Some(DeviceEvent::Click)
        } else {
            None
        }
    } else if kind == DeviceKind::Keyboard {
        Some(DeviceEvent::Key(KeyEvent { device_id, code, value }))
    } else {
        None
    }
}

pub fn device_event(kind: DeviceKind, device_id: u64, code: u16, value: i32) -> (r: Option<
    DeviceEvent,
>)
    ensures
        r == device_event_spec(kind, device_id, code, value),
{
    if is_pointer_button(code) {
        if value != 1 {
            return None;
        }
        Some(DeviceEvent::Click)
    } else if kind == DeviceKind::Keyboard {
        Some(DeviceEvent::Key(KeyEvent { device_id, code, value }))
    } else {
        None
    }
}

/// What a batch of raw events read from a device asks for: engine events to send,
/// or, last, a fresh read of the device's key state.
#[derive(Debug)]
pub enum StreamOut {
    Event(DeviceEvent),
    Resync,
}

/// What a batch of raw `(type, code, value)` events gives, with the stream's new
/// "dropped" flag. A report after lost events ends the batch: the key state read
/// afresh already covers the rest of it.
pub open spec fn batch_spec(
    dropped: bool,
    kind: DeviceKind,
    device_id: u64,
    events: Seq<(u16, u16, i32)>,
) -> (bool, Seq<StreamOut>)
    decreases events.len(),
{
    if events.len() == 0 {
        (dropped, Seq::empty())
    } else {
        let (t, c, v) = events[0];
        let (d1, action) = stream_step(dropped, t, c);
        let rest = batch_spec(d1, kind, device_id, events.drop_first());
        match action {
            StreamAction::Ignore => rest,
            StreamAction::Lost => (
                rest.0,
                seq![StreamOut::Event(DeviceEvent::LostEvents(device_id))] + rest.1,
            ),
            StreamAction::Resync => (d1, seq![StreamOut::Resync]),
            StreamAction::Key => match device_event_spec(kind, device_id, c, v) {
                Some(e) => (rest.0, seq![StreamOut::Event(e)] + rest.1),
                None => rest,
            },
        }
    }
}

impl EventStream {
    /// Turns a batch of raw events of a device into what is to be sent.
    pub fn take_batch(&mut self, kind: DeviceKind, device_id: u64, events: &Vec<(u16, u16, i32)>) -> (r:
        Vec<StreamOut>)
        ensures
            (final(self).dropped(), r@) == batch_spec(old(self).dropped(), kind, device_id, events@),
    {
        let ghost whole = batch_spec(self.dropped, kind, device_id, events@);
        let mut out: Vec<StreamOut> = Vec::new();
        let mut i: usize = 0;
        assert(events@.skip(0) =~= events@);
        while i < events.len()
            invariant
                i <= events.len(),
                whole == batch_spec(old(self).dropped(), kind, device_id, events@),
                whole.0 == batch_spec(self.dropped, kind, device_id, events@.skip(i as int)).0,
                whole.1 == out@ + batch_spec(self.dropped, kind, device_id, events@.skip(i as int)).1,
            decreases events.len() - i,
        {
            let (t, c, v) = events[i];
            let ghost d0 = self.dropped;
            let ghost o0 = out@;
            let ghost tail = events@.skip(i as int);
            proof {
                assert(tail[0] == events@[i as int]);
                assert(tail.drop_first() =~= events@.skip(i + 1));
            }
            let action = self.observe(t, c);
            match action {
                StreamAction::Ignore => {},
                StreamAction::Lost => {
                    out.push(StreamOut::Event(DeviceEvent::LostEvents(device_id)));
                    proof {
                        let rest = batch_spec(self.dropped, kind, device_id, events@.skip(i + 1));
                        assert(o0.push(StreamOut::Event(DeviceEvent::LostEvents(device_id))) + rest.1
                            =~= o0 + (seq![StreamOut::Event(DeviceEvent::LostEvents(device_id))]
                            + rest.1));
                    }
                },
                StreamAction::Resync => {
                    out.push(StreamOut::Resync);
                    proof {
                        assert(batch_spec(d0, kind, device_id, tail) == (self.dropped, seq![StreamOut::Resync]));
                        assert(o0.push(StreamOut::Resync) =~= o0 + seq![StreamOut::Resync]);
                        assert(out@ == whole.1);
                        assert(self.dropped == whole.0);
                        assert((self.dropped, out@) == whole);
                        assert(whole == batch_spec(old(self).dropped(), kind, device_id, events@));
                    }
                    return out;
                },
                StreamAction::Key => {
                    match device_event(kind, device_id, c, v) {
                        Some(e) => {
                            let ghost ge = e;
                            out.push(StreamOut::Event(e));
                            proof {
                                let rest = batch_spec(self.dropped, kind, device_id, events@.skip(i + 1));
                                assert(o0.push(StreamOut::Event(ge)) + rest.1 =~= o0 + (
                                seq![StreamOut::Event(ge)] + rest.1));
                            }
                        },
                        None => {},
                    }
                },
            }
            i += 1;
        }
        proof {
            assert(events@.skip(i as int) =~= Seq::<(u16, u16, i32)>::empty());
            assert(out@ + Seq::<StreamOut>::empty() =~= out@);
        }
        out
    }
}

/// A device event, stamped with the session generation it was read under.
#[derive(Debug)]
pub struct Message {
    pub generation: u64,
    pub event: DeviceEvent,
}

/// What the loop waiting between two synthetic keys learns.
#[derive(Debug)]
pub enum WaitEvent {
    /// The stop flag and the guard's generation, read afresh.
    Checked { stopped: bool, current_generation: u64 },
    /// A message arrived.
    Received(Message),
    /// The queue is empty and `remaining_ms` of the delay are left.
    Empty { remaining_ms: u64 },
    /// A bounded wait for a message ran out.
    TimedOut,
    /// The device threads are gone.
    Disconnected,
}

/// What the waiting loop is to do next.
#[derive(Clone, Copy, Debug, PartialEq, Eq, Structural)]
pub enum WaitAction {
    /// Read the stop flag and the guard's generation.
    Check,
    /// Look for a queued message without blocking.
    Poll,
    /// Wait for a message for at most this many milliseconds.
    Block(u64),
    /// Stop the correction: there was new input, a session change or a shutdown.
    Interrupt,
    /// The delay passed quietly: go on with the correction.
    Finish,
}

/// Longest single blocking wait, so that stop and session changes are seen promptly.
pub const CONTROL_INTERVAL_MS: u64 = 10;

pub open spec fn wait_action(generation: u64, event: WaitEvent) -> WaitAction {
    match event {
        WaitEvent::Checked { stopped, current_generation } => if stopped || current_generation
            != generation {
            WaitAction::Interrupt
        } else {
            WaitAction::Poll
        },
        WaitEvent::Received(_) => WaitAction::Interrupt,
        WaitEvent::Empty { remaining_ms } => if remaining_ms == 0 {
            WaitAction::Finish
        } else if remaining_ms < CONTROL_INTERVAL_MS {
            WaitAction::Block(remaining_ms)
        } else {
            WaitAction::Block(CONTROL_INTERVAL_MS)
        },
        WaitEvent::TimedOut => WaitAction::Check,
        WaitEvent::Disconnected => WaitAction::Interrupt,
    }
}

/// The engine after a message that arrives while a correction is typed: input of
/// the current generation is observed with all history dropped around it, stale
/// input only updates device state.
pub open spec fn interrupted_by(e: EngineView, m: Message, generation: u64, cfg: Config, now: u64) -> EngineView {
    if m.generation == generation {
        invalidated(observed(invalidated(e), m.event, cfg, now))
    } else {
        invalidated(with_device_state(e, m.event))
    }
}

/// The engine after the event loop receives a message: it is observed only when
/// both the message and the guard are of the loop's generation.
pub open spec fn delivered(
    e: EngineView,
    m: Message,
    generation: u64,
    current_generation: u64,
    cfg: Config,
    now: u64,
) -> EngineView {
    if m.generation == generation && current_generation == generation {
        observed(e, m.event, cfg, now)
    } else {
        invalidated(with_device_state(e, m.event))
    }
}

/// The engine after the event loop reads the guard: a new generation hands its
/// session to the engine, which forgets the typed history.
pub open spec fn synced(e: EngineView, generation: u64, ctx: GuardView, cfg: Config, now: u64) -> EngineView {
    if ctx.generation != generation {
        invalidated(EngineView { session: ctx.session, ..expired(e, cfg.buffer_timeout_ms, now) })
    } else {
        e
    }
}

impl Engine {
    /// Brings the engine up to the guard's `ctx`, read by the event loop that last saw
    /// `generation`; returns the generation the loop is at now.
    pub fn sync_session(&mut self, generation: u64, ctx: Context, cfg: &Config, now: u64) -> (r: u64)
        requires
            old(self).wf(),
            cfg.combos_nonempty(),
            now <= u64::MAX - READY_DELAY_MS,
        ensures
            final(self).wf(),
            r == ctx@.generation,
            final(self)@ == synced(old(self)@, generation, ctx@, *cfg, now),
    {
        let (current, session) = ctx.parts();
        if current != generation {
            self.observe(DeviceEvent::Session(session), cfg, now);
        }
        current
    }

    /// Handles a message of the event loop.
    pub fn deliver(
        &mut self,
        message: Message,
        generation: u64,
        current_generation: u64,
        cfg: &Config,
        now: u64,
    )
        requires
            old(self).wf(),
            cfg.combos_nonempty(),
            now <= u64::MAX - READY_DELAY_MS,
        ensures
            final(self).wf(),
            final(self)@ == delivered(old(self)@, message, generation, current_generation, *cfg, now),
    {
        if message.generation == generation && current_generation == generation {
            self.observe(message.event, cfg, now);
        } else {
            self.discard(message.event);
        }
    }

    /// One step of the wait between two synthetic keys of a correction.
    pub fn wait_step(&mut self, event: WaitEvent, generation: u64, cfg: &Config, now: u64) -> (r: WaitAction)
        requires
            old(self).wf(),
            cfg.combos_nonempty(),
            now <= u64::MAX - READY_DELAY_MS,
        ensures
            final(self).wf(),
            r == wait_action(generation, event),
            event matches WaitEvent::Received(m) ==> final(self)@ == interrupted_by(old(self)@, m, generation, *cfg, now),
            !(event is Received) ==> final(self)@ == old(self)@,
    {
        match event {
            WaitEvent::Checked { stopped, current_generation } => {
                if stopped || current_generation != generation {
                    WaitAction::Interrupt
                } else {
                    WaitAction::Poll
                }
            },
            WaitEvent::Received(message) => {
                if message.generation == generation {
                    self.during_fix(message.event, cfg, now);
                } else {
                    self.discard(message.event);
                }
                WaitAction::Interrupt
            },
            WaitEvent::Empty { remaining_ms } => {
                if remaining_ms == 0 {
                    WaitAction::Finish
                } else if remaining_ms < CONTROL_INTERVAL_MS {
                    WaitAction::Block(remaining_ms)
                } else {
                    WaitAction::Block(CONTROL_INTERVAL_MS)
                }
            },
            WaitEvent::TimedOut => WaitAction::Check,
            WaitEvent::Disconnected => WaitAction::Interrupt,
        }
    }
}


/// Input read under another session generation, or handled after the session
/// changed, never reaches the text buffer: it only updates device state, and the
/// history is forgotten.
pub proof fn lemma_stale_input_is_not_typed(
    e: EngineView,
    m: Message,
    generation: u64,
    current_generation: u64,
    cfg: Config,
    now: u64,
)
    requires
        m.generation != generation || current_generation != generation,
    ensures
        delivered(e, m, generation, current_generation, cfg, now) == invalidated(
            with_device_state(e, m.event),
        ),
{
}

/// Input that arrives during a correction leaves no history behind, whatever it is.
pub proof fn lemma_interrupt_forgets(e: EngineView, m: Message, generation: u64, cfg: Config, now: u64)
    ensures
        interrupted_by(e, m, generation, cfg, now).buffer.len() == 0,
        interrupted_by(e, m, generation, cfg, now).pending is None,
{
}

/// After the kernel dropped events nothing is taken as a key, and only the next
/// report ends the gap (asking for the key state to be read afresh).
pub proof fn lemma_dropped_until_report(event_type: u16, code: u16)
    ensures
        stream_step(true, event_type, code).1 != StreamAction::Key,
        !stream_step(true, event_type, code).0 <==> (event_type == EV_SYN && code == SYN_REPORT),
        stream_step(true, event_type, code).1 == StreamAction::Resync <==> (event_type == EV_SYN
            && code == SYN_REPORT),
{
}

/// On a keyboard stream that has lost no events, every key event that is not a
/// pointer button becomes exactly one engine key event with the same device, code and
/// value (presses, repeats and releases alike), in order.
pub proof fn lemma_keyboard_keys_pass_through(device_id: u64, events: Seq<(u16, u16, i32)>)
    requires
        forall|i: int| 0 <= i < events.len() ==> (#[trigger] events[i]).0 == EV_KEY && !pointer_button(
            events[i].1,
        ),
    ensures
        batch_spec(false, DeviceKind::Keyboard, device_id, events) == (
            false,
            Seq::new(
                events.len(),
                |i: int|
                    StreamOut::Event(
                        DeviceEvent::Key(
                            KeyEvent { device_id, code: events[i].1, value: events[i].2 },
                        ),
                    ),
            ),
        ),
    decreases events.len(),
{
    let want = Seq::new(
        events.len(),
        |i: int|
            StreamOut::Event(
                DeviceEvent::Key(KeyEvent { device_id, code: events[i].1, value: events[i].2 }),
            ),
    );
    if events.len() == 0 {
        assert(want =~= Seq::<StreamOut>::empty());
    } else {
        let rest = events.drop_first();
        assert forall|i: int| 0 <= i < rest.len() implies (#[trigger] rest[i]).0 == EV_KEY
            && !pointer_button(rest[i].1) by {
            assert(rest[i] == events[i + 1]);
        }
        lemma_keyboard_keys_pass_through(device_id, rest);
        assert(events[0].0 == EV_KEY && !pointer_button(events[0].1));
        let tail = Seq::new(
            rest.len(),
            |i: int|
                StreamOut::Event(
                    DeviceEvent::Key(KeyEvent { device_id, code: rest[i].1, value: rest[i].2 }),
                ),
        );
        assert(seq![want[0]] + tail =~= want) by {
            assert forall|i: int| 0 <= i < tail.len() implies tail[i] == want[i + 1] by {
                assert(rest[i] == events[i + 1]);
            }
        }
    }
}

} // verus!
