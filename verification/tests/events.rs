use std::time::{Duration, Instant};

use punto_rs::config::Config;
use punto_rs::engine::{DeviceEvent, Engine, KeyEvent};
use punto_rs::events::{
    device_event, DeviceKind, EventStream, Message, StreamAction, StreamOut, WaitAction,
    WaitEvent, EV_KEY, EV_SYN,
};
use punto_rs::session::SessionGuard;
use punto_rs::keys;

#[test]
fn dropped_events_are_ignored_until_report() {
    let mut stream = EventStream::new();
    assert_eq!(stream.observe(EV_SYN, 3), StreamAction::Lost);
    assert_eq!(stream.observe(EV_KEY, 30), StreamAction::Ignore);
    assert_eq!(stream.observe(EV_SYN, 0), StreamAction::Resync);
    assert_eq!(stream.observe(EV_KEY, 30), StreamAction::Key);
}

#[test]
fn new_input_interrupts_long_wait_immediately() {
    let cfg = Config {
        session_guard: false,
        ..Config::default()
    };
    let mut engine = Engine::new(&cfg, 0);
    let mut guard = SessionGuard::new(false);
    let started = Instant::now();
    let generation = guard.context(0).generation;
    let check = WaitEvent::Checked {
        stopped: false,
        current_generation: generation,
    };
    assert_eq!(engine.wait_step(check, 0, &cfg, 0), WaitAction::Poll);
    let message = Message {
        generation: 0,
        event: DeviceEvent::Click,
    };
    assert_eq!(
        engine.wait_step(WaitEvent::Received(message), 0, &cfg, 0),
        WaitAction::Interrupt
    );
    assert!(started.elapsed() < Duration::from_secs(1));
}

#[test]
fn session_change_and_shutdown_cancel_before_next_key() {
    let cfg = Config::default();
    let mut guard = SessionGuard::new(true);
    let mut engine = Engine::new(&cfg, 0);
    guard.set(Some("session".into()), 0);
    let current = guard.context(0).generation;
    assert_eq!(
        engine.wait_step(
            WaitEvent::Checked {
                stopped: false,
                current_generation: current
            },
            0,
            &cfg,
            0
        ),
        WaitAction::Interrupt
    );
    assert_eq!(
        engine.wait_step(
            WaitEvent::Checked {
                stopped: true,
                current_generation: current
            },
            1,
            &cfg,
            0
        ),
        WaitAction::Interrupt
    );
}

#[test]
fn quiet_wait_blocks_in_short_slices_then_finishes() {
    let cfg = Config::default();
    let mut engine = Engine::new(&cfg, 0);
    assert_eq!(engine.wait_step(WaitEvent::Empty { remaining_ms: 120 }, 0, &cfg, 0), WaitAction::Block(10));
    assert_eq!(engine.wait_step(WaitEvent::Empty { remaining_ms: 4 }, 0, &cfg, 0), WaitAction::Block(4));
    assert_eq!(engine.wait_step(WaitEvent::TimedOut, 0, &cfg, 0), WaitAction::Check);
    assert_eq!(engine.wait_step(WaitEvent::Empty { remaining_ms: 0 }, 0, &cfg, 0), WaitAction::Finish);
    assert_eq!(engine.wait_step(WaitEvent::Disconnected, 0, &cfg, 0), WaitAction::Interrupt);
}

#[test]
fn pointer_buttons_click_and_keys_count_on_keyboards_only() {
    assert!(matches!(device_event(DeviceKind::Pointer, 3, 0x110, 1), Some(DeviceEvent::Click)));
    assert!(device_event(DeviceKind::Pointer, 3, 0x110, 0).is_none());
    assert!(device_event(DeviceKind::Pointer, 3, 30, 1).is_none());
    assert!(matches!(
        device_event(DeviceKind::Keyboard, 3, 30, 2),
        Some(DeviceEvent::Key(KeyEvent { device_id: 3, code: 30, value: 2 }))
    ));
}

#[test]
fn stale_messages_only_track_device_state() {
    let cfg = Config {
        session_guard: false,
        ..Config::default()
    };
    let mut engine = Engine::new(&cfg, 0);
    for (code, value) in [(30, 1), (30, 0)] {
        engine.deliver(
            Message { generation: 0, event: DeviceEvent::Key(KeyEvent { device_id: 1, code, value }) },
            0,
            0,
            &cfg,
            0,
        );
    }
    // A message of an old generation is not typed, and forgets the history.
    engine.deliver(
        Message { generation: 5, event: DeviceEvent::Key(KeyEvent { device_id: 1, code: 31, value: 1 }) },
        0,
        0,
        &cfg,
        0,
    );
    for value in [1, 0] {
        engine.deliver(
            Message { generation: 0, event: DeviceEvent::Key(KeyEvent { device_id: 1, code: 110, value }) },
            0,
            0,
            &cfg,
            0,
        );
    }
    // The stale press of 31 is still held, so the hotkey does not match.
    assert!(engine.take_ready(&cfg, 100).is_none());
}

#[test]
fn a_new_session_generation_forgets_typed_text() {
    let cfg = Config {
        session_guard: true,
        ..Config::default()
    };
    let mut engine = Engine::new(&cfg, 0);
    let mut guard = SessionGuard::new(true);
    guard.set(Some("a".into()), 0);
    let mut generation = u64::MAX;
    generation = engine.sync_session(generation, guard.context(0), &cfg, 0);
    assert_eq!(generation, 1);
    let tap = |engine: &mut Engine, code: u16| {
        for value in [1, 0] {
            engine.observe(
                DeviceEvent::Key(KeyEvent { device_id: 1, code, value }),
                &cfg,
                0,
            );
        }
    };
    tap(&mut engine, 30);
    // The same generation changes nothing.
    generation = engine.sync_session(generation, guard.context(0), &cfg, 0);
    assert_eq!(generation, 1);
    tap(&mut engine, keys::KEY_INSERT);
    assert!(engine.take_ready(&cfg, 31).is_some());
    tap(&mut engine, 30);
    guard.set(Some("b".into()), 0);
    generation = engine.sync_session(generation, guard.context(0), &cfg, 0);
    assert_eq!(generation, 2);
    tap(&mut engine, keys::KEY_INSERT);
    assert!(engine.take_ready(&cfg, 62).is_none());
}

#[test]
fn a_report_after_lost_events_ends_the_batch() {
    let mut stream = EventStream::new();
    let batch = vec![
        (EV_KEY, 30, 1),
        (EV_SYN, 3, 0),
        (EV_KEY, 31, 1),
        (EV_SYN, 0, 0),
        (EV_KEY, 32, 1),
    ];
    let out = stream.take_batch(DeviceKind::Keyboard, 7, &batch);
    assert_eq!(out.len(), 3);
    assert!(matches!(
        out[0],
        StreamOut::Event(DeviceEvent::Key(KeyEvent { device_id: 7, code: 30, value: 1 }))
    ));
    assert!(matches!(out[1], StreamOut::Event(DeviceEvent::LostEvents(7))));
    assert!(matches!(out[2], StreamOut::Resync));
    let next = stream.take_batch(DeviceKind::Pointer, 7, &vec![(EV_KEY, 0x110, 1), (EV_KEY, 30, 1)]);
    assert_eq!(next.len(), 1);
    assert!(matches!(next[0], StreamOut::Event(DeviceEvent::Click)));
}
