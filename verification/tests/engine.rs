use punto_rs::config::Config;
use punto_rs::engine::{DeviceEvent, Engine, HeldKeys, KeyEvent, PendingFix};
use punto_rs::keys;
use punto_rs::state::Stroke;

struct Harness {
    engine: Engine,
    cfg: Config,
    now: u64,
}

impl Harness {
    fn new() -> Self {
        let cfg = Config {
            session_guard: false,
            ..Config::default()
        };
        let now = 1_000_000;
        Self {
            engine: Engine::new(&cfg, now),
            cfg,
            now,
        }
    }
    fn event(&mut self, event: DeviceEvent) {
        self.engine.observe(event, &self.cfg, self.now);
    }
    fn key(&mut self, device_id: u64, code: u16, value: i32) {
        self.event(DeviceEvent::Key(KeyEvent {
            device_id,
            code,
            value,
        }));
    }
    fn tap(&mut self, code: u16) {
        self.key(1, code, 1);
        self.key(1, code, 0);
    }
    fn ready(&mut self) -> Option<PendingFix> {
        self.now += 31;
        self.engine.take_ready(&self.cfg, self.now)
    }
    fn fix(&mut self) -> Option<PendingFix> {
        self.tap(keys::KEY_INSERT);
        self.ready()
    }
}

#[test]
fn word_and_phrase_preserve_shift_and_trailing_space() {
    let mut h = Harness::new();
    h.tap(16);
    h.tap(keys::KEY_SPACE);
    h.key(1, 42, 1);
    h.tap(17);
    h.key(1, 42, 0);
    h.tap(57);
    let fix = h.fix().unwrap();
    assert!(!fix.phrase);
    assert_eq!(
        fix.strokes,
        vec![
            Stroke {
                code: 17,
                shift: true
            },
            Stroke {
                code: 57,
                shift: false
            }
        ]
    );
    h.key(1, 125, 1);
    h.tap(110);
    h.key(1, 125, 0);
    let fix = h.ready().unwrap();
    assert!(fix.phrase);
    assert_eq!(fix.strokes.len(), 4);
}

#[test]
fn navigation_tab_shift_tab_and_click_forget_previous_field() {
    for code in [
        keys::KEY_TAB,
        keys::KEY_ENTER,
        keys::KEY_KPENTER,
        105,
        106,
        102,
        107,
        111,
    ] {
        for shift in [false, true] {
            let mut h = Harness::new();
            h.tap(30);
            if shift {
                h.key(1, 42, 1);
            }
            h.tap(code);
            if shift {
                h.key(1, 42, 0);
            }
            assert!(h.fix().is_none(), "code={code}, shift={shift}");
        }
    }
    let mut h = Harness::new();
    h.tap(30);
    h.event(DeviceEvent::Click);
    assert!(h.fix().is_none());
}

#[test]
fn shift_insert_does_not_correct() {
    let mut h = Harness::new();
    h.tap(30);
    h.key(1, 42, 1);
    h.tap(110);
    h.key(1, 42, 0);
    assert!(h.ready().is_none());
    assert!(h.fix().is_none());
}

#[test]
fn waits_for_release_and_cancels_on_new_input() {
    let mut h = Harness::new();
    h.tap(30);
    h.key(1, 110, 1);
    assert!(h.ready().is_none());
    h.key(1, 110, 0);
    assert!(h.engine.take_ready(&h.cfg, h.now).is_none());
    h.tap(48);
    assert!(h.ready().is_none());
    assert!(h.fix().is_none());
}

#[test]
fn same_modifier_on_two_keyboards_is_not_released_early() {
    let mut h = Harness::new();
    h.tap(30);
    h.key(1, 125, 1);
    h.key(2, 125, 1);
    h.tap(110);
    h.key(1, 125, 0);
    assert!(h.ready().is_none());
    h.key(2, 125, 0);
    assert!(h.ready().unwrap().phrase);
}

#[test]
fn loss_and_device_reconnect_cancel_pending_and_replace_held_state() {
    let mut h = Harness::new();
    h.tap(30);
    h.tap(110);
    h.event(DeviceEvent::LostEvents(1));
    assert!(h.ready().is_none());
    h.key(1, 29, 1);
    h.event(DeviceEvent::Resynced {
        device_id: 1,
        held_keys: vec![],
    });
    h.tap(30);
    assert!(h.fix().is_some());
    h.event(DeviceEvent::Disconnected(1));
    assert!(h.fix().is_none());
}

#[test]
fn no_correction_until_lost_device_is_resynchronized() {
    let mut h = Harness::new();
    h.event(DeviceEvent::LostEvents(2));
    h.tap(30);
    assert!(h.fix().is_none());
    h.event(DeviceEvent::Resynced {
        device_id: 2,
        held_keys: vec![],
    });
    h.tap(30);
    assert!(h.fix().is_some());
}

#[test]
fn pause_and_session_changes_discard_sensitive_history() {
    let mut h = Harness::new();
    h.tap(30);
    h.key(1, 125, 1);
    h.tap(119);
    h.key(1, 125, 0);
    assert!(h.engine.paused);
    h.tap(48);
    assert!(h.fix().is_none());
    h.key(1, 125, 1);
    h.tap(119);
    h.key(1, 125, 0);
    assert!(!h.engine.paused);
    assert!(h.fix().is_none());
    h.tap(30);
    h.event(DeviceEvent::Session(None));
    h.tap(48);
    assert!(h.fix().is_none());
    h.event(DeviceEvent::Session(Some("new-session".into())));
    assert!(h.fix().is_none());
    h.tap(30);
    assert!(h.fix().is_some());
}

#[test]
fn idle_and_repeat_invalidate_history() {
    let mut h = Harness::new();
    h.tap(30);
    h.now += h.cfg.buffer_timeout_ms;
    assert!(h.fix().is_none());
    h.tap(30);
    h.key(1, 30, 2);
    assert!(h.fix().is_none());
}

#[test]
fn abort_does_not_retain_old_or_interleaved_text() {
    let mut h = Harness::new();
    h.tap(30);
    assert!(h.fix().is_some());
    h.engine.during_fix(
        DeviceEvent::Key(KeyEvent {
            device_id: 1,
            code: 48,
            value: 1,
        }),
        &h.cfg,
        h.now,
    );
    h.key(1, 48, 0);
    assert!(h.fix().is_none());
}

#[test]
fn guarded_engine_waits_for_a_session() {
    let cfg = Config::default();
    let mut engine = Engine::new(&cfg, 0);
    for value in [1, 0] {
        engine.observe(DeviceEvent::Key(KeyEvent { device_id: 1, code: 30, value }), &cfg, 0);
    }
    for value in [1, 0] {
        engine.observe(DeviceEvent::Key(KeyEvent { device_id: 1, code: 110, value }), &cfg, 0);
    }
    assert!(engine.take_ready(&cfg, 100).is_none());
    engine.observe(DeviceEvent::Session(Some("c1".into())), &cfg, 100);
    for code in [30, 110] {
        for value in [1, 0] {
            engine.observe(DeviceEvent::Key(KeyEvent { device_id: 1, code, value }), &cfg, 100);
        }
    }
    let fix = engine.take_ready(&cfg, 200).unwrap();
    assert_eq!(fix.strokes, vec![Stroke { code: 30, shift: false }]);
    assert!(engine.take_ready(&cfg, 300).is_none(), "a fix is handed out once");
}

#[test]
fn backspace_removes_last_stroke_and_layout_switch_forgets() {
    let mut h = Harness::new();
    h.tap(30);
    h.tap(31);
    h.tap(keys::KEY_BACKSPACE);
    let fix = h.fix().unwrap();
    assert_eq!(fix.strokes, vec![Stroke { code: 30, shift: false }]);
    let mut h = Harness::new();
    h.tap(30);
    h.key(1, 125, 1);
    h.tap(57);
    h.key(1, 125, 0);
    assert!(h.fix().is_none());
}

#[test]
fn command_shortcut_forgets_history() {
    let mut h = Harness::new();
    h.tap(30);
    h.key(1, 29, 1);
    h.tap(46);
    h.key(1, 29, 0);
    assert!(h.fix().is_none());
}

#[test]
fn invalidate_and_discard_drop_pending_fix() {
    let mut h = Harness::new();
    h.tap(30);
    h.tap(110);
    h.engine.invalidate();
    assert!(h.ready().is_none());
    let mut h = Harness::new();
    h.tap(30);
    h.tap(110);
    h.engine.discard(DeviceEvent::Click);
    assert!(h.ready().is_none());
}

#[test]
fn expire_forgets_after_timeout_only() {
    let mut h = Harness::new();
    h.tap(30);
    let t = h.now + h.cfg.buffer_timeout_ms - 1;
    h.engine.expire(&h.cfg, t);
    h.now = t;
    assert!(h.fix().is_some());
}

#[test]
fn held_keys_track_each_device() {
    let mut held = HeldKeys::new();
    let key = |device_id: u64, code: u16, value: i32| DeviceEvent::Key(KeyEvent { device_id, code, value });
    held.observe(&key(1, 125, 1));
    held.observe(&key(2, 125, 1));
    held.observe(&key(1, 110, 1));
    assert!(held.matches(&vec![125, 110]));
    held.observe(&key(1, 125, 0));
    assert!(held.matches(&vec![125, 110]));
    held.observe(&DeviceEvent::Disconnected(2));
    assert!(held.matches(&vec![110]));
    held.observe(&DeviceEvent::Resynced { device_id: 1, held_keys: vec![42] });
    assert!(held.shift());
    assert!(!held.matches(&vec![110]));
    held.observe(&key(1, 42, 0));
    assert!(held.is_empty());
}
