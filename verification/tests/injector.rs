use std::collections::HashSet;
use std::io;

use punto_rs::config::Config;
use punto_rs::injector::{FixError, Injector, KeyOutput};
use punto_rs::state::Stroke;

#[derive(Default)]
struct Output {
    events: Vec<(u16, i32)>,
    fail_at: Option<usize>,
    calls: usize,
}

impl KeyOutput for Output {
    fn emit_key(&mut self, code: u16, value: i32) -> io::Result<()> {
        self.calls += 1;
        self.events.push((code, value));
        if self.fail_at == Some(self.calls) {
            Err(io::Error::other("partial write"))
        } else {
            Ok(())
        }
    }
}

fn word() -> [Stroke; 2] {
    [
        Stroke {
            code: 30,
            shift: true,
        },
        Stroke {
            code: 48,
            shift: false,
        },
    ]
}

fn assert_released(events: &[(u16, i32)]) {
    let mut held = HashSet::new();
    for &(code, value) in events {
        if value == 1 {
            held.insert(code);
        } else {
            held.remove(&code);
        }
    }
    assert!(held.is_empty(), "stuck keys: {held:?}; events: {events:?}");
}

#[test]
fn emits_exact_sequence_including_releases() {
    let mut injector = Injector::with_output(Output::default());
    injector
        .fix(&word(), &Config::default(), |_| Ok(()))
        .unwrap();
    assert_eq!(
        injector.output().events,
        vec![
            (14, 1),
            (14, 0),
            (14, 1),
            (14, 0),
            (125, 1),
            (57, 1),
            (57, 0),
            (125, 0),
            (42, 1),
            (30, 1),
            (30, 0),
            (42, 0),
            (48, 1),
            (48, 0),
        ]
    );
}

#[test]
fn releases_keys_after_every_possible_partial_write_failure() {
    for fail_at in 1..=14 {
        let mut injector = Injector::with_output(Output {
            fail_at: Some(fail_at),
            ..Output::default()
        });
        assert!(injector
            .fix(&word(), &Config::default(), |_| Ok(()))
            .is_err());
        assert_released(&injector.output().events);
        assert!(injector.output().events[fail_at..]
            .iter()
            .all(|(_, value)| *value == 0));
    }
}

#[test]
fn cancels_at_every_wait_without_leaving_keys_pressed() {
    let mut waits = 0;
    Injector::with_output(Output::default())
        .fix(&word(), &Config::default(), |_| {
            waits += 1;
            Ok(())
        })
        .unwrap();
    for cancel_at in 1..=waits {
        let mut count = 0;
        let mut injector = Injector::with_output(Output::default());
        let result = injector.fix(&word(), &Config::default(), |_| {
            count += 1;
            if count == cancel_at {
                Err(io::Error::new(io::ErrorKind::Interrupted, "new input"))
            } else {
                Ok(())
            }
        });
        assert_eq!(result.unwrap_err().into_io().kind(), io::ErrorKind::Interrupted);
        assert_released(&injector.output().events);
        assert_eq!(count, cancel_at);
    }
}

#[test]
fn cleanup_failure_is_fatal_even_when_correction_was_cancelled() {
    let mut injector = Injector::with_output(Output {
        fail_at: Some(2),
        ..Output::default()
    });
    let mut count = 0;
    let err = injector
        .fix(&word(), &Config::default(), |_| {
            count += 1;
            if count == 2 {
                Err(io::Error::new(io::ErrorKind::Interrupted, "cancel"))
            } else {
                Ok(())
            }
        })
        .unwrap_err();
    assert!(matches!(err, FixError::Cleanup(_)));
    assert!(err.is_fatal());
    assert_eq!(err.into_io().kind(), io::ErrorKind::Other);
}

#[test]
fn empty_buffer_does_not_switch_layout() {
    let mut injector = Injector::with_output(Output::default());
    injector
        .fix(&[], &Config::default(), |_| panic!("unexpected wait"))
        .unwrap();
    assert!(injector.output().events.is_empty());
}

#[test]
fn waits_follow_the_configured_delays() {
    let mut delays = Vec::new();
    let cfg = Config {
        key_delay_ms: 3,
        post_backspace_ms: 40,
        switch_delay_ms: 50,
        layout_switch: vec![29, 42],
        ..Config::default()
    };
    let mut injector = Injector::with_output(Output::default());
    injector
        .fix(&[Stroke { code: 30, shift: false }], &cfg, |d| {
            delays.push(d.as_millis() as u64);
            Ok(())
        })
        .unwrap();
    assert_eq!(
        injector.output().events,
        vec![(14, 1), (14, 0), (29, 1), (42, 1), (42, 0), (29, 0), (30, 1), (30, 0)]
    );
    assert_eq!(
        delays,
        vec![0, 3, 0, 3, 40, 0, 3, 0, 3, 0, 3, 0, 3, 50, 0, 3, 0, 3]
    );
}

#[test]
fn key_left_by_failed_cleanup_is_released_later() {
    let mut injector = Injector::with_output(Output {
        fail_at: Some(2),
        ..Output::default()
    });
    let mut count = 0;
    let err = injector
        .fix(&word(), &Config::default(), |_| {
            count += 1;
            if count == 2 {
                Err(io::Error::new(io::ErrorKind::Interrupted, "cancel"))
            } else {
                Ok(())
            }
        })
        .unwrap_err();
    assert!(matches!(err, FixError::Cleanup(_)));
    assert!(err.is_fatal());
    assert_eq!(err.into_io().kind(), io::ErrorKind::Other);
    assert_eq!(injector.output().events, vec![(14, 1), (14, 0)]);
    assert!(injector.release_all().is_ok());
    assert_eq!(injector.output().events, vec![(14, 1), (14, 0), (14, 0)]);
    assert!(injector.release_all().is_ok());
    assert_eq!(injector.output().events.len(), 3, "nothing left to release");
}

#[test]
fn an_interrupted_step_is_not_fatal_but_a_failed_write_is() {
    let mut count = 0;
    let err = Injector::with_output(Output::default())
        .fix(&word(), &Config::default(), |_| {
            count += 1;
            if count == 3 {
                Err(io::Error::new(io::ErrorKind::Interrupted, "new input"))
            } else {
                Ok(())
            }
        })
        .unwrap_err();
    assert!(matches!(err, FixError::Step(_)));
    assert!(!err.is_fatal());
    let err = Injector::with_output(Output { fail_at: Some(1), ..Output::default() })
        .fix(&word(), &Config::default(), |_| Ok(()))
        .unwrap_err();
    assert!(matches!(err, FixError::Step(_)));
    assert!(err.is_fatal());
}
