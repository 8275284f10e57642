//! Typing and hotkey state, with no access to devices or to the system clock:
//! time comes in as milliseconds of a monotonic clock.
use vstd::prelude::*;

use std::collections::HashSet;

use crate::config::Config;
use crate::keys::{
    char_key, command_key, is_char, is_command_modifier, is_phrase_end, is_separator, is_shift,
    phrase_end_key, separator_key, shift_key, KEY_BACKSPACE, KEY_TAB,
};
use crate::session::session_of;
use crate::state::{capped, last_word_of, Buffer, Stroke};

verus! {

broadcast use vstd::std_specs::hash::group_hash_axioms;

/// How long after the hotkey's last release a pending fix becomes ready.
pub const READY_DELAY_MS: u64 = 30;

#[derive(Debug)]
pub struct KeyEvent {
    pub device_id: u64,
    pub code: u16,
    pub value: i32,
}

#[derive(Debug)]
pub enum DeviceEvent {
    Resynced { device_id: u64, held_keys: Vec<u16> },
    Key(KeyEvent),
    Click,
    Disconnected(u64),
    Session(Option<String>),
    LostEvents(u64),
}

/// The keys currently held, per device.
pub struct HeldKeys {
    keys: Vec<(u64, u16)>,
}

/// A correction waiting for the hotkey to be released.
pub struct PendingFix {
    pub strokes: Vec<Stroke>,
    pub phrase: bool,
    trigger: u16,
    ready_at: Option<u64>,
}

pub struct Engine {
    buffer: Buffer,
    held: HeldKeys,
    pending: Option<PendingFix>,
    pub paused: bool,
    session: Option<String>,
    last_input: u64,
    unsynced: HashSet<u64>,
}

/// The abstract state of a pending fix.
pub struct FixView {
    pub strokes: Seq<Stroke>,
    pub phrase: bool,
    pub trigger: u16,
    pub ready_at: Option<u64>,
}

/// The abstract state of the engine.
pub struct EngineView {
    pub buffer: Seq<Stroke>,
    pub limit: nat,
    pub held: Set<(u64, u16)>,
    pub pending: Option<FixView>,
    pub paused: bool,
    pub session: Option<Seq<char>>,
    pub last_input: u64,
    pub unsynced: Set<u64>,
}

/// The key codes held on any device.
pub open spec fn codes_of(held: Set<(u64, u16)>) -> Set<u16> {
    Set::new(|c: u16| exists|id: u64| held.contains((id, c)))
}

pub open spec fn code_set(s: Seq<u16>) -> Set<u16> {
    Set::new(|c: u16| s.contains(c))
}

/// Exactly the keys of `combo` are held (on any devices), and nothing else.
pub open spec fn combo_held(held: Set<(u64, u16)>, combo: Seq<u16>) -> bool {
    codes_of(held) == code_set(combo)
}

pub open spec fn shift_held(held: Set<(u64, u16)>) -> bool {
    exists|p: (u64, u16)| held.contains(p) && shift_key(p.1)
}

pub open spec fn command_held(held: Set<(u64, u16)>) -> bool {
    exists|p: (u64, u16)| held.contains(p) && command_key(p.1)
}

/// The held keys after a device event.
pub open spec fn held_after(held: Set<(u64, u16)>, event: DeviceEvent) -> Set<(u64, u16)> {
    match event {
        DeviceEvent::Resynced { device_id, held_keys } => held.filter(
            |p: (u64, u16)| p.0 != device_id,
        ).union(Set::new(|p: (u64, u16)| p.0 == device_id && held_keys@.contains(p.1))),
        DeviceEvent::Key(k) => if k.value == 0 {
            held.remove((k.device_id, k.code))
        } else if k.value == 1 {
            held.insert((k.device_id, k.code))
        } else {
            held
        },
        DeviceEvent::Disconnected(device_id) => held.filter(|p: (u64, u16)| p.0 != device_id),
        _ => held,
    }
}

/// The devices whose event stream lost events and has not been resynchronised yet.
pub open spec fn unsynced_after(unsynced: Set<u64>, event: DeviceEvent) -> Set<u64> {
    match event {
        DeviceEvent::LostEvents(id) => unsynced.insert(id),
        DeviceEvent::Resynced { device_id, .. } => unsynced.remove(device_id),
        DeviceEvent::Disconnected(device_id) => unsynced.remove(device_id),
        _ => unsynced,
    }
}

/// Device state (held keys, lost streams) after an event.
pub open spec fn with_device_state(e: EngineView, event: DeviceEvent) -> EngineView {
    EngineView {
        held: held_after(e.held, event),
        unsynced: unsynced_after(e.unsynced, event),
        ..e
    }
}

/// History forgotten: no typed strokes and no pending fix.
pub open spec fn invalidated(e: EngineView) -> EngineView {
    EngineView { buffer: Seq::empty(), pending: None, ..e }
}

/// Milliseconds since the last typed key (zero when the clock is behind it).
pub open spec fn idle_for(e: EngineView, now: u64) -> nat {
    if now >= e.last_input {
        (now - e.last_input) as nat
    } else {
        0
    }
}

pub open spec fn expired(e: EngineView, timeout: u64, now: u64) -> EngineView {
    if idle_for(e, now) >= timeout {
        invalidated(e)
    } else {
        e
    }
}

/// A fix of the phrase or of the last word is set up, if there is anything to fix.
pub open spec fn start_fix(e: EngineView, phrase: bool, trigger: u16) -> EngineView {
    let strokes = if phrase {
        e.buffer
    } else {
        last_word_of(e.buffer)
    };
    if strokes.len() == 0 {
        e
    } else {
        EngineView {
            pending: Some(FixView { strokes, phrase, trigger, ready_at: None }),
            ..e
        }
    }
}

/// A key press or repeat that reaches the text buffer.
pub open spec fn typed(e: EngineView, k: KeyEvent, cfg: Config, now: u64) -> EngineView {
    let e1 = EngineView { last_input: now, ..e };
    if k.value != 1 {
        // An evdev repeat does not guarantee as many characters on screen.
        invalidated(e1)
    } else if k.code == cfg.phrase_hotkey@.last() && combo_held(e1.held, cfg.phrase_hotkey@) {
        start_fix(e1, true, k.code)
    } else if k.code == cfg.hotkey@.last() && combo_held(e1.held, cfg.hotkey@) {
        start_fix(e1, false, k.code)
    } else if combo_held(e1.held, cfg.layout_switch@) {
        invalidated(e1)
    } else if shift_key(k.code) || command_key(k.code) {
        e1
    } else if command_held(e1.held) {
        invalidated(e1)
    } else if k.code == KEY_BACKSPACE {
        EngineView {
            buffer: if e1.buffer.len() == 0 {
                e1.buffer
            } else {
                e1.buffer.drop_last()
            },
            ..e1
        }
    } else if k.code == KEY_TAB || phrase_end_key(k.code) {
        invalidated(e1)
    } else if char_key(k.code) || separator_key(k.code) {
        EngineView {
            buffer: capped(
                e1.buffer.push(Stroke { code: k.code, shift: shift_held(e1.held) }),
                e1.limit,
            ),
            ..e1
        }
    } else {
        invalidated(e1)
    }
}

/// A key event, after device state has been tracked.
pub open spec fn key_step(e: EngineView, k: KeyEvent, cfg: Config, now: u64) -> EngineView {
    if k.value == 1 && k.code == cfg.pause_hotkey@.last() && combo_held(e.held, cfg.pause_hotkey@) {
        invalidated(EngineView { paused: !e.paused, ..e })
    } else if e.paused || e.session is None || !e.unsynced.is_empty() {
        invalidated(e)
    } else if e.pending is Some {
        let p = e.pending->0;
        if k.value == 1 || (k.value == 2 && k.code != p.trigger) {
            invalidated(e)
        } else if e.held.is_empty() {
            EngineView {
                pending: Some(FixView { ready_at: Some((now + READY_DELAY_MS) as u64), ..p }),
                ..e
            }
        } else {
            e
        }
    } else if k.value == 0 {
        e
    } else {
        typed(e, k, cfg, now)
    }
}

/// The engine state after `observe(event, cfg, now)`.
pub open spec fn observed(e: EngineView, event: DeviceEvent, cfg: Config, now: u64) -> EngineView {
    let e1 = with_device_state(expired(e, cfg.buffer_timeout_ms, now), event);
    match event {
        DeviceEvent::Session(s) => invalidated(EngineView { session: session_of(s), ..e1 }),
        DeviceEvent::Key(k) => key_step(e1, k, cfg, now),
        _ => invalidated(e1),
    }
}

/// What every reachable engine state satisfies.
pub open spec fn inv(e: EngineView) -> bool {
    &&& e.limit >= 1
    &&& e.buffer.len() <= e.limit
    &&& e.pending is Some ==> {
        let p = e.pending->0;
        &&& p.strokes.len() > 0
        &&& p.strokes == if p.phrase {
            e.buffer
        } else {
            last_word_of(e.buffer)
        }
        &&& !e.paused
        &&& e.session is Some
        &&& e.unsynced.is_empty()
    }
}

impl View for HeldKeys {
    type V = Set<(u64, u16)>;

    /// The `(device, key)` pairs held.
    closed spec fn view(&self) -> Set<(u64, u16)> {
        Set::new(|p: (u64, u16)| self.keys@.contains(p))
    }
}

impl HeldKeys {
    pub fn new() -> (h: Self)
        ensures
            h.view() == Set::<(u64, u16)>::empty(),
    {
        let h = HeldKeys { keys: Vec::new() };
        assert(h.view() =~= Set::<(u64, u16)>::empty());
        h
    }

    pub fn is_empty(&self) -> (r: bool)
        ensures
            r == self.view().is_empty(),
    {
        if self.keys.len() == 0 {
            assert(self.view() =~= Set::<(u64, u16)>::empty());
            true
        } else {
            assert(self.view().contains(self.keys@[0]));
            false
        }
    }

    fn contains(&self, p: (u64, u16)) -> (r: bool)
        ensures
            r == self.view().contains(p),
    {
        let mut i: usize = 0;
        while i < self.keys.len()
            invariant
                i <= self.keys.len(),
                forall|j: int| 0 <= j < i ==> self.keys@[j] != p,
            decreases self.keys.len() - i,
        {
            if self.keys[i].0 == p.0 && self.keys[i].1 == p.1 {
                assert(self.keys@[i as int] == p);
                return true;
            }
            i += 1;
        }
        false
    }

    fn insert(&mut self, p: (u64, u16))
        ensures
            final(self).view() == old(self).view().insert(p),
    {
        if !self.contains(p) {
            let ghost before = self.keys@;
            self.keys.push(p);
            assert forall|q: (u64, u16)| self.keys@.contains(q) == (before.contains(q) || q == p) by {
                if before.contains(q) {
                    let j = choose|j: int| 0 <= j < before.len() && before[j] == q;
                    assert(self.keys@[j] == q);
                }
                if self.keys@.contains(q) && q != p {
                    let j = choose|j: int| 0 <= j < self.keys@.len() && self.keys@[j] == q;
                    assert(before[j] == q);
                }
                if q == p {
                    assert(self.keys@[before.len() as int] == p);
                }
            }
        }
        assert(self.view() =~= old(self).view().insert(p));
    }

    /// Keeps the keys for which `drop_device` differs from their device, and that
    /// differ from `drop_key` when it is given.
    fn retain(&mut self, drop_device: u64, drop_key: Option<u16>)
        ensures
            final(self).view() == old(self).view().filter(
                |q: (u64, u16)|
                    !(q.0 == drop_device && (drop_key is None || q.1 == drop_key->0)),
            ),
    {
        let ghost keep = |q: (u64, u16)|
            !(q.0 == drop_device && (drop_key is None || q.1 == drop_key->0));
        let ghost before = self.keys@;
        let mut kept: Vec<(u64, u16)> = Vec::new();
        let mut i: usize = 0;
        while i < self.keys.len()
            invariant
                i <= self.keys.len(),
                self.keys@ == before,
                keep == (|q: (u64, u16)|
                    !(q.0 == drop_device && (drop_key is None || q.1 == drop_key->0))),
                forall|j: int| 0 <= j < kept@.len() ==> keep(#[trigger] kept@[j]) && before.contains(kept@[j]),
                forall|j: int| 0 <= j < i && keep(before[j]) ==> kept@.contains(#[trigger] before[j]),
            decreases self.keys.len() - i,
        {
            let q = self.keys[i];
            let drop = q.0 == drop_device && match drop_key {
                None => true,
                Some(k) => q.1 == k,
            };
            let ghost old_kept = kept@;
            if !drop {
                kept.push(q);
                assert(kept@[kept@.len() - 1] == q);
                assert(before.contains(q)) by {
                    assert(before[i as int] == q);
                }
            }
            assert(keep(before[i as int]) == !drop);
            assert forall|j: int| 0 <= j <= i && keep(before[j]) implies kept@.contains(
                #[trigger] before[j],
            ) by {
                if j < i {
                    assert(old_kept.contains(before[j]));
                    let k = choose|k: int| 0 <= k < old_kept.len() && old_kept[k] == before[j];
                    assert(kept@[k] == old_kept[k]);
                } else {
                    assert(kept@[kept@.len() - 1] == before[j]);
                }
            }
            i += 1;
        }
        self.keys = kept;
        assert forall|q: (u64, u16)| self.view().contains(q) == (old(self).view().contains(q) && keep(q)) by {
            if self.keys@.contains(q) {
                let j = choose|j: int| 0 <= j < self.keys@.len() && self.keys@[j] == q;
                assert(keep(self.keys@[j]));
            }
            if before.contains(q) && keep(q) {
                let j = choose|j: int| 0 <= j < before.len() && before[j] == q;
                assert(keep(before[j]));
            }
        }
        assert(self.view() =~= old(self).view().filter(keep));
    }

    /// Tracks what a device event does to the held keys.
    pub fn observe(&mut self, event: &DeviceEvent)
        ensures
            final(self).view() == held_after(old(self).view(), *event),
    {
        match event {
            DeviceEvent::Resynced { device_id, held_keys } => {
                self.retain(*device_id, None);
                let ghost base = self.view();
                let mut i: usize = 0;
                while i < held_keys.len()
                    invariant
                        i <= held_keys.len(),
                        self.view() == base.union(
                            Set::new(
                                |p: (u64, u16)|
                                    p.0 == *device_id && held_keys@.take(i as int).contains(p.1),
                            ),
                        ),
                    decreases held_keys.len() - i,
                {
                    let ghost prev = self.view();
                    self.insert((*device_id, held_keys[i]));
                    assert forall|c: u16| held_keys@.take(i + 1).contains(c) == (held_keys@.take(
                        i as int,
                    ).contains(c) || c == held_keys@[i as int]) by {
                        let t = held_keys@.take(i + 1);
                        if t.contains(c) {
                            let j = choose|j: int| 0 <= j < t.len() && t[j] == c;
                            if j < i {
                                assert(held_keys@.take(i as int)[j] == c);
                            }
                        }
                        if held_keys@.take(i as int).contains(c) {
                            let j = choose|j: int|
                                0 <= j < i && held_keys@.take(i as int)[j] == c;
                            assert(t[j] == c);
                        }
                        if c == held_keys@[i as int] {
                            assert(t[i as int] == c);
                        }
                    }
                    let ghost next = Set::new(
                        |p: (u64, u16)|
                            p.0 == *device_id && held_keys@.take(i + 1).contains(p.1),
                    );
                    assert forall|p: (u64, u16)| #[trigger] self.view().contains(p) == base.union(
                        next,
                    ).contains(p) by {
                        assert(held_keys@.take(i + 1).contains(p.1) == (held_keys@.take(
                            i as int,
                        ).contains(p.1) || p.1 == held_keys@[i as int]));
                    }
                    assert(self.view() =~= base.union(next));
                    i += 1;
                }
                assert(held_keys@.take(held_keys.len() as int) =~= held_keys@);
                assert(self.view() =~= held_after(old(self).view(), *event));
            },
            DeviceEvent::Key(e) => {
                if e.value == 0 {
                    self.retain(e.device_id, Some(e.code));
                    assert(self.view() =~= old(self).view().remove((e.device_id, e.code)));
                } else if e.value == 1 {
                    self.insert((e.device_id, e.code));
                }
            },
            DeviceEvent::Disconnected(device_id) => {
                self.retain(*device_id, None);
                assert(self.view() =~= held_after(old(self).view(), *event));
            },
            _ => {},
        }
    }

    /// Whether exactly the keys of `hotkey` are held, on any devices.
    pub fn matches(&self, hotkey: &Vec<u16>) -> (r: bool)
        ensures
            r == combo_held(self.view(), hotkey@),
    {
        let mut i: usize = 0;
        while i < hotkey.len()
            invariant
                i <= hotkey.len(),
                forall|j: int| 0 <= j < i ==> codes_of(self.view()).contains(#[trigger] hotkey@[j]),
            decreases hotkey.len() - i,
        {
            let required = hotkey[i];
            let mut found = false;
            let mut k: usize = 0;
            while k < self.keys.len()
                invariant
                    k <= self.keys.len(),
                    found ==> codes_of(self.view()).contains(required),
                    !found ==> forall|m: int| 0 <= m < k ==> self.keys@[m].1 != required,
                decreases self.keys.len() - k,
            {
                if self.keys[k].1 == required {
                    assert(self.view().contains((self.keys@[k as int].0, required))) by {
                        assert(self.keys@[k as int] == (self.keys@[k as int].0, required));
                    }
                    found = true;
                }
                k += 1;
            }
            if !found {
                proof {
                    assert(code_set(hotkey@).contains(required)) by {
                        assert(hotkey@[i as int] == required);
                    }
                    if codes_of(self.view()).contains(required) {
                        let id = choose|id: u64| self.view().contains((id, required));
                        let j = choose|j: int|
                            0 <= j < self.keys@.len() && self.keys@[j] == (id, required);
                        assert(false);
                    }
                    assert(codes_of(self.view()) != code_set(hotkey@));
                }
                return false;
            }
            i += 1;
        }
        let mut k: usize = 0;
        while k < self.keys.len()
            invariant
                k <= self.keys.len(),
                forall|j: int| 0 <= j < k ==> hotkey@.contains(#[trigger] self.keys@[j].1),
            decreases self.keys.len() - k,
        {
            let code = self.keys[k].1;
            let mut found = false;
            let mut j: usize = 0;
            while j < hotkey.len()
                invariant
                    j <= hotkey.len(),
                    found ==> hotkey@.contains(code),
                    !found ==> forall|m: int| 0 <= m < j ==> hotkey@[m] != code,
                decreases hotkey.len() - j,
            {
                if hotkey[j] == code {
                    assert(hotkey@[j as int] == code);
                    found = true;
                }
                j += 1;
            }
            if !found {
                proof {
                    assert(codes_of(self.view()).contains(code)) by {
                        let q = self.keys@[k as int];
                        assert(q == (q.0, code));
                        assert(self.view().contains((q.0, code)));
                    }
                    assert(!code_set(hotkey@).contains(code));
                    assert(codes_of(self.view()) != code_set(hotkey@));
                }
                return false;
            }
            k += 1;
        }
        proof {
            assert forall|c: u16| codes_of(self.view()).contains(c) == code_set(hotkey@).contains(c) by {
                if codes_of(self.view()).contains(c) {
                    let id = choose|id: u64| self.view().contains((id, c));
                    let j = choose|j: int| 0 <= j < self.keys@.len() && self.keys@[j] == (id, c);
                    assert(hotkey@.contains(self.keys@[j].1));
                }
                if code_set(hotkey@).contains(c) {
                    let j = choose|j: int| 0 <= j < hotkey@.len() && hotkey@[j] == c;
                    assert(codes_of(self.view()).contains(hotkey@[j]));
                }
            }
            assert(codes_of(self.view()) =~= code_set(hotkey@));
        }
        true
    }

    /// Whether some held key satisfies the test selected by `command`
    /// (a command modifier when `command`, a shift key otherwise).
    fn any_held(&self, command: bool) -> (r: bool)
        ensures
            command ==> r == command_held(self.view()),
            !command ==> r == shift_held(self.view()),
    {
        let mut k: usize = 0;
        while k < self.keys.len()
            invariant
                k <= self.keys.len(),
                forall|j: int|
                    0 <= j < k ==> !(if command {
                        command_key(#[trigger] self.keys@[j].1)
                    } else {
                        shift_key(self.keys@[j].1)
                    }),
            decreases self.keys.len() - k,
        {
            let code = self.keys[k].1;
            let hit = if command {
                is_command_modifier(code)
            } else {
                is_shift(code)
            };
            if hit {
                assert(self.view().contains(self.keys@[k as int]));
                return true;
            }
            k += 1;
        }
        proof {
            if command && command_held(self.view()) {
                let p = choose|p: (u64, u16)| self.view().contains(p) && command_key(p.1);
                let j = choose|j: int| 0 <= j < self.keys@.len() && self.keys@[j] == p;
                assert(!command_key(self.keys@[j].1));
            }
            if !command && shift_held(self.view()) {
                let p = choose|p: (u64, u16)| self.view().contains(p) && shift_key(p.1);
                let j = choose|j: int| 0 <= j < self.keys@.len() && self.keys@[j] == p;
                assert(!shift_key(self.keys@[j].1));
            }
        }
        false
    }

    pub fn shift(&self) -> (r: bool)
        ensures
            r == shift_held(self.view()),
    {
        self.any_held(false)
    }

    pub fn command(&self) -> (r: bool)
        ensures
            r == command_held(self.view()),
    {
        self.any_held(true)
    }
}


pub open spec fn fix_view(p: Option<PendingFix>) -> Option<FixView> {
    match p {
        Some(f) => Some(f@),
        None => None,
    }
}

/// The state after `take_ready` finds `e` (already expired) ready, or not.
pub open spec fn fix_ready(e: EngineView, now: u64) -> bool {
    &&& e.pending is Some
    &&& e.pending->0.ready_at is Some
    &&& e.pending->0.ready_at->0 <= now
    &&& e.held.is_empty()
}

impl View for PendingFix {
    type V = FixView;

    closed spec fn view(&self) -> FixView {
        FixView {
            strokes: self.strokes@,
            phrase: self.phrase,
            trigger: self.trigger,
            ready_at: self.ready_at,
        }
    }
}

impl View for Engine {
    type V = EngineView;

    closed spec fn view(&self) -> EngineView {
        EngineView {
            buffer: self.buffer@,
            limit: self.buffer.limit(),
            held: self.held.view(),
            pending: fix_view(self.pending),
            paused: self.paused,
            session: session_of(self.session),
            last_input: self.last_input,
            unsynced: self.unsynced@,
        }
    }
}

/// Every transition of `observe` keeps the engine's invariant.
pub proof fn lemma_observed_inv(e: EngineView, event: DeviceEvent, cfg: Config, now: u64)
    requires
        inv(e),
    ensures
        inv(observed(e, event, cfg, now)),
{
    let e0 = expired(e, cfg.buffer_timeout_ms, now);
    assert(inv(e0));
    let e1 = with_device_state(e0, event);
    match event {
        DeviceEvent::Key(k) => {
            assert(unsynced_after(e0.unsynced, event) == e0.unsynced);
            assert(inv(e1));
            if e1.pending is None && !(k.value == 1 && k.code == cfg.pause_hotkey@.last()
                && combo_held(e1.held, cfg.pause_hotkey@)) && !(e1.paused || e1.session is None
                || !e1.unsynced.is_empty()) && k.value != 0 {
                let t = typed(e1, k, cfg, now);
                let e2 = EngineView { last_input: now, ..e1 };
                if k.value == 1 && !(k.code == cfg.phrase_hotkey@.last() && combo_held(
                    e2.held,
                    cfg.phrase_hotkey@,
                )) && !(k.code == cfg.hotkey@.last() && combo_held(e2.held, cfg.hotkey@))
                    && char_key(k.code) {
                    let pushed = e2.buffer.push(Stroke { code: k.code, shift: shift_held(e2.held) });
                    assert(capped(pushed, e2.limit).len() <= e2.limit);
                }
                if k.value == 1 && !(k.code == cfg.phrase_hotkey@.last() && combo_held(
                    e2.held,
                    cfg.phrase_hotkey@,
                )) && !(k.code == cfg.hotkey@.last() && combo_held(e2.held, cfg.hotkey@))
                    && separator_key(k.code) {
                    let pushed = e2.buffer.push(Stroke { code: k.code, shift: shift_held(e2.held) });
                    assert(capped(pushed, e2.limit).len() <= e2.limit);
                }
                assert(inv(t));
            }
        },
        _ => {},
    }
}

impl Engine {
    pub closed spec fn wf(&self) -> bool {
        &&& self.buffer.wf()
        &&& inv(self@)
    }

    /// A well-formed engine satisfies the invariant of its abstract state.
    pub proof fn lemma_wf_inv(&self)
        requires
            self.wf(),
        ensures
            inv(self@),
    {
    }

    pub fn new(cfg: &Config, now: u64) -> (e: Self)
        ensures
            e.wf(),
            e@ == (EngineView {
                buffer: Seq::empty(),
                limit: if cfg.max_strokes >= 1 {
                    cfg.max_strokes as nat
                } else {
                    1
                },
                held: Set::empty(),
                pending: None,
                paused: false,
                session: if cfg.session_guard {
                    None
                } else {
                    Some("unguarded"@)
                },
                last_input: now,
                unsynced: Set::empty(),
            }),
    {
        let session = if cfg.session_guard {
            None
        } else {
            Some("unguarded".to_owned())
        };
        let e = Engine {
            buffer: Buffer::new(cfg.max_strokes),
            held: HeldKeys::new(),
            pending: None,
            paused: false,
            session,
            last_input: now,
            unsynced: HashSet::new(),
        };
        e
    }

    fn forget(&mut self)
        requires
            old(self).buffer.wf(),
        ensures
            final(self).buffer.wf(),
            final(self)@ == invalidated(old(self)@),
    {
        self.buffer.clear();
        self.pending = None;
    }

    fn observe_device_state(&mut self, event: &DeviceEvent)
        requires
            old(self).buffer.wf(),
        ensures
            final(self).buffer.wf(),
            final(self)@ == with_device_state(old(self)@, *event),
    {
        self.held.observe(event);
        match event {
            DeviceEvent::LostEvents(id) => {
                self.unsynced.insert(*id);
            },
            DeviceEvent::Resynced { device_id, .. } => {
                self.unsynced.remove(device_id);
            },
            DeviceEvent::Disconnected(device_id) => {
                self.unsynced.remove(device_id);
            },
            _ => {},
        }
    }

    /// Forgets the typed history and any pending fix.
    pub fn invalidate(&mut self)
        requires
            old(self).wf(),
        ensures
            final(self).wf(),
            final(self)@ == invalidated(old(self)@),
    {
        self.forget();
    }

    fn expire_inner(&mut self, cfg: &Config, now: u64)
        requires
            old(self).buffer.wf(),
        ensures
            final(self).buffer.wf(),
            final(self)@ == expired(old(self)@, cfg.buffer_timeout_ms, now),
    {
        let idle: u64 = if now >= self.last_input {
            now - self.last_input
        } else {
            0
        };
        if idle >= cfg.buffer_timeout_ms {
            self.forget();
        }
    }

    /// Forgets the typed history once no key has been typed for `buffer_timeout_ms`.
    pub fn expire(&mut self, cfg: &Config, now: u64)
        requires
            old(self).wf(),
        ensures
            final(self).wf(),
            final(self)@ == expired(old(self)@, cfg.buffer_timeout_ms, now),
    {
        self.expire_inner(cfg, now);
    }

    fn start_fix(&mut self, phrase: bool, trigger: u16)
        requires
            old(self).buffer.wf(),
        ensures
            final(self).buffer.wf(),
            final(self)@ == start_fix(old(self)@, phrase, trigger),
    {
        let strokes = if phrase {
            vstd::slice::slice_to_vec(self.buffer.phrase())
        } else {
            vstd::slice::slice_to_vec(self.buffer.last_word())
        };
        if strokes.len() > 0 {
            self.pending = Some(PendingFix { strokes, phrase, trigger, ready_at: None });
        }
    }

    fn key_step(&mut self, event: KeyEvent, cfg: &Config, now: u64)
        requires
            old(self).buffer.wf(),
            cfg.combos_nonempty(),
            now <= u64::MAX - READY_DELAY_MS,
        ensures
            final(self).buffer.wf(),
            final(self)@ == key_step(old(self)@, event, *cfg, now),
    {
        let code = event.code;
        if event.value == 1 && code == cfg.pause_hotkey[cfg.pause_hotkey.len() - 1]
            && self.held.matches(&cfg.pause_hotkey) {
            self.paused = !self.paused;
            self.forget();
            return ;
        }
        if self.paused || self.session.is_none() || !self.unsynced.is_empty() {
            self.forget();
            return ;
        }
        if self.pending.is_some() {
            let trigger = self.pending.as_ref().unwrap().trigger;
            if event.value == 1 || (event.value == 2 && code != trigger) {
                self.forget();
            } else if self.held.is_empty() {
                let mut p = self.pending.take().unwrap();
                p.ready_at = Some(now + READY_DELAY_MS);
                self.pending = Some(p);
            }
            return ;
        }
        if event.value == 0 {
            return ;
        }
        self.last_input = now;
        if event.value != 1 {
            self.forget();
            return ;
        }
        if code == cfg.phrase_hotkey[cfg.phrase_hotkey.len() - 1] && self.held.matches(
            &cfg.phrase_hotkey,
        ) {
            self.start_fix(true, code);
            return ;
        }
        if code == cfg.hotkey[cfg.hotkey.len() - 1] && self.held.matches(&cfg.hotkey) {
            self.start_fix(false, code);
            return ;
        }
        if self.held.matches(&cfg.layout_switch) {
            self.forget();
            return ;
        }
        if is_shift(code) || is_command_modifier(code) {
            return ;
        }
        if self.held.command() {
            self.forget();
        } else if code == KEY_BACKSPACE {
            self.buffer.backspace();
        } else if code == KEY_TAB || is_phrase_end(code) {
            self.forget();
        } else if is_char(code) || is_separator(code) {
            let shift = self.held.shift();
            self.buffer.push(code, shift);
        } else {
            self.forget();
        }
    }

    /// Feeds one device event to the engine.
    pub fn observe(&mut self, event: DeviceEvent, cfg: &Config, now: u64)
        requires
            old(self).wf(),
            cfg.combos_nonempty(),
            now <= u64::MAX - READY_DELAY_MS,
        ensures
            final(self).wf(),
            final(self)@ == observed(old(self)@, event, *cfg, now),
    {
        let ghost ev = event;
        proof {
            lemma_observed_inv(old(self)@, ev, *cfg, now);
        }
        self.expire_inner(cfg, now);
        self.observe_device_state(&event);
        match event {
            DeviceEvent::Session(session) => {
                self.session = session;
                self.forget();
            },
            DeviceEvent::Key(k) => {
                self.key_step(k, cfg, now);
            },
            _ => {
                self.forget();
            },
        }
    }

    /// Hands out the pending fix once its hotkey has been released for a while and
    /// no key is held.
    pub fn take_ready(&mut self, cfg: &Config, now: u64) -> (r: Option<PendingFix>)
        requires
            old(self).wf(),
        ensures
            final(self).wf(),
            ({
                let e1 = expired(old(self)@, cfg.buffer_timeout_ms, now);
                &&& r is Some == fix_ready(e1, now)
                &&& fix_ready(e1, now) ==> r->0@ == e1.pending->0 && final(self)@ == (EngineView {
                    pending: None,
                    ..e1
                })
                &&& !fix_ready(e1, now) ==> final(self)@ == e1
            }),
            r is Some ==> {
                let e = old(self)@;
                &&& r->0@.strokes.len() > 0
                &&& r->0@.strokes == if r->0@.phrase {
                    e.buffer
                } else {
                    last_word_of(e.buffer)
                }
                &&& !e.paused
                &&& e.session is Some
                &&& e.unsynced.is_empty()
                &&& e.held.is_empty()
            },
    {
        self.expire_inner(cfg, now);
        let ready = match &self.pending {
            Some(fix) => match fix.ready_at {
                Some(at) => at <= now,
                None => false,
            },
            None => false,
        };
        if ready && self.held.is_empty() {
            self.pending.take()
        } else {
            None
        }
    }

    /// Tracks the device state of an event that must not reach the text buffer,
    /// and forgets the typed history.
    pub fn discard(&mut self, event: DeviceEvent)
        requires
            old(self).wf(),
        ensures
            final(self).wf(),
            final(self)@ == invalidated(with_device_state(old(self)@, event)),
    {
        self.observe_device_state(&event);
        self.forget();
    }

    /// Input that arrives while a fix is being typed: it is tracked, and no history
    /// survives it.
    pub fn during_fix(&mut self, event: DeviceEvent, cfg: &Config, now: u64)
        requires
            old(self).wf(),
            cfg.combos_nonempty(),
            now <= u64::MAX - READY_DELAY_MS,
        ensures
            final(self).wf(),
            final(self)@ == invalidated(observed(invalidated(old(self)@), event, *cfg, now)),
    {
        self.invalidate();
        self.observe(event, cfg, now);
        self.invalidate();
    }
}


/// Events other than key events end typing: the history and any pending fix are
/// forgotten (a session event also records the new session).
pub proof fn lemma_non_key_events_forget(e: EngineView, event: DeviceEvent, cfg: Config, now: u64)
    requires
        !(event is Key),
    ensures
        observed(e, event, cfg, now).buffer.len() == 0,
        observed(e, event, cfg, now).pending is None,
        event matches DeviceEvent::Session(s) ==> observed(e, event, cfg, now).session
            == session_of(s),
{
}

/// The pause hotkey toggles the pause and forgets the history, whatever else holds.
pub proof fn lemma_pause_hotkey_toggles(e: EngineView, k: KeyEvent, cfg: Config, now: u64)
    requires
        k.value == 1,
        k.code == cfg.pause_hotkey@.last(),
        combo_held(held_after(e.held, DeviceEvent::Key(k)), cfg.pause_hotkey@),
    ensures
        observed(e, DeviceEvent::Key(k), cfg, now).paused == !e.paused,
        observed(e, DeviceEvent::Key(k), cfg, now).buffer.len() == 0,
        observed(e, DeviceEvent::Key(k), cfg, now).pending is None,
{
}

/// Held keys are kept per device: releasing a key on one keyboard leaves the same
/// key held on another.
pub proof fn lemma_release_is_per_device(held: Set<(u64, u16)>, k: KeyEvent, other: u64)
    requires
        k.value == 0,
        other != k.device_id,
        held.contains((other, k.code)),
    ensures
        held_after(held, DeviceEvent::Key(k)).contains((other, k.code)),
        codes_of(held_after(held, DeviceEvent::Key(k))).contains(k.code),
{
    assert(held_after(held, DeviceEvent::Key(k)).contains((other, k.code)));
}

/// While the engine is paused, has no session, or waits for a device to be
/// resynchronised, no key event sets up a fix.
pub proof fn lemma_no_fix_while_blocked(e: EngineView, k: KeyEvent, cfg: Config, now: u64)
    requires
        e.paused || e.session is None || !with_device_state(e, DeviceEvent::Key(k)).unsynced.is_empty(),
    ensures
        observed(e, DeviceEvent::Key(k), cfg, now).pending is None,
{
}

/// Once no key has been typed for `buffer_timeout_ms`, no fix is handed out.
pub proof fn lemma_no_fix_after_idle(e: EngineView, timeout: u64, now: u64)
    requires
        idle_for(e, now) >= timeout,
    ensures
        !fix_ready(expired(e, timeout, now), now),
        expired(e, timeout, now).buffer.len() == 0,
{
}

/// A new key press while a fix waits for the hotkey's release cancels the fix (the
/// pause hotkey too, which also toggles the pause).
pub proof fn lemma_new_press_cancels_fix(e: EngineView, k: KeyEvent, cfg: Config, now: u64)
    requires
        e.pending is Some,
        idle_for(e, now) < cfg.buffer_timeout_ms,
        k.value == 1,
    ensures
        observed(e, DeviceEvent::Key(k), cfg, now).pending is None,
        observed(e, DeviceEvent::Key(k), cfg, now).buffer.len() == 0,
{
}

/// While the engine is paused, has no session once the event is taken, or waits for
/// a device to be resynchronised, and for every event that is not a key event, the
/// event leaves neither typed history nor a pending fix.
pub proof fn lemma_blocked_event_forgets(e: EngineView, event: DeviceEvent, cfg: Config, now: u64)
    requires
        e.paused || observed(e, event, cfg, now).session is None || !with_device_state(
            e,
            event,
        ).unsynced.is_empty() || !(event is Key),
    ensures
        observed(e, event, cfg, now).pending is None,
        observed(e, event, cfg, now).buffer.len() == 0,
{
}

/// The pause flips on the pause hotkey (its last key pressed while exactly its keys
/// are held) and on nothing else.
pub proof fn lemma_pause_flips_only_on_hotkey(e: EngineView, event: DeviceEvent, cfg: Config, now: u64)
    ensures
        observed(e, event, cfg, now).paused != e.paused <==> (event matches DeviceEvent::Key(k)
            && k.value == 1 && k.code == cfg.pause_hotkey@.last() && combo_held(
            held_after(e.held, event),
            cfg.pause_hotkey@,
        )),
{
}

/// A key press that reaches the typing logic (the engine is not paused, has a
/// session, every device is in sync, no fix is pending, and it is not the pause
/// hotkey) counts as input at `now`: whatever it typed then survives every later
/// moment before `now + buffer_timeout_ms`.
pub proof fn lemma_press_counts_as_input(e: EngineView, k: KeyEvent, cfg: Config, now: u64, later: u64)
    requires
        k.value == 1,
        !e.paused,
        e.session is Some,
        e.unsynced.is_empty(),
        e.pending is None,
        !(k.code == cfg.pause_hotkey@.last() && combo_held(
            held_after(e.held, DeviceEvent::Key(k)),
            cfg.pause_hotkey@,
        )),
    ensures
        observed(e, DeviceEvent::Key(k), cfg, now).last_input == now,
        now <= later < now + cfg.buffer_timeout_ms ==> expired(
            observed(e, DeviceEvent::Key(k), cfg, now),
            cfg.buffer_timeout_ms,
            later,
        ) == observed(e, DeviceEvent::Key(k), cfg, now),
{
}

/// Typing a character key (with no hotkey, layout switch or command modifier held,
/// while typing is followed) appends its stroke, shifted when a shift key is held,
/// and drops the oldest strokes only when the buffer is full.
pub proof fn lemma_char_press_appends(e: EngineView, k: KeyEvent, cfg: Config, now: u64)
    requires
        inv(e),
        k.value == 1,
        char_key(k.code),
        !e.paused,
        e.session is Some,
        e.unsynced.is_empty(),
        e.pending is None,
        idle_for(e, now) < cfg.buffer_timeout_ms,
        !combo_held(held_after(e.held, DeviceEvent::Key(k)), cfg.pause_hotkey@),
        !combo_held(held_after(e.held, DeviceEvent::Key(k)), cfg.phrase_hotkey@),
        !combo_held(held_after(e.held, DeviceEvent::Key(k)), cfg.hotkey@),
        !combo_held(held_after(e.held, DeviceEvent::Key(k)), cfg.layout_switch@),
        !command_held(held_after(e.held, DeviceEvent::Key(k))),
    ensures
        ({
            let b = observed(e, DeviceEvent::Key(k), cfg, now).buffer;
            &&& b.len() == if e.buffer.len() < e.limit {
                e.buffer.len() + 1
            } else {
                e.limit
            }
            &&& b.last() == Stroke {
                code: k.code,
                shift: shift_held(held_after(e.held, DeviceEvent::Key(k))),
            }
            &&& b.drop_last() == e.buffer.skip(e.buffer.len() + 1 - b.len())
        }),
{
    let s = Stroke { code: k.code, shift: shift_held(held_after(e.held, DeviceEvent::Key(k))) };
    let p = e.buffer.push(s);
    let b = observed(e, DeviceEvent::Key(k), cfg, now).buffer;
    assert(b == capped(p, e.limit));
    if p.len() > e.limit {
        assert(b.drop_last() =~= e.buffer.skip(e.buffer.len() + 1 - b.len()));
    } else {
        assert(b.drop_last() =~= e.buffer);
        assert(e.buffer.skip(0) =~= e.buffer);
    }
}

/// While typing is followed, the phrase hotkey sets up a fix of the whole buffer and
/// the word hotkey one of the last word with its trailing separators; the typed
/// strokes stay as they were, and nothing is set up when there is nothing to fix.
pub proof fn lemma_hotkey_sets_up_fix(e: EngineView, k: KeyEvent, cfg: Config, now: u64)
    requires
        k.value == 1,
        !e.paused,
        e.session is Some,
        e.unsynced.is_empty(),
        e.pending is None,
        idle_for(e, now) < cfg.buffer_timeout_ms,
        !(k.code == cfg.pause_hotkey@.last() && combo_held(
            held_after(e.held, DeviceEvent::Key(k)),
            cfg.pause_hotkey@,
        )),
    ensures
        ({
            let h = held_after(e.held, DeviceEvent::Key(k));
            let after = observed(e, DeviceEvent::Key(k), cfg, now);
            let phrase = k.code == cfg.phrase_hotkey@.last() && combo_held(h, cfg.phrase_hotkey@);
            let word = !phrase && k.code == cfg.hotkey@.last() && combo_held(h, cfg.hotkey@);
            &&& phrase ==> after.buffer == e.buffer && after.pending == if e.buffer.len() > 0 {
                Some(FixView { strokes: e.buffer, phrase: true, trigger: k.code, ready_at: None })
            } else {
                None
            }
            &&& word ==> after.buffer == e.buffer && after.pending == if last_word_of(e.buffer).len()
                > 0 {
                Some(
                    FixView {
                        strokes: last_word_of(e.buffer),
                        phrase: false,
                        trigger: k.code,
                        ready_at: None,
                    },
                )
            } else {
                None
            }
        }),
{
}

/// Releasing the last held key while a fix is pending makes the fix ready
/// `READY_DELAY_MS` later; from then on, with no key held and before the history
/// times out, `take_ready` finds it ready.
pub proof fn lemma_release_readies_fix(e: EngineView, k: KeyEvent, cfg: Config, now: u64, later: u64)
    requires
        inv(e),
        e.pending is Some,
        k.value == 0,
        held_after(e.held, DeviceEvent::Key(k)).is_empty(),
        idle_for(e, now) < cfg.buffer_timeout_ms,
        now <= u64::MAX - READY_DELAY_MS,
    ensures
        ({
            let a = observed(e, DeviceEvent::Key(k), cfg, now);
            &&& a.pending == Some(FixView { ready_at: Some((now + READY_DELAY_MS) as u64), ..e.pending->0 })
            &&& a.buffer == e.buffer
            &&& (now + READY_DELAY_MS <= later && idle_for(a, later) < cfg.buffer_timeout_ms)
                ==> fix_ready(expired(a, cfg.buffer_timeout_ms, later), later)
        }),
{
}

} // verus!
