//! The session guard: which local graphical session (seat0) may be corrected,
//! as logind last reported it, and a generation that changes with every change
//! of that answer. Time comes in as milliseconds of a monotonic clock.
use vstd::prelude::*;

use crate::config::string_views;
use crate::text::{
    chars_of, eq_chars, eq_ignore_case, eq_ignore_case_chars, split, split_chars, starts_with_chars,
    views,
};

verus! {

/// How long a logind snapshot stays valid.
pub const SNAPSHOT_VALID_MS: u64 = 2000;

/// What the event loop reads from the guard.
#[derive(Clone, Debug)]
pub struct Context {
    pub generation: u64,
    pub session: Option<String>,
    valid_until: Option<u64>,
}

pub struct SessionGuard {
    state: Context,
}

/// The abstract state of the guard.
pub struct GuardView {
    pub generation: u64,
    pub session: Option<Seq<char>>,
    pub valid_until: Option<u64>,
}

pub open spec fn session_of(s: Option<String>) -> Option<Seq<char>> {
    match s {
        Some(x) => Some(x@),
        None => None,
    }
}

impl View for Context {
    type V = GuardView;

    closed spec fn view(&self) -> GuardView {
        GuardView {
            generation: self.generation,
            session: session_of(self.session),
            valid_until: self.valid_until,
        }
    }
}

impl View for SessionGuard {
    type V = GuardView;

    closed spec fn view(&self) -> GuardView {
        self.state@
    }
}

/// The guard as `context` leaves it: a snapshot past its validity withdraws the
/// session and starts a new generation.
pub open spec fn refreshed(g: GuardView, now: u64) -> GuardView {
    if g.valid_until matches Some(deadline) && deadline <= now && g.session is Some {
        GuardView { generation: (g.generation + 1) as u64, session: None, ..g }
    } else {
        g
    }
}

/// The guard after a fresh logind snapshot.
pub open spec fn after_set(g: GuardView, session: Option<Seq<char>>, now: u64) -> GuardView {
    let g1 = GuardView { valid_until: Some((now + SNAPSHOT_VALID_MS) as u64), ..g };
    if g.session != session {
        GuardView { generation: (g.generation + 1) as u64, session, ..g1 }
    } else {
        g1
    }
}

/// The guard after logind became unreachable or reported a change.
pub open spec fn after_invalidate(g: GuardView) -> GuardView {
    GuardView { generation: (g.generation + 1) as u64, session: None, ..g }
}

fn clone_session(s: &Option<String>) -> (r: Option<String>)
    ensures
        session_of(r) == session_of(*s),
{
    match s {
        Some(x) => Some(x.clone()),
        None => None,
    }
}

fn same_session(a: &Option<String>, b: &Option<String>) -> (r: bool)
    ensures
        r == (session_of(*a) == session_of(*b)),
{
    match (a, b) {
        (Some(x), Some(y)) => *x == *y,
        (None, None) => true,
        _ => false,
    }
}

impl Context {
    /// The generation and the session, taken apart.
    pub fn parts(self) -> (r: (u64, Option<String>))
        ensures
            r.0 == self@.generation,
            session_of(r.1) == self@.session,
    {
        (self.generation, self.session)
    }
}

impl SessionGuard {
    /// With `enabled` false the guard always reports a session, so correction is
    /// never held back by it.
    pub fn new(enabled: bool) -> (g: Self)
        ensures
            g@ == (GuardView {
                generation: 0,
                session: if enabled {
                    None
                } else {
                    Some("unguarded"@)
                },
                valid_until: None,
            }),
    {
        let session = if enabled {
            None
        } else {
            Some("unguarded".to_owned())
        };
        SessionGuard { state: Context { generation: 0, session, valid_until: None } }
    }

    /// The current session and generation.
    pub fn context(&mut self, now: u64) -> (c: Context)
        requires
            old(self)@.generation < u64::MAX,
        ensures
            final(self)@ == refreshed(old(self)@, now),
            c@ == final(self)@,
            final(self)@.generation >= old(self)@.generation,
    {
        let expired = match self.state.valid_until {
            Some(deadline) => deadline <= now,
            None => false,
        };
        if expired && self.state.session.is_some() {
            self.state.generation = self.state.generation + 1;
            self.state.session = None;
        }
        Context {
            generation: self.state.generation,
            session: clone_session(&self.state.session),
            valid_until: self.state.valid_until,
        }
    }

    /// Records a fresh logind snapshot: it stays valid for `SNAPSHOT_VALID_MS`, and a
    /// different session starts a new generation.
    pub fn set(&mut self, session: Option<String>, now: u64)
        requires
            old(self)@.generation < u64::MAX,
            now <= u64::MAX - SNAPSHOT_VALID_MS,
        ensures
            final(self)@ == after_set(old(self)@, session_of(session), now),
            final(self)@.generation >= old(self)@.generation,
    {
        self.state.valid_until = Some(now + SNAPSHOT_VALID_MS);
        if !same_session(&self.state.session, &session) {
            self.state.generation = self.state.generation + 1;
            self.state.session = session;
        }
    }

    /// Takes a snapshot read while logind was watched: it is recorded only when no
    /// change was signalled while it was being read (`dirty`), since it may then be
    /// out of date.
    pub fn accept(&mut self, session: Option<String>, dirty: bool, now: u64)
        requires
            old(self)@.generation < u64::MAX,
            now <= u64::MAX - SNAPSHOT_VALID_MS,
        ensures
            final(self)@ == if dirty {
                old(self)@
            } else {
                after_set(old(self)@, session_of(session), now)
            },
    {
        if !dirty {
            self.set(session, now);
        }
    }

    /// Withdraws the session and starts a new generation.
    pub fn invalidate(&mut self)
        requires
            old(self)@.generation < u64::MAX,
        ensures
            final(self)@ == after_invalidate(old(self)@),
    {
        self.state.generation = self.state.generation + 1;
        self.state.session = None;
    }

    /// The current generation.
    pub fn generation(&self) -> (r: u64)
        ensures
            r == self@.generation,
    {
        self.state.generation
    }
}

/// An answer of `set` with the session it had already is no change: the generation stays.
pub proof fn lemma_same_snapshot_keeps_generation(g: GuardView, now: u64)
    ensures
        after_set(g, g.session, now).generation == g.generation,
        after_set(g, g.session, now).session == g.session,
{
}

/// Once withdrawn, the session stays withdrawn until the next snapshot, however
/// often the guard is asked.
pub proof fn lemma_invalidated_until_set(g: GuardView, now: u64)
    ensures
        after_invalidate(g).session is None,
        refreshed(after_invalidate(g), now).session is None,
        refreshed(after_invalidate(g), now) == after_invalidate(g),
{
}

/// Whether `name` (a `:`-separated desktop list) names COSMIC, whose lock screen
/// does not report itself to logind.
pub open spec fn names_cosmic(name: Seq<char>) -> bool {
    exists|i: int| 0 <= i < split(name, ':').len() && eq_ignore_case(#[trigger] split(name, ':')[i], "cosmic"@)
}

pub open spec fn opt_str(s: Option<&str>) -> Option<Seq<char>> {
    match s {
        Some(x) => Some(x@),
        None => None,
    }
}

/// Only a known, unlocked, local graphical user session may be corrected.
pub open spec fn session_allowed(
    kind: Option<Seq<char>>,
    class: Option<Seq<char>>,
    desktop: Option<Seq<char>>,
    active: Option<i64>,
    locked: Option<i64>,
    remote: Option<i64>,
) -> bool {
    &&& !(desktop matches Some(d) && names_cosmic(d))
    &&& (kind == Some("wayland"@) || kind == Some("x11"@))
    &&& class == Some("user"@)
    &&& active == Some(1i64)
    &&& locked == Some(0i64)
    &&& remote == Some(0i64)
}

fn is_str(s: Option<&str>, lit: &str) -> (r: bool)
    ensures
        r == (opt_str(s) == Some(lit@)),
{
    match s {
        Some(x) => {
            let a = chars_of(x);
            let b = chars_of(lit);
            crate::text::eq_chars(&a, &b)
        },
        None => false,
    }
}

fn desktop_is_cosmic(name: &str) -> (r: bool)
    ensures
        r == names_cosmic(name@),
{
    let chars = chars_of(name);
    let parts = split_chars(&chars, ':');
    let cosmic = chars_of("cosmic");
    let mut i: usize = 0;
    while i < parts.len()
        invariant
            i <= parts.len(),
            views(parts@) == split(name@, ':'),
            cosmic@ == "cosmic"@,
            forall|j: int| 0 <= j < i ==> !eq_ignore_case(#[trigger] split(name@, ':')[j], "cosmic"@),
        decreases parts.len() - i,
    {
        if eq_ignore_case_chars(&parts[i], &cosmic) {
            assert(split(name@, ':')[i as int] == parts@[i as int]@);
            return true;
        }
        assert(split(name@, ':')[i as int] == parts@[i as int]@);
        i += 1;
    }
    false
}

pub fn allowed_session(
    kind: Option<&str>,
    class: Option<&str>,
    desktop: Option<&str>,
    active: Option<i64>,
    locked: Option<i64>,
    remote: Option<i64>,
) -> (r: bool)
    ensures
        r == session_allowed(
            opt_str(kind),
            opt_str(class),
            opt_str(desktop),
            active,
            locked,
            remote,
        ),
{
    // COSMIC 1.0.9 leaves LockedHint=false while locked. Revisit only after
    // its lock integration reliably reports every lock/unlock path to logind.
    let unsupported = match desktop {
        Some(name) => desktop_is_cosmic(name),
        None => false,
    };
    let active_ok = match active {
        Some(v) => v == 1,
        None => false,
    };
    let locked_ok = match locked {
        Some(v) => v == 0,
        None => false,
    };
    let remote_ok = match remote {
        Some(v) => v == 0,
        None => false,
    };
    !unsupported && (is_str(kind, "wayland") || is_str(kind, "x11")) && is_str(class, "user")
        && active_ok && locked_ok && remote_ok
}

/// The session a logind snapshot grants: the active session `id` of seat0, provided
/// its properties allow correction and it is still the active session after they
/// were read.
pub fn confirmed_session(id: String, allowed: bool, current: &str) -> (r: Option<String>)
    ensures
        r is Some <==> (allowed && current@ == id@),
        r matches Some(s) ==> s@ == id@,
{
    let a = chars_of(current);
    let b = chars_of(id.as_str());
    if allowed && crate::text::eq_chars(&a, &b) {
        Some(id)
    } else {
        None
    }
}

/// The logind properties whose change may withdraw the session.
pub open spec fn watched_properties() -> Seq<Seq<char>> {
    seq!["Active"@, "ActiveSession"@, "LockedHint"@, "State"@]
}

/// A `PropertiesChanged` signal that calls for a new snapshot: it comes from a logind
/// interface and names a watched property, as changed or as invalidated.
pub open spec fn change_relevant(
    interface: Seq<char>,
    changed: Seq<Seq<char>>,
    invalidated: Seq<Seq<char>>,
) -> bool {
    &&& "org.freedesktop.login1"@.is_prefix_of(interface)
    &&& exists|k: int|
        0 <= k < 4 && (changed.contains(#[trigger] watched_properties()[k])
            || invalidated.contains(watched_properties()[k]))
}

fn names_any(names: &Vec<String>, wanted: &Vec<char>) -> (r: bool)
    ensures
        r == string_views(names@).contains(wanted@),
{
    let mut i: usize = 0;
    while i < names.len()
        invariant
            i <= names.len(),
            forall|j: int| 0 <= j < i ==> names@[j]@ != wanted@,
        decreases names.len() - i,
    {
        let name = chars_of(names[i].as_str());
        if eq_chars(&name, wanted) {
            assert(string_views(names@)[i as int] == wanted@);
            return true;
        }
        i += 1;
    }
    proof {
        if string_views(names@).contains(wanted@) {
            let j = choose|j: int| 0 <= j < string_views(names@).len() && string_views(names@)[j] == wanted@;
            assert(names@[j]@ == wanted@);
        }
    }
    false
}

/// Whether a `PropertiesChanged` signal with these changed and invalidated property
/// names on `interface` calls for a new snapshot.
pub fn relevant_change(interface: &str, changed: &Vec<String>, invalidated: &Vec<String>) -> (r: bool)
    ensures
        r == change_relevant(interface@, string_views(changed@), string_views(invalidated@)),
{
    let iface = chars_of(interface);
    let login = chars_of("org.freedesktop.login1");
    if !starts_with_chars(&iface, &login) {
        return false;
    }
    let ghost props = watched_properties();
    let names = [chars_of("Active"), chars_of("ActiveSession"), chars_of("LockedHint"), chars_of("State")];
    let mut k: usize = 0;
    while k < 4
        invariant
            k <= 4,
            props == watched_properties(),
            "org.freedesktop.login1"@.is_prefix_of(interface@),
            forall|m: int| 0 <= m < 4 ==> (#[trigger] names@[m])@ == props[m],
            forall|m: int|
                0 <= m < k ==> !(string_views(changed@).contains(#[trigger] props[m])
                    || string_views(invalidated@).contains(props[m])),
        decreases 4 - k,
    {
        let name = &names[k];
        if names_any(changed, name) || names_any(invalidated, name) {
            assert(name@ == watched_properties()[k as int]);
            assert(string_views(changed@).contains(watched_properties()[k as int])
                || string_views(invalidated@).contains(watched_properties()[k as int]));
            return true;
        }
        k += 1;
    }
    false
}

/// How often logind is asked afresh even when it signalled no change.
pub const RECHECK_MS: u64 = 1000;

/// A new snapshot is due when logind signalled a change, or once `RECHECK_MS` passed
/// since the last one.
pub fn snapshot_due(dirty: bool, last_ms: u64, now: u64) -> (r: bool)
    ensures
        r == (dirty || (now >= last_ms && now - last_ms >= RECHECK_MS)),
{
    dirty || (now >= last_ms && now - last_ms >= RECHECK_MS)
}

/// A snapshot past its validity withdraws the session and starts a new generation
/// the next time the guard is asked; otherwise asking changes nothing.
pub proof fn lemma_stale_snapshot_withdraws(g: GuardView, now: u64)
    ensures
        (g.valid_until matches Some(d) && d <= now && g.session is Some) ==> {
            &&& refreshed(g, now).session is None
            &&& refreshed(g, now).generation == (g.generation + 1) as u64
            &&& refreshed(g, now).valid_until == g.valid_until
        },
        !(g.valid_until matches Some(d) && d <= now && g.session is Some) ==> refreshed(g, now)
            == g,
{
}

/// A snapshot always replaces the session, `None` included: the guard reports what
/// logind said last, and starts a new generation exactly when that differs from what
/// it reported before. Until the snapshot's validity runs out, asking the guard gives
/// that session back unchanged.
pub proof fn lemma_snapshot_replaces_session(
    g: GuardView,
    session: Option<Seq<char>>,
    now: u64,
    later: u64,
)
    requires
        g.generation < u64::MAX,
        now <= u64::MAX - SNAPSHOT_VALID_MS,
    ensures
        after_set(g, session, now).session == session,
        after_set(g, session, now).valid_until == Some((now + SNAPSHOT_VALID_MS) as u64),
        after_set(g, session, now).generation == if g.session != session {
            g.generation + 1
        } else {
            g.generation as int
        },
        later < now + SNAPSHOT_VALID_MS ==> refreshed(after_set(g, session, now), later)
            == after_set(g, session, now),
{
}

} // verus!
