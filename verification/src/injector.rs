//! Interruptible replay of a correction that always tries to release the keys
//! it pressed.
use vstd::prelude::*;

use std::time::Duration;

use crate::config::{Config, ConfigView};
use crate::keys::{KEY_BACKSPACE, KEY_LEFTSHIFT};
use crate::state::Stroke;

verus! {

/// `std::io::Error`, carried through unopened: nothing is known of its contents.
#[verifier::external_type_specification]
#[verifier::external_body]
pub struct ExIoError(std::io::Error);

/// Where synthetic key events go (the uinput device, or a recorder in tests).
///
/// An output that keeps a history of what it was handed says so through `records`,
/// and `sent` is then that history; for any other output nothing is known of it.
pub trait KeyOutput {
    /// Whether `sent` is the history of this output.
    open spec fn records(&self) -> bool {
        false
    }

    /// Every key event handed to `emit_key`, in order, with whether its write
    /// succeeded.
    open spec fn sent(&self) -> Seq<(u16, i32, bool)> {
        Seq::empty()
    }

    /// Writes one key event; a recording output adds it to its history whether or not
    /// the write succeeded.
    fn emit_key(&mut self, code: u16, value: i32) -> (r: std::io::Result<()>)
        ensures
            final(self).records() == old(self).records(),
            old(self).records() ==> final(self).sent() == old(self).sent().push(
                (code, value, r is Ok),
            ),
    ;
}

/// One step of a replay: a wait of some milliseconds, or a key event.
#[derive(Clone, Copy, Debug, PartialEq, Eq, Structural)]
pub enum Act {
    Wait(u64),
    Emit(u16, i32),
}

pub struct Injector<T: KeyOutput> {
    output: T,
    pressed: Vec<u16>,
    trace: Ghost<Seq<(Act, bool)>>,
    base: Ghost<Seq<(u16, i32, bool)>>,
}

/// `key`: a pause, the key event, then the key delay.
pub open spec fn key_acts(code: u16, value: i32, delay: u64) -> Seq<Act> {
    seq![Act::Wait(0), Act::Emit(code, value), Act::Wait(delay)]
}

pub open spec fn tap_acts(code: u16, delay: u64) -> Seq<Act> {
    key_acts(code, 1, delay) + key_acts(code, 0, delay)
}

/// `n` backspaces.
pub open spec fn erase_acts(n: nat, delay: u64) -> Seq<Act>
    decreases n,
{
    if n == 0 {
        Seq::empty()
    } else {
        erase_acts((n - 1) as nat, delay) + tap_acts(KEY_BACKSPACE, delay)
    }
}

/// One `key` for each of `codes`, in order.
pub open spec fn keys_acts(codes: Seq<u16>, value: i32, delay: u64) -> Seq<Act>
    decreases codes.len(),
{
    if codes.len() == 0 {
        Seq::empty()
    } else {
        keys_acts(codes.drop_last(), value, delay) + key_acts(codes.last(), value, delay)
    }
}

pub open spec fn stroke_acts(s: Stroke, delay: u64) -> Seq<Act> {
    (if s.shift {
        key_acts(KEY_LEFTSHIFT, 1, delay)
    } else {
        Seq::empty()
    }) + tap_acts(s.code, delay) + (if s.shift {
        key_acts(KEY_LEFTSHIFT, 0, delay)
    } else {
        Seq::empty()
    })
}

pub open spec fn replay_acts(strokes: Seq<Stroke>, delay: u64) -> Seq<Act>
    decreases strokes.len(),
{
    if strokes.len() == 0 {
        Seq::empty()
    } else {
        replay_acts(strokes.drop_last(), delay) + stroke_acts(strokes.last(), delay)
    }
}

/// A correction: erase the strokes, switch the layout (press the switch keys in
/// order, release them in reverse), then type the same keys again.
pub open spec fn fix_plan(strokes: Seq<Stroke>, cfg: ConfigView) -> Seq<Act> {
    if strokes.len() == 0 {
        Seq::empty()
    } else {
        let d = cfg.key_delay_ms;
        erase_acts(strokes.len(), d) + seq![Act::Wait(cfg.post_backspace_ms)] + keys_acts(
            cfg.layout_switch,
            1,
            d,
        ) + keys_acts(cfg.layout_switch.reverse(), 0, d) + seq![Act::Wait(cfg.switch_delay_ms)]
            + replay_acts(strokes, d)
    }
}

/// `p` without any `c`.
pub open spec fn without(p: Seq<u16>, c: u16) -> Seq<u16>
    decreases p.len(),
{
    if p.len() == 0 {
        p
    } else if p.last() == c {
        without(p.drop_last(), c)
    } else {
        without(p.drop_last(), c).push(p.last())
    }
}

/// The keys held by the virtual keyboard after a step that succeeded.
pub open spec fn held_after_act(p: Seq<u16>, a: Act) -> Seq<u16> {
    match a {
        Act::Emit(c, v) => if v == 1 {
            if p.contains(c) {
                p
            } else {
                p.push(c)
            }
        } else if v == 0 {
            without(p, c)
        } else {
            p
        },
        Act::Wait(_) => p,
    }
}

/// The keys that may be held after a step that failed: a press counts as held even
/// when its write failed, since part of it may have reached the device.
pub open spec fn held_after_failure(p: Seq<u16>, a: Act) -> Seq<u16> {
    match a {
        Act::Emit(c, v) => if v == 1 && !p.contains(c) {
            p.push(c)
        } else {
            p
        },
        Act::Wait(_) => p,
    }
}

pub open spec fn held_after_acts(p: Seq<u16>, acts: Seq<Act>) -> Seq<u16>
    decreases acts.len(),
{
    if acts.len() == 0 {
        p
    } else {
        held_after_act(held_after_acts(p, acts.drop_last()), acts.last())
    }
}

/// The keys held when the replay stops after `n` steps of `plan`, the last one
/// failed when `failed`.
pub open spec fn held_when_stopped(p: Seq<u16>, plan: Seq<Act>, n: int, failed: bool) -> Seq<u16> {
    if failed {
        held_after_failure(held_after_acts(p, plan.take(n - 1)), plan[n - 1])
    } else {
        held_after_acts(p, plan.take(n))
    }
}

/// Releases of every key of `p`, newest first.
pub open spec fn release_acts(p: Seq<u16>) -> Seq<Act> {
    Seq::new(p.len(), |i: int| Act::Emit(p[p.len() - 1 - i], 0))
}

/// Milliseconds as a `Duration`.
pub uninterp spec fn millis_duration(ms: u64) -> Duration;

/// `Duration::from_millis`: the duration of `ms` milliseconds.
#[verifier::external_body]
fn millis(ms: u64) -> (d: Duration)
    ensures
        d == millis_duration(ms),
{
    Duration::from_millis(ms)
}

/// `io::Error::other` with the message that a cleanup failed; nothing is stated of
/// the error value it builds.
#[verifier::external_body]
fn cleanup_error(err: std::io::Error) -> std::io::Error {
    std::io::Error::other(format!("не удалось отпустить синтетические клавиши: {err}"))
}

/// `io::Error::kind` compared with `ErrorKind::Interrupted`; nothing is stated of the
/// answer, which depends on what the error holds.
#[verifier::external_body]
fn interrupted(err: &std::io::Error) -> bool {
    match err.kind() {
        std::io::ErrorKind::Interrupted => true,
        _ => false,
    }
}

/// Why a correction failed.
#[derive(Debug)]
pub enum FixError {
    /// A step failed (a write to the output, or the wait between keys) and every
    /// key was then released.
    Step(std::io::Error),
    /// Releasing the keys afterwards failed: keys may be stuck, whatever else
    /// happened.
    Cleanup(std::io::Error),
}

impl FixError {
    /// A failed cleanup is always fatal; a failed step is fatal unless it was an
    /// interruption (new input, a session change or a shutdown).
    pub fn is_fatal(&self) -> (r: bool)
        ensures
            self is Cleanup ==> r,
    {
        match self {
            FixError::Cleanup(_) => true,
            FixError::Step(e) => !interrupted(e),
        }
    }

    /// As an `io::Error`: a failed step gives its own error back, a failed cleanup an
    /// error that says the keys could not be released.
    pub fn into_io(self) -> (r: std::io::Error)
        ensures
            self matches FixError::Step(e) ==> r == e,
    {
        match self {
            FixError::Step(e) => e,
            FixError::Cleanup(e) => cleanup_error(e),
        }
    }
}

fn key_plan(plan: &mut Vec<Act>, code: u16, value: i32, delay: u64)
    ensures
        final(plan)@ == old(plan)@ + key_acts(code, value, delay),
{
    plan.push(Act::Wait(0));
    plan.push(Act::Emit(code, value));
    plan.push(Act::Wait(delay));
}

fn tap_plan(plan: &mut Vec<Act>, code: u16, delay: u64)
    ensures
        final(plan)@ == old(plan)@ + tap_acts(code, delay),
{
    key_plan(plan, code, 1, delay);
    key_plan(plan, code, 0, delay);
}

/// The steps of a correction of `strokes`.
pub fn build_plan(strokes: &[Stroke], cfg: &Config) -> (plan: Vec<Act>)
    ensures
        plan@ == fix_plan(strokes@, cfg@),
{
    let mut plan: Vec<Act> = Vec::new();
    if strokes.len() == 0 {
        return plan;
    }
    let d = cfg.key_delay_ms;
    let mut i: usize = 0;
    while i < strokes.len()
        invariant
            i <= strokes.len(),
            plan@ == erase_acts(i as nat, d),
        decreases strokes.len() - i,
    {
        tap_plan(&mut plan, KEY_BACKSPACE, d);
        i += 1;
    }
    let ghost erase = plan@;
    plan.push(Act::Wait(cfg.post_backspace_ms));
    let ghost head = plan@;
    let mut k: usize = 0;
    let sw = &cfg.layout_switch;
    assert(sw@.take(0) =~= Seq::<u16>::empty());
    assert(head + keys_acts(sw@.take(0), 1, d) =~= head);
    while k < sw.len()
        invariant
            k <= sw.len(),
            sw@ == cfg.layout_switch@,
            plan@ == head + keys_acts(sw@.take(k as int), 1, d),
        decreases sw.len() - k,
    {
        key_plan(&mut plan, sw[k], 1, d);
        assert(sw@.take(k + 1).drop_last() =~= sw@.take(k as int));
        k += 1;
    }
    assert(sw@.take(sw.len() as int) =~= sw@);
    let ghost mid = plan@;
    let ghost rev = sw@.reverse();
    let mut k: usize = 0;
    assert(rev.take(0) =~= Seq::<u16>::empty());
    assert(mid + keys_acts(rev.take(0), 0, d) =~= mid);
    while k < sw.len()
        invariant
            k <= sw.len(),
            rev == sw@.reverse(),
            plan@ == mid + keys_acts(rev.take(k as int), 0, d),
        decreases sw.len() - k,
    {
        let code = sw[sw.len() - 1 - k];
        assert(rev[k as int] == code);
        key_plan(&mut plan, code, 0, d);
        assert(rev.take(k + 1).drop_last() =~= rev.take(k as int));
        k += 1;
    }
    assert(rev.take(sw.len() as int) =~= rev);
    plan.push(Act::Wait(cfg.switch_delay_ms));
    let ghost tail = plan@;
    let mut i: usize = 0;
    assert(strokes@.take(0) =~= Seq::<Stroke>::empty());
    assert(tail + replay_acts(strokes@.take(0), d) =~= tail);
    while i < strokes.len()
        invariant
            i <= strokes.len(),
            plan@ == tail + replay_acts(strokes@.take(i as int), d),
        decreases strokes.len() - i,
    {
        let s = strokes[i];
        let ghost before = plan@;
        if s.shift {
            key_plan(&mut plan, KEY_LEFTSHIFT, 1, d);
        }
        tap_plan(&mut plan, s.code, d);
        if s.shift {
            key_plan(&mut plan, KEY_LEFTSHIFT, 0, d);
        }
        assert(plan@ =~= before + stroke_acts(s, d));
        assert(strokes@.take(i + 1).drop_last() =~= strokes@.take(i as int));
        i += 1;
    }
    assert(strokes@.take(strokes.len() as int) =~= strokes@);
    assert(plan@ =~= fix_plan(strokes@, cfg@));
    plan
}

/// The actions of `steps`.
pub open spec fn acts_of(steps: Seq<(Act, bool)>) -> Seq<Act> {
    steps.map_values(|s: (Act, bool)| s.0)
}

/// Every one of `steps` succeeded.
pub open spec fn all_ok(steps: Seq<(Act, bool)>) -> bool {
    forall|i: int| 0 <= i < steps.len() ==> #[trigger] steps[i].1
}

/// The key events among `steps`, each with whether its write succeeded.
pub open spec fn sent_of(steps: Seq<(Act, bool)>) -> Seq<(u16, i32, bool)>
    decreases steps.len(),
{
    if steps.len() == 0 {
        Seq::empty()
    } else {
        let before = sent_of(steps.drop_last());
        match steps.last().0 {
            Act::Emit(c, v) => before.push((c, v, steps.last().1)),
            Act::Wait(_) => before,
        }
    }
}

/// Between `a` and `b` the output was handed exactly the key events of `steps`, as
/// a recording output shows in its history.
pub open spec fn sink_follows<T: KeyOutput>(a: T, b: T, steps: Seq<(Act, bool)>) -> bool {
    &&& b.records() == a.records()
    &&& a.records() ==> b.sent() == a.sent() + sent_of(steps)
}

/// Every wait step of `steps` is an answer of `wait` for its duration: `Ok` where
/// the step succeeded, an error where it failed.
pub open spec fn waits_answered<W: FnMut(Duration) -> std::io::Result<()>>(
    wait: W,
    steps: Seq<(Act, bool)>,
) -> bool {
    forall|i: int|
        0 <= i < steps.len() ==> match (#[trigger] steps[i]).0 {
            Act::Wait(ms) => {
                &&& steps[i].1 ==> call_ensures(wait, (millis_duration(ms),), Ok(()))
                &&& !steps[i].1 ==> exists|e: std::io::Error|
                    call_ensures(wait, (millis_duration(ms),), Err(e))
            },
            Act::Emit(_, _) => true,
        }
}

/// Each key of `p` is still held afterwards exactly when its release (step
/// `p.len() - 1 - k` of `rs` for `p[k]`) failed, and no other key is.
pub open spec fn released_unless_failed(p: Seq<u16>, rs: Seq<(Act, bool)>, p1: Seq<u16>) -> bool {
    &&& forall|k: int| 0 <= k < p.len() ==> (p1.contains(#[trigger] p[k]) <==> !rs[p.len() - 1 - k].1)
    &&& forall|c: u16| p1.contains(c) ==> p.contains(c)
}

/// The keys left pressed, starting from `held`, by a history of key events: a press
/// presses and a release releases, whether or not the write succeeded.
pub open spec fn pressed_by(held: Set<u16>, events: Seq<(u16, i32, bool)>) -> Set<u16>
    decreases events.len(),
{
    if events.len() == 0 {
        held
    } else {
        let before = pressed_by(held, events.drop_last());
        let (c, v, _ok) = events.last();
        if v == 1 {
            before.insert(c)
        } else if v == 0 {
            before.remove(c)
        } else {
            before
        }
    }
}

proof fn lemma_sent_of_append(a: Seq<(Act, bool)>, b: Seq<(Act, bool)>)
    ensures
        sent_of(a + b) == sent_of(a) + sent_of(b),
    decreases b.len(),
{
    if b.len() == 0 {
        assert(a + b =~= a);
        assert(sent_of(a) + sent_of(b) =~= sent_of(a));
    } else {
        lemma_sent_of_append(a, b.drop_last());
        assert((a + b).drop_last() =~= a + b.drop_last());
        assert((a + b).last() == b.last());
        match b.last().0 {
            Act::Emit(c, v) => {
                assert(sent_of(a) + sent_of(b.drop_last()).push((c, v, b.last().1)) =~= (sent_of(a)
                    + sent_of(b.drop_last())).push((c, v, b.last().1)));
            },
            Act::Wait(_) => {},
        }
    }
}

/// The history a run of steps hands the output leaves pressed what its actions press.
proof fn lemma_pressed_by_sent(held: Set<u16>, steps: Seq<(Act, bool)>)
    ensures
        pressed_by(held, sent_of(steps)) == pressed_after(held, acts_of(steps)),
    decreases steps.len(),
{
    if steps.len() > 0 {
        lemma_pressed_by_sent(held, steps.drop_last());
        assert(acts_of(steps).drop_last() =~= acts_of(steps.drop_last()));
        assert(acts_of(steps).last() == steps.last().0);
        match steps.last().0 {
            Act::Emit(c, v) => {
                let s = sent_of(steps);
                assert(s.drop_last() =~= sent_of(steps.drop_last()));
            },
            Act::Wait(_) => {},
        }
    }
}

impl<T: KeyOutput> Injector<T> {
    /// The keys the injector has pressed and not released (as far as it knows).
    pub closed spec fn pressed(&self) -> Seq<u16> {
        self.pressed@
    }

    /// Every step the injector has attempted, in order, with whether it succeeded.
    pub closed spec fn trace(&self) -> Seq<(Act, bool)> {
        self.trace@
    }

    /// The output the events go to.
    pub closed spec fn sink(&self) -> T {
        self.output
    }

    pub closed spec fn wf(&self) -> bool {
        &&& self.pressed@.no_duplicates()
        &&& self.output.records() ==> self.output.sent() == self.base@ + sent_of(self.trace@)
    }

    pub fn with_output(output: T) -> (i: Self)
        ensures
            i.wf(),
            i.sink() == output,
            i.pressed() == Seq::<u16>::empty(),
            i.trace() == Seq::<(Act, bool)>::empty(),
    {
        let i = Injector {
            output,
            pressed: Vec::new(),
            trace: Ghost(Seq::empty()),
            base: Ghost(output.sent()),
        };
        assert(i.base@ + sent_of(i.trace@) =~= i.base@);
        i
    }

    /// The output the events go to.
    pub fn output(&self) -> (r: &T)
        ensures
            *r == self.sink(),
    {
        &self.output
    }

    fn forget_key(&mut self, code: u16)
        requires
            old(self).wf(),
        ensures
            final(self).wf(),
            final(self).pressed() == without(old(self).pressed(), code),
            final(self).trace() == old(self).trace(),
            final(self).sink() == old(self).sink(),
            final(self).base == old(self).base,
    {
        let ghost p = self.pressed@;
        let mut kept: Vec<u16> = Vec::new();
        let mut i: usize = 0;
        assert(p.take(0) =~= Seq::<u16>::empty());
        while i < self.pressed.len()
            invariant
                i <= self.pressed.len(),
                self.pressed@ == p,
                p.no_duplicates(),
                kept@ == without(p.take(i as int), code),
                kept@.no_duplicates(),
            decreases self.pressed.len() - i,
        {
            let x = self.pressed[i];
            assert(p.take(i + 1).drop_last() =~= p.take(i as int));
            assert(p.take(i + 1).last() == x);
            if x != code {
                proof {
                    lemma_without_contains(p.take(i as int), code);
                    if p.take(i as int).contains(x) {
                        let j = choose|j: int| 0 <= j < i && p.take(i as int)[j] == x;
                        assert(p[j] == p[i as int]);
                    }
                    assert(!kept@.contains(x));
                }
                let ghost k0 = kept@;
                kept.push(x);
                assert forall|a: int, b: int|
                    0 <= a < kept@.len() && 0 <= b < kept@.len() && a != b implies kept@[a]
                    != kept@[b] by {
                    if a < k0.len() && b < k0.len() {
                        assert(k0[a] != k0[b]);
                    } else if a < k0.len() {
                        assert(k0.contains(k0[a]));
                    } else if b < k0.len() {
                        assert(k0.contains(k0[b]));
                    }
                }
            }
            i += 1;
        }
        assert(p.take(p.len() as int) =~= p);
        self.pressed = kept;
    }

    fn emit(&mut self, code: u16, value: i32) -> (r: std::io::Result<()>)
        requires
            old(self).wf(),
        ensures
            final(self).wf(),
            final(self).base == old(self).base,
            final(self).trace() == old(self).trace().push((Act::Emit(code, value), r is Ok)),
            final(self).sink().records() == old(self).sink().records(),
            r is Ok ==> final(self).pressed() == held_after_act(
                old(self).pressed(),
                Act::Emit(code, value),
            ),
            r is Err ==> final(self).pressed() == held_after_failure(
                old(self).pressed(),
                Act::Emit(code, value),
            ),
    {
        // Even a failed write may have partly reached uinput.
        if value == 1 {
            let mut found = false;
            let mut i: usize = 0;
            while i < self.pressed.len()
                invariant
                    i <= self.pressed.len(),
                    found == self.pressed@.take(i as int).contains(code),
                decreases self.pressed.len() - i,
            {
                assert(self.pressed@.take(i + 1).drop_last() =~= self.pressed@.take(i as int));
                if self.pressed[i] == code {
                    assert(self.pressed@.take(i + 1)[i as int] == code);
                    found = true;
                }
                i += 1;
            }
            assert(self.pressed@.take(self.pressed.len() as int) =~= self.pressed@);
            if !found {
                self.pressed.push(code);
            }
        }
        let r = self.output.emit_key(code, value);
        proof {
            let t = self.trace@;
            let step = (Act::Emit(code, value), r is Ok);
            self.trace@ = t.push(step);
            assert(self.trace@.drop_last() =~= t);
            assert(sent_of(self.trace@) == sent_of(t).push((code, value, r is Ok)));
            assert(self.base@ + sent_of(t).push((code, value, r is Ok)) =~= (self.base@ + sent_of(
                t,
            )).push((code, value, r is Ok)));
        }
        match r {
            Ok(()) => {
                if value == 0 {
                    self.forget_key(code);
                }
                Ok(())
            },
            Err(e) => Err(e),
        }
    }

    /// Tries to release every key still pressed, newest first; reports the first
    /// failure once all were tried.
    pub fn release_all(&mut self) -> (r: std::io::Result<()>)
        requires
            old(self).wf(),
        ensures
            final(self).wf(),
            final(self).trace().len() == old(self).trace().len() + old(self).pressed().len(),
            final(self).trace().take(old(self).trace().len() as int) == old(self).trace(),
            acts_of(final(self).trace().skip(old(self).trace().len() as int)) == release_acts(
                old(self).pressed(),
            ),
            released_unless_failed(
                old(self).pressed(),
                final(self).trace().skip(old(self).trace().len() as int),
                final(self).pressed(),
            ),
            sink_follows(
                old(self).sink(),
                final(self).sink(),
                final(self).trace().skip(old(self).trace().len() as int),
            ),
            r is Ok <==> all_ok(final(self).trace().skip(old(self).trace().len() as int)),
            r is Ok <==> final(self).pressed().len() == 0,
    {
        let codes = self.pressed.clone();
        let ghost p = codes@;
        let ghost t0 = self.trace@;
        let ghost b0 = self.base@;
        let ghost s0 = self.output;
        let ghost mut rs: Seq<(Act, bool)> = Seq::empty();
        let mut error: Option<std::io::Error> = None;
        let mut k: usize = codes.len();
        assert(release_acts(p).take(0) =~= Seq::<Act>::empty());
        assert(acts_of(rs) =~= Seq::<Act>::empty());
        assert(t0 + rs =~= t0);
        while k > 0
            invariant
                k <= codes.len(),
                codes@ == p,
                p.no_duplicates(),
                self.wf(),
                self.base@ == b0,
                self.output.records() == s0.records(),
                s0.records() ==> s0.sent() == b0 + sent_of(t0),
                self.trace@ == t0 + rs,
                rs.len() == p.len() - k,
                acts_of(rs) == release_acts(p).take(p.len() - k),
                forall|j: int|
                    k <= j < p.len() ==> (self.pressed@.contains(#[trigger] p[j]) <==> !rs[p.len()
                        - 1 - j].1),
                forall|j: int| 0 <= j < k ==> self.pressed@.contains(#[trigger] p[j]),
                forall|c: u16| self.pressed@.contains(c) ==> p.contains(c),
                error is None <==> all_ok(rs),
            decreases k,
        {
            k -= 1;
            let code = codes[k];
            let ghost before = self.pressed@;
            let ghost rs0 = rs;
            assert(before.contains(p[k as int]));
            let r = self.emit(code, 0);
            proof {
                rs = rs0.push((Act::Emit(code, 0), r is Ok));
                assert(self.trace@ =~= t0 + rs);
                assert(acts_of(rs) =~= acts_of(rs0).push(Act::Emit(code, 0)));
                assert(release_acts(p).take(p.len() - k) =~= release_acts(p).take(
                    p.len() - k - 1,
                ).push(Act::Emit(code, 0)));
                lemma_without_contains(before, code);
                assert forall|j: int| k <= j < p.len() implies (self.pressed@.contains(
                    #[trigger] p[j],
                ) <==> !rs[p.len() - 1 - j].1) by {
                    if j > k {
                        assert(p[j] != p[k as int]);
                        assert(rs[p.len() - 1 - j] == rs0[p.len() - 1 - j]);
                    }
                }
                assert forall|j: int| 0 <= j < k implies self.pressed@.contains(#[trigger] p[j]) by {
                    assert(before.contains(p[j]));
                    assert(p[j] != p[k as int]);
                }
                if all_ok(rs) {
                    assert forall|i: int| 0 <= i < rs0.len() implies #[trigger] rs0[i].1 by {
                        assert(rs[i] == rs0[i]);
                    }
                }
                if all_ok(rs0) && r is Ok {
                    assert forall|i: int| 0 <= i < rs.len() implies #[trigger] rs[i].1 by {
                        if i < rs0.len() {
                            assert(rs[i] == rs0[i]);
                        }
                    }
                }
                if r is Err {
                    assert(!rs[rs.len() - 1].1);
                }
            }
            match r {
                Ok(()) => {},
                Err(e) => {
                    if error.is_none() {
                        error = Some(e);
                    }
                },
            }
        }
        proof {
            assert(release_acts(p).take(p.len() as int) =~= release_acts(p));
            assert(self.trace@.skip(t0.len() as int) =~= rs);
            assert(self.trace@.take(t0.len() as int) =~= t0);
            lemma_sent_of_append(t0, rs);
            if s0.records() {
                assert(b0 + (sent_of(t0) + sent_of(rs)) =~= (b0 + sent_of(t0)) + sent_of(rs));
            }
            if all_ok(rs) && self.pressed@.len() > 0 {
                let c = self.pressed@[0];
                assert(self.pressed@.contains(c));
                assert(p.contains(c));
                let j = choose|j: int| 0 <= j < p.len() && p[j] == c;
                assert(rs[p.len() - 1 - j].1);
            }
            if !all_ok(rs) {
                let i = choose|i: int| 0 <= i < rs.len() && !(#[trigger] rs[i].1);
                let j = p.len() - 1 - i;
                assert(self.pressed@.contains(p[j]));
                assert(self.pressed@.len() > 0);
            }
        }
        match error {
            Some(e) => Err(e),
            None => Ok(()),
        }
    }
}

/// How a correction ended: it attempted the first `n` steps of `plan`, all of them
/// succeeding but the last when `failed` (and all of the plan when not), then one
/// release of every key still held, newest first. The keys held afterwards are those
/// whose release failed, and it succeeded exactly when no step failed.
pub open spec fn fix_outcome(
    p0: Seq<u16>,
    plan: Seq<Act>,
    n: int,
    failed: bool,
    steps: Seq<(Act, bool)>,
    p1: Seq<u16>,
    ok: bool,
) -> bool {
    let held = held_when_stopped(p0, plan, n, failed);
    &&& 0 <= n <= plan.len()
    &&& failed ==> n >= 1
    &&& !failed ==> n == plan.len()
    &&& steps.len() == n + held.len()
    &&& acts_of(steps) == plan.take(n) + release_acts(held)
    &&& forall|i: int| 0 <= i < n ==> #[trigger] steps[i].1 == !(failed && i == n - 1)
    &&& released_unless_failed(held, steps.skip(n), p1)
    &&& ok <==> (!failed && all_ok(steps.skip(n)))
}

/// Where a correction stopped at a failed wait and every release succeeded, it gives
/// back what `wait` answered for that step.
pub open spec fn wait_answer_returned<W: FnMut(Duration) -> std::io::Result<()>>(
    wait: W,
    plan: Seq<Act>,
    n: int,
    failed: bool,
    steps: Seq<(Act, bool)>,
    r: Result<(), FixError>,
) -> bool {
    (failed && all_ok(steps.skip(n))) ==> match r {
        Err(FixError::Step(e)) => match plan[n - 1] {
            Act::Wait(ms) => call_ensures(wait, (millis_duration(ms),), Err::<(), std::io::Error>(e)),
            Act::Emit(_, _) => true,
        },
        _ => false,
    }
}

/// A failed release is reported as such, in preference to anything else.
pub open spec fn cleanup_reported(steps: Seq<(Act, bool)>, n: int, r: Result<(), FixError>) -> bool {
    !all_ok(steps.skip(n)) ==> r matches Err(FixError::Cleanup(_))
}

impl<T: KeyOutput> Injector<T> {
    /// Erases `strokes`, switches the layout and types them again. `wait` is called
    /// before every key event (with zero) and for every delay; an error from it or
    /// from the output stops the correction. Whatever happened, every key still held
    /// is then released; a failed release is reported (as `FixError::Cleanup`) in
    /// preference to anything else.
    /// An output that keeps a history shows exactly the key events of those steps,
    /// which leave no key pressed.
    #[verifier::rlimit(60)]
    pub fn fix<W: FnMut(Duration) -> std::io::Result<()>>(
        &mut self,
        strokes: &[Stroke],
        cfg: &Config,
        wait: W,
    ) -> (r: Result<(), FixError>)
        requires
            old(self).wf(),
            forall|w: W, d: Duration| call_requires(w, (d,)),
        ensures
            final(self).wf(),
            strokes@.len() == 0 ==> r is Ok && final(self).trace() == old(self).trace()
                && final(self).pressed() == old(self).pressed() && final(self).sink() == old(
                self,
            ).sink(),
            strokes@.len() > 0 ==> {
                let steps = final(self).trace().skip(old(self).trace().len() as int);
                &&& final(self).trace().take(old(self).trace().len() as int) == old(self).trace()
                &&& sink_follows(old(self).sink(), final(self).sink(), steps)
                &&& waits_answered(wait, steps)
                &&& old(self).sink().records() ==> pressed_by(
                    key_set(old(self).pressed()),
                    final(self).sink().sent().skip(old(self).sink().sent().len() as int),
                ) == Set::<u16>::empty()
                &&& exists|n: int, failed: bool|
                    #[trigger] fix_outcome(
                        old(self).pressed(),
                        fix_plan(strokes@, cfg@),
                        n,
                        failed,
                        steps,
                        final(self).pressed(),
                        r is Ok,
                    ) && wait_answer_returned(wait, fix_plan(strokes@, cfg@), n, failed, steps, r)
                        && cleanup_reported(steps, n, r)
            },
    {
        if strokes.len() == 0 {
            return Ok(());
        }
        let plan = build_plan(strokes, cfg);
        let ghost w0 = wait;
        let mut wait = wait;
        let ghost p0 = self.pressed@;
        let ghost t0 = self.trace@;
        let ghost b0 = self.base@;
        let ghost s0 = self.output;
        let ghost mut st: Seq<(Act, bool)> = Seq::empty();
        let mut result: std::io::Result<()> = Ok(());
        let mut i: usize = 0;
        assert(plan@.take(0) =~= Seq::<Act>::empty());
        assert(acts_of(st) =~= Seq::<Act>::empty());
        assert(t0 + st =~= t0);
        while i < plan.len() && result.is_ok()
            invariant
                self.wf(),
                self.base@ == b0,
                self.output.records() == s0.records(),
                s0.records() ==> s0.sent() == b0 + sent_of(t0),
                wait == w0,
                i <= plan.len(),
                self.trace@ == t0 + st,
                st.len() == i,
                acts_of(st) == plan@.take(i as int),
                forall|j: int| 0 <= j < i ==> #[trigger] st[j].1 == !(result is Err && j == i - 1),
                waits_answered(w0, st),
                result is Err ==> i >= 1,
                result is Err ==> match plan@[i - 1] {
                    Act::Wait(ms) => call_ensures(w0, (millis_duration(ms),), result),
                    Act::Emit(_, _) => true,
                },
                result is Ok ==> self.pressed@ == held_after_acts(p0, plan@.take(i as int)),
                result is Err ==> self.pressed@ == held_when_stopped(p0, plan@, i as int, true),
                forall|w: W, d: Duration| call_requires(w, (d,)),
            decreases plan.len() - i,
        {
            let ghost st0 = st;
            assert(plan@.take(i + 1).drop_last() =~= plan@.take(i as int));
            assert(plan@.take(i + 1).last() == plan@[i as int]);
            match plan[i] {
                Act::Wait(ms) => {
                    let d = millis(ms);
                    let r = wait(d);
                    proof {
                        let t = self.trace@;
                        self.trace@ = t.push((Act::Wait(ms), r is Ok));
                        st = st0.push((Act::Wait(ms), r is Ok));
                        assert(self.trace@.drop_last() =~= t);
                        assert(sent_of(self.trace@) == sent_of(t));
                        assert(self.trace@ =~= t0 + st);
                        assert(call_ensures(w0, (millis_duration(ms),), r));
                        assert forall|j: int| 0 <= j < st.len() implies match (#[trigger] st[j]).0 {
                            Act::Wait(ms2) => {
                                &&& st[j].1 ==> call_ensures(w0, (millis_duration(ms2),), Ok(()))
                                &&& !st[j].1 ==> exists|e: std::io::Error|
                                    call_ensures(w0, (millis_duration(ms2),), Err(e))
                            },
                            Act::Emit(_, _) => true,
                        } by {
                            if j < st0.len() {
                                assert(st[j] == st0[j]);
                            } else {
                                assert(st[j] == (Act::Wait(ms), r is Ok));
                                match r {
                                    Ok(u) => {
                                        assert(r == Ok::<(), std::io::Error>(()));
                                    },
                                    Err(e) => {
                                        assert(call_ensures(w0, (millis_duration(ms),), Err(e)));
                                    },
                                }
                            }
                        }
                    }
                    if r.is_err() {
                        result = r;
                    }
                },
                Act::Emit(code, value) => {
                    let r = self.emit(code, value);
                    proof {
                        st = st0.push((Act::Emit(code, value), r is Ok));
                        assert(self.trace@ =~= t0 + st);
                        assert forall|j: int| 0 <= j < st.len() implies match (#[trigger] st[j]).0 {
                            Act::Wait(ms2) => {
                                &&& st[j].1 ==> call_ensures(w0, (millis_duration(ms2),), Ok(()))
                                &&& !st[j].1 ==> exists|e: std::io::Error|
                                    call_ensures(w0, (millis_duration(ms2),), Err(e))
                            },
                            Act::Emit(_, _) => true,
                        } by {
                            if j < st0.len() {
                                assert(st[j] == st0[j]);
                            }
                        }
                    }
                    if r.is_err() {
                        result = r;
                    }
                },
            }
            proof {
                assert(acts_of(st) =~= acts_of(st0).push(plan@[i as int]));
                assert forall|j: int| 0 <= j < i + 1 implies #[trigger] st[j].1 == !(result is Err
                    && j == i) by {
                    if j < i {
                        assert(st[j] == st0[j]);
                    }
                }
            }
            i += 1;
        }
        let ghost failed = result is Err;
        let ghost held = self.pressed@;
        let ghost n = i as int;
        proof {
            if !failed {
                assert(i == plan.len());
            }
            assert(held == held_when_stopped(p0, plan@, n, failed));
        }
        let ghost t_mid = self.trace@;
        let released = self.release_all();
        let ghost rs = self.trace@.skip(t_mid.len() as int);
        let r = match released {
            Err(e) => Err(FixError::Cleanup(e)),
            Ok(()) => match result {
                Ok(()) => Ok(()),
                Err(e) => Err(FixError::Step(e)),
            },
        };
        proof {
            let t1 = self.trace@;
            let steps = st + rs;
            assert(t1 =~= t_mid + rs) by {
                assert(t1.take(t_mid.len() as int) == t_mid);
            }
            assert(t1.skip(t0.len() as int) =~= steps);
            assert(t1.take(t0.len() as int) =~= t0);
            assert(steps.skip(n) =~= rs);
            assert(acts_of(steps) =~= acts_of(st) + acts_of(rs));
            assert forall|j: int| 0 <= j < n implies #[trigger] steps[j].1 == !(failed && j == n
                - 1) by {
                assert(steps[j] == st[j]);
            }
            assert(fix_outcome(p0, plan@, n, failed, steps, self.pressed@, r is Ok));
            assert forall|j: int| 0 <= j < steps.len() implies match (#[trigger] steps[j]).0 {
                Act::Wait(ms2) => {
                    &&& steps[j].1 ==> call_ensures(w0, (millis_duration(ms2),), Ok(()))
                    &&& !steps[j].1 ==> exists|e: std::io::Error|
                        call_ensures(w0, (millis_duration(ms2),), Err(e))
                },
                Act::Emit(_, _) => true,
            } by {
                if j < st.len() {
                    assert(steps[j] == st[j]);
                } else {
                    assert(steps[j] == rs[j - st.len()]);
                    assert(acts_of(rs)[j - st.len()] == rs[j - st.len()].0);
                }
            }
            assert(waits_answered(w0, steps));
            assert(wait_answer_returned(w0, plan@, n, failed, steps, r));
            lemma_sent_of_append(t0, st);
            lemma_sent_of_append(t0 + st, rs);
            lemma_sent_of_append(st, rs);
            if s0.records() {
                let so = self.output.sent();
                assert(so == b0 + sent_of(t1));
                assert(sent_of(t1) == sent_of(t0) + sent_of(steps)) by {
                    lemma_sent_of_append(t0, steps);
                    assert(t1 =~= t0 + steps);
                }
                assert(so =~= s0.sent() + sent_of(steps));
                assert(so.skip(s0.sent().len() as int) =~= sent_of(steps));
                lemma_pressed_by_sent(key_set(p0), steps);
                lemma_fix_leaves_nothing_pressed(p0, plan@, n, failed);
            }
            assert(sink_follows(s0, self.output, steps)) by {
                if s0.records() {
                    lemma_sent_of_append(t0, steps);
                    assert(t1 =~= t0 + steps);
                    assert(self.output.sent() =~= s0.sent() + sent_of(steps));
                }
            }
            assert(plan@ == fix_plan(strokes@, cfg@));
            let steps1 = self.trace().skip(old(self).trace().len() as int);
            assert(steps1 == steps);
            assert(self.trace().take(old(self).trace().len() as int) == old(self).trace());
            assert(sink_follows(old(self).sink(), self.sink(), steps1));
            assert(waits_answered(wait, steps1));
            assert(old(self).sink().records() ==> pressed_by(
                key_set(old(self).pressed()),
                self.sink().sent().skip(old(self).sink().sent().len() as int),
            ) == Set::<u16>::empty());
            assert(fix_outcome(
                old(self).pressed(),
                fix_plan(strokes@, cfg@),
                n,
                failed,
                steps1,
                self.pressed(),
                r is Ok,
            ));
            assert(wait_answer_returned(wait, fix_plan(strokes@, cfg@), n, failed, steps1, r));
            assert(cleanup_reported(steps1, n, r));
        }
        r
    }
}

proof fn lemma_without_has(p: Seq<u16>, c: u16, x: u16)
    ensures
        without(p, c).contains(x) <==> (p.contains(x) && x != c),
    decreases p.len(),
{
    if p.len() > 0 {
        let d = p.drop_last();
        lemma_without_has(d, c, x);
        let w = without(d, c);
        if p.contains(x) && x != c {
            let j = choose|j: int| 0 <= j < p.len() && p[j] == x;
            if j < p.len() - 1 {
                assert(d[j] == x);
                assert(w.contains(x));
                if p.last() != c {
                    let m = choose|m: int| 0 <= m < w.len() && w[m] == x;
                    assert(w.push(p.last())[m] == x);
                }
            } else {
                assert(w.push(p.last())[w.len() as int] == x);
            }
        }
        if without(p, c).contains(x) {
            if p.last() != c && x == p.last() {
                assert(p[p.len() - 1] == x);
            } else {
                assert(w.contains(x)) by {
                    if p.last() != c {
                        let v = w.push(p.last());
                        let m = choose|m: int| 0 <= m < v.len() && v[m] == x;
                        assert(w[m] == x);
                    }
                }
                let j = choose|j: int| 0 <= j < d.len() && d[j] == x;
                assert(p[j] == x);
            }
        }
    }
}

proof fn lemma_without_contains(p: Seq<u16>, c: u16)
    ensures
        forall|x: u16| #[trigger] without(p, c).contains(x) <==> (p.contains(x) && x != c),
{
    assert forall|x: u16| #[trigger] without(p, c).contains(x) <==> (p.contains(x) && x != c) by {
        lemma_without_has(p, c, x);
    }
}


/// The keys held after `acts` are among those held before, except the keys of `added`,
/// and none of `removed`.
pub open spec fn held_within(p: Seq<u16>, acts: Seq<Act>, added: Seq<u16>, removed: Seq<u16>) -> bool {
    forall|x: u16|
        #[trigger] held_after_acts(p, acts).contains(x) <==> ((p.contains(x) || added.contains(x))
            && !removed.contains(x))
}

proof fn lemma_acts_append(p: Seq<u16>, a: Seq<Act>, b: Seq<Act>)
    ensures
        held_after_acts(p, a + b) == held_after_acts(held_after_acts(p, a), b),
    decreases b.len(),
{
    if b.len() == 0 {
        assert(a + b =~= a);
    } else {
        lemma_acts_append(p, a, b.drop_last());
        assert((a + b).drop_last() =~= a + b.drop_last());
        assert((a + b).last() == b.last());
    }
}

proof fn lemma_key_acts(p: Seq<u16>, c: u16, value: i32, d: u64)
    requires
        value == 0 || value == 1,
    ensures
        value == 1 ==> held_within(p, key_acts(c, 1, d), seq![c], Seq::empty()),
        value == 0 ==> held_within(p, key_acts(c, 0, d), Seq::empty(), seq![c]),
{
    let k = key_acts(c, value, d);
    assert(k.drop_last().drop_last().drop_last() =~= Seq::<Act>::empty());
    assert(k.drop_last().drop_last().last() == Act::Wait(0));
    assert(k.drop_last().last() == Act::Emit(c, value));
    assert(k.last() == Act::Wait(d));
    let q = held_after_acts(p, k);
    let k1 = k.drop_last();
    let k2 = k1.drop_last();
    let k3 = k2.drop_last();
    assert(held_after_acts(p, k3) == p);
    assert(held_after_acts(p, k2) == p);
    assert(held_after_acts(p, k1) == held_after_act(p, Act::Emit(c, value)));
    assert(q == held_after_act(p, Act::Emit(c, value)));
    if value == 0 {
        lemma_without_contains(p, c);
        assert forall|x: u16| #[trigger] q.contains(x) <==> ((p.contains(x)
            || Seq::<u16>::empty().contains(x)) && !seq![c].contains(x)) by {
            assert(seq![c].contains(x) <==> x == c) by {
                if x == c {
                    assert(seq![c][0] == x);
                }
            }
        }
    } else {
        assert forall|x: u16| #[trigger] q.contains(x) <==> ((p.contains(x) || seq![c].contains(x))
            && !Seq::<u16>::empty().contains(x)) by {
            assert(seq![c].contains(x) <==> x == c) by {
                if x == c {
                    assert(seq![c][0] == x);
                }
            }
            if !p.contains(c) {
                if q.contains(x) && x != c {
                    let j = choose|j: int| 0 <= j < q.len() && q[j] == x;
                    assert(p[j] == x);
                }
                if p.contains(x) {
                    let j = choose|j: int| 0 <= j < p.len() && p[j] == x;
                    assert(q[j] == x);
                }
                if x == c {
                    assert(q[p.len() as int] == x);
                }
            }
        }
    }
}

proof fn lemma_keys_acts(p: Seq<u16>, codes: Seq<u16>, value: i32, d: u64)
    requires
        value == 0 || value == 1,
    ensures
        value == 1 ==> held_within(p, keys_acts(codes, 1, d), codes, Seq::empty()),
        value == 0 ==> held_within(p, keys_acts(codes, 0, d), Seq::empty(), codes),
    decreases codes.len(),
{
    if codes.len() == 0 {
        assert forall|x: u16| #[trigger] held_after_acts(p, keys_acts(codes, value, d)).contains(x)
            <==> p.contains(x) by {
        }
    } else {
        let init = codes.drop_last();
        let c = codes.last();
        lemma_keys_acts(p, init, value, d);
        let mid = held_after_acts(p, keys_acts(init, value, d));
        lemma_acts_append(p, keys_acts(init, value, d), key_acts(c, value, d));
        lemma_key_acts(mid, c, value, d);
        assert forall|x: u16| codes.contains(x) <==> (init.contains(x) || x == c) by {
            if codes.contains(x) {
                let j = choose|j: int| 0 <= j < codes.len() && codes[j] == x;
                if j < codes.len() - 1 {
                    assert(init[j] == x);
                }
            }
            if init.contains(x) {
                let j = choose|j: int| 0 <= j < init.len() && init[j] == x;
                assert(codes[j] == x);
            }
            if x == c {
                assert(codes[codes.len() - 1] == x);
            }
        }
        assert forall|x: u16| seq![c].contains(x) <==> x == c by {
            if x == c {
                assert(seq![c][0] == x);
            }
        }
    }
}

proof fn lemma_tap_acts(p: Seq<u16>, c: u16, d: u64)
    ensures
        held_within(p, tap_acts(c, d), Seq::empty(), seq![c]),
{
    lemma_acts_append(p, key_acts(c, 1, d), key_acts(c, 0, d));
    lemma_key_acts(p, c, 1, d);
    let mid = held_after_acts(p, key_acts(c, 1, d));
    lemma_key_acts(mid, c, 0, d);
}

proof fn lemma_erase_acts(p: Seq<u16>, n: nat, d: u64)
    ensures
        forall|x: u16| #[trigger] held_after_acts(p, erase_acts(n, d)).contains(x) ==> p.contains(x),
    decreases n,
{
    if n > 0 {
        lemma_erase_acts(p, (n - 1) as nat, d);
        let mid = held_after_acts(p, erase_acts((n - 1) as nat, d));
        lemma_acts_append(p, erase_acts((n - 1) as nat, d), tap_acts(KEY_BACKSPACE, d));
        lemma_tap_acts(mid, KEY_BACKSPACE, d);
    }
}

proof fn lemma_stroke_acts(p: Seq<u16>, s: Stroke, d: u64)
    ensures
        forall|x: u16| #[trigger] held_after_acts(p, stroke_acts(s, d)).contains(x) ==> p.contains(x),
{
    if s.shift {
        let a = key_acts(KEY_LEFTSHIFT, 1, d);
        let b = tap_acts(s.code, d);
        let c = key_acts(KEY_LEFTSHIFT, 0, d);
        assert(stroke_acts(s, d) =~= a + b + c);
        lemma_acts_append(p, a + b, c);
        lemma_acts_append(p, a, b);
        lemma_key_acts(p, KEY_LEFTSHIFT, 1, d);
        let p1 = held_after_acts(p, a);
        lemma_tap_acts(p1, s.code, d);
        let p2 = held_after_acts(p1, b);
        lemma_key_acts(p2, KEY_LEFTSHIFT, 0, d);
        assert forall|x: u16| #[trigger] held_after_acts(p, stroke_acts(s, d)).contains(x) implies p.contains(x) by {
            assert(seq![KEY_LEFTSHIFT].contains(KEY_LEFTSHIFT)) by {
                assert(seq![KEY_LEFTSHIFT][0] == KEY_LEFTSHIFT);
            }
            if x != KEY_LEFTSHIFT {
                assert(!seq![KEY_LEFTSHIFT].contains(x));
            }
        }
    } else {
        assert(stroke_acts(s, d) =~= tap_acts(s.code, d));
        lemma_tap_acts(p, s.code, d);
    }
}

proof fn lemma_replay_acts(p: Seq<u16>, strokes: Seq<Stroke>, d: u64)
    ensures
        forall|x: u16| #[trigger] held_after_acts(p, replay_acts(strokes, d)).contains(x) ==> p.contains(x),
    decreases strokes.len(),
{
    if strokes.len() > 0 {
        lemma_replay_acts(p, strokes.drop_last(), d);
        let mid = held_after_acts(p, replay_acts(strokes.drop_last(), d));
        lemma_acts_append(p, replay_acts(strokes.drop_last(), d), stroke_acts(strokes.last(), d));
        lemma_stroke_acts(mid, strokes.last(), d);
    }
}

proof fn lemma_reverse_contains(s: Seq<u16>)
    ensures
        forall|x: u16| #[trigger] s.reverse().contains(x) <==> s.contains(x),
{
    assert forall|x: u16| #[trigger] s.reverse().contains(x) <==> s.contains(x) by {
        if s.contains(x) {
            let j = choose|j: int| 0 <= j < s.len() && s[j] == x;
            assert(s.reverse()[s.len() - 1 - j] == x);
        }
        if s.reverse().contains(x) {
            let j = choose|j: int| 0 <= j < s.reverse().len() && s.reverse()[j] == x;
            assert(s[s.len() - 1 - j] == x);
        }
    }
}

/// A correction releases every key it presses: run without a failure, it leaves
/// held no key that was not held before it started.
pub proof fn lemma_fix_plan_releases_all(p: Seq<u16>, strokes: Seq<Stroke>, cfg: ConfigView)
    ensures
        forall|x: u16| #[trigger] held_after_acts(p, fix_plan(strokes, cfg)).contains(x) ==> p.contains(x),
{
    if strokes.len() > 0 {
        let d = cfg.key_delay_ms;
        let a = erase_acts(strokes.len(), d);
        let b = seq![Act::Wait(cfg.post_backspace_ms)];
        let c = keys_acts(cfg.layout_switch, 1, d);
        let e = keys_acts(cfg.layout_switch.reverse(), 0, d);
        let f = seq![Act::Wait(cfg.switch_delay_ms)];
        let g = replay_acts(strokes, d);
        assert(fix_plan(strokes, cfg) == a + b + c + e + f + g);
        lemma_acts_append(p, a + b + c + e + f, g);
        lemma_acts_append(p, a + b + c + e, f);
        lemma_acts_append(p, a + b + c, e);
        lemma_acts_append(p, a + b, c);
        lemma_acts_append(p, a, b);
        lemma_erase_acts(p, strokes.len(), d);
        let p1 = held_after_acts(p, a);
        assert(b.drop_last() =~= Seq::<Act>::empty());
        let p2 = held_after_acts(p1, b);
        assert(held_after_acts(p1, b.drop_last()) == p1);
        assert(b.last() == Act::Wait(cfg.post_backspace_ms));
        assert(p2 == p1);
        lemma_keys_acts(p2, cfg.layout_switch, 1, d);
        let p3 = held_after_acts(p2, c);
        lemma_keys_acts(p3, cfg.layout_switch.reverse(), 0, d);
        lemma_reverse_contains(cfg.layout_switch);
        let p4 = held_after_acts(p3, e);
        assert(f.drop_last() =~= Seq::<Act>::empty());
        let p5 = held_after_acts(p4, f);
        assert(held_after_acts(p4, f.drop_last()) == p4);
        assert(f.last() == Act::Wait(cfg.switch_delay_ms));
        assert(p5 == p4);
        lemma_replay_acts(p5, strokes, d);
    }
}

/// A correction that met no failure and started with no key held attempted
/// exactly the plan, every step of it succeeded, and it left no key held.
pub proof fn lemma_clean_fix(
    strokes: Seq<Stroke>,
    cfg: ConfigView,
    n: int,
    failed: bool,
    steps: Seq<(Act, bool)>,
    p1: Seq<u16>,
)
    requires
        strokes.len() > 0,
        fix_outcome(Seq::empty(), fix_plan(strokes, cfg), n, failed, steps, p1, true),
    ensures
        acts_of(steps) == fix_plan(strokes, cfg),
        all_ok(steps),
        p1.len() == 0,
{
    let plan = fix_plan(strokes, cfg);
    lemma_fix_plan_releases_all(Seq::empty(), strokes, cfg);
    let held = held_after_acts(Seq::<u16>::empty(), plan);
    assert(plan.take(n) =~= plan);
    if held.len() > 0 {
        assert(held.contains(held[0]));
    }
    assert(release_acts(held) =~= Seq::<Act>::empty());
    assert(plan + Seq::<Act>::empty() =~= plan);
    assert forall|i: int| 0 <= i < steps.len() implies #[trigger] steps[i].1 by {
        if i >= n {
            assert(steps.skip(n)[i - n] == steps[i]);
        }
    }
    if p1.len() > 0 {
        assert(p1.contains(p1[0]));
    }
}

/// The keys of `p`, as a set.
pub open spec fn key_set(p: Seq<u16>) -> Set<u16> {
    Set::new(|x: u16| p.contains(x))
}

/// The keys that remain pressed, starting from `held`, once every key event of `acts`
/// was sent, whether or not its write succeeded: a press presses, a release releases.
pub open spec fn pressed_after(held: Set<u16>, acts: Seq<Act>) -> Set<u16>
    decreases acts.len(),
{
    if acts.len() == 0 {
        held
    } else {
        let before = pressed_after(held, acts.drop_last());
        match acts.last() {
            Act::Emit(c, v) => if v == 1 {
                before.insert(c)
            } else if v == 0 {
                before.remove(c)
            } else {
                before
            },
            Act::Wait(_) => before,
        }
    }
}

proof fn lemma_pressed_append(held: Set<u16>, a: Seq<Act>, b: Seq<Act>)
    ensures
        pressed_after(held, a + b) == pressed_after(pressed_after(held, a), b),
    decreases b.len(),
{
    if b.len() == 0 {
        assert(a + b =~= a);
    } else {
        lemma_pressed_append(held, a, b.drop_last());
        assert((a + b).drop_last() =~= a + b.drop_last());
        assert((a + b).last() == b.last());
    }
}

/// Steps that succeeded leave held exactly the keys that their events press.
proof fn lemma_held_is_pressed(p: Seq<u16>, acts: Seq<Act>)
    ensures
        key_set(held_after_acts(p, acts)) == pressed_after(key_set(p), acts),
    decreases acts.len(),
{
    if acts.len() > 0 {
        lemma_held_is_pressed(p, acts.drop_last());
        let q = held_after_acts(p, acts.drop_last());
        match acts.last() {
            Act::Emit(c, v) => {
                if v == 1 {
                    assert forall|x: u16| key_set(held_after_act(q, acts.last())).contains(x)
                        == key_set(q).insert(c).contains(x) by {
                        if !q.contains(c) {
                            if q.push(c).contains(x) && x != c {
                                let j = choose|j: int| 0 <= j < q.push(c).len() && q.push(c)[j] == x;
                                assert(q[j] == x);
                            }
                            if q.contains(x) {
                                let j = choose|j: int| 0 <= j < q.len() && q[j] == x;
                                assert(q.push(c)[j] == x);
                            }
                            if x == c {
                                assert(q.push(c)[q.len() as int] == x);
                            }
                        }
                    }
                    assert(key_set(held_after_act(q, acts.last())) =~= key_set(q).insert(c));
                } else if v == 0 {
                    lemma_without_contains(q, c);
                    assert(key_set(held_after_act(q, acts.last())) =~= key_set(q).remove(c));
                } else {
                }
            },
            Act::Wait(_) => {},
        }
    }
}

/// Releasing every key of `h` leaves pressed the keys that are not in `h`.
proof fn lemma_release_acts_release(held: Set<u16>, h: Seq<u16>)
    ensures
        pressed_after(held, release_acts(h)) == held.difference(key_set(h)),
    decreases h.len(),
{
    if h.len() == 0 {
        assert(release_acts(h) =~= Seq::<Act>::empty());
        assert(held.difference(key_set(h)) =~= held);
    } else {
        let t = h.skip(1);
        lemma_release_acts_release(held, t);
        assert(release_acts(h).drop_last() =~= release_acts(t));
        assert(release_acts(h).last() == Act::Emit(h[0], 0));
        assert forall|x: u16| key_set(h).contains(x) == (key_set(t).contains(x) || x == h[0]) by {
            if h.contains(x) && x != h[0] {
                let j = choose|j: int| 0 <= j < h.len() && h[j] == x;
                assert(t[j - 1] == x);
            }
            if t.contains(x) {
                let j = choose|j: int| 0 <= j < t.len() && t[j] == x;
                assert(h[j + 1] == x);
            }
            if x == h[0] {
                assert(h.contains(h[0]));
            }
        }
        assert(held.difference(key_set(t)).remove(h[0]) =~= held.difference(key_set(h)));
    }
}

/// Every key pressed during a correction is released before it returns, whatever
/// failed and wherever it stopped: the steps it attempts (the first `n` of the plan,
/// the last failed when `failed`, then one release of every key still held) leave no
/// key pressed, not even one pressed before it started.
pub proof fn lemma_fix_leaves_nothing_pressed(p0: Seq<u16>, plan: Seq<Act>, n: int, failed: bool)
    requires
        0 <= n <= plan.len(),
        failed ==> n >= 1,
    ensures
        pressed_after(
            key_set(p0),
            plan.take(n) + release_acts(held_when_stopped(p0, plan, n, failed)),
        ) == Set::<u16>::empty(),
{
    let held = held_when_stopped(p0, plan, n, failed);
    let sent = plan.take(n);
    lemma_pressed_append(key_set(p0), sent, release_acts(held));
    let mid = pressed_after(key_set(p0), sent);
    assert forall|x: u16| mid.contains(x) implies key_set(held).contains(x) by {
        if failed {
            let first = plan.take(n - 1);
            assert(sent.drop_last() =~= first);
            assert(sent.last() == plan[n - 1]);
            lemma_held_is_pressed(p0, first);
            let q = held_after_acts(p0, first);
            match plan[n - 1] {
                Act::Emit(c, v) => {
                    if v == 1 && !q.contains(c) && x == c {
                        assert(q.push(c)[q.len() as int] == c);
                    }
                    if v == 1 && !q.contains(c) && x != c {
                        let j = choose|j: int| 0 <= j < q.len() && q[j] == x;
                        assert(q.push(c)[j] == x);
                    }
                },
                Act::Wait(_) => {},
            }
        } else {
            lemma_held_is_pressed(p0, sent);
        }
    }
    lemma_release_acts_release(mid, held);
    assert(mid.difference(key_set(held)) =~= Set::<u16>::empty());
}

/// The keys pressed by `acts`, in order.
pub open spec fn press_codes(acts: Seq<Act>) -> Seq<u16>
    decreases acts.len(),
{
    if acts.len() == 0 {
        Seq::empty()
    } else {
        let before = press_codes(acts.drop_last());
        match acts.last() {
            Act::Emit(c, v) => if v == 1 {
                before.push(c)
            } else {
                before
            },
            Act::Wait(_) => before,
        }
    }
}

/// The keys that typing `strokes` presses: each stroke's key, after a left shift
/// where the stroke was shifted.
pub open spec fn stroke_presses(strokes: Seq<Stroke>) -> Seq<u16>
    decreases strokes.len(),
{
    if strokes.len() == 0 {
        Seq::empty()
    } else {
        stroke_presses(strokes.drop_last()) + if strokes.last().shift {
            seq![KEY_LEFTSHIFT, strokes.last().code]
        } else {
            seq![strokes.last().code]
        }
    }
}

/// `n` presses of backspace.
pub open spec fn backspaces(n: nat) -> Seq<u16> {
    Seq::new(n, |i: int| KEY_BACKSPACE)
}

proof fn lemma_press_codes_append(a: Seq<Act>, b: Seq<Act>)
    ensures
        press_codes(a + b) == press_codes(a) + press_codes(b),
    decreases b.len(),
{
    if b.len() == 0 {
        assert(a + b =~= a);
        assert(press_codes(a) + press_codes(b) =~= press_codes(a));
    } else {
        lemma_press_codes_append(a, b.drop_last());
        assert((a + b).drop_last() =~= a + b.drop_last());
        assert((a + b).last() == b.last());
        match b.last() {
            Act::Emit(c, v) => {
                assert(press_codes(a) + press_codes(b.drop_last()).push(c) =~= (press_codes(a)
                    + press_codes(b.drop_last())).push(c));
            },
            Act::Wait(_) => {},
        }
    }
}

proof fn lemma_key_acts_presses(c: u16, v: i32, d: u64)
    ensures
        key_acts(c, v, d).len() == 3,
        press_codes(key_acts(c, v, d)) == if v == 1 {
            seq![c]
        } else {
            Seq::<u16>::empty()
        },
{
    let k = key_acts(c, v, d);
    let k1 = k.drop_last();
    let k2 = k1.drop_last();
    let k3 = k2.drop_last();
    assert(k3 =~= Seq::<Act>::empty());
    assert(k2.last() == Act::Wait(0));
    assert(k1.last() == Act::Emit(c, v));
    assert(k.last() == Act::Wait(d));
    assert(press_codes(k3) == Seq::<u16>::empty());
    assert(press_codes(k2) == press_codes(k3));
    if v == 1 {
        assert(press_codes(k1) == Seq::<u16>::empty().push(c));
        assert(Seq::<u16>::empty().push(c) =~= seq![c]);
    } else {
        assert(press_codes(k1) == press_codes(k2));
    }
    assert(press_codes(k) == press_codes(k1));
}

proof fn lemma_tap_presses(c: u16, d: u64)
    ensures
        tap_acts(c, d).len() == 6,
        press_codes(tap_acts(c, d)) == seq![c],
{
    lemma_key_acts_presses(c, 1, d);
    lemma_key_acts_presses(c, 0, d);
    lemma_press_codes_append(key_acts(c, 1, d), key_acts(c, 0, d));
    assert(seq![c] + Seq::<u16>::empty() =~= seq![c]);
}

proof fn lemma_erase_presses(n: nat, d: u64)
    ensures
        erase_acts(n, d).len() == 6 * n,
        press_codes(erase_acts(n, d)) == backspaces(n),
    decreases n,
{
    if n == 0 {
        assert(backspaces(0) =~= Seq::<u16>::empty());
    } else {
        lemma_erase_presses((n - 1) as nat, d);
        lemma_tap_presses(KEY_BACKSPACE, d);
        lemma_press_codes_append(erase_acts((n - 1) as nat, d), tap_acts(KEY_BACKSPACE, d));
        assert(backspaces((n - 1) as nat) + seq![KEY_BACKSPACE] =~= backspaces(n));
    }
}

proof fn lemma_keys_presses(codes: Seq<u16>, v: i32, d: u64)
    ensures
        keys_acts(codes, v, d).len() == 3 * codes.len(),
        press_codes(keys_acts(codes, v, d)) == if v == 1 {
            codes
        } else {
            Seq::<u16>::empty()
        },
    decreases codes.len(),
{
    if codes.len() == 0 {
    } else {
        lemma_keys_presses(codes.drop_last(), v, d);
        lemma_key_acts_presses(codes.last(), v, d);
        lemma_press_codes_append(keys_acts(codes.drop_last(), v, d), key_acts(codes.last(), v, d));
        if v == 1 {
            assert(codes.drop_last() + seq![codes.last()] =~= codes);
        } else {
            assert(Seq::<u16>::empty() + Seq::<u16>::empty() =~= Seq::<u16>::empty());
        }
    }
}

proof fn lemma_replay_presses(strokes: Seq<Stroke>, d: u64)
    ensures
        press_codes(replay_acts(strokes, d)) == stroke_presses(strokes),
    decreases strokes.len(),
{
    if strokes.len() > 0 {
        lemma_replay_presses(strokes.drop_last(), d);
        let s = strokes.last();
        lemma_press_codes_append(replay_acts(strokes.drop_last(), d), stroke_acts(s, d));
        lemma_tap_presses(s.code, d);
        if s.shift {
            let a = key_acts(KEY_LEFTSHIFT, 1, d);
            let b = tap_acts(s.code, d);
            let c = key_acts(KEY_LEFTSHIFT, 0, d);
            assert(stroke_acts(s, d) =~= a + b + c);
            lemma_key_acts_presses(KEY_LEFTSHIFT, 1, d);
            lemma_key_acts_presses(KEY_LEFTSHIFT, 0, d);
            lemma_press_codes_append(a + b, c);
            lemma_press_codes_append(a, b);
            assert(seq![KEY_LEFTSHIFT] + seq![s.code] + Seq::<u16>::empty() =~= seq![
                KEY_LEFTSHIFT,
                s.code,
            ]);
        } else {
            assert(stroke_acts(s, d) =~= tap_acts(s.code, d));
        }
    }
}

/// A correction of `strokes` presses backspace once per stroke, then the keys of the
/// layout switch in order, and then, with nothing else pressed, every stroke's key
/// again, in order (after a left shift for a shifted stroke): trailing separators are
/// typed again like any other stroke.
pub proof fn lemma_plan_erases_switches_retypes(strokes: Seq<Stroke>, cfg: ConfigView)
    requires
        strokes.len() > 0,
    ensures
        ({
            let plan = fix_plan(strokes, cfg);
            let k: int = (6 * strokes.len() + 6 * cfg.layout_switch.len() + 2) as int;
            &&& k <= plan.len()
            &&& press_codes(plan.take(k)) == backspaces(strokes.len()) + cfg.layout_switch
            &&& press_codes(plan.skip(k)) == stroke_presses(strokes)
        }),
{
    let d = cfg.key_delay_ms;
    let a = erase_acts(strokes.len(), d);
    let b = seq![Act::Wait(cfg.post_backspace_ms)];
    let c = keys_acts(cfg.layout_switch, 1, d);
    let e = keys_acts(cfg.layout_switch.reverse(), 0, d);
    let f = seq![Act::Wait(cfg.switch_delay_ms)];
    let g = replay_acts(strokes, d);
    let head = a + b + c + e + f;
    let plan = fix_plan(strokes, cfg);
    let k: int = (6 * strokes.len() + 6 * cfg.layout_switch.len() + 2) as int;
    assert(plan == head + g);
    lemma_replay_presses(strokes, d);
    assert(press_codes(head) == backspaces(strokes.len()) + cfg.layout_switch && head.len() == k)
        by {
        lemma_erase_presses(strokes.len(), d);
        lemma_keys_presses(cfg.layout_switch, 1, d);
        lemma_keys_presses(cfg.layout_switch.reverse(), 0, d);
        assert(b.drop_last() =~= Seq::<Act>::empty());
        assert(f.drop_last() =~= Seq::<Act>::empty());
        assert(press_codes(b) == press_codes(b.drop_last()));
        assert(press_codes(f) == press_codes(f.drop_last()));
        lemma_press_codes_append(a, b);
        let ab = press_codes(a + b);
        assert(ab =~= backspaces(strokes.len()));
        lemma_press_codes_append(a + b, c);
        let abc = press_codes(a + b + c);
        assert(abc =~= backspaces(strokes.len()) + cfg.layout_switch);
        lemma_press_codes_append(a + b + c, e);
        assert(press_codes(a + b + c + e) =~= abc);
        lemma_press_codes_append(a + b + c + e, f);
        assert(press_codes(head) =~= abc);
    }
    assert(plan.take(k) =~= head);
    assert(plan.skip(k) =~= g);
}

} // verus!
