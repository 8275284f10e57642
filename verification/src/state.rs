//! The buffer of typed strokes.
//!
//! Scan codes are kept rather than characters: to fix the layout it is enough
//! to replay the same physical keys once the layout has been switched.
use vstd::prelude::*;

use crate::keys::{is_separator, separator_key};

verus! {

#[derive(Clone, Copy, Debug, PartialEq, Eq, Structural)]
pub struct Stroke {
    pub code: u16,
    pub shift: bool,
}

pub struct Buffer {
    strokes: Vec<Stroke>,
    max: usize,
}

/// `s` cut down to its newest `max` strokes.
pub open spec fn capped(s: Seq<Stroke>, max: nat) -> Seq<Stroke> {
    if s.len() > max {
        s.skip(s.len() - max)
    } else {
        s
    }
}

/// Length of `s` without its trailing separators.
pub open spec fn word_end(s: Seq<Stroke>) -> nat
    decreases s.len(),
{
    if s.len() == 0 {
        0
    } else if separator_key(s.last().code) {
        word_end(s.drop_last())
    } else {
        s.len()
    }
}

/// Start of the trailing run of non-separators in `s`.
pub open spec fn word_start(s: Seq<Stroke>) -> nat
    decreases s.len(),
{
    if s.len() == 0 {
        0
    } else if separator_key(s.last().code) {
        s.len()
    } else {
        word_start(s.drop_last())
    }
}

/// The last word of `s` together with the separators that follow it; empty when
/// `s` holds separators only.
pub open spec fn last_word_of(s: Seq<Stroke>) -> Seq<Stroke> {
    let e = word_end(s);
    if e == 0 {
        Seq::empty()
    } else {
        s.skip(word_start(s.take(e as int)) as int)
    }
}

impl View for Buffer {
    type V = Seq<Stroke>;

    closed spec fn view(&self) -> Seq<Stroke> {
        self.strokes@
    }
}

impl Buffer {
    /// The most strokes the buffer keeps.
    pub closed spec fn limit(&self) -> nat {
        self.max as nat
    }

    pub open spec fn wf(&self) -> bool {
        &&& self.limit() >= 1
        &&& self@.len() <= self.limit()
    }

    pub fn new(max: usize) -> (b: Self)
        ensures
            b.wf(),
            b@ == Seq::<Stroke>::empty(),
            b.limit() == if max >= 1 {
                max as nat
            } else {
                1
            },
    {
        Buffer { strokes: Vec::new(), max: if max >= 1 { max } else { 1 } }
    }

    /// Appends a stroke, dropping the oldest one when the buffer is full.
    pub fn push(&mut self, code: u16, shift: bool)
        requires
            old(self).wf(),
        ensures
            final(self).wf(),
            final(self).limit() == old(self).limit(),
            final(self)@ == capped(old(self)@.push(Stroke { code, shift }), old(self).limit()),
    {
        self.strokes.push(Stroke { code, shift });
        if self.strokes.len() > self.max {
            let ghost before = self.strokes@;
            self.strokes.remove(0);
            assert(self.strokes@ =~= before.skip(1));
        }
    }

    /// Forgets the newest stroke.
    pub fn backspace(&mut self)
        requires
            old(self).wf(),
        ensures
            final(self).wf(),
            final(self).limit() == old(self).limit(),
            final(self)@ == if old(self)@.len() == 0 {
                old(self)@
            } else {
                old(self)@.drop_last()
            },
    {
        self.strokes.pop();
    }

    pub fn clear(&mut self)
        requires
            old(self).wf(),
        ensures
            final(self).wf(),
            final(self).limit() == old(self).limit(),
            final(self)@ == Seq::<Stroke>::empty(),
    {
        self.strokes.clear();
    }

    /// The whole phrase.
    pub fn phrase(&self) -> (r: &[Stroke])
        ensures
            r@ == self@,
    {
        self.strokes.as_slice()
    }

    /// The last word together with its trailing separators.
    ///
    /// The tail is included on purpose: the cursor already stands after the
    /// space, so it has to be erased and typed again with the word, or the
    /// word would stick to the next one.
    pub fn last_word(&self) -> (r: &[Stroke])
        ensures
            r@ == last_word_of(self@),
    {
        let s = self.strokes.as_slice();
        let ghost v = self.strokes@;
        let mut end = s.len();
        assert(v.take(end as int) =~= v);
        while end > 0 && is_separator(s[end - 1].code)
            invariant
                end <= v.len(),
                s@ == v,
                word_end(v) == word_end(v.take(end as int)),
            decreases end,
        {
            assert(v.take(end as int).drop_last() =~= v.take(end - 1));
            end -= 1;
        }
        if end == 0 {
            return s.split_at(s.len()).1;
        }
        assert(word_end(v.take(end as int)) == end);
        let mut start = end;
        while start > 0 && !is_separator(s[start - 1].code)
            invariant
                start <= end <= v.len(),
                s@ == v,
                word_start(v.take(end as int)) == word_start(v.take(start as int)),
            decreases start,
        {
            assert(v.take(start as int).drop_last() =~= v.take(start - 1));
            start -= 1;
        }
        assert(word_start(v.take(start as int)) == start);
        s.split_at(start).1
    }
}


proof fn lemma_word_end(s: Seq<Stroke>)
    ensures
        word_end(s) <= s.len(),
        forall|i: int| word_end(s) <= i < s.len() ==> separator_key(#[trigger] s[i].code),
        word_end(s) > 0 ==> !separator_key(s[word_end(s) - 1].code),
    decreases s.len(),
{
    if s.len() > 0 && separator_key(s.last().code) {
        lemma_word_end(s.drop_last());
        assert forall|i: int| word_end(s) <= i < s.len() implies separator_key(#[trigger] s[i].code) by {
            if i < s.len() - 1 {
                assert(s.drop_last()[i] == s[i]);
            }
        }
        if word_end(s) > 0 {
            assert(s.drop_last()[word_end(s) - 1] == s[word_end(s) - 1]);
        }
    }
}

proof fn lemma_word_start(s: Seq<Stroke>)
    ensures
        word_start(s) <= s.len(),
        forall|i: int| word_start(s) <= i < s.len() ==> !separator_key(#[trigger] s[i].code),
        word_start(s) > 0 ==> separator_key(s[word_start(s) - 1].code),
    decreases s.len(),
{
    if s.len() > 0 && !separator_key(s.last().code) {
        lemma_word_start(s.drop_last());
        assert forall|i: int| word_start(s) <= i < s.len() implies !separator_key(#[trigger] s[i].code) by {
            if i < s.len() - 1 {
                assert(s.drop_last()[i] == s[i]);
            }
        }
        if word_start(s) > 0 {
            assert(s.drop_last()[word_start(s) - 1] == s[word_start(s) - 1]);
        }
    }
}

/// `s[k..e]` holds no separator and `s[e..]` holds separators only.
pub open spec fn word_then_separators(s: Seq<Stroke>, k: int, e: int) -> bool {
    &&& k < e <= s.len()
    &&& forall|i: int| k <= i < e ==> !separator_key(#[trigger] s[i].code)
    &&& forall|i: int| e <= i < s.len() ==> separator_key(#[trigger] s[i].code)
}

/// The last word is a suffix of the strokes: a run of non-separators preceded by a
/// separator (or by nothing) and followed only by separators. It is empty exactly
/// when the strokes are all separators.
pub proof fn lemma_last_word_shape(s: Seq<Stroke>)
    ensures
        ({
            let w = last_word_of(s);
            let k = s.len() - w.len();
            &&& w.len() <= s.len()
            &&& w == s.skip(k)
            &&& w.len() == 0 <==> forall|i: int| 0 <= i < s.len() ==> separator_key(#[trigger] s[i].code)
            &&& w.len() > 0 ==> {
                &&& !separator_key(w[0].code)
                &&& (k > 0 ==> separator_key(s[k - 1].code))
                &&& exists|e: int| #[trigger] word_then_separators(s, k, e)
            }
        }),
{
    lemma_word_end(s);
    let e = word_end(s) as int;
    if e == 0 {
        assert(last_word_of(s) =~= Seq::<Stroke>::empty());
    } else {
        let t = s.take(e);
        lemma_word_start(t);
        let k = word_start(t) as int;
        assert(last_word_of(s) == s.skip(k));
        assert(!separator_key(s[e - 1].code));
        assert(t[e - 1] == s[e - 1]);
        assert(k < e);
        assert forall|i: int| k <= i < e implies !separator_key(#[trigger] s[i].code) by {
            assert(t[i] == s[i]);
        }
        if k > 0 {
            assert(t[k - 1] == s[k - 1]);
        }
        assert(s.skip(k)[0] == s[k]);
        assert(word_then_separators(s, k, e));
        assert(!(forall|i: int| 0 <= i < s.len() ==> separator_key(#[trigger] s[i].code)));
    }
}

/// Typing a stroke into a buffer with room, then erasing it, leaves the buffer as
/// it was.
pub proof fn lemma_push_then_backspace(s: Seq<Stroke>, limit: nat, x: Stroke)
    requires
        s.len() < limit,
    ensures
        capped(s.push(x), limit).drop_last() == s,
{
    assert(capped(s.push(x), limit) == s.push(x));
    assert(s.push(x).drop_last() =~= s);
}

} // verus!
