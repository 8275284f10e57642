//! Keyboard scan-code classes (Linux input-event-codes.h) and key combinations.
use vstd::prelude::*;

use crate::text::{
    chars_of, decimal, eq_ignore_case, eq_ignore_case_chars, is_digit, join, lemma_decimal,
    lemma_split_join, lemma_trim_digits, parse_unsigned, parse_unsigned_chars, split,
    split_chars, trim, trim_chars, views,
};

verus! {

pub const KEY_BACKSPACE: u16 = 14;

pub const KEY_TAB: u16 = 15;

pub const KEY_ENTER: u16 = 28;

pub const KEY_LEFTCTRL: u16 = 29;

pub const KEY_LEFTSHIFT: u16 = 42;

pub const KEY_RIGHTSHIFT: u16 = 54;

pub const KEY_LEFTALT: u16 = 56;

pub const KEY_SPACE: u16 = 57;

pub const KEY_KPENTER: u16 = 96;

pub const KEY_RIGHTCTRL: u16 = 97;

pub const KEY_RIGHTALT: u16 = 100;

pub const KEY_INSERT: u16 = 110;

pub const KEY_PAUSE: u16 = 119;

pub const KEY_LEFTMETA: u16 = 125;

pub const KEY_RIGHTMETA: u16 = 126;

/// First and last pointer button (`BTN_LEFT` .. `BTN_TASK`).
pub const BTN_LEFT: u16 = 0x110;

pub const BTN_TASK: u16 = 0x117;

/// Keys that give a printable character in both layouts: the digit row and the
/// three letter rows together with the punctuation that the Russian layout turns
/// into letters.
pub open spec fn char_key(code: u16) -> bool {
    ||| 2 <= code <= 13
    ||| 16 <= code <= 27
    ||| 30 <= code <= 41
    ||| 43 <= code <= 53
}

/// Word separators: their scan codes mean the same in every layout.
pub open spec fn separator_key(code: u16) -> bool {
    code == KEY_SPACE || code == KEY_TAB
}

/// End of a phrase: the buffer starts over after it.
pub open spec fn phrase_end_key(code: u16) -> bool {
    code == KEY_ENTER || code == KEY_KPENTER
}

pub open spec fn shift_key(code: u16) -> bool {
    code == KEY_LEFTSHIFT || code == KEY_RIGHTSHIFT
}

/// Ctrl/Alt/Meta: while any of them is held a key press is a shortcut, not typing.
pub open spec fn command_key(code: u16) -> bool {
    ||| code == KEY_LEFTCTRL
    ||| code == KEY_RIGHTCTRL
    ||| code == KEY_LEFTALT
    ||| code == KEY_RIGHTALT
    ||| code == KEY_LEFTMETA
    ||| code == KEY_RIGHTMETA
}

pub open spec fn pointer_button(code: u16) -> bool {
    BTN_LEFT <= code <= BTN_TASK
}

pub fn is_char(code: u16) -> (r: bool)
    ensures
        r == char_key(code),
{
    (2 <= code && code <= 13) || (16 <= code && code <= 27) || (30 <= code && code <= 41) || (43
        <= code && code <= 53)
}

pub fn is_separator(code: u16) -> (r: bool)
    ensures
        r == separator_key(code),
{
    code == KEY_SPACE || code == KEY_TAB
}

pub fn is_phrase_end(code: u16) -> (r: bool)
    ensures
        r == phrase_end_key(code),
{
    code == KEY_ENTER || code == KEY_KPENTER
}

pub fn is_shift(code: u16) -> (r: bool)
    ensures
        r == shift_key(code),
{
    code == KEY_LEFTSHIFT || code == KEY_RIGHTSHIFT
}

pub fn is_command_modifier(code: u16) -> (r: bool)
    ensures
        r == command_key(code),
{
    code == KEY_LEFTCTRL || code == KEY_RIGHTCTRL || code == KEY_LEFTALT || code == KEY_RIGHTALT
        || code == KEY_LEFTMETA || code == KEY_RIGHTMETA
}

/// Mouse and touchpad buttons: a click moves the cursor elsewhere.
pub fn is_pointer_button(code: u16) -> (r: bool)
    ensures
        r == pointer_button(code),
{
    BTN_LEFT <= code && code <= BTN_TASK
}

/// Key names accepted in combinations (compared without regard to ASCII case).
pub open spec fn key_name_code(name: Seq<char>) -> Option<u16> {
    if eq_ignore_case(name, "backspace"@) {
        Some(KEY_BACKSPACE)
    } else if eq_ignore_case(name, "tab"@) {
        Some(KEY_TAB)
    } else if eq_ignore_case(name, "enter"@) {
        Some(KEY_ENTER)
    } else if eq_ignore_case(name, "ctrl"@) || eq_ignore_case(name, "leftctrl"@) {
        Some(KEY_LEFTCTRL)
    } else if eq_ignore_case(name, "shift"@) || eq_ignore_case(name, "leftshift"@) {
        Some(KEY_LEFTSHIFT)
    } else if eq_ignore_case(name, "rightshift"@) {
        Some(KEY_RIGHTSHIFT)
    } else if eq_ignore_case(name, "alt"@) || eq_ignore_case(name, "leftalt"@) {
        Some(KEY_LEFTALT)
    } else if eq_ignore_case(name, "space"@) {
        Some(KEY_SPACE)
    } else if eq_ignore_case(name, "kpenter"@) {
        Some(KEY_KPENTER)
    } else if eq_ignore_case(name, "rightctrl"@) {
        Some(KEY_RIGHTCTRL)
    } else if eq_ignore_case(name, "rightalt"@) || eq_ignore_case(name, "altgr"@) {
        Some(KEY_RIGHTALT)
    } else if eq_ignore_case(name, "insert"@) {
        Some(KEY_INSERT)
    } else if eq_ignore_case(name, "pause"@) {
        Some(KEY_PAUSE)
    } else if eq_ignore_case(name, "super"@) || eq_ignore_case(name, "meta"@) || eq_ignore_case(
        name,
        "leftmeta"@,
    ) {
        Some(KEY_LEFTMETA)
    } else if eq_ignore_case(name, "rightmeta"@) {
        Some(KEY_RIGHTMETA)
    } else {
        None
    }
}

/// The code that one token of a combination stands for: a decimal scan code or a key name.
pub open spec fn token_code(token: Seq<char>) -> Option<u16> {
    match parse_unsigned(token, 65535) {
        Some(v) => Some(v as u16),
        None => key_name_code(token),
    }
}

/// A token that names a key the virtual keyboard can emit (codes 1..=255).
pub open spec fn token_ok(token: Seq<char>) -> bool {
    match token_code(token) {
        Some(c) => 1 <= c <= 255,
        None => false,
    }
}

/// A parsed combination is one the daemon can use: at least one key, every key
/// in 1..=255, none twice.
pub proof fn lemma_combo_spec_valid(s: Seq<char>)
    requires
        combo_spec(s) is Some,
    ensures
        combo_spec(s)->0.len() >= 1,
        combo_spec(s)->0.no_duplicates(),
        forall|k: int|
            0 <= k < combo_spec(s)->0.len() ==> 1 <= #[trigger] combo_spec(s)->0[k] <= 255,
{
    crate::text::lemma_split_nonempty(s, '+');
    let toks = combo_tokens(s);
    assert forall|k: int| 0 <= k < combo_spec(s)->0.len() implies 1 <= #[trigger] combo_spec(
        s,
    )->0[k] <= 255 by {
        assert(token_ok(toks[k]));
    }
}

/// The trimmed `+`-separated tokens of a combination.
pub open spec fn combo_tokens(s: Seq<char>) -> Seq<Seq<char>> {
    split(s, '+').map_values(|p: Seq<char>| trim(p))
}

/// What `parse_combo` gives for `s`: the codes of the tokens in order, provided every
/// token is a valid key and no key occurs twice.
pub open spec fn combo_spec(s: Seq<char>) -> Option<Seq<u16>> {
    let toks = combo_tokens(s);
    if forall|i: int| 0 <= i < toks.len() ==> token_ok(#[trigger] toks[i]) {
        let codes = toks.map_values(|t: Seq<char>| token_code(t)->0);
        if codes.no_duplicates() {
            Some(codes)
        } else {
            None
        }
    } else {
        None
    }
}

fn name_is(name: &Vec<char>, lit: &str) -> (r: bool)
    ensures
        r == eq_ignore_case(name@, lit@),
{
    let l = chars_of(lit);
    eq_ignore_case_chars(name, &l)
}

fn name_code(name: &Vec<char>) -> (r: Option<u16>)
    ensures
        r == key_name_code(name@),
{
    if name_is(name, "backspace") {
        Some(KEY_BACKSPACE)
    } else if name_is(name, "tab") {
        Some(KEY_TAB)
    } else if name_is(name, "enter") {
        Some(KEY_ENTER)
    } else if name_is(name, "ctrl") || name_is(name, "leftctrl") {
        Some(KEY_LEFTCTRL)
    } else if name_is(name, "shift") || name_is(name, "leftshift") {
        Some(KEY_LEFTSHIFT)
    } else if name_is(name, "rightshift") {
        Some(KEY_RIGHTSHIFT)
    } else if name_is(name, "alt") || name_is(name, "leftalt") {
        Some(KEY_LEFTALT)
    } else if name_is(name, "space") {
        Some(KEY_SPACE)
    } else if name_is(name, "kpenter") {
        Some(KEY_KPENTER)
    } else if name_is(name, "rightctrl") {
        Some(KEY_RIGHTCTRL)
    } else if name_is(name, "rightalt") || name_is(name, "altgr") {
        Some(KEY_RIGHTALT)
    } else if name_is(name, "insert") {
        Some(KEY_INSERT)
    } else if name_is(name, "pause") {
        Some(KEY_PAUSE)
    } else if name_is(name, "super") || name_is(name, "meta") || name_is(name, "leftmeta") {
        Some(KEY_LEFTMETA)
    } else if name_is(name, "rightmeta") {
        Some(KEY_RIGHTMETA)
    } else {
        None
    }
}

fn token_to_code(token: &Vec<char>) -> (r: Option<u16>)
    ensures
        r == token_code(token@),
{
    match parse_unsigned_chars(token, 65535) {
        Some(v) => Some(v as u16),
        None => name_code(token),
    }
}

/// Parses a combination such as `125+57` or `super+space` into its scan codes.
pub fn parse_combo(spec: &str) -> (r: Option<Vec<u16>>)
    ensures
        match r {
            Some(v) => combo_spec(spec@) == Some(v@),
            None => combo_spec(spec@) is None,
        },
{
    let chars = chars_of(spec);
    parse_combo_chars(&chars)
}

/// `parse_combo` on a vector of characters.
pub fn parse_combo_chars(chars: &Vec<char>) -> (r: Option<Vec<u16>>)
    ensures
        match r {
            Some(v) => combo_spec(chars@) == Some(v@),
            None => combo_spec(chars@) is None,
        },
{
    let parts = split_chars(chars, '+');
    let ghost toks = combo_tokens(chars@);
    assert(toks.len() == parts@.len());
    let mut codes: Vec<u16> = Vec::new();
    let mut i: usize = 0;
    while i < parts.len()
        invariant
            i <= parts@.len() == toks.len(),
            toks == combo_tokens(chars@),
            views(parts@) == split(chars@, '+'),
            forall|j: int| 0 <= j < i ==> token_ok(#[trigger] toks[j]),
            codes@ == toks.take(i as int).map_values(|t: Seq<char>| token_code(t)->0),
            codes@.no_duplicates(),
        decreases parts.len() - i,
    {
        let tok = trim_chars(&parts[i]);
        assert(tok@ == toks[i as int]) by {
            assert(parts@[i as int]@ == views(parts@)[i as int]);
        }
        let code = match token_to_code(&tok) {
            Some(c) => c,
            None => {
                assert(!token_ok(toks[i as int]));
                return None;
            },
        };
        if code < 1 || code > 255 {
            assert(!token_ok(toks[i as int]));
            return None;
        }
        let mut j: usize = 0;
        while j < codes.len()
            invariant
                j <= codes.len(),
                i < toks.len(),
                toks == combo_tokens(chars@),
                codes@ == toks.take(i as int).map_values(|t: Seq<char>| token_code(t)->0),
                token_code(toks[i as int]) == Some(code),
                forall|k: int| 0 <= k < j ==> codes@[k] != code,
            decreases codes.len() - j,
        {
            if codes[j] == code {
                proof {
                    let full = toks.map_values(|t: Seq<char>| token_code(t)->0);
                    if forall|m: int| 0 <= m < toks.len() ==> token_ok(#[trigger] toks[m]) {
                        assert(full[j as int] == codes@[j as int]);
                        assert(full[i as int] == code);
                        assert(!full.no_duplicates());
                    }
                }
                return None;
            }
            j += 1;
        }
        let ghost old_codes = codes@;
        codes.push(code);
        proof {
            assert(codes@ =~= toks.take(i + 1).map_values(|t: Seq<char>| token_code(t)->0));
            assert forall|a: int, b: int|
                0 <= a < codes@.len() && 0 <= b < codes@.len() && a != b implies codes@[a]
                != codes@[b] by {
                if a < old_codes.len() && b < old_codes.len() {
                    assert(old_codes[a] != old_codes[b]);
                }
            }
        }
        i += 1;
    }
    assert(toks.take(i as int) =~= toks);
    Some(codes)
}

/// The decimal codes of `v`, joined by `+`.
pub open spec fn combo_text(v: Seq<u16>) -> Seq<char> {
    join(v.map_values(|c: u16| decimal(c as nat)), seq!['+'])
}

/// A combination written as its decimal codes joined by `+` parses back to itself,
/// provided it is one that parsing accepts: at least one key, every key in 1..=255,
/// none twice.
pub proof fn lemma_combo_round_trip(v: Seq<u16>)
    requires
        v.len() >= 1,
        v.no_duplicates(),
        forall|k: int| 0 <= k < v.len() ==> 1 <= #[trigger] v[k] <= 255,
    ensures
        combo_spec(combo_text(v)) == Some(v),
{
    let parts = v.map_values(|c: u16| decimal(c as nat));
    assert forall|i: int| 0 <= i < parts.len() implies !(#[trigger] parts[i]).contains('+') by {
        lemma_decimal(v[i] as nat);
        if parts[i].contains('+') {
            let j = choose|j: int| 0 <= j < parts[i].len() && parts[i][j] == '+';
            assert(is_digit(parts[i][j]));
        }
    }
    lemma_split_join(parts, '+');
    let toks = combo_tokens(combo_text(v));
    assert forall|i: int| 0 <= i < toks.len() implies #[trigger] toks[i] == parts[i]
        && token_code(toks[i]) == Some(v[i]) && token_ok(toks[i]) by {
        lemma_decimal(v[i] as nat);
        lemma_trim_digits(parts[i]);
        assert(toks[i] == trim(parts[i]));
        let t = parts[i];
        assert(t[0] != '+') by {
            assert(is_digit(t[0]));
        }
        assert(parse_unsigned(t, 65535) == Some(v[i] as nat));
    }
    let codes = toks.map_values(|t: Seq<char>| token_code(t)->0);
    assert(codes =~= v);
}

} // verus!
