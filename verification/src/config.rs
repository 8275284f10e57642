//! The configuration, checked as a whole before any input device is opened.
use vstd::prelude::*;

use crate::keys;
use crate::keys::{combo_spec, command_key, shift_key, token_code, token_ok, combo_tokens};
use crate::text::{
    before_first, before_first_chars, chars_of, decimal, first_index, trim_end, trim_start, eq_chars, eq_ignore_case,
    eq_ignore_case_chars, join, parse_unsigned, parse_unsigned_chars, push_all, push_decimal,
    push_str, split, split_chars, split_once, split_once_chars, string_from_chars, trim, trim_chars,
    views,
};

verus! {

#[derive(Debug)]
pub struct Config {
    pub hotkey: Vec<u16>,
    pub phrase_hotkey: Vec<u16>,
    pub pause_hotkey: Vec<u16>,
    pub layout_switch: Vec<u16>,
    pub key_delay_ms: u64,
    pub post_backspace_ms: u64,
    pub switch_delay_ms: u64,
    pub devices: Vec<String>,
    pub max_strokes: usize,
    pub track_mouse: bool,
    pub session_guard: bool,
    pub buffer_timeout_ms: u64,
}

impl Config {
    /// Every hotkey and the layout switch name at least one key (the engine
    /// recognises a combination by its last key).
    pub open spec fn combos_nonempty(&self) -> bool {
        &&& self.hotkey@.len() > 0
        &&& self.phrase_hotkey@.len() > 0
        &&& self.pause_hotkey@.len() > 0
        &&& self.layout_switch@.len() > 0
    }
}

impl Default for Config {
    fn default() -> (c: Self)
        ensures
            c.hotkey@ == seq![keys::KEY_INSERT],
            c.phrase_hotkey@ == seq![keys::KEY_LEFTMETA, keys::KEY_INSERT],
            c.pause_hotkey@ == seq![keys::KEY_LEFTMETA, keys::KEY_PAUSE],
            c.layout_switch@ == seq![keys::KEY_LEFTMETA, keys::KEY_SPACE],
            c.key_delay_ms == 6,
            c.post_backspace_ms == 20,
            c.switch_delay_ms == 120,
            c.devices@.len() == 0,
            c.max_strokes == 512,
            c.track_mouse,
            c.session_guard,
            c.buffer_timeout_ms == 30_000,
            c.combos_nonempty(),
    {
        let c = Config {
            hotkey: vec![keys::KEY_INSERT],
            phrase_hotkey: vec![keys::KEY_LEFTMETA, keys::KEY_INSERT],
            pause_hotkey: vec![keys::KEY_LEFTMETA, keys::KEY_PAUSE],
            layout_switch: vec![keys::KEY_LEFTMETA, keys::KEY_SPACE],
            key_delay_ms: 6,
            post_backspace_ms: 20,
            switch_delay_ms: 120,
            devices: Vec::new(),
            max_strokes: 512,
            track_mouse: true,
            session_guard: true,
            buffer_timeout_ms: 30_000,
        };
        assert(c.hotkey@ == seq![keys::KEY_INSERT]);
        c
    }
}


/// The abstract value of a configuration.
pub struct ConfigView {
    pub hotkey: Seq<u16>,
    pub phrase_hotkey: Seq<u16>,
    pub pause_hotkey: Seq<u16>,
    pub layout_switch: Seq<u16>,
    pub key_delay_ms: u64,
    pub post_backspace_ms: u64,
    pub switch_delay_ms: u64,
    pub devices: Seq<Seq<char>>,
    pub max_strokes: usize,
    pub track_mouse: bool,
    pub session_guard: bool,
    pub buffer_timeout_ms: u64,
}

pub open spec fn string_views(v: Seq<String>) -> Seq<Seq<char>> {
    v.map_values(|s: String| s@)
}

impl View for Config {
    type V = ConfigView;

    open spec fn view(&self) -> ConfigView {
        ConfigView {
            hotkey: self.hotkey@,
            phrase_hotkey: self.phrase_hotkey@,
            pause_hotkey: self.pause_hotkey@,
            layout_switch: self.layout_switch@,
            key_delay_ms: self.key_delay_ms,
            post_backspace_ms: self.post_backspace_ms,
            switch_delay_ms: self.switch_delay_ms,
            devices: string_views(self.devices@),
            max_strokes: self.max_strokes,
            track_mouse: self.track_mouse,
            session_guard: self.session_guard,
            buffer_timeout_ms: self.buffer_timeout_ms,
        }
    }
}

pub open spec fn default_view() -> ConfigView {
    ConfigView {
        hotkey: seq![keys::KEY_INSERT],
        phrase_hotkey: seq![keys::KEY_LEFTMETA, keys::KEY_INSERT],
        pause_hotkey: seq![keys::KEY_LEFTMETA, keys::KEY_PAUSE],
        layout_switch: seq![keys::KEY_LEFTMETA, keys::KEY_SPACE],
        key_delay_ms: 6,
        post_backspace_ms: 20,
        switch_delay_ms: 120,
        devices: Seq::empty(),
        max_strokes: 512,
        track_mouse: true,
        session_guard: true,
        buffer_timeout_ms: 30_000,
    }
}

/// A number in `min..=max`, written as `u64::from_str` accepts it.
pub open spec fn number_in(value: Seq<char>, min: nat, max: nat) -> Option<nat> {
    match parse_unsigned(value, max) {
        Some(v) => if v >= min {
            Some(v)
        } else {
            None
        },
        None => None,
    }
}

/// `yes`/`true`/`on`/`1` and `no`/`false`/`off`/`0`, in any ASCII case.
pub open spec fn bool_value(value: Seq<char>) -> Option<bool> {
    if eq_ignore_case(value, "yes"@) || eq_ignore_case(value, "true"@) || eq_ignore_case(
        value,
        "on"@,
    ) || eq_ignore_case(value, "1"@) {
        Some(true)
    } else if eq_ignore_case(value, "no"@) || eq_ignore_case(value, "false"@) || eq_ignore_case(
        value,
        "off"@,
    ) || eq_ignore_case(value, "0"@) {
        Some(false)
    } else {
        None
    }
}

/// The non-empty trimmed names of a comma-separated device list.
pub open spec fn device_names(parts: Seq<Seq<char>>) -> Seq<Seq<char>>
    decreases parts.len(),
{
    if parts.len() == 0 {
        Seq::empty()
    } else {
        let r = device_names(parts.drop_last());
        let t = trim(parts.last());
        if t.len() > 0 {
            r.push(t)
        } else {
            r
        }
    }
}

/// The value of one `key = value` setting: `None` for an unknown key, `Some(None)`
/// for a value the key does not accept, `Some(Some(c))` for the updated configuration.
pub open spec fn setting(c: ConfigView, key: Seq<char>, value: Seq<char>) -> Option<
    Option<ConfigView>,
> {
    if key == "hotkey"@ {
        Some(
            match combo_spec(value) {
                Some(v) => Some(ConfigView { hotkey: v, ..c }),
                None => None,
            },
        )
    } else if key == "phrase-hotkey"@ {
        Some(
            match combo_spec(value) {
                Some(v) => Some(ConfigView { phrase_hotkey: v, ..c }),
                None => None,
            },
        )
    } else if key == "pause-hotkey"@ {
        Some(
            match combo_spec(value) {
                Some(v) => Some(ConfigView { pause_hotkey: v, ..c }),
                None => None,
            },
        )
    } else if key == "layout-switch"@ {
        Some(
            match combo_spec(value) {
                Some(v) => Some(ConfigView { layout_switch: v, ..c }),
                None => None,
            },
        )
    } else if key == "key-delay"@ {
        Some(
            match number_in(value, 1, 100) {
                Some(v) => Some(ConfigView { key_delay_ms: v as u64, ..c }),
                None => None,
            },
        )
    } else if key == "post-backspace-delay"@ {
        Some(
            match number_in(value, 0, 2000) {
                Some(v) => Some(ConfigView { post_backspace_ms: v as u64, ..c }),
                None => None,
            },
        )
    } else if key == "switch-delay"@ {
        Some(
            match number_in(value, 0, 2000) {
                Some(v) => Some(ConfigView { switch_delay_ms: v as u64, ..c }),
                None => None,
            },
        )
    } else if key == "buffer-timeout"@ {
        Some(
            match number_in(value, 1000, 300_000) {
                Some(v) => Some(ConfigView { buffer_timeout_ms: v as u64, ..c }),
                None => None,
            },
        )
    } else if key == "max-strokes"@ {
        Some(
            match number_in(value, 1, 4096) {
                Some(v) => Some(ConfigView { max_strokes: v as usize, ..c }),
                None => None,
            },
        )
    } else if key == "track-mouse"@ {
        Some(
            match bool_value(value) {
                Some(b) => Some(ConfigView { track_mouse: b, ..c }),
                None => None,
            },
        )
    } else if key == "session-guard"@ {
        Some(
            match bool_value(value) {
                Some(b) => Some(ConfigView { session_guard: b, ..c }),
                None => None,
            },
        )
    } else if key == "devices"@ {
        Some(Some(ConfigView { devices: device_names(split(value, ',')), ..c }))
    } else {
        None
    }
}

/// `v` without one pair of surrounding double quotes, when it has them.
pub open spec fn unquoted(v: Seq<char>) -> Seq<char> {
    if v.len() >= 2 && v[0] == '"' && v.last() == '"' {
        v.subrange(1, v.len() - 1)
    } else {
        v
    }
}

pub open spec fn line_error(lineno: nat, msg: Seq<char>) -> Seq<char> {
    "строка "@ + decimal(lineno) + ": "@ + msg
}

pub open spec fn quoted(s: Seq<char>) -> Seq<char> {
    "'"@ + s + "'"@
}

/// The parser's state after a prefix of the lines.
pub struct ParseState {
    pub cfg: ConfigView,
    pub seen: Set<Seq<char>>,
    pub errors: Seq<Seq<char>>,
}

/// One line of the file, numbered from 1.
pub open spec fn apply_line(st: ParseState, raw: Seq<char>, lineno: nat) -> ParseState {
    let line = trim(before_first(raw, '#'));
    if line.len() == 0 {
        st
    } else {
        match split_once(line, '=') {
            None => ParseState {
                errors: st.errors.push(line_error(lineno, "нет '='"@)),
                ..st
            },
            Some((k, v)) => {
                let key = trim(k);
                let value = trim(unquoted(trim(v)));
                if st.seen.contains(key) {
                    ParseState {
                        errors: st.errors.push(line_error(lineno, "повтор ключа "@ + quoted(key))),
                        ..st
                    }
                } else {
                    let seen = st.seen.insert(key);
                    match setting(st.cfg, key, value) {
                        None => ParseState {
                            seen,
                            errors: st.errors.push(
                                line_error(lineno, "неизвестный ключ "@ + quoted(key)),
                            ),
                            ..st
                        },
                        Some(None) => ParseState {
                            seen,
                            errors: st.errors.push(
                                line_error(
                                    lineno,
                                    "недопустимое значение "@ + quoted(value) + " для "@ + quoted(
                                        key,
                                    ),
                                ),
                            ),
                            ..st
                        },
                        Some(Some(c)) => ParseState { cfg: c, seen, errors: st.errors },
                    }
                }
            },
        }
    }
}

pub open spec fn parse_lines(lines: Seq<Seq<char>>) -> ParseState
    decreases lines.len(),
{
    if lines.len() == 0 {
        ParseState { cfg: default_view(), seen: Set::empty(), errors: Seq::empty() }
    } else {
        apply_line(parse_lines(lines.drop_last()), lines.last(), lines.len())
    }
}

pub open spec fn combo_names() -> Seq<Seq<char>> {
    seq!["hotkey"@, "phrase-hotkey"@, "pause-hotkey"@, "layout-switch"@]
}

pub open spec fn combos_of(c: ConfigView) -> Seq<Seq<u16>> {
    seq![c.hotkey, c.phrase_hotkey, c.pause_hotkey, c.layout_switch]
}

/// The two combinations hold the same keys (as the engine recognises them).
pub open spec fn same_keys(a: Seq<u16>, b: Seq<u16>) -> bool {
    &&& a.len() == b.len()
    &&& forall|k: int| 0 <= k < a.len() ==> b.contains(#[trigger] a[k])
}

/// Every key before the last one is a modifier.
pub open spec fn prefix_ok(a: Seq<u16>) -> bool {
    forall|k: int| 0 <= k < a.len() - 1 ==> shift_key(#[trigger] a[k]) || command_key(a[k])
}

pub open spec fn same_msg(a: Seq<char>, b: Seq<char>) -> Seq<char> {
    quoted(a) + " и "@ + quoted(b) + " совпадают"@
}

pub open spec fn prefix_msg(a: Seq<char>) -> Seq<char> {
    quoted(a) + ": перед последней клавишей допустимы только модификаторы"@
}

/// Combination `i` against combinations `0..j`.
pub open spec fn pair_errors(c: ConfigView, i: int, j: int) -> Seq<Seq<char>>
    decreases j,
{
    if j <= 0 {
        Seq::empty()
    } else {
        let r = pair_errors(c, i, j - 1);
        if same_keys(combos_of(c)[i], combos_of(c)[j - 1]) {
            r.push(same_msg(combo_names()[i], combo_names()[j - 1]))
        } else {
            r
        }
    }
}

/// The checks across combinations `0..n`.
pub open spec fn combo_errors(c: ConfigView, n: int) -> Seq<Seq<char>>
    decreases n,
{
    if n <= 0 {
        Seq::empty()
    } else {
        let r = combo_errors(c, n - 1) + pair_errors(c, n - 1, n - 1);
        if prefix_ok(combos_of(c)[n - 1]) {
            r
        } else {
            r.push(prefix_msg(combo_names()[n - 1]))
        }
    }
}

/// All complaints about `text`, in the order they are reported.
pub open spec fn config_errors(text: Seq<char>) -> Seq<Seq<char>> {
    let st = parse_lines(split(text, '\n'));
    st.errors + combo_errors(st.cfg, 4)
}

/// What `Config::parse` gives for `text`. (`str::lines` and splitting at `\n` differ
/// only in a trailing `\r` and a final empty line, which trimming and blank-line
/// skipping make irrelevant.)
pub open spec fn parse_result(text: Seq<char>) -> Result<ConfigView, Seq<char>> {
    let errors = config_errors(text);
    if errors.len() == 0 {
        Ok(parse_lines(split(text, '\n')).cfg)
    } else {
        Err(join(errors, "\n"@))
    }
}

/// A combination the daemon can use: keys in 1..=255, none twice, at least one.
pub open spec fn combo_valid(a: Seq<u16>) -> bool {
    &&& a.len() >= 1
    &&& a.no_duplicates()
    &&& forall|k: int| 0 <= k < a.len() ==> 1 <= #[trigger] a[k] <= 255
}

/// What each setting, taken alone, guarantees.
pub open spec fn fields_valid(c: ConfigView) -> bool {
    &&& combo_valid(c.hotkey)
    &&& combo_valid(c.phrase_hotkey)
    &&& combo_valid(c.pause_hotkey)
    &&& combo_valid(c.layout_switch)
    &&& 1 <= c.key_delay_ms <= 100
    &&& c.post_backspace_ms <= 2000
    &&& c.switch_delay_ms <= 2000
    &&& 1 <= c.max_strokes <= 4096
    &&& 1000 <= c.buffer_timeout_ms <= 300_000
    &&& forall|k: int| 0 <= k < c.devices.len() ==> #[trigger] c.devices[k].len() > 0
}

/// A configuration that passed every check.
pub open spec fn config_valid(c: ConfigView) -> bool {
    &&& fields_valid(c)
    &&& forall|i: int, j: int|
        0 <= j < i < 4 ==> !same_keys(#[trigger] combos_of(c)[i], #[trigger] combos_of(c)[j])
    &&& forall|i: int| 0 <= i < 4 ==> prefix_ok(#[trigger] combos_of(c)[i])
}

pub open spec fn seen_set(v: Seq<Vec<char>>) -> Set<Seq<char>> {
    Set::new(|k: Seq<char>| views(v).contains(k))
}

pub open spec fn state_of(cfg: &Config, seen: &Vec<Vec<char>>, errors: &Vec<Vec<char>>) -> ParseState {
    ParseState { cfg: cfg@, seen: seen_set(seen@), errors: views(errors@) }
}

fn key_is(key: &Vec<char>, name: &str) -> (r: bool)
    ensures
        r == (key@ == name@),
{
    let n = chars_of(name);
    eq_chars(key, &n)
}

fn is_ci(value: &Vec<char>, word: &str) -> (r: bool)
    ensures
        r == eq_ignore_case(value@, word@),
{
    let w = chars_of(word);
    eq_ignore_case_chars(value, &w)
}

fn bool_of(value: &Vec<char>) -> (r: Option<bool>)
    ensures
        r == bool_value(value@),
{
    if is_ci(value, "yes") || is_ci(value, "true") || is_ci(value, "on") || is_ci(value, "1") {
        Some(true)
    } else if is_ci(value, "no") || is_ci(value, "false") || is_ci(value, "off") || is_ci(
        value,
        "0",
    ) {
        Some(false)
    } else {
        None
    }
}

fn number_of(value: &Vec<char>, min: u64, max: u64) -> (r: Option<u64>)
    ensures
        match r {
            Some(v) => number_in(value@, min as nat, max as nat) == Some(v as nat),
            None => number_in(value@, min as nat, max as nat) is None,
        },
{
    match parse_unsigned_chars(value, max) {
        Some(v) => if v >= min {
            Some(v)
        } else {
            None
        },
        None => None,
    }
}

fn devices_of(value: &Vec<char>) -> (r: Vec<String>)
    ensures
        string_views(r@) == device_names(split(value@, ',')),
{
    let parts = split_chars(value, ',');
    let ghost pv = views(parts@);
    let mut out: Vec<String> = Vec::new();
    let mut i: usize = 0;
    while i < parts.len()
        invariant
            i <= parts.len(),
            pv == views(parts@),
            pv == split(value@, ','),
            string_views(out@) == device_names(pv.take(i as int)),
        decreases parts.len() - i,
    {
        let t = trim_chars(&parts[i]);
        assert(pv.take(i + 1).drop_last() =~= pv.take(i as int));
        assert(pv.take(i + 1).last() == parts@[i as int]@);
        if t.len() > 0 {
            let ghost before = string_views(out@);
            let name = string_from_chars(&t);
            out.push(name);
            assert(string_views(out@) =~= before.push(t@));
        }
        i += 1;
    }
    assert(pv.take(parts.len() as int) =~= pv);
    out
}

/// Sets `target` to the combination written in `value`, if it is a valid one;
/// otherwise leaves it as it was. Returns whether it was set.
pub fn assign_combo(value: &Vec<char>, target: &mut Vec<u16>) -> (r: bool)
    ensures
        r == combo_spec(value@) is Some,
        r ==> final(target)@ == combo_spec(value@)->0,
        !r ==> final(target)@ == old(target)@,
{
    match keys::parse_combo_chars(value) {
        Some(v) => {
            *target = v;
            true
        },
        None => false,
    }
}

/// Sets `target` to the number written in `value`, if it is one in `min..=max`;
/// otherwise leaves it as it was. Returns whether it was set.
pub fn assign_number(value: &Vec<char>, target: &mut u64, min: u64, max: u64) -> (r: bool)
    ensures
        r == number_in(value@, min as nat, max as nat) is Some,
        r ==> *final(target) == number_in(value@, min as nat, max as nat)->0,
        !r ==> *final(target) == *old(target),
{
    match number_of(value, min, max) {
        Some(v) => {
            *target = v;
            true
        },
        None => false,
    }
}

/// Sets `target` to the yes/no answer written in `value` (`yes`, `true`, `on`, `1`
/// or `no`, `false`, `off`, `0`, in any ASCII case); otherwise leaves it as it was.
/// Returns whether it was set.
pub fn assign_bool(value: &Vec<char>, target: &mut bool) -> (r: bool)
    ensures
        r == bool_value(value@) is Some,
        r ==> *final(target) == bool_value(value@)->0,
        !r ==> *final(target) == *old(target),
{
    match bool_of(value) {
        Some(b) => {
            *target = b;
            true
        },
        None => false,
    }
}

/// Applies one setting; `None` for an unknown key, `Some(false)` for a value the key
/// does not accept (the configuration is then left as it was).
fn apply_setting(cfg: &mut Config, key: &Vec<char>, value: &Vec<char>) -> (r: Option<bool>)
    ensures
        match r {
            None => setting(old(cfg)@, key@, value@) is None && final(cfg)@ == old(cfg)@,
            Some(false) => setting(old(cfg)@, key@, value@) == Some(None::<ConfigView>)
                && final(cfg)@ == old(cfg)@,
            Some(true) => setting(old(cfg)@, key@, value@) == Some(Some(final(cfg)@)),
        },
{
    if key_is(key, "hotkey") {
        Some(assign_combo(value, &mut cfg.hotkey))
    } else if key_is(key, "phrase-hotkey") {
        Some(assign_combo(value, &mut cfg.phrase_hotkey))
    } else if key_is(key, "pause-hotkey") {
        Some(assign_combo(value, &mut cfg.pause_hotkey))
    } else if key_is(key, "layout-switch") {
        Some(assign_combo(value, &mut cfg.layout_switch))
    } else if key_is(key, "key-delay") {
        Some(assign_number(value, &mut cfg.key_delay_ms, 1, 100))
    } else if key_is(key, "post-backspace-delay") {
        Some(assign_number(value, &mut cfg.post_backspace_ms, 0, 2000))
    } else if key_is(key, "switch-delay") {
        Some(assign_number(value, &mut cfg.switch_delay_ms, 0, 2000))
    } else if key_is(key, "buffer-timeout") {
        Some(assign_number(value, &mut cfg.buffer_timeout_ms, 1000, 300_000))
    } else if key_is(key, "max-strokes") {
        match number_of(value, 1, 4096) {
            Some(v) => {
                cfg.max_strokes = v as usize;
                Some(true)
            },
            None => Some(false),
        }
    } else if key_is(key, "track-mouse") {
        Some(assign_bool(value, &mut cfg.track_mouse))
    } else if key_is(key, "session-guard") {
        Some(assign_bool(value, &mut cfg.session_guard))
    } else if key_is(key, "devices") {
        cfg.devices = devices_of(value);
        Some(true)
    } else {
        None
    }
}

fn quoted_chars(out: &mut Vec<char>, s: &Vec<char>)
    ensures
        final(out)@ == old(out)@ + quoted(s@),
{
    push_str(out, "'");
    push_all(out, s);
    push_str(out, "'");
}

fn line_error_start(lineno: u64) -> (r: Vec<char>)
    ensures
        r@ == "строка "@ + decimal(lineno as nat) + ": "@,
{
    let mut out: Vec<char> = Vec::new();
    push_str(&mut out, "строка ");
    push_decimal(&mut out, lineno);
    push_str(&mut out, ": ");
    out
}

fn contains_key(seen: &Vec<Vec<char>>, key: &Vec<char>) -> (r: bool)
    ensures
        r == seen_set(seen@).contains(key@),
{
    let mut i: usize = 0;
    while i < seen.len()
        invariant
            i <= seen.len(),
            forall|j: int| 0 <= j < i ==> seen@[j]@ != key@,
        decreases seen.len() - i,
    {
        if eq_chars(&seen[i], key) {
            assert(views(seen@)[i as int] == key@);
            return true;
        }
        i += 1;
    }
    proof {
        if views(seen@).contains(key@) {
            let j = choose|j: int| 0 <= j < views(seen@).len() && views(seen@)[j] == key@;
            assert(seen@[j]@ == key@);
        }
    }
    false
}

fn apply_line_exec(
    cfg: &mut Config,
    seen: &mut Vec<Vec<char>>,
    errors: &mut Vec<Vec<char>>,
    raw: &Vec<char>,
    lineno: u64,
)
    ensures
        state_of(final(cfg), final(seen), final(errors)) == apply_line(
            state_of(old(cfg), old(seen), old(errors)),
            raw@,
            lineno as nat,
        ),
{
    let before = before_first_chars(raw, '#');
    let line = trim_chars(&before);
    if line.len() == 0 {
        return ;
    }
    let ghost st = state_of(cfg, seen, errors);
    match split_once_chars(&line, '=') {
        None => {
            let mut msg = line_error_start(lineno);
            push_str(&mut msg, "нет '='");
            assert(msg@ =~= line_error(lineno as nat, "нет '='"@));
            let ghost e0 = views(errors@);
            errors.push(msg);
            assert(views(errors@) =~= e0.push(line_error(lineno as nat, "нет '='"@)));
        },
        Some((k, v)) => {
            let key = trim_chars(&k);
            let v1 = trim_chars(&v);
            let inner = if v1.len() >= 2 && v1[0] == '"' && v1[v1.len() - 1] == '"' {
                crate::text::slice_of(&v1, 1, v1.len() - 1)
            } else {
                crate::text::slice_of(&v1, 0, v1.len())
            };
            assert(inner@ == unquoted(v1@));
            let value = trim_chars(&inner);
            let ghost e0 = views(errors@);
            if contains_key(seen, &key) {
                let mut msg = line_error_start(lineno);
                push_str(&mut msg, "повтор ключа ");
                quoted_chars(&mut msg, &key);
                assert(msg@ =~= line_error(lineno as nat, "повтор ключа "@ + quoted(key@)));
                errors.push(msg);
                assert(views(errors@) =~= e0.push(
                    line_error(lineno as nat, "повтор ключа "@ + quoted(key@)),
                ));
                return ;
            }
            let ghost s0 = seen@;
            seen.push(key.clone());
            assert(seen_set(seen@) =~= seen_set(s0).insert(key@)) by {
                assert forall|q: Seq<char>| views(seen@).contains(q) == (views(s0).contains(q)
                    || q == key@) by {
                    if views(s0).contains(q) {
                        let j = choose|j: int| 0 <= j < views(s0).len() && views(s0)[j] == q;
                        assert(views(seen@)[j] == q);
                    }
                    if views(seen@).contains(q) && q != key@ {
                        let j = choose|j: int| 0 <= j < views(seen@).len() && views(seen@)[j] == q;
                        assert(views(s0)[j] == q);
                    }
                    if q == key@ {
                        assert(views(seen@)[s0.len() as int] == q);
                    }
                }
            }
            match apply_setting(cfg, &key, &value) {
                None => {
                    let mut msg = line_error_start(lineno);
                    push_str(&mut msg, "неизвестный ключ ");
                    quoted_chars(&mut msg, &key);
                    assert(msg@ =~= line_error(lineno as nat, "неизвестный ключ "@ + quoted(key@)));
                    errors.push(msg);
                    assert(views(errors@) =~= e0.push(
                        line_error(lineno as nat, "неизвестный ключ "@ + quoted(key@)),
                    ));
                },
                Some(false) => {
                    let mut msg = line_error_start(lineno);
                    push_str(&mut msg, "недопустимое значение ");
                    quoted_chars(&mut msg, &value);
                    push_str(&mut msg, " для ");
                    quoted_chars(&mut msg, &key);
                    assert(msg@ =~= line_error(
                        lineno as nat,
                        "недопустимое значение "@ + quoted(value@) + " для "@ + quoted(key@),
                    ));
                    errors.push(msg);
                    assert(views(errors@) =~= e0.push(
                        line_error(
                            lineno as nat,
                            "недопустимое значение "@ + quoted(value@) + " для "@ + quoted(key@),
                        ),
                    ));
                },
                Some(true) => {},
            }
        },
    }
}


proof fn lemma_device_names_nonempty(parts: Seq<Seq<char>>)
    ensures
        forall|k: int| 0 <= k < device_names(parts).len() ==> #[trigger] device_names(parts)[k].len() > 0,
    decreases parts.len(),
{
    if parts.len() > 0 {
        lemma_device_names_nonempty(parts.drop_last());
        let r = device_names(parts.drop_last());
        let t = trim(parts.last());
        if t.len() > 0 {
            assert forall|k: int| 0 <= k < r.push(t).len() implies #[trigger] r.push(t)[k].len() > 0 by {
                if k < r.len() {
                    assert(r.push(t)[k] == r[k]);
                }
            }
        }
    }
}

proof fn lemma_setting_valid(c: ConfigView, key: Seq<char>, value: Seq<char>)
    requires
        fields_valid(c),
        setting(c, key, value) matches Some(Some(_)),
    ensures
        fields_valid(setting(c, key, value)->0->0),
{
    if combo_spec(value) is Some {
        keys::lemma_combo_spec_valid(value);
    }
    lemma_device_names_nonempty(split(value, ','));
}

/// Each line keeps the guarantees of the individual settings.
proof fn lemma_apply_line_valid(st: ParseState, raw: Seq<char>, lineno: nat)
    requires
        fields_valid(st.cfg),
    ensures
        fields_valid(apply_line(st, raw, lineno).cfg),
{
    let line = trim(before_first(raw, '#'));
    if line.len() > 0 {
        if let Some((k, v)) = split_once(line, '=') {
            let key = trim(k);
            let value = trim(unquoted(trim(v)));
            if !st.seen.contains(key) {
                if setting(st.cfg, key, value) matches Some(Some(_)) {
                    lemma_setting_valid(st.cfg, key, value);
                }
            }
        }
    }
}

proof fn lemma_pair_errors_empty(c: ConfigView, i: int, j: int)
    requires
        pair_errors(c, i, j).len() == 0,
    ensures
        forall|m: int| 0 <= m < j ==> !same_keys(combos_of(c)[i], #[trigger] combos_of(c)[m]),
    decreases j,
{
    if j > 0 {
        let r = pair_errors(c, i, j - 1);
        if same_keys(combos_of(c)[i], combos_of(c)[j - 1]) {
            assert(pair_errors(c, i, j).len() == r.len() + 1);
        }
        lemma_pair_errors_empty(c, i, j - 1);
    }
}

proof fn lemma_combo_errors_empty(c: ConfigView, n: int)
    requires
        combo_errors(c, n).len() == 0,
        n <= 4,
    ensures
        forall|i: int, j: int|
            0 <= j < i < n ==> !same_keys(#[trigger] combos_of(c)[i], #[trigger] combos_of(c)[j]),
        forall|i: int| 0 <= i < n ==> prefix_ok(#[trigger] combos_of(c)[i]),
    decreases n,
{
    if n > 0 {
        let a = combo_errors(c, n - 1);
        let b = pair_errors(c, n - 1, n - 1);
        if !prefix_ok(combos_of(c)[n - 1]) {
            assert(combo_errors(c, n).len() == (a + b).len() + 1);
        }
        assert((a + b).len() == a.len() + b.len());
        lemma_combo_errors_empty(c, n - 1);
        lemma_pair_errors_empty(c, n - 1, n - 1);
    }
}

fn combo_at(cfg: &Config, i: usize) -> (r: &Vec<u16>)
    requires
        i < 4,
    ensures
        r@ == combos_of(cfg@)[i as int],
{
    if i == 0 {
        &cfg.hotkey
    } else if i == 1 {
        &cfg.phrase_hotkey
    } else if i == 2 {
        &cfg.pause_hotkey
    } else {
        &cfg.layout_switch
    }
}

fn name_at(i: usize) -> (r: &'static str)
    requires
        i < 4,
    ensures
        r@ == combo_names()[i as int],
{
    if i == 0 {
        "hotkey"
    } else if i == 1 {
        "phrase-hotkey"
    } else if i == 2 {
        "pause-hotkey"
    } else {
        "layout-switch"
    }
}

fn same_keys_exec(a: &Vec<u16>, b: &Vec<u16>) -> (r: bool)
    ensures
        r == same_keys(a@, b@),
{
    if a.len() != b.len() {
        return false;
    }
    let mut k: usize = 0;
    while k < a.len()
        invariant
            k <= a.len() == b.len(),
            forall|m: int| 0 <= m < k ==> b@.contains(#[trigger] a@[m]),
        decreases a.len() - k,
    {
        let code = a[k];
        let mut found = false;
        let mut j: usize = 0;
        while j < b.len()
            invariant
                j <= b.len(),
                found ==> b@.contains(code),
                !found ==> forall|m: int| 0 <= m < j ==> b@[m] != code,
            decreases b.len() - j,
        {
            if b[j] == code {
                assert(b@[j as int] == code);
                found = true;
            }
            j += 1;
        }
        if !found {
            assert(!b@.contains(a@[k as int]));
            return false;
        }
        k += 1;
    }
    true
}

fn prefix_ok_exec(a: &Vec<u16>) -> (r: bool)
    ensures
        r == prefix_ok(a@),
{
    if a.len() == 0 {
        return true;
    }
    let mut k: usize = 0;
    while k < a.len() - 1
        invariant
            a.len() >= 1,
            k <= a.len() - 1,
            forall|m: int| 0 <= m < k ==> shift_key(#[trigger] a@[m]) || command_key(a@[m]),
        decreases a.len() - 1 - k,
    {
        if !keys::is_shift(a[k]) && !keys::is_command_modifier(a[k]) {
            return false;
        }
        k += 1;
    }
    true
}

/// Appends the complaints about the four combinations taken together.
fn check_combos(cfg: &Config, errors: &mut Vec<Vec<char>>)
    ensures
        views(final(errors)@) == views(old(errors)@) + combo_errors(cfg@, 4),
{
    let ghost start = views(errors@);
    let mut i: usize = 0;
    assert(start + combo_errors(cfg@, 0) =~= start);
    while i < 4
        invariant
            i <= 4,
            views(errors@) == start + combo_errors(cfg@, i as int),
        decreases 4 - i,
    {
        let combo = combo_at(cfg, i);
        let mut j: usize = 0;
        assert(views(errors@) =~= start + combo_errors(cfg@, i as int) + pair_errors(cfg@, i as int, 0));
        while j < i
            invariant
                j <= i < 4,
                combo@ == combos_of(cfg@)[i as int],
                views(errors@) == start + combo_errors(cfg@, i as int) + pair_errors(
                    cfg@,
                    i as int,
                    j as int,
                ),
            decreases i - j,
        {
            let other = combo_at(cfg, j);
            if same_keys_exec(combo, other) {
                let mut msg: Vec<char> = Vec::new();
                quoted_chars(&mut msg, &chars_of(name_at(i)));
                push_str(&mut msg, " и ");
                quoted_chars(&mut msg, &chars_of(name_at(j)));
                push_str(&mut msg, " совпадают");
                assert(msg@ =~= same_msg(combo_names()[i as int], combo_names()[j as int]));
                let ghost e0 = views(errors@);
                errors.push(msg);
                assert(views(errors@) =~= e0.push(msg@));
                assert(views(errors@) =~= start + combo_errors(cfg@, i as int) + pair_errors(
                    cfg@,
                    i as int,
                    j + 1,
                ));
            }
            j += 1;
        }
        if !prefix_ok_exec(combo) {
            let mut msg: Vec<char> = Vec::new();
            quoted_chars(&mut msg, &chars_of(name_at(i)));
            push_str(&mut msg, ": перед последней клавишей допустимы только модификаторы");
            assert(msg@ =~= prefix_msg(combo_names()[i as int]));
            let ghost e0 = views(errors@);
            errors.push(msg);
            assert(views(errors@) =~= e0.push(msg@));
        }
        assert(views(errors@) =~= start + combo_errors(cfg@, i + 1));
        i += 1;
    }
}

/// Joins the complaints, one per line.
fn join_lines(parts: &Vec<Vec<char>>) -> (r: Vec<char>)
    ensures
        r@ == join(views(parts@), "\n"@),
{
    let mut out: Vec<char> = Vec::new();
    if parts.len() == 0 {
        return out;
    }
    push_all(&mut out, &parts[0]);
    let mut i: usize = 1;
    assert(views(parts@).take(1) =~= seq![parts@[0]@]);
    while i < parts.len()
        invariant
            1 <= i <= parts.len(),
            out@ == join(views(parts@).take(i as int), "\n"@),
        decreases parts.len() - i,
    {
        push_str(&mut out, "\n");
        push_all(&mut out, &parts[i]);
        assert(views(parts@).take(i + 1).drop_last() =~= views(parts@).take(i as int));
        i += 1;
    }
    assert(views(parts@).take(parts.len() as int) =~= views(parts@));
    out
}

impl Config {
    /// Parses a configuration file: `key = value` lines, `#` comments, blank lines.
    /// Every complaint is collected; any complaint makes the whole file fail.
    pub fn parse(text: &str) -> (r: Result<Self, String>)
        ensures
            match r {
                Ok(c) => parse_result(text@) == Ok::<ConfigView, Seq<char>>(c@) && config_valid(c@),
                Err(e) => parse_result(text@) == Err::<ConfigView, Seq<char>>(e@),
            },
    {
        let chars = chars_of(text);
        let lines = split_chars(&chars, '\n');
        let mut cfg = Config::default();
        let mut seen: Vec<Vec<char>> = Vec::new();
        let mut errors: Vec<Vec<char>> = Vec::new();
        assert(string_views(cfg.devices@) =~= Seq::<Seq<char>>::empty());
        assert(cfg@ == default_view());
        assert(seen_set(seen@) =~= Set::<Seq<char>>::empty());
        assert(views(errors@) =~= Seq::<Seq<char>>::empty());
        assert(views(lines@).take(0) =~= Seq::<Seq<char>>::empty());
        let mut i: usize = 0;
        while i < lines.len()
            invariant
                i <= lines.len(),
                views(lines@) == split(text@, '\n'),
                state_of(&cfg, &seen, &errors) == parse_lines(views(lines@).take(i as int)),
                fields_valid(cfg@),
            decreases lines.len() - i,
        {
            let ghost st = state_of(&cfg, &seen, &errors);
            apply_line_exec(&mut cfg, &mut seen, &mut errors, &lines[i], (i + 1) as u64);
            proof {
                lemma_apply_line_valid(st, lines@[i as int]@, (i + 1) as nat);
                assert(views(lines@).take(i + 1).drop_last() =~= views(lines@).take(i as int));
                assert(views(lines@).take(i + 1).last() == lines@[i as int]@);
            }
            i += 1;
        }
        assert(views(lines@).take(lines.len() as int) =~= views(lines@));
        let ghost line_errors = views(errors@);
        check_combos(&cfg, &mut errors);
        if errors.len() == 0 {
            proof {
                lemma_combo_errors_empty(cfg@, 4);
            }
            Ok(cfg)
        } else {
            let joined = join_lines(&errors);
            Err(string_from_chars(&joined))
        }
    }
}

proof fn lemma_pair_errors_none(c: ConfigView, i: int, j: int)
    requires
        forall|m: int| 0 <= m < j ==> !same_keys(combos_of(c)[i], #[trigger] combos_of(c)[m]),
    ensures
        pair_errors(c, i, j).len() == 0,
    decreases j,
{
    if j > 0 {
        lemma_pair_errors_none(c, i, j - 1);
    }
}

proof fn lemma_combo_errors_none(c: ConfigView, n: int)
    requires
        n <= 4,
        forall|i: int, j: int|
            0 <= j < i < n ==> !same_keys(#[trigger] combos_of(c)[i], #[trigger] combos_of(c)[j]),
        forall|i: int| 0 <= i < n ==> prefix_ok(#[trigger] combos_of(c)[i]),
    ensures
        combo_errors(c, n).len() == 0,
    decreases n,
{
    if n > 0 {
        lemma_combo_errors_none(c, n - 1);
        lemma_pair_errors_none(c, n - 1, n - 1);
    }
}

/// A configuration that passed every check is one the engine can run with: each
/// hotkey and the layout switch name at least one key.
pub proof fn lemma_valid_config_usable(c: Config)
    requires
        config_valid(c@),
    ensures
        c.combos_nonempty(),
{
}

/// The defaults pass every check that parsing makes.
pub proof fn lemma_defaults_valid()
    ensures
        config_valid(default_view()),
{
    let c = default_view();
    let cs = combos_of(c);
    assert(cs[0] == seq![keys::KEY_INSERT]);
    assert(cs[1] == seq![keys::KEY_LEFTMETA, keys::KEY_INSERT]);
    assert(cs[2] == seq![keys::KEY_LEFTMETA, keys::KEY_PAUSE]);
    assert(cs[3] == seq![keys::KEY_LEFTMETA, keys::KEY_SPACE]);
    assert(!cs[1].contains(keys::KEY_PAUSE));
    assert(!cs[1].contains(keys::KEY_SPACE));
    assert(!cs[2].contains(keys::KEY_SPACE));
    assert forall|i: int, j: int| 0 <= j < i < 4 implies !same_keys(
        #[trigger] cs[i],
        #[trigger] cs[j],
    ) by {
        if i == 2 && j == 1 {
            assert(cs[2][1] == keys::KEY_PAUSE);
        }
        if i == 3 && j == 1 {
            assert(cs[3][1] == keys::KEY_SPACE);
        }
        if i == 3 && j == 2 {
            assert(cs[3][1] == keys::KEY_SPACE);
        }
    }
    assert forall|i: int| 0 <= i < 4 implies prefix_ok(#[trigger] cs[i]) by {
        assert forall|k: int| 0 <= k < cs[i].len() - 1 implies shift_key(#[trigger] cs[i][k])
            || command_key(cs[i][k]) by {
            assert(cs[i][k] == keys::KEY_LEFTMETA);
        }
    }
    assert forall|k: int| 0 <= k < c.hotkey.len() implies 1 <= #[trigger] c.hotkey[k] <= 255 by {}
    assert(c.phrase_hotkey.no_duplicates());
    assert(c.pause_hotkey.no_duplicates());
    assert(c.layout_switch.no_duplicates());
}

/// An empty file gives the default configuration.
pub proof fn lemma_empty_text_gives_defaults()
    ensures
        parse_result(Seq::empty()) == Ok::<ConfigView, Seq<char>>(default_view()),
{
    let lines = split(Seq::<char>::empty(), '\n');
    assert(lines == seq![Seq::<char>::empty()]);
    assert(lines.drop_last() =~= Seq::<Seq<char>>::empty());
    let e = Seq::<char>::empty();
    assert(first_index(e, '#') is None);
    assert(before_first(e, '#') == e);
    assert(trim_start(e) == e);
    assert(trim_end(e) == e);
    assert(trim(e) == e);
    let st0 = parse_lines(lines.drop_last());
    assert(st0.cfg == default_view());
    assert(lines.last() == e);
    assert(apply_line(st0, e, 1) == st0);
    let st = parse_lines(lines);
    assert(st.cfg == default_view());
    assert(st.errors.len() == 0);
    lemma_defaults_valid();
    let c = default_view();
    lemma_combo_errors_none(c, 4);
    assert(config_errors(Seq::empty()) =~= Seq::<Seq<char>>::empty());
}

/// The key that line `raw` sets, if it is a `key = value` line.
pub open spec fn line_key(raw: Seq<char>) -> Option<Seq<char>> {
    let line = trim(before_first(raw, '#'));
    if line.len() == 0 {
        None
    } else {
        match split_once(line, '=') {
            Some((k, _)) => Some(trim(k)),
            None => None,
        }
    }
}

/// `a` and `b` agree on the setting named `name`.
pub open spec fn same_setting(a: ConfigView, b: ConfigView, name: Seq<char>) -> bool {
    if name == "hotkey"@ {
        a.hotkey == b.hotkey
    } else if name == "phrase-hotkey"@ {
        a.phrase_hotkey == b.phrase_hotkey
    } else if name == "pause-hotkey"@ {
        a.pause_hotkey == b.pause_hotkey
    } else if name == "layout-switch"@ {
        a.layout_switch == b.layout_switch
    } else if name == "key-delay"@ {
        a.key_delay_ms == b.key_delay_ms
    } else if name == "post-backspace-delay"@ {
        a.post_backspace_ms == b.post_backspace_ms
    } else if name == "switch-delay"@ {
        a.switch_delay_ms == b.switch_delay_ms
    } else if name == "buffer-timeout"@ {
        a.buffer_timeout_ms == b.buffer_timeout_ms
    } else if name == "max-strokes"@ {
        a.max_strokes == b.max_strokes
    } else if name == "track-mouse"@ {
        a.track_mouse == b.track_mouse
    } else if name == "session-guard"@ {
        a.session_guard == b.session_guard
    } else if name == "devices"@ {
        a.devices == b.devices
    } else {
        true
    }
}

proof fn lemma_apply_line_keeps(st: ParseState, raw: Seq<char>, lineno: nat, name: Seq<char>)
    requires
        line_key(raw) != Some(name),
    ensures
        same_setting(st.cfg, apply_line(st, raw, lineno).cfg, name),
{
}

proof fn lemma_parse_lines_keeps(lines: Seq<Seq<char>>, name: Seq<char>)
    requires
        forall|i: int| 0 <= i < lines.len() ==> line_key(#[trigger] lines[i]) != Some(name),
    ensures
        same_setting(parse_lines(lines).cfg, default_view(), name),
    decreases lines.len(),
{
    if lines.len() > 0 {
        let init = lines.drop_last();
        assert forall|i: int| 0 <= i < init.len() implies line_key(#[trigger] init[i]) != Some(name) by {
            assert(init[i] == lines[i]);
        }
        lemma_parse_lines_keeps(init, name);
        assert(line_key(lines[lines.len() - 1]) != Some(name));
        lemma_apply_line_keeps(parse_lines(init), lines.last(), lines.len(), name);
    }
}

/// A setting that no line of the file sets keeps its default value.
pub proof fn lemma_unset_keeps_default(text: Seq<char>, name: Seq<char>)
    requires
        forall|i: int|
            0 <= i < split(text, '\n').len() ==> line_key(#[trigger] split(text, '\n')[i]) != Some(
                name,
            ),
    ensures
        parse_result(text) matches Ok(c) ==> same_setting(c, default_view(), name),
{
    lemma_parse_lines_keeps(split(text, '\n'), name);
}

/// The value that line `raw` gives its key, as it is read: after `=`, trimmed, one
/// pair of surrounding double quotes dropped, trimmed again.
pub open spec fn line_value(raw: Seq<char>) -> Seq<char> {
    let line = trim(before_first(raw, '#'));
    match split_once(line, '=') {
        Some((_, v)) => trim(unquoted(trim(v))),
        None => Seq::empty(),
    }
}

/// The field of `c` that the key `name` sets holds what `value` says.
pub open spec fn takes_value(c: ConfigView, name: Seq<char>, value: Seq<char>) -> bool {
    if name == "hotkey"@ {
        combo_spec(value) == Some(c.hotkey)
    } else if name == "phrase-hotkey"@ {
        combo_spec(value) == Some(c.phrase_hotkey)
    } else if name == "pause-hotkey"@ {
        combo_spec(value) == Some(c.pause_hotkey)
    } else if name == "layout-switch"@ {
        combo_spec(value) == Some(c.layout_switch)
    } else if name == "key-delay"@ {
        parse_unsigned(value, 100) == Some(c.key_delay_ms as nat)
    } else if name == "post-backspace-delay"@ {
        parse_unsigned(value, 2000) == Some(c.post_backspace_ms as nat)
    } else if name == "switch-delay"@ {
        parse_unsigned(value, 2000) == Some(c.switch_delay_ms as nat)
    } else if name == "buffer-timeout"@ {
        parse_unsigned(value, 300_000) == Some(c.buffer_timeout_ms as nat)
    } else if name == "max-strokes"@ {
        parse_unsigned(value, 4096) == Some(c.max_strokes as nat)
    } else if name == "track-mouse"@ {
        bool_value(value) == Some(c.track_mouse)
    } else if name == "session-guard"@ {
        bool_value(value) == Some(c.session_guard)
    } else if name == "devices"@ {
        c.devices == device_names(split(value, ','))
    } else {
        false
    }
}

proof fn lemma_takes_value_kept(a: ConfigView, b: ConfigView, name: Seq<char>, value: Seq<char>)
    requires
        same_setting(a, b, name),
        takes_value(a, name, value),
    ensures
        takes_value(b, name, value),
{
}

proof fn lemma_setting_takes_value(c: ConfigView, name: Seq<char>, value: Seq<char>)
    requires
        setting(c, name, value) matches Some(Some(_)),
    ensures
        takes_value(setting(c, name, value)->0->0, name, value),
{
}

proof fn lemma_lines_take_values(lines: Seq<Seq<char>>, name: Seq<char>)
    requires
        parse_lines(lines).errors.len() == 0,
    ensures
        forall|i: int|
            0 <= i < lines.len() && line_key(#[trigger] lines[i]) == Some(name) ==> takes_value(
                parse_lines(lines).cfg,
                name,
                line_value(lines[i]),
            ) && parse_lines(lines).seen.contains(name),
    decreases lines.len(),
{
    if lines.len() > 0 {
        let init = lines.drop_last();
        let last = lines.last();
        let st = parse_lines(init);
        let fin = parse_lines(lines);
        assert(fin == apply_line(st, last, lines.len()));
        assert(st.errors.len() <= fin.errors.len());
        lemma_lines_take_values(init, name);
        assert(st.seen.subset_of(fin.seen));
        if line_key(last) == Some(name) {
            let line = trim(before_first(last, '#'));
            assert(line.len() > 0);
            assert(split_once(line, '=') is Some);
            assert(!st.seen.contains(name));
            assert(setting(st.cfg, name, line_value(last)) matches Some(Some(_)));
            lemma_setting_takes_value(st.cfg, name, line_value(last));
        } else {
            lemma_apply_line_keeps(st, last, lines.len(), name);
        }
        assert forall|i: int|
            0 <= i < lines.len() && line_key(#[trigger] lines[i]) == Some(name) implies takes_value(
            fin.cfg,
            name,
            line_value(lines[i]),
        ) && fin.seen.contains(name) by {
            if i < init.len() {
                assert(init[i] == lines[i]);
                assert(st.seen.contains(name));
                if line_key(last) == Some(name) {
                    let line = trim(before_first(last, '#'));
                    assert(split_once(line, '=') is Some);
                    assert(fin.errors.len() > 0);
                }
                lemma_takes_value_kept(st.cfg, fin.cfg, name, line_value(lines[i]));
            }
        }
    }
}

/// Whatever a line of an accepted file sets is what the configuration holds: the
/// field that its key names has the value the line gives (e.g.
/// `post-backspace-delay = N` gives `post_backspace_ms == N`).
pub proof fn lemma_set_key_takes_value(text: Seq<char>, i: int, name: Seq<char>)
    requires
        0 <= i < split(text, '\n').len(),
        line_key(split(text, '\n')[i]) == Some(name),
    ensures
        parse_result(text) matches Ok(c) ==> takes_value(c, name, line_value(split(text, '\n')[i])),
{
    let lines = split(text, '\n');
    let st = parse_lines(lines);
    if parse_result(text) is Ok {
        assert(config_errors(text).len() == 0);
        assert(st.errors.len() == 0);
        lemma_lines_take_values(lines, name);
    }
}

} // verus!
