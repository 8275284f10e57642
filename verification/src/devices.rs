//! Which input devices are watched: keyboards and pointers are told apart by the
//! keys they report, and only devices of the default seat (as udev records it)
//! are read.
use vstd::prelude::*;

use crate::config::string_views;
use crate::events::DeviceKind;
use crate::keys::{BTN_LEFT, KEY_SPACE};
use crate::text::{
    chars_of, decimal, eq_chars, push_decimal, push_str, slice_of, split, split_chars,
    starts_with_chars, string_from_chars, views,
};

verus! {

pub const KEY_A: u16 = 30;

pub const KEY_Z: u16 = 44;

/// A keyboard reports at least A, Z and the space bar.
pub open spec fn keyboard_keys(keys: Seq<u16>) -> bool {
    keys.contains(KEY_A) && keys.contains(KEY_Z) && keys.contains(KEY_SPACE)
}

/// A pointer reports the left button.
pub open spec fn pointer_keys(keys: Seq<u16>) -> bool {
    keys.contains(BTN_LEFT)
}

fn has_key(keys: &Vec<u16>, code: u16) -> (r: bool)
    ensures
        r == keys@.contains(code),
{
    let mut i: usize = 0;
    while i < keys.len()
        invariant
            i <= keys.len(),
            forall|j: int| 0 <= j < i ==> keys@[j] != code,
        decreases keys.len() - i,
    {
        if keys[i] == code {
            assert(keys@[i as int] == code);
            return true;
        }
        i += 1;
    }
    false
}

/// Whether a device reporting `keys` is a keyboard.
pub fn is_keyboard(keys: &Vec<u16>) -> (r: bool)
    ensures
        r == keyboard_keys(keys@),
{
    has_key(keys, KEY_A) && has_key(keys, KEY_Z) && has_key(keys, KEY_SPACE)
}

/// Whether a device reporting `keys` is a pointer.
pub fn is_pointer(keys: &Vec<u16>) -> (r: bool)
    ensures
        r == pointer_keys(keys@),
{
    has_key(keys, BTN_LEFT)
}

/// What a device is watched as: with a device list the devices of those names are
/// the keyboards, without one every keyboard is; pointers count when mouse
/// tracking is on.
pub open spec fn kind_of(
    name: Seq<char>,
    filter: Seq<Seq<char>>,
    track_mouse: bool,
    keys: Seq<u16>,
) -> Option<DeviceKind> {
    let keyboard = if filter.len() == 0 {
        keyboard_keys(keys)
    } else {
        filter.contains(name)
    };
    if keyboard {
        Some(DeviceKind::Keyboard)
    } else if track_mouse && pointer_keys(keys) {
        Some(DeviceKind::Pointer)
    } else {
        None
    }
}

fn listed(name: &str, filter: &Vec<String>) -> (r: bool)
    ensures
        r == string_views(filter@).contains(name@),
{
    let wanted = chars_of(name);
    let mut i: usize = 0;
    while i < filter.len()
        invariant
            i <= filter.len(),
            wanted@ == name@,
            forall|j: int| 0 <= j < i ==> filter@[j]@ != name@,
        decreases filter.len() - i,
    {
        let other = chars_of(filter[i].as_str());
        if eq_chars(&other, &wanted) {
            assert(string_views(filter@)[i as int] == name@);
            return true;
        }
        i += 1;
    }
    proof {
        if string_views(filter@).contains(name@) {
            let j = choose|j: int|
                0 <= j < string_views(filter@).len() && string_views(filter@)[j] == name@;
            assert(filter@[j]@ == name@);
        }
    }
    false
}

/// How the device named `name`, reporting `keys`, is watched, if at all.
pub fn device_kind(name: &str, filter: &Vec<String>, track_mouse: bool, keys: &Vec<u16>) -> (r:
    Option<DeviceKind>)
    ensures
        r == kind_of(name@, string_views(filter@), track_mouse, keys@),
{
    let keyboard = if filter.len() == 0 {
        is_keyboard(keys)
    } else {
        listed(name, filter)
    };
    if keyboard {
        Some(DeviceKind::Keyboard)
    } else if track_mouse && is_pointer(keys) {
        Some(DeviceKind::Pointer)
    } else {
        None
    }
}

/// `l` without one trailing carriage return.
pub open spec fn without_cr(l: Seq<char>) -> Seq<char> {
    if l.len() > 0 && l.last() == '\r' {
        l.drop_last()
    } else {
        l
    }
}

/// The lines of `s` as `str::lines` gives them: split at `\n`, with a `\r` just
/// before a `\n` dropped (and a last empty line where `s` is empty or ends with
/// `\n`, which no test on a line prefix can tell apart).
pub open spec fn text_lines(s: Seq<char>) -> Seq<Seq<char>> {
    let parts = split(s, '\n');
    Seq::new(
        parts.len(),
        |i: int|
            if i + 1 < parts.len() {
                without_cr(parts[i])
            } else {
                parts[i]
            },
    )
}

/// The seat a udev property line names, if it is the `ID_SEAT` line.
pub open spec fn seat_of_line(l: Seq<char>) -> Option<Seq<char>> {
    if "E:ID_SEAT="@.is_prefix_of(l) {
        Some(l.skip(10))
    } else {
        None
    }
}

/// The seat named by the first `ID_SEAT` line.
pub open spec fn first_seat(lines: Seq<Seq<char>>) -> Option<Seq<char>>
    decreases lines.len(),
{
    if lines.len() == 0 {
        None
    } else {
        match seat_of_line(lines[0]) {
            Some(s) => Some(s),
            None => first_seat(lines.drop_first()),
        }
    }
}

/// A device whose udev record names no seat belongs to the default one.
pub open spec fn default_seat_record(data: Seq<char>) -> bool {
    match first_seat(text_lines(data)) {
        Some(s) => s == "seat0"@,
        None => true,
    }
}

/// Whether the udev database record `data` puts its device on seat0.
pub fn on_seat0(data: &str) -> (r: bool)
    ensures
        r == default_seat_record(data@),
{
    let text = chars_of(data);
    let parts = split_chars(&text, '\n');
    let ghost pv = views(parts@);
    let ghost ls = text_lines(data@);
    let prefix = chars_of("E:ID_SEAT=");
    let seat0 = chars_of("seat0");
    proof {
        reveal_strlit("E:ID_SEAT=");
        assert(ls.skip(0) =~= ls);
    }
    let mut i: usize = 0;
    while i < parts.len()
        invariant
            i <= parts.len(),
            pv == views(parts@),
            pv == split(data@, '\n'),
            ls == text_lines(data@),
            ls.len() == pv.len(),
            prefix@ == "E:ID_SEAT="@,
            prefix@.len() == 10,
            seat0@ == "seat0"@,
            first_seat(ls) == first_seat(ls.skip(i as int)),
        decreases parts.len() - i,
    {
        let part = &parts[i];
        let n = part.len();
        let line = if i + 1 < parts.len() && n > 0 && part[n - 1] == '\r' {
            slice_of(part, 0, n - 1)
        } else {
            slice_of(part, 0, n)
        };
        proof {
            assert(pv[i as int] == part@);
            assert(part@.subrange(0, n as int) =~= part@);
            if n > 0 {
                assert(part@.drop_last() =~= part@.subrange(0, n - 1));
            }
            assert(line@ == ls[i as int]);
            assert(ls.skip(i as int)[0] == ls[i as int]);
            assert(ls.skip(i as int).drop_first() =~= ls.skip(i + 1));
        }
        if starts_with_chars(&line, &prefix) {
            let rest = slice_of(&line, 10, line.len());
            assert(rest@ =~= line@.skip(10));
            return eq_chars(&rest, &seat0);
        }
        i += 1;
    }
    proof {
        assert(ls.skip(i as int) =~= Seq::<Seq<char>>::empty());
    }
    true
}

/// The major number of a device id: bits 8..20 and 44..64.
pub open spec fn dev_major(dev: u64) -> u64 {
    ((dev & 0x00000000000fff00u64) >> 8u64) | ((dev & 0xfffff00000000000u64) >> 32u64)
}

/// The minor number of a device id: bits 0..8 and 20..44.
pub open spec fn dev_minor(dev: u64) -> u64 {
    (dev & 0x00000000000000ffu64) | ((dev & 0x00000ffffff00000u64) >> 12u64)
}

/// `libc::major`: the major number of a device id, taken from its bits as
/// `dev_major` says.
#[verifier::external_body]
fn major_number(dev: u64) -> (r: u32)
    ensures
        r as u64 == dev_major(dev),
{
    libc::major(dev)
}

/// `libc::minor`: the minor number of a device id, taken from its bits as
/// `dev_minor` says.
#[verifier::external_body]
fn minor_number(dev: u64) -> (r: u32)
    ensures
        r as u64 == dev_minor(dev),
{
    libc::minor(dev)
}

/// Where udev keeps the record of the character device `rdev`.
pub fn udev_record_path(rdev: u64) -> (r: String)
    ensures
        r@ == "/run/udev/data/c"@ + decimal(dev_major(rdev) as nat) + ":"@ + decimal(
            dev_minor(rdev) as nat,
        ),
{
    let major = major_number(rdev);
    let minor = minor_number(rdev);
    let mut out: Vec<char> = Vec::new();
    push_str(&mut out, "/run/udev/data/c");
    push_decimal(&mut out, major as u64);
    push_str(&mut out, ":");
    push_decimal(&mut out, minor as u64);
    string_from_chars(&out)
}

} // verus!
