# punto-rs

A daemon that fixes text typed in the wrong keyboard layout: it reads key
presses passively from evdev, and on a hotkey erases the last word (or the whole
phrase), switches the layout and types the same physical keys again through a
uinput virtual keyboard.

## Layout

- `src/` — the library, verified with Verus:
  - `state` — the buffer of typed strokes and the last word of it;
  - `keys` — scan-code classes and the parser of key combinations;
  - `config` — the configuration file format and its checks;
  - `engine` — the hotkey and typing state machine, with its invariant;
  - `events` — from raw device events to engine events, and the decisions of
    the event loop and of the wait between synthetic keys;
  - `session` — the logind session guard and which sessions may be corrected;
  - `devices`, `instance` — which input devices are read, and the checks of the
    single-instance lock;
  - `injector` — the interruptible replay of a correction. Its contract says which
    key events reach an output that keeps a history (`KeyOutput::records`), how each
    delay is answered by the wait callback, that the replay stops at the first
    failure, and that the events sent leave no key pressed;
  - `text` — character-level helpers with their specifications.
- `app/` — the program around it: arguments, files, evdev/uinput, D-Bus, threads.
- `tests/` — tests of the library's public functions.

## Design notes

- The held keys are kept as a `Vec<(u64, u16)>` with a set as its view, and the
  keys already seen by the configuration parser as a `Vec` of character vectors.
  vstd's `HashSet` specification needs a key type whose hashing it models, which
  these tuple and string keys are not, and it offers no `retain`; with a `Vec` the
  set operations are verified loops.
- A correction reports `FixError::Step` or `FixError::Cleanup`, so that a failed
  release of the synthetic keys can be told apart (and is always fatal) although
  `io::Error` itself is opaque to verification.
