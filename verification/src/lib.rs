//! Layout-fixing keyboard daemon core: the typed-stroke buffer, the hotkey
//! engine, configuration parsing, the session guard, the choice of input devices,
//! the event-loop decisions and the interruptible replay of a correction.
pub mod text;
pub mod keys;
pub mod state;
pub mod config;
pub mod engine;
pub mod session;
pub mod events;
pub mod devices;
pub mod instance;
pub mod injector;
