//! A hotkey-driven clipboard image binder.
//!
//! The library holds the verified core of the tool: the binding store that
//! maps key codes to captured image bytes, the byte codec that persists the
//! store, and the combo state machine that turns raw key states into
//! record / playback decisions.  The surrounding process (OS key hook,
//! clipboard access, file reads and writes) lives outside the library and
//! hands it plain values.

pub mod codec;
pub mod engine;
pub mod store;
