//! The verified core of a networked audio daemon: receive-buffer geometry, drift and
//! phase-lock control, capture framing, device recovery and the control API's decisions.

pub mod api;
pub mod audio;
pub mod names;
pub mod pick;
pub mod text;
