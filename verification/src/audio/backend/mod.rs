//! The device layer's decisions, one module per host system, and what they share.

pub mod alsa_backend;
pub mod command;
pub mod coreaudio_backend;
pub mod pack;
pub mod wasapi_backend;
