//! The audio pipeline's decisions and data structures.

pub mod backend;
pub mod capture;
pub mod capture_laws;
pub mod device_manager;
pub mod device_watcher;
pub mod drift;
pub mod ebu_tone;
pub mod encode;
pub mod encode_laws;
pub mod frame_pool;
pub mod geometry;
pub mod live_input;
pub mod peer_group;
pub mod resample;
pub mod routing;
pub mod sample;
pub mod splice;
pub mod sync;
