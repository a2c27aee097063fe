//! What the control API decides.

pub mod config;
pub mod inventory;
pub mod json;
pub mod late;
pub mod listener;
pub mod messages;
pub mod meters;
pub mod rest;
pub mod status;
