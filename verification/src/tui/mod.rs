//! The interactive interface.

pub mod app;
pub mod laws;
pub mod event;
pub mod ui;
