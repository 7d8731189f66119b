//! A time tracker's core: tasks, timing sessions and the queries over them.
pub mod models;
pub mod order;
pub mod tables;
pub mod db;
pub mod clock;
pub mod laws;
pub mod text;
pub mod tray;
pub mod commands;
pub mod events;
