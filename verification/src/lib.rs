//! A command-driven task tracker, verified with Verus: a parser that turns a
//! line of text into a command, a task-list engine that applies it, and a
//! store codec whose save/load round trip is proved exact.

pub mod commands;
pub mod storage;
pub mod task;
pub mod text;
pub mod todo_list;
