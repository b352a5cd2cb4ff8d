//! A redo build system: recursive builds from `.do` files, with dependencies that are found out
//! while targets are built.
//!
//! The library decides; it does not touch files, processes or the terminal. What it needs to know
//! about them is passed in as plain values, and what is to be done comes out as plain values.

pub mod builder;
pub mod commands;
pub mod cycles;
pub mod db;
pub mod deps;
pub mod env;
pub mod error;
pub mod exits;
pub mod helpers;
pub mod jobserver;
pub mod lock;
pub mod logcat;
pub mod logs;
pub mod pathname;
pub mod paths;
pub mod redopath;
pub mod relpath;
pub mod runner;
pub mod stamp;
pub mod state;
pub mod text;
pub mod viewer;

pub use db::DepMode;
pub use deps::{is_dirty, Dirtiness, DirtyCallbacks, DirtyCallbacksBuilder};
pub use env::{Env, OptionalBool};
pub use error::{RedoError, RedoErrorKind};
pub use helpers::{abs_path, normpath};
pub use lock::{Lock, LockType};
pub use paths::{possible_do_files, DoFile, PossibleDoFiles};
pub use redopath::{RedoPath, RedoPathBuf};
pub use relpath::relpath;
pub use stamp::Stamp;
pub use state::{always_filename, logname, File, Files, ProcessState, ProcessTransaction, LOG_LOCK_MAGIC};
