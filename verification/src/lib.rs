//! A structural differ and patcher for tree-shaped documents.
//!
//! `diff_tree` walks two documents and produces an ordered edit script;
//! `apply_diff` replays such a script against a document, operation by
//! operation.  Every function is specified against the mathematical model
//! of the document tree.

pub mod value;
pub mod pointer;
pub mod sem;
pub mod ops;
pub mod diff;
pub mod update;
pub mod laws;

pub use value::{Value, Entry, ValueModel, value_eq, dup};
pub use sem::ApplyError;
pub use ops::{Op, AddOp, RemoveOp, SetOp, Operation, OpModel, apply_diff};
pub use diff::{diff_tree, DiffError};
pub use update::UpdateService;
pub use pointer::{parse_pointer, render_pointer, parse_index, render_index};
