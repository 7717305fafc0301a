//! Translation of dragged file names for terminals attached to a virtual machine.
//!
//! When a file is dragged into a terminal window, the terminal pastes the file's path on the host.
//! This library reads the terminal's input, finds such pastes, and replaces each path by the one
//! under which the guest sees the file. It decides and computes; the questions that it has about
//! the host's file system are answered by its caller.

pub mod bytes;
mod clock;
pub mod host;
pub mod laws;
pub mod paste;
pub mod path;
pub mod shares;
pub mod staging;
pub mod tokenize;
pub mod translator;

pub use crate::host::Answer;
pub use crate::host::Question;
pub use crate::shares::DirectoryShare;
pub use crate::shares::ResolvedShare;
pub use crate::staging::DropsStaging;
pub use crate::translator::DragTranslator;
pub use crate::translator::Pending;
pub use crate::translator::Progress;
