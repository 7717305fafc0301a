//! What the library asks of the host's file system, and what the host answers.
//!
//! The library itself never touches a file. Where it needs one to be looked at or made, it hands
//! out a [`Question`], and goes on with the [`Answer`].

use vstd::prelude::*;

verus! {

/// One operation on the host's file system.
pub enum Question {
    /// Is there an entry at `path` (a symbolic link is not followed), and if so, what is its
    /// canonical path? Answered by [`Answer::No`] if there is none, by [`Answer::Canonical`] with
    /// the canonical path, or by [`Answer::Yes`] if that cannot be found.
    Resolve { path: Vec<u8> },
    /// Is `path`, with symbolic links followed, a regular file?
    IsFile { path: Vec<u8> },
    /// Create the directory `path` and those above it; did that succeed?
    CreateDir { path: Vec<u8> },
    /// Does `path`, with symbolic links followed, exist?
    Exists { path: Vec<u8> },
    /// Make `to` a hard link to `from`; did that succeed?
    HardLink { from: Vec<u8>, to: Vec<u8> },
    /// Copy the file `from` to `to`; did that succeed?
    Copy { from: Vec<u8>, to: Vec<u8> },
}

/// A [`Question`] as a mathematical value.
pub enum Asked {
    Resolve { path: Seq<u8> },
    IsFile { path: Seq<u8> },
    CreateDir { path: Seq<u8> },
    Exists { path: Seq<u8> },
    HardLink { from: Seq<u8>, to: Seq<u8> },
    Copy { from: Seq<u8>, to: Seq<u8> },
}

impl View for Question {
    type V = Asked;

    open spec fn view(&self) -> Asked {
        match *self {
            Question::Resolve { path } => Asked::Resolve { path: path@ },
            Question::IsFile { path } => Asked::IsFile { path: path@ },
            Question::CreateDir { path } => Asked::CreateDir { path: path@ },
            Question::Exists { path } => Asked::Exists { path: path@ },
            Question::HardLink { from, to } => Asked::HardLink { from: from@, to: to@ },
            Question::Copy { from, to } => Asked::Copy { from: from@, to: to@ },
        }
    }
}

/// What the host answers.
pub enum Answer {
    /// It is not so, or it failed.
    No,
    /// It is so, or it succeeded.
    Yes,
    /// The entry exists, and this is its canonical path.
    Canonical(Vec<u8>),
}

/// An [`Answer`] as a mathematical value.
pub enum Answered {
    No,
    Yes,
    Canonical(Seq<u8>),
}

impl View for Answer {
    type V = Answered;

    open spec fn view(&self) -> Answered {
        match *self {
            Answer::No => Answered::No,
            Answer::Yes => Answered::Yes,
            Answer::Canonical(path) => Answered::Canonical(path@),
        }
    }
}

impl Answer {
    /// Whether the answer is anything but [`Answer::No`].
    pub fn is_yes(&self) -> (r: bool)
        ensures
            r == !(self@ is No),
    {
        match self {
            Answer::No => false,
            _ => true,
        }
    }
}

} // verus!
