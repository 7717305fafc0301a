//! Copies of dropped files for the guest.
//!
//! A file that lies in no shared directory is put into a directory of its own below
//! [`DropsStaging::host_root`], which the guest sees as [`DropsStaging::guest_root`].

use crate::bytes::decimal;
use crate::bytes::decimal_digits;
use crate::bytes::to_vec;
use crate::bytes::HYPHEN;
use crate::bytes::SLASH;
use crate::host::Asked;
use crate::host::Question;
use crate::path::file_name;
use crate::path::has_root;
use crate::path::join_path;
use crate::path::last_name;
use crate::path::path_joined;
use crate::shares::DirectoryShare;
use vstd::prelude::*;

verus! {

/// The directory for dropped files.
pub struct DropsStaging {
    /// The directory on the host.
    pub host_root: Vec<u8>,
    /// Where the guest sees it.
    pub guest_root: Vec<u8>,
    counter: u64,
}

/// A [`DropsStaging`] as a mathematical value.
pub struct Drops {
    /// The directory on the host.
    pub host_root: Seq<u8>,
    /// Where the guest sees it.
    pub guest_root: Seq<u8>,
    /// The number of the next file.
    pub next: u64,
}

impl View for DropsStaging {
    type V = Drops;

    closed spec fn view(&self) -> Drops {
        Drops { host_root: self.host_root@, guest_root: self.guest_root@, next: self.counter }
    }
}

/// What is being done for a file.
pub enum StagePhase {
    /// Its directory is being created.
    CreateDir,
    /// The name number `attempt` is being tried.
    Probe { attempt: u64 },
    /// The name number `attempt` is free, and is being made a link to the file.
    Link { attempt: u64 },
    /// No link could be made, and the file is being copied.
    Copy { attempt: u64 },
}

/// A file on its way to the guest.
pub struct Staging {
    from: Vec<u8>,
    dir: Vec<u8>,
    name: Vec<u8>,
    guest: Vec<u8>,
    phase: StagePhase,
}

/// A [`Staging`] as a mathematical value.
pub struct Staged {
    /// The file.
    pub from: Seq<u8>,
    /// The directory on the host that it is put into.
    pub dir: Seq<u8>,
    /// Its name.
    pub name: Seq<u8>,
    /// Where the guest is told to find it.
    pub guest: Seq<u8>,
    /// What is being done.
    pub phase: StagePhase,
}

impl View for Staging {
    type V = Staged;

    closed spec fn view(&self) -> Staged {
        Staged {
            from: self.from@,
            dir: self.dir@,
            name: self.name@,
            guest: self.guest@,
            phase: self.phase,
        }
    }
}

/// What follows an answer.
pub enum StageStep {
    /// There is more to do.
    Ask(Staging),
    /// The guest finds the file at this path.
    Done(Vec<u8>),
    /// The file could not be staged.
    Failed,
}

/// A [`StageStep`] as a mathematical value.
pub enum StageNext {
    Ask(Staged),
    Done(Seq<u8>),
    Failed,
}

impl View for StageStep {
    type V = StageNext;

    open spec fn view(&self) -> StageNext {
        match *self {
            StageStep::Ask(staging) => StageNext::Ask(staging@),
            StageStep::Done(guest) => StageNext::Done(guest@),
            StageStep::Failed => StageNext::Failed,
        }
    }
}

/// Why a file cannot be staged.
#[derive(Debug, Clone, Copy, PartialEq, Eq, Structural)]
pub enum StageError {
    /// The file has no base name.
    NoBasename,
}

/// What `String::from_utf8_lossy` makes of a name.
pub uninterp spec fn lossy_utf8(name: Seq<u8>) -> Seq<u8>;

/// The text of a name: the name itself, unless it is not valid UTF-8.
pub open spec fn text_of(name: Seq<u8>) -> Seq<u8> {
    if vstd::utf8::valid_utf8(name) {
        name
    } else {
        lossy_utf8(name)
    }
}

/// What the text of a name becomes as the name number `attempt`.
pub open spec fn numbered(text: Seq<u8>, attempt: u64) -> Seq<u8> {
    text.push(HYPHEN) + decimal(attempt as nat)
}

/// The path number `attempt` that is tried for a file called `name`: first the name itself, and
/// after that its text with a number.
pub open spec fn candidate(dir: Seq<u8>, name: Seq<u8>, attempt: u64) -> Seq<u8> {
    if attempt == 0 {
        path_joined(dir, name)
    } else {
        path_joined(dir, numbered(text_of(name), attempt))
    }
}

impl Drops {
    /// The number of the next file has been used. The numbers wrap around.
    pub open spec fn advanced(self) -> Drops {
        Drops {
            host_root: self.host_root,
            guest_root: self.guest_root,
            next: if self.next == u64::MAX {
                0
            } else {
                (self.next + 1) as u64
            },
        }
    }

    /// How the file `host_file`, whose base name is `name`, is to be staged.
    pub open spec fn staged(self, host_file: Seq<u8>, name: Seq<u8>) -> Staged {
        let number = decimal(self.next as nat);
        Staged {
            from: host_file,
            dir: path_joined(self.host_root, number),
            name,
            guest: path_joined(path_joined(self.guest_root, number), name),
            phase: StagePhase::CreateDir,
        }
    }
}

impl Staged {
    /// What the host has to do.
    pub open spec fn asks(self) -> Asked {
        match self.phase {
            StagePhase::CreateDir => Asked::CreateDir { path: self.dir },
            StagePhase::Probe { attempt } => Asked::Exists {
                path: candidate(self.dir, self.name, attempt),
            },
            StagePhase::Link { attempt } => Asked::HardLink {
                from: self.from,
                to: candidate(self.dir, self.name, attempt),
            },
            StagePhase::Copy { attempt } => Asked::Copy {
                from: self.from,
                to: candidate(self.dir, self.name, attempt),
            },
        }
    }

    /// Whether `yes` can be taken: there is always another number to try, as long as the numbers
    /// last.
    pub open spec fn takes(self, yes: bool) -> bool {
        self.phase matches StagePhase::Probe { attempt } ==> yes ==> attempt < u64::MAX - 1
    }

    /// The same file in another phase.
    pub open spec fn in_phase(self, phase: StagePhase) -> Staged {
        Staged { from: self.from, dir: self.dir, name: self.name, guest: self.guest, phase }
    }

    /// What follows the answer `yes`.
    pub open spec fn next(self, yes: bool) -> StageNext {
        match self.phase {
            StagePhase::CreateDir => if yes {
                StageNext::Ask(self.in_phase(StagePhase::Probe { attempt: 0 }))
            } else {
                StageNext::Failed
            },
            StagePhase::Probe { attempt } => if yes {
                StageNext::Ask(self.in_phase(StagePhase::Probe { attempt: (attempt + 1) as u64 }))
            } else {
                StageNext::Ask(self.in_phase(StagePhase::Link { attempt }))
            },
            StagePhase::Link { attempt } => if yes {
                StageNext::Done(self.guest)
            } else {
                StageNext::Ask(self.in_phase(StagePhase::Copy { attempt }))
            },
            StagePhase::Copy { attempt } => if yes {
                StageNext::Done(self.guest)
            } else {
                StageNext::Failed
            },
        }
    }
}

/// The text of a name, by `String::from_utf8_lossy`. That function returns a text that depends on
/// the bytes alone: the bytes themselves where they are valid UTF-8, and otherwise the bytes with
/// replacement characters for what is not. The text is valid UTF-8, as any text is. It begins with
/// a slash exactly if the bytes do: a slash is valid, and a replacement character holds none. Which
/// bytes are replaced is not stated.
#[verifier::external_body]
fn to_text(name: &[u8]) -> (r: Vec<u8>)
    ensures
        r@ == lossy_utf8(name@),
        vstd::utf8::valid_utf8(name@) ==> r@ == name@,
        vstd::utf8::valid_utf8(r@),
        has_root(r@) == has_root(name@),
{
    String::from_utf8_lossy(name).into_owned().into_bytes()
}

/// The path number `attempt` in `dir`, for a name whose text is `text`.
pub fn numbered_path(dir: &[u8], text: &[u8], attempt: u64) -> (r: Vec<u8>)
    ensures
        r@ == path_joined(dir@, numbered(text@, attempt)),
{
    let mut entry: Vec<u8> = to_vec(text);
    entry.push(HYPHEN);
    let digits: Vec<u8> = decimal_digits(attempt);
    entry.extend_from_slice(digits.as_slice());
    assert(entry@ =~= numbered(text@, attempt));
    join_path(dir, entry.as_slice())
}

/// The path number `attempt` that is tried for a file called `name`. It is never the first one
/// again.
pub fn candidate_path(dir: &[u8], name: &[u8], attempt: u64) -> (r: Vec<u8>)
    ensures
        r@ == candidate(dir@, name@, attempt),
        attempt > 0 ==> r@ != candidate(dir@, name@, 0),
{
    if attempt == 0 {
        join_path(dir, name)
    } else {
        let text: Vec<u8> = to_text(name);
        proof {
            lemma_numbered_anew(dir@, name@, text@, attempt);
        }
        numbered_path(dir, text.as_slice(), attempt)
    }
}

/// A number is written in ASCII.
proof fn lemma_decimal_ascii(n: nat)
    ensures
        decimal(n).len() > 0,
        vstd::utf8::valid_utf8(decimal(n)),
    decreases n,
{
    let digit: u8 = (48 + n % 10) as u8;
    lemma_ascii_byte(digit);
    if n >= 10 {
        lemma_decimal_ascii(n / 10);
        assert(decimal(n) =~= decimal(n / 10) + seq![digit]);
        vstd::utf8::valid_utf8_concat(decimal(n / 10), seq![digit]);
    } else {
        assert(decimal(n) =~= seq![digit]);
    }
}

proof fn lemma_ascii_byte(b: u8)
    requires
        b < 128,
    ensures
        vstd::utf8::valid_utf8(seq![b]),
{
    reveal_with_fuel(vstd::utf8::valid_utf8, 2);
}

/// A name with a number is not the name itself.
proof fn lemma_numbered_anew(dir: Seq<u8>, name: Seq<u8>, text: Seq<u8>, attempt: u64)
    requires
        vstd::utf8::valid_utf8(text),
        vstd::utf8::valid_utf8(name) ==> text == name,
        has_root(text) == has_root(name),
    ensures
        path_joined(dir, numbered(text, attempt)) != path_joined(dir, name),
{
    let entry = numbered(text, attempt);
    lemma_decimal_ascii(attempt as nat);
    lemma_ascii_byte(HYPHEN);
    assert(entry =~= text + seq![HYPHEN] + decimal(attempt as nat));
    vstd::utf8::valid_utf8_concat(text, seq![HYPHEN]);
    vstd::utf8::valid_utf8_concat(text + seq![HYPHEN], decimal(attempt as nat));
    assert(entry != name) by {
        if vstd::utf8::valid_utf8(name) {
            assert(entry.len() > name.len());
        }
    }
    assert(entry[0] == text.push(HYPHEN)[0]);
    let base = if has_root(name) {
        Seq::empty()
    } else if dir.len() > 0 && dir.last() != SLASH {
        dir.push(SLASH)
    } else {
        dir
    };
    assert(path_joined(dir, entry) =~= base + entry);
    assert(path_joined(dir, name) =~= base + name);
    assert(entry =~= (base + entry).skip(base.len() as int));
    assert(name =~= (base + name).skip(base.len() as int));
}

impl DropsStaging {
    /// A directory for dropped files, with none in it yet.
    pub fn new(host_root: Vec<u8>, guest_root: Vec<u8>) -> (r: DropsStaging)
        ensures
            r@ == (Drops { host_root: host_root@, guest_root: guest_root@, next: 0 }),
    {
        DropsStaging { host_root, guest_root, counter: 0 }
    }

    /// Starts to stage the file `host_file`. A number is used up whether or not the file has a
    /// base name.
    pub fn stage(&mut self, host_file: &[u8]) -> (r: Result<Staging, StageError>)
        ensures
            final(self)@ == old(self)@.advanced(),
            match last_name(host_file@) {
                Some(name) => r matches Ok(staging) && staging@ == old(self)@.staged(
                    host_file@,
                    name,
                ),
                None => r == Err::<Staging, StageError>(StageError::NoBasename),
            },
    {
        let n: u64 = self.counter;
        self.counter = n.wrapping_add(1);
        match file_name(host_file) {
            None => Err(StageError::NoBasename),
            Some(name) => {
                let number: Vec<u8> = decimal_digits(n);
                let dir: Vec<u8> = join_path(self.host_root.as_slice(), number.as_slice());
                let guest_dir: Vec<u8> = join_path(self.guest_root.as_slice(), number.as_slice());
                let guest: Vec<u8> = join_path(guest_dir.as_slice(), name.as_slice());
                Ok(
                    Staging {
                        from: to_vec(host_file),
                        dir,
                        name,
                        guest,
                        phase: StagePhase::CreateDir,
                    },
                )
            },
        }
    }

    /// The directory as a share that the guest may write to.
    pub fn as_share(&self) -> (r: DirectoryShare)
        ensures
            r.host@ == self@.host_root,
            r.guest@ == self@.guest_root,
            !r.read_only,
    {
        DirectoryShare {
            host: to_vec(self.host_root.as_slice()),
            guest: to_vec(self.guest_root.as_slice()),
            read_only: false,
        }
    }
}

impl Staging {
    /// What the host has to do.
    pub fn question(&self) -> (r: Question)
        ensures
            r@ == self@.asks(),
    {
        match self.phase {
            StagePhase::CreateDir => Question::CreateDir { path: to_vec(self.dir.as_slice()) },
            StagePhase::Probe { attempt } => Question::Exists {
                path: candidate_path(self.dir.as_slice(), self.name.as_slice(), attempt),
            },
            StagePhase::Link { attempt } => Question::HardLink {
                from: to_vec(self.from.as_slice()),
                to: candidate_path(self.dir.as_slice(), self.name.as_slice(), attempt),
            },
            StagePhase::Copy { attempt } => Question::Copy {
                from: to_vec(self.from.as_slice()),
                to: candidate_path(self.dir.as_slice(), self.name.as_slice(), attempt),
            },
        }
    }

    /// Whether the answer `yes` can be taken.
    pub fn can_take(&self, yes: bool) -> (r: bool)
        ensures
            r == self@.takes(yes),
    {
        match self.phase {
            StagePhase::Probe { attempt } => !yes || attempt < u64::MAX - 1,
            _ => true,
        }
    }

    /// Goes on with the answer to [`Staging::question`].
    pub fn answer(self, yes: bool) -> (r: StageStep)
        requires
            self@.takes(yes),
        ensures
            r@ == self@.next(yes),
    {
        let mut s: Staging = self;
        match s.phase {
            StagePhase::CreateDir => {
                if !yes {
                    return StageStep::Failed;
                }
                s.phase = StagePhase::Probe { attempt: 0 };
            },
            StagePhase::Probe { attempt } => {
                if yes {
                    s.phase = StagePhase::Probe { attempt: attempt + 1 };
                } else {
                    s.phase = StagePhase::Link { attempt };
                }
            },
            StagePhase::Link { attempt } => {
                if yes {
                    return StageStep::Done(s.guest);
                }
                s.phase = StagePhase::Copy { attempt };
            },
            StagePhase::Copy { attempt } => {
                if yes {
                    return StageStep::Done(s.guest);
                }
                return StageStep::Failed;
            },
        }
        StageStep::Ask(s)
    }
}

} // verus!
