//! Recognition of bracketed pastes in a stream of terminal input.
//!
//! A terminal brackets pasted text with two escape sequences. [`PasteState`] follows the stream
//! byte by byte. It forwards what lies outside a paste, and holds the body of a paste back until
//! its end marker has arrived, so that the body can be translated as a whole. A body that grows
//! past [`PASTE_BUF_LIMIT`] is forwarded as it is.

use vstd::prelude::*;

verus! {

/// The escape sequence that opens a bracketed paste: `ESC [ 200 ~`.
pub const PASTE_START: [u8; 6] = [0x1b, 0x5b, 0x32, 0x30, 0x30, 0x7e];

/// The escape sequence that closes a bracketed paste: `ESC [ 201 ~`.
pub const PASTE_END: [u8; 6] = [0x1b, 0x5b, 0x32, 0x30, 0x31, 0x7e];

/// The longest paste body that is held back for translation, in bytes.
pub const PASTE_BUF_LIMIT: usize = 65536;

/// How long a paste may stay without a byte before it is given up, in nanoseconds.
pub const UNTERMINATED_PASTE_TIMEOUT: u128 = 2_000_000_000;

/// What the stream so far amounts to.
pub enum Paste {
    /// Outside a paste. The last `matched` bytes are held back: they may begin a start marker.
    Outside { matched: nat },
    /// Inside a paste whose last byte came at time `last_byte`. The last `matched` bytes are held
    /// back: they may begin the end marker. The bytes before them are held back as `body`, unless
    /// the paste is known to be too long (`overflow`) and all of them have been forwarded.
    Inside { body: Seq<u8>, last_byte: u128, overflow: bool, matched: nat },
}

/// What one byte does.
pub enum Step {
    /// The bytes `emitted` are forwarded, and the stream goes on in `next`.
    Forward { next: Paste, emitted: Seq<u8> },
    /// The byte completes a paste, whose body is to be translated. No byte is held back any more.
    Complete { body: Seq<u8> },
}

impl Paste {
    /// No byte is held back.
    pub open spec fn idle() -> Paste {
        Paste::Outside { matched: 0 }
    }

    /// What every state that the stream can reach satisfies: a marker is never fully matched, the
    /// body held back is within the limit, and a paste that is too long has no body held back.
    pub open spec fn valid(self) -> bool {
        match self {
            Paste::Outside { matched } => matched < PASTE_START@.len(),
            Paste::Inside { body, last_byte, overflow, matched } => {
                &&& matched < PASTE_END@.len()
                &&& body.len() <= PASTE_BUF_LIMIT
                &&& overflow ==> body.len() == 0
            },
        }
    }

    /// The bytes that have been read and not forwarded.
    pub open spec fn held(self) -> Seq<u8> {
        match self {
            Paste::Outside { matched } => PASTE_START@.take(matched as int),
            Paste::Inside { body, last_byte, overflow, matched } => if overflow {
                PASTE_END@.take(matched as int)
            } else {
                PASTE_START@ + body + PASTE_END@.take(matched as int)
            },
        }
    }

    /// What the byte `b`, arriving at time `now`, does.
    pub open spec fn step(self, b: u8, now: u128) -> Step {
        match self {
            Paste::Outside { matched } => if b == PASTE_START@[matched as int] {
                if matched + 1 == PASTE_START@.len() {
                    Step::Forward {
                        next: Paste::Inside {
                            body: Seq::empty(),
                            last_byte: now,
                            overflow: false,
                            matched: 0,
                        },
                        emitted: Seq::empty(),
                    }
                } else {
                    Step::Forward {
                        next: Paste::Outside { matched: matched + 1 },
                        emitted: Seq::empty(),
                    }
                }
            } else {
                Step::Forward {
                    next: Paste::Outside { matched: rematched(b, PASTE_START@) },
                    emitted: literal(b, PASTE_START@, matched),
                }
            },
            Paste::Inside { body, last_byte, overflow, matched } => if b == PASTE_END@[matched as int] {
                if matched + 1 < PASTE_END@.len() {
                    Step::Forward {
                        next: Paste::Inside { body, last_byte: now, overflow, matched: matched + 1 },
                        emitted: Seq::empty(),
                    }
                } else if overflow {
                    Step::Forward { next: Paste::idle(), emitted: PASTE_END@ }
                } else {
                    Step::Complete { body }
                }
            } else {
                let text = literal(b, PASTE_END@, matched);
                let fits = body.len() + matched + 1 <= PASTE_BUF_LIMIT;
                Step::Forward {
                    next: Paste::Inside {
                        body: if overflow || !fits {
                            Seq::empty()
                        } else {
                            body + text
                        },
                        last_byte: now,
                        overflow: overflow || !fits,
                        matched: rematched(b, PASTE_END@),
                    },
                    emitted: if overflow {
                        text
                    } else if fits {
                        Seq::empty()
                    } else {
                        PASTE_START@ + body + text
                    },
                }
            },
        }
    }

    /// Whether a paste has been open for too long without a byte.
    pub open spec fn expired(self, now: u128) -> bool {
        match self {
            Paste::Outside { matched } => false,
            Paste::Inside { body, last_byte, overflow, matched } => now - last_byte
                >= UNTERMINATED_PASTE_TIMEOUT,
        }
    }
}

/// The bytes that are known not to belong to `marker` once `b` does not continue it after
/// `matched` bytes: the matched ones, and `b` unless it begins the marker anew.
pub open spec fn literal(b: u8, marker: Seq<u8>, matched: nat) -> Seq<u8> {
    if b == marker[0] {
        marker.take(matched as int)
    } else {
        marker.take(matched as int).push(b)
    }
}

/// How much of `marker` is matched after a byte `b` that did not continue it.
pub open spec fn rematched(b: u8, marker: Seq<u8>) -> nat {
    if b == marker[0] {
        1
    } else {
        0
    }
}

/// Where the stream stands, with the bytes that are held back.
pub enum PasteState {
    /// Outside a paste, with nothing held back.
    Pass,
    /// Outside a paste, with the first `idx` bytes of the start marker matched.
    MatchingStart { idx: usize },
    /// Inside a paste. With `overflow` the paste is too long, and its bytes are forwarded as they
    /// come.
    InPaste { buf: Vec<u8>, last_byte: u128, overflow: bool },
    /// Inside a paste, with the first `idx` bytes of the end marker matched.
    MatchingEnd { buf: Vec<u8>, last_byte: u128, overflow: bool, idx: usize },
}

impl View for PasteState {
    type V = Paste;

    open spec fn view(&self) -> Paste {
        match *self {
            PasteState::Pass => Paste::Outside { matched: 0 },
            PasteState::MatchingStart { idx } => Paste::Outside { matched: idx as nat },
            PasteState::InPaste { buf, last_byte, overflow } => Paste::Inside {
                body: buf@,
                last_byte,
                overflow,
                matched: 0,
            },
            PasteState::MatchingEnd { buf, last_byte, overflow, idx } => Paste::Inside {
                body: buf@,
                last_byte,
                overflow,
                matched: idx as nat,
            },
        }
    }
}

impl PasteState {
    /// What every state that the stream can reach satisfies: at least one byte of a marker is
    /// matched where one is being matched, but not all of them, the body held back is within the
    /// limit, and a paste that is too long has no body held back.
    pub open spec fn well_formed(self) -> bool {
        match self {
            PasteState::Pass => true,
            PasteState::MatchingStart { idx } => 0 < idx < PASTE_START@.len(),
            PasteState::InPaste { buf, last_byte, overflow } => {
                &&& buf@.len() <= PASTE_BUF_LIMIT
                &&& overflow ==> buf@.len() == 0
            },
            PasteState::MatchingEnd { buf, last_byte, overflow, idx } => {
                &&& 0 < idx < PASTE_END@.len()
                &&& buf@.len() <= PASTE_BUF_LIMIT
                &&& overflow ==> buf@.len() == 0
            },
        }
    }

    /// The stream has read `b` at time `now`. Appends what is forwarded to `out`, and returns the
    /// body of the paste that `b` completes, if it completes one that is to be translated.
    pub fn process_byte(&mut self, b: u8, now: u128, out: &mut Vec<u8>) -> (r: Option<Vec<u8>>)
        requires
            old(self).well_formed(),
        ensures
            final(self).well_formed(),
            match old(self)@.step(b, now) {
                Step::Forward { next, emitted } => {
                    &&& r is None
                    &&& final(self)@ == next
                    &&& final(out)@ == old(out)@ + emitted
                },
                Step::Complete { body } => {
                    &&& r matches Some(buf) && buf@ == body
                    &&& final(self)@ == Paste::idle()
                    &&& final(out)@ == old(out)@
                },
            },
    {
        let mut current: PasteState = PasteState::Pass;
        std::mem::swap(self, &mut current);
        let ghost sent = out@;
        let r: Option<Vec<u8>> = match current {
            PasteState::Pass => {
                if b == PASTE_START[0] {
                    *self = PasteState::MatchingStart { idx: 1 };
                } else {
                    out.push(b);
                }
                None
            },
            PasteState::MatchingStart { idx } => {
                if b == PASTE_START[idx] {
                    let next: usize = idx + 1;
                    if next == PASTE_START.len() {
                        *self = PasteState::InPaste {
                            buf: Vec::new(),
                            last_byte: now,
                            overflow: false,
                        };
                    } else {
                        *self = PasteState::MatchingStart { idx: next };
                    }
                } else {
                    out.extend_from_slice(&PASTE_START.as_slice()[0..idx]);
                    if b == PASTE_START[0] {
                        *self = PasteState::MatchingStart { idx: 1 };
                    } else {
                        out.push(b);
                    }
                }
                None
            },
            PasteState::InPaste { buf, last_byte, overflow } => {
                let mut buf: Vec<u8> = buf;
                if b == PASTE_END[0] {
                    *self = PasteState::MatchingEnd { buf, last_byte: now, overflow, idx: 1 };
                } else if overflow {
                    out.push(b);
                    *self = PasteState::InPaste { buf, last_byte: now, overflow: true };
                } else if buf.len() >= PASTE_BUF_LIMIT {
                    out.extend_from_slice(PASTE_START.as_slice());
                    out.extend_from_slice(buf.as_slice());
                    out.push(b);
                    *self = PasteState::InPaste {
                        buf: Vec::new(),
                        last_byte: now,
                        overflow: true,
                    };
                } else {
                    buf.push(b);
                    *self = PasteState::InPaste { buf, last_byte: now, overflow: false };
                }
                None
            },
            PasteState::MatchingEnd { buf, last_byte, overflow, idx } => {
                let mut buf: Vec<u8> = buf;
                if b == PASTE_END[idx] {
                    let next: usize = idx + 1;
                    if next == PASTE_END.len() {
                        if overflow {
                            out.extend_from_slice(PASTE_END.as_slice());
                            None
                        } else {
                            Some(buf)
                        }
                    } else {
                        *self = PasteState::MatchingEnd { buf, last_byte: now, overflow, idx: next };
                        None
                    }
                } else {
                    let partial: &[u8] = &PASTE_END.as_slice()[0..idx];
                    if overflow {
                        out.extend_from_slice(partial);
                        if b == PASTE_END[0] {
                            *self = PasteState::MatchingEnd {
                                buf,
                                last_byte: now,
                                overflow: true,
                                idx: 1,
                            };
                        } else {
                            out.push(b);
                            *self = PasteState::InPaste { buf, last_byte: now, overflow: true };
                        }
                    } else if buf.len() + partial.len() + 1 > PASTE_BUF_LIMIT {
                        out.extend_from_slice(PASTE_START.as_slice());
                        out.extend_from_slice(buf.as_slice());
                        out.extend_from_slice(partial);
                        if b == PASTE_END[0] {
                            *self = PasteState::MatchingEnd {
                                buf: Vec::new(),
                                last_byte: now,
                                overflow: true,
                                idx: 1,
                            };
                        } else {
                            out.push(b);
                            *self = PasteState::InPaste {
                                buf: Vec::new(),
                                last_byte: now,
                                overflow: true,
                            };
                        }
                    } else {
                        buf.extend_from_slice(partial);
                        if b == PASTE_END[0] {
                            *self = PasteState::MatchingEnd {
                                buf,
                                last_byte: now,
                                overflow: false,
                                idx: 1,
                            };
                        } else {
                            buf.push(b);
                            *self = PasteState::InPaste { buf, last_byte: now, overflow: false };
                        }
                    }
                    None
                }
            },
        };
        proof {
            if let Step::Forward { next, emitted } = old(self)@.step(b, now) {
                assert(out@ =~= sent + emitted);
                if let Paste::Inside { body, .. } = next {
                    assert(self@->body =~= body);
                }
            }
        }
        r
    }

    /// Gives up a paste that has been open for too long without a byte: everything that was held
    /// back is appended to `out`, without an end marker.
    pub fn check_paste_timeout(&mut self, now: u128, out: &mut Vec<u8>)
        requires
            old(self).well_formed(),
        ensures
            final(self).well_formed(),
            old(self)@.expired(now) ==> {
                &&& final(self)@ == Paste::idle()
                &&& final(out)@ == old(out)@ + old(self)@.held()
            },
            !old(self)@.expired(now) ==> {
                &&& final(self)@ == old(self)@
                &&& final(out)@ == old(out)@
            },
    {
        let timed_out: bool = match self {
            PasteState::InPaste { last_byte, .. } => now >= *last_byte && now - *last_byte
                >= UNTERMINATED_PASTE_TIMEOUT,
            PasteState::MatchingEnd { last_byte, .. } => now >= *last_byte && now - *last_byte
                >= UNTERMINATED_PASTE_TIMEOUT,
            _ => false,
        };
        if !timed_out {
            return;
        }
        let mut current: PasteState = PasteState::Pass;
        std::mem::swap(self, &mut current);
        match current {
            PasteState::InPaste { buf, last_byte, overflow } => {
                if !overflow {
                    out.extend_from_slice(PASTE_START.as_slice());
                    out.extend_from_slice(buf.as_slice());
                }
            },
            PasteState::MatchingEnd { buf, last_byte, overflow, idx } => {
                if !overflow {
                    out.extend_from_slice(PASTE_START.as_slice());
                    out.extend_from_slice(buf.as_slice());
                }
                out.extend_from_slice(&PASTE_END.as_slice()[0..idx]);
            },
            _ => {},
        }
    }
}

} // verus!
