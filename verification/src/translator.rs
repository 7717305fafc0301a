//! Translation of the file names that are dragged into a terminal.
//!
//! [`DragTranslator`] reads what the terminal sends and returns what is to be forwarded to the
//! guest. In a bracketed paste, each file name of the host is replaced by the path under which
//! the guest sees the file. What has to be found out about a file, or done with it, is asked of
//! the host: [`DragTranslator::process`] then returns [`Progress::Ask`], and
//! [`DragTranslator::resume`] goes on with the answer.

use crate::bytes::join;
use crate::bytes::joined;
use crate::bytes::memchr;
use crate::bytes::texts;
use crate::bytes::to_vec;
use crate::bytes::LINE_FEED;
use crate::bytes::SLASH;
use crate::clock::present;
use crate::clock::Readings;
use crate::host::Answer;
use crate::host::Answered;
use crate::host::Asked;
use crate::host::Question;
use crate::paste::Paste;
use crate::paste::PasteState;
use crate::paste::Step;
use crate::paste::PASTE_END;
use crate::paste::PASTE_START;
use crate::path::last_name;
use crate::shares::longest_first;
use crate::shares::mappings;
use crate::shares::rewrite;
use crate::shares::rewritten;
use crate::shares::sort_shares;
use crate::shares::usable;
use crate::shares::Mapping;
use crate::shares::ResolvedShare;
use crate::shares::ShareMapping;
use crate::staging::Drops;
use crate::staging::DropsStaging;
use crate::staging::StageNext;
use crate::staging::StageStep;
use crate::staging::Staged;
use crate::staging::Staging;
use crate::tokenize::tokenize;
use crate::tokenize::tokens;
use std::time::Instant;
use vstd::prelude::*;

verus! {

/// What is being found out about a token.
pub enum Inquiry {
    /// Whether it is the path of an entry, and which.
    Resolve,
    /// Whether it is a regular file. It lies in no shared directory.
    Inspect,
    /// It is a regular file, which is being staged.
    Stage(Staged),
}

/// A paste whose translation waits for the host, with the input behind it.
pub struct Waiting {
    /// What is to be forwarded before the paste.
    pub out: Seq<u8>,
    /// The input behind the paste, which has not been read yet.
    pub rest: Seq<u8>,
    /// The tokens of the paste. Those before `at` have been translated.
    pub tokens: Seq<Seq<u8>>,
    /// The token that the host is asked about.
    pub at: int,
    /// What stands between two tokens.
    pub sep: Seq<u8>,
    /// What the host is asked.
    pub inquiry: Inquiry,
}

/// A [`Progress`] as a mathematical value.
pub enum Outcome {
    Done(Seq<u8>),
    Ask(Waiting),
}

/// A [`DragTranslator`] as a mathematical value.
pub struct Translator {
    /// The shared directories, in the order in which they are tried.
    pub shares: Seq<Mapping>,
    /// The directory for dropped files.
    pub drops: Option<Drops>,
    /// Where the input stands.
    pub paste: Paste,
    /// Whether anything is translated at all.
    pub enabled: bool,
}

/// What an answer means for a token.
pub enum TokenNext {
    /// The token is replaced by these bytes.
    Becomes(Seq<u8>),
    /// There is more to ask.
    Ask(Inquiry),
}

/// Whether a token may name a file of the host: an absolute path on one line.
pub open spec fn is_path(token: Seq<u8>) -> bool {
    token.len() > 0 && token[0] == SLASH && !token.contains(LINE_FEED)
}

/// The index of the first token at or after `at` that may name a file, or the number of tokens.
pub open spec fn next_path(tokens: Seq<Seq<u8>>, at: int) -> int
    decreases tokens.len() - at,
{
    if at >= tokens.len() || is_path(tokens[at]) {
        at
    } else {
        next_path(tokens, at + 1)
    }
}

/// The path by which the shares are searched for `token`: its canonical path, or the token itself
/// if it exists without one.
pub open spec fn located(token: Seq<u8>, answer: Answered) -> Option<Seq<u8>> {
    match answer {
        Answered::No => None,
        Answered::Yes => Some(token),
        Answered::Canonical(path) => Some(path),
    }
}

/// A paste that holds `tokens`.
pub open spec fn bracketed(tokens: Seq<Seq<u8>>, sep: Seq<u8>) -> Seq<u8> {
    PASTE_START@ + joined(tokens, sep) + PASTE_END@
}

/// What becomes of the input `rest` after `out` has been forwarded. The byte number `i` is read at
/// time `times[i]`.
pub open spec fn read_on(paste: Paste, out: Seq<u8>, rest: Seq<u8>, times: Seq<u128>) -> (
    Paste,
    Outcome,
)
    decreases rest.len(), 0int,
{
    if rest.len() == 0 {
        (paste, Outcome::Done(out))
    } else {
        match paste.step(rest[0], times[0]) {
            Step::Forward { next, emitted } => read_on(
                next,
                out + emitted,
                rest.skip(1),
                times.skip(1),
            ),
            Step::Complete { body } => translate_on(
                Paste::idle(),
                out,
                rest.skip(1),
                tokens(body).0,
                0,
                tokens(body).1,
                times.skip(1),
            ),
        }
    }
}

/// How far a paste gets whose tokens before `at` have been translated: to the next token that may
/// name a file, or to its end.
pub open spec fn translating(
    out: Seq<u8>,
    rest: Seq<u8>,
    tokens: Seq<Seq<u8>>,
    at: int,
    sep: Seq<u8>,
) -> Outcome {
    let next = next_path(tokens, at);
    if next < tokens.len() {
        Outcome::Ask(Waiting { out, rest, tokens, at: next, sep, inquiry: Inquiry::Resolve })
    } else {
        Outcome::Done(out + bracketed(tokens, sep))
    }
}

/// What becomes of a paste whose tokens before `at` have been translated, and of the input `rest`
/// behind it. The byte number `i` of that is read at time `times[i]`.
pub open spec fn translate_on(
    paste: Paste,
    out: Seq<u8>,
    rest: Seq<u8>,
    tokens: Seq<Seq<u8>>,
    at: int,
    sep: Seq<u8>,
    times: Seq<u128>,
) -> (Paste, Outcome)
    decreases rest.len(), 1int,
{
    match translating(out, rest, tokens, at, sep) {
        Outcome::Ask(waiting) => (paste, Outcome::Ask(waiting)),
        Outcome::Done(sent) => read_on(paste, sent, rest, times),
    }
}

/// What becomes of `input`, or of a paste that has been without a byte for too long if there is
/// none.
pub open spec fn streamed(paste: Paste, input: Seq<u8>, times: Seq<u128>) -> (Paste, Outcome) {
    if input.len() > 0 {
        read_on(paste, Seq::empty(), input, times)
    } else if paste.expired(times[0]) {
        (Paste::idle(), Outcome::Done(paste.held()))
    } else {
        (paste, Outcome::Done(Seq::empty()))
    }
}

/// Whether there is a time for each byte of `input`, and one at least: with no input, it is the
/// time at which there is none.
pub open spec fn timed(input: Seq<u8>, times: Seq<u128>) -> bool {
    times.len() > 0 && times.len() >= input.len()
}

impl Waiting {
    /// The token that the host is asked about.
    pub open spec fn token(self) -> Seq<u8> {
        self.tokens[self.at]
    }

    /// What the host is asked.
    pub open spec fn asks(self) -> Asked {
        match self.inquiry {
            Inquiry::Resolve => Asked::Resolve { path: self.token() },
            Inquiry::Inspect => Asked::IsFile { path: self.token() },
            Inquiry::Stage(staged) => staged.asks(),
        }
    }

    /// Whether the answer can be taken: all are, as long as there are numbers left to make a name
    /// with.
    pub open spec fn takes(self, answer: Answered) -> bool {
        self.inquiry matches Inquiry::Stage(staged) ==> staged.takes(!(answer is No))
    }

    /// The same paste, with another question.
    pub open spec fn with_inquiry(self, inquiry: Inquiry) -> Waiting {
        Waiting {
            out: self.out,
            rest: self.rest,
            tokens: self.tokens,
            at: self.at,
            sep: self.sep,
            inquiry,
        }
    }
}

impl Translator {
    /// The same translator, with its input elsewhere.
    pub open spec fn with_paste(self, paste: Paste) -> Translator {
        Translator { shares: self.shares, drops: self.drops, paste, enabled: self.enabled }
    }

    /// The same translator, with another number for the next dropped file.
    pub open spec fn with_drops(self, drops: Option<Drops>) -> Translator {
        Translator { shares: self.shares, drops, paste: self.paste, enabled: self.enabled }
    }

    /// What becomes of the translator and of `input`. The byte number `i` is read at time
    /// `times[i]`. With no input, `times[0]` is the time at which there is none.
    pub open spec fn processed(self, input: Seq<u8>, times: Seq<u128>) -> (Translator, Outcome) {
        if self.enabled {
            let (paste, outcome) = streamed(self.paste, input, times);
            (self.with_paste(paste), outcome)
        } else {
            (self, Outcome::Done(input))
        }
    }

    /// What the answer to `inquiry` means for `token`, and for the dropped files. A path that does
    /// not exist stays as it is. A path in a shared directory becomes the guest's. A regular file
    /// elsewhere is staged, if there is a directory for that. Everything else stays as it is.
    pub open spec fn token_next(
        self,
        token: Seq<u8>,
        inquiry: Inquiry,
        answer: Answered,
    ) -> (Option<Drops>, TokenNext) {
        match inquiry {
            Inquiry::Resolve => match located(token, answer) {
                Some(canon) => match rewritten(self.shares, canon) {
                    Some(guest) => (self.drops, TokenNext::Becomes(guest)),
                    None => (self.drops, TokenNext::Ask(Inquiry::Inspect)),
                },
                None => (self.drops, TokenNext::Becomes(token)),
            },
            Inquiry::Inspect => match self.drops {
                Some(drops) => if answer is No {
                    (self.drops, TokenNext::Becomes(token))
                } else {
                    match last_name(token) {
                        Some(name) => (
                            Some(drops.advanced()),
                            TokenNext::Ask(Inquiry::Stage(drops.staged(token, name))),
                        ),
                        None => (Some(drops.advanced()), TokenNext::Becomes(token)),
                    }
                },
                None => (self.drops, TokenNext::Becomes(token)),
            },
            Inquiry::Stage(staged) => match staged.next(!(answer is No)) {
                StageNext::Ask(next) => (self.drops, TokenNext::Ask(Inquiry::Stage(next))),
                StageNext::Done(guest) => (self.drops, TokenNext::Becomes(guest)),
                StageNext::Failed => (self.drops, TokenNext::Becomes(token)),
            },
        }
    }

    /// How far the answer brings the paste `waiting`, and what it means for the dropped files.
    pub open spec fn answered(self, waiting: Waiting, answer: Answered) -> (
        Option<Drops>,
        Outcome,
    ) {
        let (drops, next) = self.token_next(waiting.token(), waiting.inquiry, answer);
        match next {
            TokenNext::Ask(inquiry) => (drops, Outcome::Ask(waiting.with_inquiry(inquiry))),
            TokenNext::Becomes(token) => (
                drops,
                translating(
                    waiting.out,
                    waiting.rest,
                    waiting.tokens.update(waiting.at, token),
                    waiting.at + 1,
                    waiting.sep,
                ),
            ),
        }
    }

    /// What becomes of the translator and of the paste `waiting` with `answer`, and of the input
    /// behind it once the paste is done. The byte number `i` of that is read at time `times[i]`.
    pub open spec fn resumed(self, waiting: Waiting, answer: Answered, times: Seq<u128>) -> (
        Translator,
        Outcome,
    ) {
        let (drops, outcome) = self.answered(waiting, answer);
        match outcome {
            Outcome::Ask(next) => (self.with_drops(drops), Outcome::Ask(next)),
            Outcome::Done(sent) => {
                let (paste, more) = read_on(self.paste, sent, waiting.rest, times);
                (self.with_drops(drops).with_paste(paste), more)
            },
        }
    }
}

/// What is being found out about a token.
enum PendingInquiry {
    Resolve,
    Inspect,
    Stage(Staging),
}

impl View for PendingInquiry {
    type V = Inquiry;

    closed spec fn view(&self) -> Inquiry {
        match *self {
            PendingInquiry::Resolve => Inquiry::Resolve,
            PendingInquiry::Inspect => Inquiry::Inspect,
            PendingInquiry::Stage(staging) => Inquiry::Stage(staging@),
        }
    }
}

/// A paste whose translation waits for the host.
pub struct Pending {
    out: Vec<u8>,
    rest: Vec<u8>,
    tokens: Vec<Vec<u8>>,
    at: usize,
    sep: Vec<u8>,
    inquiry: PendingInquiry,
}

impl View for Pending {
    type V = Waiting;

    closed spec fn view(&self) -> Waiting {
        Waiting {
            out: self.out@,
            rest: self.rest@,
            tokens: texts(self.tokens@),
            at: self.at as int,
            sep: self.sep@,
            inquiry: self.inquiry@,
        }
    }
}

/// How far the input has been read.
pub enum Progress {
    /// All of it has been read; these bytes are to be forwarded.
    Done(Vec<u8>),
    /// The host has to answer a question first.
    Ask(Pending),
}

impl View for Progress {
    type V = Outcome;

    open spec fn view(&self) -> Outcome {
        match *self {
            Progress::Done(out) => Outcome::Done(out@),
            Progress::Ask(pending) => Outcome::Ask(pending@),
        }
    }
}

impl Pending {
    #[verifier::type_invariant]
    spec fn in_range(self) -> bool {
        self.at < self.tokens@.len()
    }

    /// What the host is asked.
    pub fn question(&self) -> (r: Question)
        ensures
            r@ == self@.asks(),
    {
        proof {
            use_type_invariant(self);
        }
        match &self.inquiry {
            PendingInquiry::Resolve => Question::Resolve {
                path: to_vec(self.tokens[self.at].as_slice()),
            },
            PendingInquiry::Inspect => Question::IsFile {
                path: to_vec(self.tokens[self.at].as_slice()),
            },
            PendingInquiry::Stage(staging) => staging.question(),
        }
    }

    /// Whether `answer` can be taken.
    pub fn can_take(&self, answer: &Answer) -> (r: bool)
        ensures
            r == self@.takes(answer@),
    {
        match &self.inquiry {
            PendingInquiry::Stage(staging) => staging.can_take(answer.is_yes()),
            _ => true,
        }
    }

    /// How many bytes of input stand behind the paste.
    pub fn unread(&self) -> (r: usize)
        ensures
            r == self@.rest.len(),
    {
        self.rest.len()
    }
}

/// The index of the first token at or after `at` that may name a file, or the number of tokens.
fn find_path(tokens: &Vec<Vec<u8>>, at: usize) -> (r: usize)
    requires
        at <= tokens@.len(),
    ensures
        r == next_path(texts(tokens@), at as int),
        at <= r <= tokens@.len(),
{
    let mut i: usize = at;
    while i < tokens.len()
        invariant
            at <= i <= tokens@.len(),
            next_path(texts(tokens@), at as int) == next_path(texts(tokens@), i as int),
        decreases tokens@.len() - i,
    {
        let token: &[u8] = tokens[i].as_slice();
        assert(texts(tokens@)[i as int] == token@);
        if token.len() > 0 && token[0] == SLASH && memchr(LINE_FEED, token).is_none() {
            return i;
        }
        i = i + 1;
    }
    i
}

/// Reads `input`, after `out`.
fn read_input(state: &mut PasteState, input: &[u8], out: Vec<u8>, readings: &Readings) -> (r:
    Progress)
    requires
        old(state).well_formed(),
        readings.cover(input@.len()),
    ensures
        final(state).well_formed(),
        exists|times: Seq<u128>|
            {
                &&& times.len() >= input@.len()
                &&& readings.may_give(times)
                &&& (final(state)@, r@) == #[trigger] read_on(old(state)@, out@, input@, times)
            },
{
    let ghost start = state@;
    let ghost sent_before = out@;
    let ghost mut times: Seq<u128> = Seq::empty();
    let mut sent: Vec<u8> = out;
    let mut i: usize = 0;
    proof {
        assert forall|more: Seq<u128>| #[trigger]
            read_on(start, sent_before, input@, times + more) == read_on(
                state@,
                sent@,
                input@.skip(0),
                more,
            ) by {
            assert(times + more =~= more);
            assert(input@.skip(0) =~= input@);
        }
    }
    while i < input.len()
        invariant
            i <= input@.len(),
            state.well_formed(),
            readings.cover(input@.len()),
            start == old(state)@,
            sent_before == out@,
            times.len() == i,
            readings matches Readings::Given(list) ==> times == list@.take(i as int),
            forall|more: Seq<u128>| #[trigger]
                read_on(start, sent_before, input@, times + more) == read_on(
                    state@,
                    sent@,
                    input@.skip(i as int),
                    more,
                ),
        decreases input@.len() - i,
    {
        let ghost rest = input@.skip(i as int);
        assert(rest.skip(1) =~= input@.skip(i + 1));
        let ghost before = sent@;
        let ghost stood = state@;
        let ghost earlier = times;
        let now: u128 = readings.reading(i);
        proof {
            times = times.push(now);
            assert(readings matches Readings::Given(list) ==> times =~= list@.take(i + 1));
            assert forall|more: Seq<u128>| #[trigger]
                read_on(start, sent_before, input@, times + more) == read_on(
                    stood,
                    before,
                    rest,
                    seq![now] + more,
                ) by {
                assert(times + more =~= earlier + (seq![now] + more));
            }
            assert forall|more: Seq<u128>| #[trigger] (seq![now] + more).skip(1) == more by {
                assert((seq![now] + more).skip(1) =~= more);
            }
        }
        let completed: Option<Vec<u8>> = state.process_byte(input[i], now, &mut sent);
        i = i + 1;
        if let Some(body) = completed {
            assert forall|more: Seq<u128>| #[trigger]
                read_on(start, sent_before, input@, times + more) == translate_on(
                    Paste::idle(),
                    before,
                    rest.skip(1),
                    tokens(body@).0,
                    0,
                    tokens(body@).1,
                    more,
                ) by {
                assert((seq![now] + more).skip(1) == more);
            }
            let (found, sep): (Vec<Vec<u8>>, Vec<u8>) = tokenize(body.as_slice());
            let at: usize = find_path(&found, 0);
            if at < found.len() {
                let left: Vec<u8> = to_vec(&input[i..input.len()]);
                assert(left@ =~= input@.skip(i as int));
                proof {
                    let more = remaining(*readings, i as int, input@.len());
                    assert(readings.may_give(times + more)) by {
                        assert(readings matches Readings::Given(list) ==> times + more =~= list@);
                    }
                    assert((state@, Outcome::Ask(
                        Waiting {
                            out: sent@,
                            rest: left@,
                            tokens: texts(found@),
                            at: at as int,
                            sep: sep@,
                            inquiry: Inquiry::Resolve,
                        },
                    )) == read_on(start, sent_before, input@, times + more));
                }
                return Progress::Ask(
                    Pending {
                        out: sent,
                        rest: left,
                        tokens: found,
                        at,
                        sep,
                        inquiry: PendingInquiry::Resolve,
                    },
                );
            }
            append_paste(&mut sent, &found, sep.as_slice());
        } else {
            assert forall|more: Seq<u128>| #[trigger]
                read_on(start, sent_before, input@, times + more) == read_on(
                    state@,
                    sent@,
                    input@.skip(i as int),
                    more,
                ) by {
                assert((seq![now] + more).skip(1) == more);
            }
        }
    }
    proof {
        let more = remaining(*readings, i as int, input@.len());
        assert(input@.skip(i as int).len() == 0);
        assert(readings.may_give(times + more)) by {
            assert(readings matches Readings::Given(list) ==> times + more =~= list@);
        }
        assert((state@, Outcome::Done(sent@)) == read_on(start, sent_before, input@, times + more));
    }
    Progress::Done(sent)
}

/// Times for the bytes from the number `i` to before the number `n`: those that are given, or any.
spec fn remaining(readings: Readings, i: int, n: nat) -> Seq<u128> {
    match readings {
        Readings::Clock(_) => Seq::new((n - i) as nat, |k: int| 0u128),
        Readings::Given(list) => list@.skip(i),
    }
}

/// Reads `input`, or finds that there is none.
fn read_stream(state: &mut PasteState, input: &[u8], readings: &Readings) -> (r: Progress)
    requires
        old(state).well_formed(),
        readings.cover(input@.len()),
        readings.cover(1),
    ensures
        final(state).well_formed(),
        exists|times: Seq<u128>|
            {
                &&& #[trigger] timed(input@, times)
                &&& readings.may_give(times)
                &&& (final(state)@, r@) == streamed(old(state)@, input@, times)
            },
{
    let mut out: Vec<u8> = Vec::new();
    if input.len() == 0 {
        let now: u128 = readings.reading(0);
        state.check_paste_timeout(now, &mut out);
        proof {
            let times = match *readings {
                Readings::Clock(_) => seq![now],
                Readings::Given(list) => list@,
            };
            assert(times[0] == now);
            assert(timed(input@, times));
            assert(Seq::<u8>::empty() + old(state)@.held() =~= old(state)@.held());
        }
        return Progress::Done(out);
    }
    let r: Progress = read_input(state, input, out, readings);
    proof {
        let times = choose|times: Seq<u128>|
            {
                &&& times.len() >= input@.len()
                &&& readings.may_give(times)
                &&& (state@, r@) == #[trigger] read_on(
                    old(state)@,
                    Seq::empty(),
                    input@,
                    times,
                )
            };
        assert(timed(input@, times));
    }
    r
}

/// Appends a paste that holds `tokens`.
fn append_paste(out: &mut Vec<u8>, tokens: &Vec<Vec<u8>>, sep: &[u8])
    ensures
        final(out)@ == old(out)@ + bracketed(texts(tokens@), sep@),
{
    let ghost before = out@;
    let text: Vec<u8> = join(tokens, sep);
    out.extend_from_slice(PASTE_START.as_slice());
    out.extend_from_slice(text.as_slice());
    out.extend_from_slice(PASTE_END.as_slice());
    assert(out@ =~= before + bracketed(texts(tokens@), sep@));
}

/// What an answer means for a token.
enum TokenStep {
    Becomes(Vec<u8>),
    Ask(PendingInquiry),
}

impl View for TokenStep {
    type V = TokenNext;

    closed spec fn view(&self) -> TokenNext {
        match *self {
            TokenStep::Becomes(token) => TokenNext::Becomes(token@),
            TokenStep::Ask(inquiry) => TokenNext::Ask(inquiry@),
        }
    }
}

/// The dropped files, if there is a directory for them.
pub open spec fn drops_view(drops: Option<DropsStaging>) -> Option<Drops> {
    match drops {
        Some(d) => Some(d@),
        None => None,
    }
}

/// Translates the file names that are dragged into a terminal.
pub struct DragTranslator {
    shares: Vec<ShareMapping>,
    drops: Option<DropsStaging>,
    state: PasteState,
    enabled: bool,
    clock: Instant,
}

impl View for DragTranslator {
    type V = Translator;

    closed spec fn view(&self) -> Translator {
        Translator {
            shares: mappings(self.shares@),
            drops: drops_view(self.drops),
            paste: self.state@,
            enabled: self.enabled,
        }
    }
}

/// How far an answer brings a paste.
enum AnswerStep {
    /// The host has to answer a question more.
    Ask(Pending),
    /// The paste is done. `out` is to be forwarded, and `rest` to be read.
    Done { out: Vec<u8>, rest: Vec<u8> },
}

impl DragTranslator {
    #[verifier::type_invariant]
    spec fn consistent(self) -> bool {
        self.state.well_formed()
    }

    /// The moment from which the translator counts the time.
    pub closed spec fn started(self) -> Instant {
        self.clock
    }

    /// A translator for the given shares. A share whose directory has no canonical path is left
    /// out. Of the others, that with the longest host path is tried first.
    pub fn new(shares: &[ResolvedShare], drops: Option<DropsStaging>, enabled: bool) -> (r:
        DragTranslator)
        ensures
            longest_first(usable(shares@), r@.shares),
            r@.drops == drops_view(drops),
            r@.paste == Paste::idle(),
            r@.enabled == enabled,
    {
        DragTranslator {
            shares: sort_shares(shares),
            drops,
            state: PasteState::Pass,
            enabled,
            clock: present(),
        }
    }

    /// Reads what the terminal has sent. Call it with no input from time to time, so that a paste
    /// that is never closed gets forwarded.
    pub fn process(&mut self, input: &[u8]) -> (r: Progress)
        ensures
            final(self)@.paste.valid(),
            final(self).started() == old(self).started(),
            exists|times: Seq<u128>|
                timed(input@, times) && (final(self)@, r@) == #[trigger] old(self)@.processed(
                    input@,
                    times,
                ),
    {
        proof {
            use_type_invariant(&*self);
        }
        if !self.enabled {
            proof {
                let times = Seq::new(input@.len() + 1, |k: int| 0u128);
                assert((self@, Outcome::Done(input@)) == old(self)@.processed(input@, times));
            }
            return Progress::Done(to_vec(input));
        }
        let mut state: PasteState = PasteState::Pass;
        std::mem::swap(&mut state, &mut self.state);
        let r: Progress = read_stream(&mut state, input, &Readings::Clock(&self.clock));
        self.state = state;
        proof {
            let times = choose|times: Seq<u128>|
                {
                    &&& #[trigger] timed(input@, times)
                    &&& (self@.paste, r@) == streamed(old(self)@.paste, input@, times)
                };
            assert((self@, r@) == old(self)@.processed(input@, times));
        }
        r
    }

    /// Reads what the terminal has sent, the byte number `i` at time `times[i]`. With no input,
    /// `times[0]` is the time at which there is none. Times are in nanoseconds since the translator
    /// was made.
    pub fn process_at(&mut self, input: &[u8], times: &[u128]) -> (r: Progress)
        requires
            timed(input@, times@),
        ensures
            final(self)@.paste.valid(),
            final(self).started() == old(self).started(),
            (final(self)@, r@) == old(self)@.processed(input@, times@),
    {
        proof {
            use_type_invariant(&*self);
        }
        if !self.enabled {
            return Progress::Done(to_vec(input));
        }
        let mut state: PasteState = PasteState::Pass;
        std::mem::swap(&mut state, &mut self.state);
        let r: Progress = read_stream(&mut state, input, &Readings::Given(times));
        self.state = state;
        r
    }

    /// Goes on with the answer to [`Pending::question`].
    pub fn resume(&mut self, pending: Pending, answer: Answer) -> (r: Progress)
        requires
            pending@.takes(answer@),
        ensures
            final(self)@.paste.valid(),
            final(self).started() == old(self).started(),
            exists|times: Seq<u128>|
                times.len() >= pending@.rest.len() && (final(self)@, r@)
                    == #[trigger] old(self)@.resumed(pending@, answer@, times),
    {
        proof {
            use_type_invariant(&*self);
        }
        let ghost asked = pending@;
        let ghost told = answer@;
        match self.take_answer(pending, answer) {
            AnswerStep::Ask(next) => {
                proof {
                    let times = Seq::new(asked.rest.len(), |k: int| 0u128);
                    assert((self@, Outcome::Ask(next@)) == old(self)@.resumed(asked, told, times));
                }
                Progress::Ask(next)
            },
            AnswerStep::Done { out, rest } => {
                proof {
                    use_type_invariant(&*self);
                }
                let mut state: PasteState = PasteState::Pass;
                std::mem::swap(&mut state, &mut self.state);
                let ghost sent = out@;
                let r: Progress = read_input(
                    &mut state,
                    rest.as_slice(),
                    out,
                    &Readings::Clock(&self.clock),
                );
                self.state = state;
                proof {
                    let times = choose|times: Seq<u128>|
                        {
                            &&& times.len() >= asked.rest.len()
                            &&& (self@.paste, r@) == #[trigger] read_on(
                                old(self)@.paste,
                                sent,
                                asked.rest,
                                times,
                            )
                        };
                    assert((self@, r@) == old(self)@.resumed(asked, told, times));
                }
                r
            },
        }
    }

    /// Goes on with the answer to [`Pending::question`]. Once the paste is done, the input behind
    /// it is read, the byte number `i` of it at time `times[i]`.
    pub fn resume_at(&mut self, pending: Pending, answer: Answer, times: &[u128]) -> (r: Progress)
        requires
            pending@.takes(answer@),
            times@.len() >= pending@.rest.len(),
        ensures
            final(self)@.paste.valid(),
            final(self).started() == old(self).started(),
            (final(self)@, r@) == old(self)@.resumed(pending@, answer@, times@),
    {
        proof {
            use_type_invariant(&*self);
        }
        match self.take_answer(pending, answer) {
            AnswerStep::Ask(next) => Progress::Ask(next),
            AnswerStep::Done { out, rest } => {
                proof {
                    use_type_invariant(&*self);
                }
                let mut state: PasteState = PasteState::Pass;
                std::mem::swap(&mut state, &mut self.state);
                let r: Progress = read_input(
                    &mut state,
                    rest.as_slice(),
                    out,
                    &Readings::Given(times),
                );
                self.state = state;
                r
            },
        }
    }

    /// Takes the answer to [`Pending::question`], as far as the paste goes.
    fn take_answer(&mut self, pending: Pending, answer: Answer) -> (r: AnswerStep)
        requires
            pending@.takes(answer@),
        ensures
            final(self)@ == old(self)@.with_drops(old(self)@.answered(pending@, answer@).0),
            final(self).started() == old(self).started(),
            match old(self)@.answered(pending@, answer@).1 {
                Outcome::Ask(waiting) => r matches AnswerStep::Ask(next) && next@ == waiting,
                Outcome::Done(sent) => r matches AnswerStep::Done { out, rest } && out@ == sent
                    && rest@ == pending@.rest,
            },
    {
        proof {
            use_type_invariant(&*self);
            use_type_invariant(&pending);
        }
        let Pending { out, rest, tokens, at, sep, inquiry } = pending;
        let mut tokens: Vec<Vec<u8>> = tokens;
        let step: TokenStep = self.translate_token(tokens[at].as_slice(), inquiry, answer);
        match step {
            TokenStep::Ask(inquiry) => AnswerStep::Ask(
                Pending { out, rest, tokens, at, sep, inquiry },
            ),
            TokenStep::Becomes(token) => {
                let ghost text = token@;
                let ghost before = texts(tokens@);
                tokens[at] = token;
                assert(texts(tokens@) =~= before.update(at as int, text));
                let count: usize = tokens.len();
                assert(at < count);
                let next: usize = find_path(&tokens, at + 1);
                if next < tokens.len() {
                    return AnswerStep::Ask(
                        Pending {
                            out,
                            rest,
                            tokens,
                            at: next,
                            sep,
                            inquiry: PendingInquiry::Resolve,
                        },
                    );
                }
                let mut out: Vec<u8> = out;
                append_paste(&mut out, &tokens, sep.as_slice());
                AnswerStep::Done { out, rest }
            },
        }
    }

    /// Forgets whatever is held back.
    pub fn reset(&mut self)
        ensures
            final(self)@ == old(self)@.with_paste(Paste::idle()),
            final(self).started() == old(self).started(),
    {
        self.state = PasteState::Pass;
    }

    /// What the answer to `inquiry` means for `token`.
    fn translate_token(&mut self, token: &[u8], inquiry: PendingInquiry, answer: Answer) -> (r:
        TokenStep)
        requires
            inquiry@ matches Inquiry::Stage(staged) ==> staged.takes(!(answer@ is No)),
        ensures
            (final(self)@.drops, r@) == old(self)@.token_next(token@, inquiry@, answer@),
            final(self)@ == old(self)@.with_drops(final(self)@.drops),
            final(self).started() == old(self).started(),
    {
        proof {
            use_type_invariant(&*self);
        }
        match inquiry {
            PendingInquiry::Resolve => {
                let canon: Vec<u8> = match answer {
                    Answer::No => {
                        return TokenStep::Becomes(to_vec(token));
                    },
                    Answer::Yes => to_vec(token),
                    Answer::Canonical(path) => path,
                };
                match rewrite(&self.shares, canon.as_slice()) {
                    Some(guest) => TokenStep::Becomes(guest),
                    None => TokenStep::Ask(PendingInquiry::Inspect),
                }
            },
            PendingInquiry::Inspect => {
                if !answer.is_yes() {
                    return TokenStep::Becomes(to_vec(token));
                }
                let mut drops: Option<DropsStaging> = None;
                std::mem::swap(&mut drops, &mut self.drops);
                match drops {
                    None => TokenStep::Becomes(to_vec(token)),
                    Some(d) => {
                        let mut d: DropsStaging = d;
                        let started = d.stage(token);
                        self.drops = Some(d);
                        match started {
                            Ok(staging) => TokenStep::Ask(PendingInquiry::Stage(staging)),
                            Err(_) => TokenStep::Becomes(to_vec(token)),
                        }
                    },
                }
            },
            PendingInquiry::Stage(staging) => {
                match staging.answer(answer.is_yes()) {
                    StageStep::Ask(next) => TokenStep::Ask(PendingInquiry::Stage(next)),
                    StageStep::Done(guest) => TokenStep::Becomes(guest),
                    StageStep::Failed => TokenStep::Becomes(to_vec(token)),
                }
            },
        }
    }
}

} // verus!
