//! The bytes, numbers and texts that everything else is made of.

use crate::bytes::decimal;
use crate::bytes::joined;
use crate::bytes::texts;
use crate::bytes::APOSTROPHE;
use crate::bytes::BACKSLASH;
use crate::bytes::DOT;
use crate::bytes::HYPHEN;
use crate::bytes::LINE_FEED;
use crate::bytes::QUOTE;
use crate::bytes::SLASH;
use crate::bytes::SPACE;
use crate::bytes::TAB;
use crate::host::Answer;
use crate::host::Answered;
use crate::host::Asked;
use crate::host::Question;
use crate::paste::Paste;
use crate::paste::PasteState;
use crate::paste::PASTE_BUF_LIMIT;
use crate::paste::PASTE_END;
use crate::paste::PASTE_START;
use crate::paste::UNTERMINATED_PASTE_TIMEOUT;
use crate::shares::mappings;
use crate::shares::ShareMapping;
use crate::staging::Drops;
use crate::staging::DropsStaging;
use crate::staging::StageNext;
use crate::staging::StageStep;
use crate::staging::Staged;
use crate::tokenize::is_blank;
use crate::tokenize::is_space;
use crate::translator::drops_view;
use crate::translator::is_path;
use crate::translator::located;
use crate::translator::timed;
use crate::translator::Outcome;
use crate::translator::Progress;
use crate::translator::Translator;
use crate::translator::Waiting;
use vstd::prelude::*;

verus! {

/// The bytes that have a meaning are those of ASCII. A paste is bracketed by `ESC [ 200 ~` and
/// `ESC [ 201 ~`, is held back up to 64 KiB, and is given up after two seconds.
pub proof fn lemma_constants()
    ensures
        TAB == 0x09 && LINE_FEED == 0x0a && SPACE == 0x20 && QUOTE == 0x22 && APOSTROPHE == 0x27,
        HYPHEN == 0x2d && DOT == 0x2e && SLASH == 0x2f && BACKSLASH == 0x5c,
        PASTE_START@ == seq![0x1bu8, 0x5b, 0x32, 0x30, 0x30, 0x7e],
        PASTE_END@ == seq![0x1bu8, 0x5b, 0x32, 0x30, 0x31, 0x7e],
        PASTE_BUF_LIMIT == 64 * 1024,
        UNTERMINATED_PASTE_TIMEOUT == 2 * 1_000_000_000,
{
    assert(PASTE_START@ =~= seq![0x1bu8, 0x5b, 0x32, 0x30, 0x30, 0x7e]);
    assert(PASTE_END@ =~= seq![0x1bu8, 0x5b, 0x32, 0x30, 0x31, 0x7e]);
}

/// White space is a space, tab, line feed, form feed or carriage return. Only a space and a tab
/// separate names.
pub proof fn lemma_white_space(c: u8)
    ensures
        is_space(c) <==> c == 0x20 || c == 0x09 || c == 0x0a || c == 0x0c || c == 0x0d,
        is_blank(c) <==> c == 0x20 || c == 0x09,
{
}

/// A token may name a file exactly if its first byte is a slash and no byte of it is a line feed.
pub proof fn lemma_what_may_be_a_path(token: Seq<u8>)
    ensures
        is_path(token) <==> token.len() > 0 && token[0] == 0x2f && forall|i: int|
            0 <= i < token.len() ==> #[trigger] token[i] != 0x0a,
{
    if is_path(token) {
        assert forall|i: int| 0 <= i < token.len() implies #[trigger] token[i] != 0x0a by {
            assert(token.contains(token[i]));
        }
    }
}

/// The number that a text of digits stands for.
pub open spec fn number(digits: Seq<u8>) -> nat
    decreases digits.len(),
{
    if digits.len() == 0 {
        0
    } else {
        (10 * number(digits.drop_last()) + (digits.last() - 0x30)) as nat
    }
}

/// A number is written in decimal digits that stand for it, with no zero before them.
pub proof fn lemma_decimal(n: nat)
    ensures
        number(decimal(n)) == n,
        decimal(n).len() > 0,
        forall|i: int| 0 <= i < decimal(n).len() ==> 0x30 <= #[trigger] decimal(n)[i] <= 0x39,
        decimal(n)[0] == 0x30 ==> n == 0 && decimal(n).len() == 1,
    decreases n,
{
    reveal_with_fuel(number, 2);
    if n >= 10 {
        lemma_decimal(n / 10);
        assert(decimal(n).drop_last() =~= decimal(n / 10));
        assert(decimal(n)[0] == decimal(n / 10)[0]);
    }
}

/// Putting texts together keeps each of them whole and in order, with the separator between two
/// neighbours and nowhere else.
pub proof fn lemma_joined(a: Seq<Seq<u8>>, b: Seq<Seq<u8>>, part: Seq<u8>, sep: Seq<u8>)
    ensures
        joined(Seq::empty(), sep) == Seq::<u8>::empty(),
        joined(seq![part], sep) == part,
        a.len() > 0 && b.len() > 0 ==> joined(a + b, sep) == joined(a, sep) + sep + joined(b, sep),
    decreases a.len(),
{
    if a.len() == 1 && b.len() > 0 {
        assert((a + b).skip(1) =~= b);
    } else if a.len() > 1 && b.len() > 0 {
        lemma_joined(a.skip(1), b, part, sep);
        assert((a + b).skip(1) =~= a.skip(1) + b);
        assert(joined(a + b, sep) =~= joined(a, sep) + sep + joined(b, sep));
    }
}

/// A list of texts or of mappings is viewed item by item, and no item is left out.
pub proof fn lemma_lists(parts: Seq<Vec<u8>>, shares: Seq<ShareMapping>)
    ensures
        texts(parts).len() == parts.len(),
        forall|i: int| 0 <= i < parts.len() ==> #[trigger] texts(parts)[i] == parts[i]@,
        mappings(shares).len() == shares.len(),
        forall|i: int|
            0 <= i < shares.len() ==> (#[trigger] mappings(shares)[i]).host == shares[i].canon_host@
                && mappings(shares)[i].guest == shares[i].guest@,
{
}

/// Questions and answers say what they hold.
pub proof fn lemma_questions_and_answers(question: Question, answer: Answer)
    ensures
        match question {
            Question::Resolve { path } => question@ == (Asked::Resolve { path: path@ }),
            Question::IsFile { path } => question@ == (Asked::IsFile { path: path@ }),
            Question::CreateDir { path } => question@ == (Asked::CreateDir { path: path@ }),
            Question::Exists { path } => question@ == (Asked::Exists { path: path@ }),
            Question::HardLink { from, to } => question@ == (Asked::HardLink {
                from: from@,
                to: to@,
            }),
            Question::Copy { from, to } => question@ == (Asked::Copy { from: from@, to: to@ }),
        },
        match answer {
            Answer::No => answer@ is No,
            Answer::Yes => answer@ is Yes,
            Answer::Canonical(path) => answer@ == Answered::Canonical(path@),
        },
{
}

/// Results say what they hold.
pub proof fn lemma_results(progress: Progress, step: StageStep, drops: Option<DropsStaging>)
    ensures
        match progress {
            Progress::Done(out) => progress@ == Outcome::Done(out@),
            Progress::Ask(pending) => progress@ == Outcome::Ask(pending@),
        },
        match step {
            StageStep::Ask(staging) => step@ == StageNext::Ask(staging@),
            StageStep::Done(guest) => step@ == StageNext::Done(guest@),
            StageStep::Failed => step@ is Failed,
        },
        match drops {
            Some(d) => drops_view(drops) == Some(d@),
            None => drops_view(drops) is None,
        },
{
}

/// The state of a stream says what it holds, and what it demands is no more than that a marker is
/// being matched in part and that the buffer is within its limit.
pub proof fn lemma_stream_state(state: PasteState)
    ensures
        match state {
            PasteState::Pass => state@ == (Paste::Outside { matched: 0 }) && state.well_formed(),
            PasteState::MatchingStart { idx } => {
                &&& state@ == (Paste::Outside { matched: idx as nat })
                &&& state.well_formed() <==> 1 <= idx <= 5
            },
            PasteState::InPaste { buf, last_byte, overflow } => {
                &&& state@ == (Paste::Inside { body: buf@, last_byte, overflow, matched: 0 })
                &&& state.well_formed() <==> buf@.len() <= 65536 && (overflow ==> buf@.len() == 0)
            },
            PasteState::MatchingEnd { buf, last_byte, overflow, idx } => {
                &&& state@ == (Paste::Inside {
                    body: buf@,
                    last_byte,
                    overflow,
                    matched: idx as nat,
                })
                &&& state.well_formed() <==> 1 <= idx <= 5 && buf@.len() <= 65536 && (overflow
                    ==> buf@.len() == 0)
            },
        },
{
}

/// Every answer can be taken, but for one: that a name is taken which is the last but one that can
/// be numbered, or a later one.
pub proof fn lemma_answers_can_be_taken(staged: Staged, waiting: Waiting, yes: bool, answer: Answered)
    ensures
        !yes ==> staged.takes(yes),
        staged.phase !is Probe ==> staged.takes(yes),
        staged.phase is Probe && yes ==> (staged.takes(yes) <==> staged.phase->Probe_attempt
            < 0xffff_ffff_ffff_fffe),
        waiting.inquiry !is Stage ==> waiting.takes(answer),
        waiting.inquiry is Stage ==> waiting.takes(answer) == waiting.inquiry->Stage_0.takes(
            !(answer is No),
        ),
{
}

/// What is said of a translator with something changed is said of all the rest of it unchanged.
pub proof fn lemma_translator_changed(
    translator: Translator,
    paste: Paste,
    drops: Option<Drops>,
)
    ensures
        Paste::idle() == (Paste::Outside { matched: 0 }),
        translator.with_paste(paste).paste == paste,
        translator.with_paste(paste).shares == translator.shares,
        translator.with_paste(paste).drops == translator.drops,
        translator.with_paste(paste).enabled == translator.enabled,
        translator.with_drops(drops).drops == drops,
        translator.with_drops(drops).shares == translator.shares,
        translator.with_drops(drops).paste == translator.paste,
        translator.with_drops(drops).enabled == translator.enabled,
{
}

/// A path that does not exist is found nowhere. One that exists is found at its canonical path, or
/// at the path itself if it has none.
pub proof fn lemma_where_it_is(token: Seq<u8>, canon: Seq<u8>)
    ensures
        located(token, Answered::No) is None,
        located(token, Answered::Yes) == Some(token),
        located(token, Answered::Canonical(canon)) == Some(canon),
{
}

/// One time for each byte is enough, and one where there is no byte.
pub proof fn lemma_times_needed(input: Seq<u8>, times: Seq<u128>)
    ensures
        timed(input, times) <==> times.len() >= input.len() && times.len() >= 1,
{
}

} // verus!
