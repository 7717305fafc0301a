//! What becomes of a paste, from the first byte of its start marker to the host's last answer.

use crate::bytes::joined;
use crate::host::Answered;
use crate::host::Asked;
use crate::laws::basics::lemma_what_may_be_a_path;
use crate::laws::quoting::is_plain_word;
use crate::laws::quoting::is_unquoted;
use crate::laws::quoting::lemma_plain_words;
use crate::laws::quoting::lemma_rejoined_twice;
use crate::laws::quoting::reads_as_quoted;
use crate::laws::quoting::rejoined;
use crate::laws::stream::fits;
use crate::laws::stream::lemma_paste_framed;
use crate::laws::stream::occurs;
use crate::paste::Paste;
use crate::paste::PASTE_END;
use crate::paste::PASTE_START;
use crate::path::last_name;
use crate::shares::rewritten;
use crate::staging::candidate;
use crate::staging::Drops;
use crate::staging::StagePhase;
use crate::staging::Staged;
use crate::tokenize::is_blank;
use crate::tokenize::is_space;
use crate::tokenize::tokens;
use crate::translator::bracketed;
use crate::translator::is_path;
use crate::translator::located;
use crate::translator::next_path;
use crate::translator::timed;
use crate::translator::translating;
use crate::translator::Inquiry;
use crate::translator::Outcome;
use crate::translator::TokenNext;
use crate::translator::Translator;
use crate::translator::Waiting;
use vstd::prelude::*;

verus! {

/// A paste with this body.
pub open spec fn pasted(body: Seq<u8>) -> Seq<u8> {
    PASTE_START@ + body + PASTE_END@
}

/// Whether `translator` translates, and is between pastes.
pub open spec fn ready(translator: Translator) -> bool {
    translator.enabled && translator.paste == Paste::idle()
}

/// What becomes of a whole paste: one that fits is translated token by token, and one that does
/// not goes through as it is.
proof fn lemma_paste_processed(translator: Translator, body: Seq<u8>, times: Seq<u128>)
    requires
        ready(translator),
        timed(pasted(body), times),
        !occurs(PASTE_END@, body),
    ensures
        fits(body) ==> translator.processed(pasted(body), times) == (
            translator,
            translating(Seq::empty(), Seq::empty(), tokens(body).0, 0, tokens(body).1),
        ),
        !fits(body) ==> translator.processed(pasted(body), times) == (
            translator,
            Outcome::Done(pasted(body)),
        ),
{
    lemma_paste_framed(body, Seq::empty(), Seq::empty(), times);
    assert(pasted(body) + Seq::<u8>::empty() =~= pasted(body));
    assert(Seq::<u8>::empty() + PASTE_START@ + body + PASTE_END@ =~= pasted(body));
    assert(translator.with_paste(translator.paste) == translator);
}

/// A paste that is too long goes through as it is, and leaves nothing behind.
pub proof fn lemma_oversize_paste_passes(translator: Translator, body: Seq<u8>, times: Seq<u128>)
    requires
        ready(translator),
        timed(pasted(body), times),
        !occurs(PASTE_END@, body),
        !fits(body),
    ensures
        translator.processed(pasted(body), times) == (translator, Outcome::Done(pasted(body))),
{
    lemma_paste_processed(translator, body, times);
}

/// A paste that names no file asks nothing of the host. It comes out with its tokens as they were
/// read, and so unchanged exactly if putting the tokens together gives the body again.
pub proof fn lemma_paste_without_paths(translator: Translator, body: Seq<u8>, times: Seq<u128>)
    requires
        ready(translator),
        timed(pasted(body), times),
        !occurs(PASTE_END@, body),
        fits(body),
        forall|i: int| 0 <= i < tokens(body).0.len() ==> !is_path(#[trigger] tokens(body).0[i]),
    ensures
        translator.processed(pasted(body), times) == (
            translator,
            Outcome::Done(pasted(joined(tokens(body).0, tokens(body).1))),
        ),
        pasted(joined(tokens(body).0, tokens(body).1)) == pasted(body) <==> joined(
            tokens(body).0,
            tokens(body).1,
        ) == body,
{
    let (t, sep) = tokens(body);
    lemma_paste_processed(translator, body, times);
    lemma_no_next_path(t, 0);
    let sent = Seq::<u8>::empty() + bracketed(t, sep);
    assert(sent =~= pasted(joined(t, sep)));
    let text = joined(t, sep);
    assert(text =~= pasted(text).subrange(6, pasted(text).len() - 6));
    assert(body =~= pasted(body).subrange(6, pasted(body).len() - 6));
}

/// A paste of plain words, none of which names a file, comes out unchanged.
pub proof fn lemma_plain_paste_unchanged(
    translator: Translator,
    names: Seq<Seq<u8>>,
    blank: u8,
    times: Seq<u128>,
)
    requires
        ready(translator),
        timed(pasted(joined(names, seq![blank])), times),
        names.len() > 0,
        forall|i: int|
            0 <= i < names.len() ==> is_plain_word(#[trigger] names[i]) && !is_path(names[i]),
        is_blank(blank),
        !is_space(names[0][0]),
        !is_space(names.last().last()),
        !reads_as_quoted(joined(names, seq![blank])),
        !occurs(PASTE_END@, joined(names, seq![blank])),
    ensures
        translator.processed(pasted(joined(names, seq![blank])), times) == (
            translator,
            Outcome::Done(pasted(joined(names, seq![blank]))),
        ),
{
    let body = joined(names, seq![blank]);
    lemma_plain_words(names, blank);
    if fits(body) {
        lemma_paste_without_paths(translator, body, times);
    } else {
        lemma_oversize_paste_passes(translator, body, times);
    }
}

proof fn lemma_no_next_path(t: Seq<Seq<u8>>, at: int)
    requires
        0 <= at,
        forall|i: int| 0 <= i < t.len() ==> !is_path(#[trigger] t[i]),
    ensures
        next_path(t, at) >= t.len(),
    decreases t.len() - at,
{
    if at < t.len() {
        lemma_no_next_path(t, at + 1);
    }
}

/// What the host is asked about `token`.
pub open spec fn asked(token: Seq<u8>, inquiry: Inquiry) -> Asked {
    match inquiry {
        Inquiry::Resolve => Asked::Resolve { path: token },
        Inquiry::Inspect => Asked::IsFile { path: token },
        Inquiry::Stage(staged) => staged.asks(),
    }
}

/// What `token` becomes if `host` answers every question. An answer depends on the question and on
/// how many were asked before it, of which there are `start` at first. The result is what becomes
/// of the dropped files, what the token becomes, and how many questions have then been asked.
/// There is none if more than `limit` questions are asked about the token.
pub open spec fn settled(
    translator: Translator,
    token: Seq<u8>,
    inquiry: Inquiry,
    host: spec_fn(nat, Asked) -> Answered,
    start: nat,
    limit: nat,
) -> Option<(Option<Drops>, Seq<u8>, nat)>
    decreases limit,
{
    if limit == 0 {
        None
    } else {
        let answer = host(start, asked(token, inquiry));
        let (drops, next) = translator.token_next(token, inquiry, answer);
        match next {
            TokenNext::Becomes(text) => Some((drops, text, start + 1)),
            TokenNext::Ask(more) => settled(
                translator.with_drops(drops),
                token,
                more,
                host,
                start + 1,
                (limit - 1) as nat,
            ),
        }
    }
}

/// What the tokens from `at` on become, one after the other: each that may name a file is settled
/// on its own, and the others stay as they are.
pub open spec fn translated(
    translator: Translator,
    t: Seq<Seq<u8>>,
    at: int,
    host: spec_fn(nat, Asked) -> Answered,
    start: nat,
    limit: nat,
) -> Option<(Option<Drops>, Seq<Seq<u8>>, nat)>
    decreases t.len() - at,
{
    if at < 0 || at >= t.len() {
        Some((translator.drops, t, start))
    } else if !is_path(t[at]) {
        translated(translator, t, at + 1, host, start, limit)
    } else {
        match settled(translator, t[at], Inquiry::Resolve, host, start, limit) {
            Some((drops, text, next)) => translated(
                translator.with_drops(drops),
                t.update(at, text),
                at + 1,
                host,
                next,
                limit,
            ),
            None => None,
        }
    }
}

/// Where the host's answers lead, from the answer number `start` to before the answer number
/// `end`. If the answer number `n` completes a paste, the input behind it is read at the times
/// `clock(n)`.
pub open spec fn conversed(
    translator: Translator,
    outcome: Outcome,
    host: spec_fn(nat, Asked) -> Answered,
    clock: spec_fn(nat) -> Seq<u128>,
    start: nat,
    end: nat,
) -> (Translator, Outcome)
    decreases end - start,
{
    match outcome {
        Outcome::Ask(waiting) => if start < end {
            let answer = host(start, waiting.asks());
            let (next, more) = translator.resumed(waiting, answer, clock(start));
            conversed(next, more, host, clock, start + 1, end)
        } else {
            (translator, outcome)
        },
        Outcome::Done(_) => (translator, outcome),
    }
}

/// A paste comes out with each file name in it replaced on its own, in place, and with everything
/// else as it was read, whatever the host answers and whenever it does.
pub proof fn lemma_paste_translated(
    translator: Translator,
    body: Seq<u8>,
    host: spec_fn(nat, Asked) -> Answered,
    clock: spec_fn(nat) -> Seq<u128>,
    limit: nat,
    times: Seq<u128>,
)
    requires
        ready(translator),
        timed(pasted(body), times),
        !occurs(PASTE_END@, body),
        fits(body),
        translated(translator, tokens(body).0, 0, host, 0, limit) is Some,
    ensures
        ({
            let (first, outcome) = translator.processed(pasted(body), times);
            let (drops, t, end) = translated(
                translator,
                tokens(body).0,
                0,
                host,
                0,
                limit,
            ).unwrap();
            conversed(first, outcome, host, clock, 0, end) == (
                translator.with_drops(drops),
                Outcome::Done(pasted(joined(t, tokens(body).1))),
            )
        }),
{
    lemma_paste_processed(translator, body, times);
    lemma_text_translated(translator, body, Seq::empty(), host, clock, 0, limit);
    let (drops, t, end) = translated(translator, tokens(body).0, 0, host, 0, limit).unwrap();
    assert(Seq::<u8>::empty() + pasted(joined(t, tokens(body).1)) =~= pasted(
        joined(t, tokens(body).1),
    ));
}

/// Any text is translated like that, whether or not a paste can hold it: its tokens are replaced
/// one by one and in place, and stand with the separator between each two. Nothing changes but the
/// number of the next dropped file.
pub proof fn lemma_text_translated(
    translator: Translator,
    raw: Seq<u8>,
    out: Seq<u8>,
    host: spec_fn(nat, Asked) -> Answered,
    clock: spec_fn(nat) -> Seq<u128>,
    start: nat,
    limit: nat,
)
    requires
        translated(translator, tokens(raw).0, 0, host, start, limit) is Some,
    ensures
        ({
            let (t, sep) = tokens(raw);
            let (drops, done, end) = translated(translator, t, 0, host, start, limit).unwrap();
            &&& conversed(
                translator,
                translating(out, Seq::empty(), t, 0, sep),
                host,
                clock,
                start,
                end,
            ) == (translator.with_drops(drops), Outcome::Done(out + pasted(joined(done, sep))))
            &&& done.len() == t.len()
            &&& forall|i: int| 0 <= i < t.len() && !is_path(#[trigger] t[i]) ==> done[i] == t[i]
        }),
{
    let (t, sep) = tokens(raw);
    let (drops, done, end) = translated(translator, t, 0, host, start, limit).unwrap();
    lemma_tokens_conversed(translator, out, t, 0, sep, host, clock, start, limit);
    lemma_translated_in_place(translator, t, 0, host, start, limit);
    assert(out + bracketed(done, sep) =~= out + pasted(joined(done, sep)));
}

/// Without shares and without a directory for dropped files, no token changes, whatever the host
/// answers.
pub proof fn lemma_nothing_to_translate(
    translator: Translator,
    t: Seq<Seq<u8>>,
    at: int,
    host: spec_fn(nat, Asked) -> Answered,
    start: nat,
    limit: nat,
)
    requires
        translator.shares.len() == 0,
        translator.drops is None,
        0 <= at,
        limit > 1,
    ensures
        translated(translator, t, at, host, start, limit) matches Some((drops, done, end)) && drops
            is None && done == t,
    decreases t.len() - at,
{
    if at < t.len() {
        if !is_path(t[at]) {
            lemma_nothing_to_translate(translator, t, at + 1, host, start, limit);
        } else {
            let path = t[at];
            assert(translator.with_drops(translator.drops) == translator);
            assert(t.update(at, path) =~= t);
            match located(path, host(start, Asked::Resolve { path })) {
                None => {
                    lemma_missing_path_stays(translator, path, host, start, limit);
                    lemma_nothing_to_translate(translator, t, at + 1, host, start + 1, limit);
                },
                Some(canon) => {
                    assert(rewritten(translator.shares, canon) is None);
                    lemma_unshared_path_stays(translator, path, canon, host, start, limit);
                    lemma_nothing_to_translate(translator, t, at + 1, host, start + 2, limit);
                },
            }
        }
    }
}

/// What any text becomes if `host` answers every question: what becomes of the dropped files, the
/// text, and how many questions have then been asked.
pub open spec fn text_translated(
    translator: Translator,
    raw: Seq<u8>,
    host: spec_fn(nat, Asked) -> Answered,
    start: nat,
    limit: nat,
) -> Option<(Option<Drops>, Seq<u8>, nat)> {
    match translated(translator, tokens(raw).0, 0, host, start, limit) {
        Some((drops, t, end)) => Some((drops, joined(t, tokens(raw).1), end)),
        None => None,
    }
}

/// Where there are no shares, no directory for dropped files, and neither quotation marks nor
/// backslashes in the text, translating twice is translating once, whatever the hosts answer.
pub proof fn lemma_translated_twice(
    translator: Translator,
    raw: Seq<u8>,
    host: spec_fn(nat, Asked) -> Answered,
    other: spec_fn(nat, Asked) -> Answered,
    limit: nat,
)
    requires
        translator.shares.len() == 0,
        translator.drops is None,
        limit > 1,
        is_unquoted(raw),
    ensures
        text_translated(translator, raw, host, 0, limit) matches Some((drops, once, end)) && {
            &&& once == rejoined(raw)
            &&& text_translated(translator, once, other, 0, limit) matches Some((_, twice, _))
                && twice == once
        },
{
    lemma_nothing_to_translate(translator, tokens(raw).0, 0, host, 0, limit);
    lemma_nothing_to_translate(translator, tokens(rejoined(raw)).0, 0, other, 0, limit);
    lemma_rejoined_twice(raw);
}

/// Only tokens that may name a file are replaced, and only those at or after `at`.
proof fn lemma_translated_in_place(
    translator: Translator,
    t: Seq<Seq<u8>>,
    at: int,
    host: spec_fn(nat, Asked) -> Answered,
    start: nat,
    limit: nat,
)
    requires
        0 <= at,
    ensures
        translated(translator, t, at, host, start, limit) matches Some((drops, done, end)) ==> {
            &&& done.len() == t.len()
            &&& forall|i: int|
                0 <= i < t.len() && (i < at || !is_path(t[i])) ==> #[trigger] done[i] == t[i]
        },
    decreases t.len() - at,
{
    if at < t.len() {
        if !is_path(t[at]) {
            lemma_translated_in_place(translator, t, at + 1, host, start, limit);
        } else if let Some((drops, text, next)) = settled(
            translator,
            t[at],
            Inquiry::Resolve,
            host,
            start,
            limit,
        ) {
            let moved = translator.with_drops(drops);
            lemma_translated_in_place(moved, t.update(at, text), at + 1, host, next, limit);
        }
    }
}

proof fn lemma_tokens_conversed(
    translator: Translator,
    out: Seq<u8>,
    t: Seq<Seq<u8>>,
    at: int,
    sep: Seq<u8>,
    host: spec_fn(nat, Asked) -> Answered,
    clock: spec_fn(nat) -> Seq<u128>,
    start: nat,
    limit: nat,
)
    requires
        0 <= at <= t.len(),
        translated(translator, t, at, host, start, limit) is Some,
    ensures
        ({
            let outcome = translating(out, Seq::empty(), t, at, sep);
            let (drops, done, end) = translated(translator, t, at, host, start, limit).unwrap();
            &&& start <= end
            &&& conversed(translator, outcome, host, clock, start, end) == (
                translator.with_drops(drops),
                Outcome::Done(out + bracketed(done, sep)),
            )
        }),
    decreases t.len() - at, limit, 1int,
{
    lemma_skip_to_path(translator, t, at, host, start, limit);
    let next = next_path(t, at);
    if next < t.len() {
        let waiting = Waiting {
            out,
            rest: Seq::empty(),
            tokens: t,
            at: next,
            sep,
            inquiry: Inquiry::Resolve,
        };
        assert(translating(out, Seq::empty(), t, at, sep) == Outcome::Ask(waiting));
        lemma_token_conversed(translator, waiting, host, clock, start, limit, limit);
    } else {
        assert(translator.with_drops(translator.drops) == translator);
    }
}

/// Tokens that name no file do not matter for what becomes of the others.
proof fn lemma_skip_to_path(
    translator: Translator,
    t: Seq<Seq<u8>>,
    at: int,
    host: spec_fn(nat, Asked) -> Answered,
    start: nat,
    limit: nat,
)
    requires
        0 <= at <= t.len(),
    ensures
        at <= next_path(t, at) <= t.len(),
        next_path(t, at) < t.len() ==> is_path(t[next_path(t, at)]),
        translated(translator, t, at, host, start, limit) == translated(
            translator,
            t,
            next_path(t, at),
            host,
            start,
            limit,
        ),
    decreases t.len() - at,
{
    if at < t.len() && !is_path(t[at]) {
        lemma_skip_to_path(translator, t, at + 1, host, start, limit);
    }
}

proof fn lemma_token_conversed(
    translator: Translator,
    waiting: Waiting,
    host: spec_fn(nat, Asked) -> Answered,
    clock: spec_fn(nat) -> Seq<u128>,
    start: nat,
    left: nat,
    limit: nat,
)
    requires
        0 <= waiting.at < waiting.tokens.len(),
        waiting.rest == Seq::<u8>::empty(),
        left <= limit,
        settled(translator, waiting.token(), waiting.inquiry, host, start, left) matches Some((
            drops,
            text,
            next,
        )) && translated(
            translator.with_drops(drops),
            waiting.tokens.update(waiting.at, text),
            waiting.at + 1,
            host,
            next,
            limit,
        ) is Some,
    ensures
        ({
            let (drops, text, next) = settled(
                translator,
                waiting.token(),
                waiting.inquiry,
                host,
                start,
                left,
            ).unwrap();
            let (last, done, end) = translated(
                translator.with_drops(drops),
                waiting.tokens.update(waiting.at, text),
                waiting.at + 1,
                host,
                next,
                limit,
            ).unwrap();
            &&& start <= end
            &&& conversed(translator, Outcome::Ask(waiting), host, clock, start, end) == (
                translator.with_drops(last),
                Outcome::Done(waiting.out + bracketed(done, waiting.sep)),
            )
        }),
    decreases waiting.tokens.len() - waiting.at, left, 0int,
{
    let answer = host(start, waiting.asks());
    assert(waiting.asks() == asked(waiting.token(), waiting.inquiry));
    let (drops, next) = translator.token_next(waiting.token(), waiting.inquiry, answer);
    let moved = translator.with_drops(drops);
    match next {
        TokenNext::Ask(inquiry) => {
            lemma_settled_ends(moved, waiting.token(), inquiry, host, start + 1, (left - 1) as nat);
            lemma_token_conversed(
                moved,
                waiting.with_inquiry(inquiry),
                host,
                clock,
                start + 1,
                (left - 1) as nat,
                limit,
            );
        },
        TokenNext::Becomes(text) => {
            let t = waiting.tokens.update(waiting.at, text);
            lemma_tokens_conversed(
                moved,
                waiting.out,
                t,
                waiting.at + 1,
                waiting.sep,
                host,
                clock,
                start + 1,
                limit,
            );
            let done = translating(waiting.out, waiting.rest, t, waiting.at + 1, waiting.sep);
            assert(moved.with_paste(translator.paste) == moved);
            assert(translator.resumed(waiting, answer, clock(start)) == (moved, done));
        },
    }
}

/// At least one question is asked about a token.
proof fn lemma_settled_ends(
    translator: Translator,
    token: Seq<u8>,
    inquiry: Inquiry,
    host: spec_fn(nat, Asked) -> Answered,
    start: nat,
    limit: nat,
)
    ensures
        settled(translator, token, inquiry, host, start, limit) matches Some((
            drops,
            text,
            next,
        )) ==> start < next,
    decreases limit,
{
    if limit > 0 {
        let answer = host(start, asked(token, inquiry));
        let (drops, next) = translator.token_next(token, inquiry, answer);
        if let TokenNext::Ask(more) = next {
            lemma_settled_ends(
                translator.with_drops(drops),
                token,
                more,
                host,
                start + 1,
                (limit - 1) as nat,
            );
        }
    }
}

/// A path that does not exist on the host stays as it is.
pub proof fn lemma_missing_path_stays(
    translator: Translator,
    path: Seq<u8>,
    host: spec_fn(nat, Asked) -> Answered,
    start: nat,
    limit: nat,
)
    requires
        limit > 0,
        host(start, Asked::Resolve { path }) is No,
    ensures
        settled(translator, path, Inquiry::Resolve, host, start, limit) == Some(
            (translator.drops, path, start + 1),
        ),
{
}

/// A path in a shared directory becomes the guest's path.
pub proof fn lemma_shared_path_rewritten(
    translator: Translator,
    path: Seq<u8>,
    canon: Seq<u8>,
    host: spec_fn(nat, Asked) -> Answered,
    start: nat,
    limit: nat,
)
    requires
        limit > 0,
        located(path, host(start, Asked::Resolve { path })) == Some(canon),
        rewritten(translator.shares, canon) is Some,
    ensures
        settled(translator, path, Inquiry::Resolve, host, start, limit) == Some(
            (translator.drops, rewritten(translator.shares, canon).unwrap(), start + 1),
        ),
{
}

/// A path that exists in no shared directory, and is no regular file or has no directory to be
/// staged in, stays as it is.
pub proof fn lemma_unshared_path_stays(
    translator: Translator,
    path: Seq<u8>,
    canon: Seq<u8>,
    host: spec_fn(nat, Asked) -> Answered,
    start: nat,
    limit: nat,
)
    requires
        limit > 1,
        located(path, host(start, Asked::Resolve { path })) == Some(canon),
        rewritten(translator.shares, canon) is None,
        host(start + 1, Asked::IsFile { path }) is No || translator.drops is None,
    ensures
        settled(translator, path, Inquiry::Resolve, host, start, limit) == Some(
            (translator.drops, path, start + 2),
        ),
{
    reveal_with_fuel(settled, 3);
    assert(translator.with_drops(translator.drops) == translator);
}

/// A regular file in no shared directory is staged. With its directory made, and with the name
/// number `attempt` as the first that is free, it is linked or else copied to that name. It becomes
/// the path of its copy in the guest if the host can do either, and stays as it is if not. Its
/// number is used up in any case.
pub proof fn lemma_dropped_file_staged(
    translator: Translator,
    path: Seq<u8>,
    canon: Seq<u8>,
    name: Seq<u8>,
    attempt: u64,
    host: spec_fn(nat, Asked) -> Answered,
    start: nat,
    limit: nat,
)
    requires
        attempt < u64::MAX,
        limit > attempt + 5,
        located(path, host(start, Asked::Resolve { path })) == Some(canon),
        rewritten(translator.shares, canon) is None,
        !(host(start + 1, Asked::IsFile { path }) is No),
        translator.drops matches Some(drops) && {
            let dir = drops.staged(path, name).dir;
            &&& last_name(path) == Some(name)
            &&& !(host(start + 2, Asked::CreateDir { path: dir }) is No)
            &&& names_taken(dir, name, 0, attempt, host, start + 3)
            &&& host(
                start + 3 + attempt as nat,
                Asked::Exists { path: candidate(dir, name, attempt) },
            ) is No
        },
    ensures
        translator.drops matches Some(drops) && {
            let staged = drops.staged(path, name);
            let to = candidate(staged.dir, name, attempt);
            let asked = start + attempt as nat;
            let linked = !(host(asked + 4, Asked::HardLink { from: path, to }) is No);
            let copied = !(host(asked + 5, Asked::Copy { from: path, to }) is No);
            settled(translator, path, Inquiry::Resolve, host, start, limit) == if linked {
                Some((Some(drops.advanced()), staged.guest, asked + 5))
            } else if copied {
                Some((Some(drops.advanced()), staged.guest, asked + 6))
            } else {
                Some((Some(drops.advanced()), path, asked + 6))
            }
        },
{
    let drops = translator.drops.unwrap();
    let staged = drops.staged(path, name);
    let moved = translator.with_drops(Some(drops.advanced()));
    let asked = start + attempt as nat;
    let left = (limit - attempt) as nat;
    assert(translator.with_drops(translator.drops) == translator);
    assert(moved.with_drops(moved.drops) == moved);
    let probing = Inquiry::Stage(staged.in_phase(StagePhase::Probe { attempt: 0 }));
    let found = Inquiry::Stage(staged.in_phase(StagePhase::Probe { attempt }));
    let linking = Inquiry::Stage(staged.in_phase(StagePhase::Link { attempt }));
    let copying = Inquiry::Stage(staged.in_phase(StagePhase::Copy { attempt }));
    let s0 = settled(translator, path, Inquiry::Resolve, host, start, limit);
    let s1 = settled(translator, path, Inquiry::Inspect, host, start + 1, (limit - 1) as nat);
    let s2 = settled(moved, path, Inquiry::Stage(staged), host, start + 2, (limit - 2) as nat);
    let s3 = settled(moved, path, probing, host, start + 3, (limit - 3) as nat);
    let s4 = settled(moved, path, found, host, asked + 3, (left - 3) as nat);
    let s5 = settled(moved, path, linking, host, asked + 4, (left - 4) as nat);
    let s6 = settled(moved, path, copying, host, asked + 5, (left - 5) as nat);
    assert(s0 == s1);
    assert(s1 == s2);
    assert(s2 == s3);
    lemma_names_tried(moved, path, staged, 0, attempt, host, start + 3, (limit - 3) as nat);
    assert(s3 == s4);
    assert(s4 == s5);
    let to = candidate(staged.dir, name, attempt);
    if host(asked + 4, Asked::HardLink { from: path, to }) is No {
        assert(s5 == s6);
    }
}

/// A regular file in no shared directory stays as it is if it has no base name, or if the directory
/// for it cannot be made. Its number is used up either way.
pub proof fn lemma_dropped_file_not_staged(
    translator: Translator,
    path: Seq<u8>,
    canon: Seq<u8>,
    host: spec_fn(nat, Asked) -> Answered,
    start: nat,
    limit: nat,
)
    requires
        limit > 2,
        located(path, host(start, Asked::Resolve { path })) == Some(canon),
        rewritten(translator.shares, canon) is None,
        !(host(start + 1, Asked::IsFile { path }) is No),
        translator.drops matches Some(drops) && (last_name(path) matches Some(name) ==> host(
            start + 2,
            Asked::CreateDir { path: drops.staged(path, name).dir },
        ) is No),
    ensures
        translator.drops matches Some(drops) && settled(
            translator,
            path,
            Inquiry::Resolve,
            host,
            start,
            limit,
        ) == Some(
            (
                Some(drops.advanced()),
                path,
                if last_name(path) is Some {
                    start + 3
                } else {
                    start + 2
                },
            ),
        ),
{
    let drops = translator.drops.unwrap();
    let moved = translator.with_drops(Some(drops.advanced()));
    assert(translator.with_drops(translator.drops) == translator);
    assert(moved.with_drops(moved.drops) == moved);
    let s0 = settled(translator, path, Inquiry::Resolve, host, start, limit);
    let s1 = settled(translator, path, Inquiry::Inspect, host, start + 1, (limit - 1) as nat);
    assert(s0 == s1);
    if let Some(name) = last_name(path) {
        let staging = Inquiry::Stage(drops.staged(path, name));
        assert(s1 == settled(moved, path, staging, host, start + 2, (limit - 2) as nat));
    }
}

/// Whether the host says of the names from the number `from` to before the number `to` that they
/// are taken, when it is asked about them one after the other. There are `start` questions before.
pub open spec fn names_taken(
    dir: Seq<u8>,
    name: Seq<u8>,
    from: u64,
    to: u64,
    host: spec_fn(nat, Asked) -> Answered,
    start: nat,
) -> bool {
    forall|k: u64|
        from <= k < to ==> !(host(
            (start + (k - from)) as nat,
            Asked::Exists { path: #[trigger] candidate(dir, name, k) },
        ) is No)
}

/// Names that are taken are passed over.
proof fn lemma_names_tried(
    translator: Translator,
    path: Seq<u8>,
    staged: Staged,
    from: u64,
    to: u64,
    host: spec_fn(nat, Asked) -> Answered,
    start: nat,
    limit: nat,
)
    requires
        from <= to < u64::MAX,
        limit > to - from,
        names_taken(staged.dir, staged.name, from, to, host, start),
    ensures
        settled(
            translator,
            path,
            Inquiry::Stage(staged.in_phase(StagePhase::Probe { attempt: from })),
            host,
            start,
            limit,
        ) == settled(
            translator,
            path,
            Inquiry::Stage(staged.in_phase(StagePhase::Probe { attempt: to })),
            host,
            (start + (to - from)) as nat,
            (limit - (to - from)) as nat,
        ),
    decreases to - from,
{
    if from < to {
        let next = (from + 1) as u64;
        let probed = candidate(staged.dir, staged.name, from);
        assert(!(host(start, Asked::Exists { path: probed }) is No));
        assert(translator.with_drops(translator.drops) == translator);
        assert forall|k: u64| next <= k < to implies !(host(
            (start + 1 + (k - next)) as nat,
            Asked::Exists { path: #[trigger] candidate(staged.dir, staged.name, k) },
        ) is No) by {
            assert((start + (k - from)) as nat == (start + 1 + (k - next)) as nat);
        }
        lemma_names_tried(
            translator,
            path,
            staged,
            next,
            to,
            host,
            start + 1,
            (limit - 1) as nat,
        );
    }
}

/// Whatever the host answers, a path becomes nothing but one of these: the guest's path of it
/// through a share that holds it, the guest's path of its staged copy, or itself.
pub proof fn lemma_path_outcomes(
    translator: Translator,
    path: Seq<u8>,
    host: spec_fn(nat, Asked) -> Answered,
    start: nat,
    limit: nat,
)
    ensures
        settled(translator, path, Inquiry::Resolve, host, start, limit) matches Some((
            drops,
            text,
            next,
        )) ==> {
            ||| text == path
            ||| located(path, host(start, Asked::Resolve { path })) matches Some(canon)
                && rewritten(translator.shares, canon) == Some(text)
            ||| translator.drops matches Some(d) && last_name(path) matches Some(name) && text
                == d.staged(path, name).guest
        },
{
    reveal_with_fuel(settled, 3);
    if limit > 2 {
        if let Some(d) = translator.drops {
            if let Some(name) = last_name(path) {
                lemma_staging_outcomes(
                    translator.with_drops(Some(d.advanced())),
                    path,
                    d.staged(path, name),
                    host,
                    start + 2,
                    (limit - 2) as nat,
                );
            }
        }
    }
    assert(translator.with_drops(translator.drops) == translator);
}

proof fn lemma_staging_outcomes(
    translator: Translator,
    path: Seq<u8>,
    staged: Staged,
    host: spec_fn(nat, Asked) -> Answered,
    start: nat,
    limit: nat,
)
    ensures
        settled(translator, path, Inquiry::Stage(staged), host, start, limit) matches Some((
            drops,
            text,
            next,
        )) ==> text == path || text == staged.guest,
    decreases limit,
{
    if limit > 0 {
        let inquiry = Inquiry::Stage(staged);
        let (drops, next) = translator.token_next(
            path,
            inquiry,
            host(start, asked(path, inquiry)),
        );
        if let TokenNext::Ask(Inquiry::Stage(more)) = next {
            lemma_staging_outcomes(
                translator.with_drops(drops),
                path,
                more,
                host,
                start + 1,
                (limit - 1) as nat,
            );
        }
    }
}

/// A single file that is dragged from a shared directory comes out as the guest's path of it, in
/// whichever form its name was pasted, and after one question.
pub proof fn lemma_dragged_file_rewritten(
    translator: Translator,
    body: Seq<u8>,
    path: Seq<u8>,
    canon: Seq<u8>,
    host: spec_fn(nat, Asked) -> Answered,
    clock: spec_fn(nat) -> Seq<u128>,
    times: Seq<u128>,
)
    requires
        ready(translator),
        timed(pasted(body), times),
        !occurs(PASTE_END@, body),
        fits(body),
        tokens(body).0 == seq![path],
        path.len() > 0 && path[0] == 0x2f,
        forall|i: int| 0 <= i < path.len() ==> #[trigger] path[i] != 0x0a,
        located(path, host(0, Asked::Resolve { path })) == Some(canon),
        rewritten(translator.shares, canon) is Some,
    ensures
        ({
            let (first, outcome) = translator.processed(pasted(body), times);
            conversed(first, outcome, host, clock, 0, 1) == (
                translator,
                Outcome::Done(pasted(rewritten(translator.shares, canon).unwrap())),
            )
        }),
{
    let guest = rewritten(translator.shares, canon).unwrap();
    let t = tokens(body).0;
    lemma_what_may_be_a_path(path);
    lemma_shared_path_rewritten(translator, path, canon, host, 0, 1);
    assert(translator.with_drops(translator.drops) == translator);
    assert(t.update(0, guest) =~= seq![guest]);
    assert(translated(translator, seq![guest], 1, host, 1, 1) == Some(
        (translator.drops, seq![guest], 1nat),
    ));
    assert(translated(translator, t, 0, host, 0, 1) == Some(
        (translator.drops, seq![guest], 1nat),
    ));
    lemma_paste_translated(translator, body, host, clock, 1, times);
}

/// What the guest sees of files that exist and lie in shared directories.
pub open spec fn seen_by_guest(
    translator: Translator,
    t: Seq<Seq<u8>>,
    canon: spec_fn(Seq<u8>) -> Seq<u8>,
) -> Seq<Seq<u8>> {
    t.map_values(|path: Seq<u8>| rewritten(translator.shares, canon(path)).unwrap())
}

/// Any number of files that are dragged together from shared directories come out as the guest's
/// paths of them, each in its place, with the separator between each two, and after one question
/// for each.
pub proof fn lemma_dragged_files_rewritten(
    translator: Translator,
    body: Seq<u8>,
    canon: spec_fn(Seq<u8>) -> Seq<u8>,
    host: spec_fn(nat, Asked) -> Answered,
    clock: spec_fn(nat) -> Seq<u128>,
    times: Seq<u128>,
)
    requires
        ready(translator),
        timed(pasted(body), times),
        !occurs(PASTE_END@, body),
        fits(body),
        forall|i: int, j: int|
            0 <= i < tokens(body).0.len() && 0 <= j < tokens(body).0[i].len()
                ==> #[trigger] tokens(body).0[i][j] != 0x0a,
        forall|i: int|
            0 <= i < tokens(body).0.len() ==> {
                let path = #[trigger] tokens(body).0[i];
                &&& path.len() > 0 && path[0] == 0x2f
                &&& host(i as nat, Asked::Resolve { path }) == Answered::Canonical(canon(path))
                &&& rewritten(translator.shares, canon(path)) is Some
            },
    ensures
        ({
            let (first, outcome) = translator.processed(pasted(body), times);
            let (t, sep) = tokens(body);
            conversed(first, outcome, host, clock, 0, t.len()) == (
                translator,
                Outcome::Done(pasted(joined(seen_by_guest(translator, t, canon), sep))),
            )
        }),
{
    let t = tokens(body).0;
    assert forall|i: int| 0 <= i < t.len() implies is_path(#[trigger] t[i]) by {
        assert forall|j: int| 0 <= j < t[i].len() implies #[trigger] t[i][j] != 0x0a by {
            assert(tokens(body).0[i][j] != 0x0a);
        }
        lemma_what_may_be_a_path(t[i]);
    }
    lemma_files_translated(translator, t, t, 0, canon, host);
    lemma_paste_translated(translator, body, host, clock, 1, times);
    assert(translator.with_drops(translator.drops) == translator);
}

/// What becomes of files from shared directories, of which those before `at` have been replaced.
proof fn lemma_files_translated(
    translator: Translator,
    t: Seq<Seq<u8>>,
    now: Seq<Seq<u8>>,
    at: int,
    canon: spec_fn(Seq<u8>) -> Seq<u8>,
    host: spec_fn(nat, Asked) -> Answered,
)
    requires
        0 <= at <= t.len(),
        now.len() == t.len(),
        forall|i: int| 0 <= i < at ==> #[trigger] now[i] == seen_by_guest(translator, t, canon)[i],
        forall|i: int| at <= i < t.len() ==> #[trigger] now[i] == t[i],
        forall|i: int|
            0 <= i < t.len() ==> {
                let path = #[trigger] t[i];
                &&& is_path(path)
                &&& host(i as nat, Asked::Resolve { path }) == Answered::Canonical(canon(path))
                &&& rewritten(translator.shares, canon(path)) is Some
            },
    ensures
        translated(translator, now, at, host, at as nat, 1) == Some(
            (translator.drops, seen_by_guest(translator, t, canon), t.len()),
        ),
    decreases t.len() - at,
{
    let seen = seen_by_guest(translator, t, canon);
    if at == t.len() {
        assert(now =~= seen);
    } else {
        let path = t[at];
        assert(now[at] == path);
        let guest = rewritten(translator.shares, canon(path)).unwrap();
        assert(seen[at] == guest);
        assert(located(path, host(at as nat, Asked::Resolve { path })) == Some(canon(path)));
        lemma_shared_path_rewritten(translator, path, canon(path), host, at as nat, 1);
        assert(translator.with_drops(translator.drops) == translator);
        lemma_files_translated(translator, t, now.update(at, guest), at + 1, canon, host);
    }
}

/// A single path that does not exist on the host comes out as it was read.
pub proof fn lemma_dragged_path_kept(
    translator: Translator,
    body: Seq<u8>,
    path: Seq<u8>,
    host: spec_fn(nat, Asked) -> Answered,
    clock: spec_fn(nat) -> Seq<u128>,
    times: Seq<u128>,
)
    requires
        ready(translator),
        timed(pasted(body), times),
        !occurs(PASTE_END@, body),
        fits(body),
        tokens(body).0 == seq![path],
        path.len() > 0 && path[0] == 0x2f,
        forall|i: int| 0 <= i < path.len() ==> #[trigger] path[i] != 0x0a,
        host(0, Asked::Resolve { path }) is No,
    ensures
        ({
            let (first, outcome) = translator.processed(pasted(body), times);
            conversed(first, outcome, host, clock, 0, 1) == (
                translator,
                Outcome::Done(pasted(path)),
            )
        }),
{
    let t = tokens(body).0;
    lemma_what_may_be_a_path(path);
    lemma_missing_path_stays(translator, path, host, 0, 1);
    assert(translator.with_drops(translator.drops) == translator);
    assert(t.update(0, path) =~= t);
    assert(translated(translator, t, 1, host, 1, 1) == Some((translator.drops, t, 1nat)));
    assert(translated(translator, t, 0, host, 0, 1) == Some((translator.drops, t, 1nat)));
    lemma_paste_translated(translator, body, host, clock, 1, times);
}

} // verus!
