//! That it does not matter when the bytes of the input are read, nor in which pieces they arrive.
//! Only how long a paste has been without a byte is counted.

use crate::host::Answered;
use crate::host::Asked;
use crate::laws::dragging::conversed;
use crate::laws::stream::after;
use crate::laws::stream::lemma_input_may_be_split;
use crate::laws::stream::lemma_read_after;
use crate::laws::stream::lemma_waiting_input_may_be_split;
use crate::laws::stream::with_more;
use crate::paste::Paste;
use crate::paste::Step;
use crate::tokenize::tokens;
use crate::translator::bracketed;
use crate::translator::next_path;
use crate::translator::read_on;
use crate::translator::translate_on;
use crate::translator::Outcome;
use crate::translator::TokenNext;
use crate::translator::Translator;
use crate::translator::Waiting;
use vstd::prelude::*;

verus! {

/// Whether two states are equal but for the time of the last byte.
pub open spec fn same_but_time(one: Paste, other: Paste) -> bool {
    match one {
        Paste::Outside { matched } => other == one,
        Paste::Inside { body, last_byte, overflow, matched } => {
            &&& other matches Paste::Inside { body: b, last_byte: _, overflow: o, matched: m }
            &&& b == body
            &&& o == overflow
            &&& m == matched
        },
    }
}

/// Whether two translators are equal but for the time of the last byte.
pub open spec fn alike(one: Translator, other: Translator) -> bool {
    &&& one.shares == other.shares
    &&& one.drops == other.drops
    &&& one.enabled == other.enabled
    &&& same_but_time(one.paste, other.paste)
}

/// From states that are equal but for the time of the last byte, the same input is read with the
/// same outcome, whenever its bytes are read, and leads to states that are equal in the same sense.
pub proof fn lemma_reading_alike(
    one: Paste,
    other: Paste,
    out: Seq<u8>,
    s: Seq<u8>,
    times: Seq<u128>,
    others: Seq<u128>,
)
    requires
        same_but_time(one, other),
    ensures
        read_on(one, out, s, times).1 == read_on(other, out, s, others).1,
        same_but_time(read_on(one, out, s, times).0, read_on(other, out, s, others).0),
    decreases s.len(), 0int,
{
    if s.len() > 0 {
        let rest = s.skip(1);
        let later = times.skip(1);
        let others_later = others.skip(1);
        match one.step(s[0], times[0]) {
            Step::Forward { next, emitted } => {
                if let Step::Forward { next: moved, .. } = other.step(s[0], others[0]) {
                    lemma_reading_alike(next, moved, out + emitted, rest, later, others_later);
                }
            },
            Step::Complete { body } => {
                let (t, sep) = tokens(body);
                lemma_translating_alike(out, rest, t, 0, sep, later, others_later);
            },
        }
    }
}

proof fn lemma_translating_alike(
    out: Seq<u8>,
    s: Seq<u8>,
    t: Seq<Seq<u8>>,
    at: int,
    sep: Seq<u8>,
    times: Seq<u128>,
    others: Seq<u128>,
)
    ensures
        translate_on(Paste::idle(), out, s, t, at, sep, times).1 == translate_on(
            Paste::idle(),
            out,
            s,
            t,
            at,
            sep,
            others,
        ).1,
        same_but_time(
            translate_on(Paste::idle(), out, s, t, at, sep, times).0,
            translate_on(Paste::idle(), out, s, t, at, sep, others).0,
        ),
    decreases s.len(), 1int,
{
    if next_path(t, at) >= t.len() {
        let sent = out + bracketed(t, sep);
        lemma_reading_alike(Paste::idle(), Paste::idle(), sent, s, times, others);
    }
}

/// Translators that are equal but for the time of the last byte take the same input with the same
/// outcome, whenever its bytes are read, and stay equal in the same sense.
pub proof fn lemma_input_alike(
    one: Translator,
    other: Translator,
    input: Seq<u8>,
    times: Seq<u128>,
    others: Seq<u128>,
)
    requires
        alike(one, other),
        input.len() > 0,
    ensures
        one.processed(input, times).1 == other.processed(input, others).1,
        alike(one.processed(input, times).0, other.processed(input, others).0),
{
    lemma_reading_alike(one.paste, other.paste, Seq::empty(), input, times, others);
}

/// Translators that are equal but for the time of the last byte take the same answer with the same
/// outcome, whenever the input behind the paste is read, and stay equal in the same sense.
pub proof fn lemma_answer_alike(
    one: Translator,
    other: Translator,
    waiting: Waiting,
    answer: Answered,
    times: Seq<u128>,
    others: Seq<u128>,
)
    requires
        alike(one, other),
    ensures
        one.resumed(waiting, answer, times).1 == other.resumed(waiting, answer, others).1,
        alike(one.resumed(waiting, answer, times).0, other.resumed(waiting, answer, others).0),
{
    assert(one.answered(waiting, answer) == other.answered(waiting, answer));
    if let Outcome::Done(sent) = one.answered(waiting, answer).1 {
        lemma_reading_alike(one.paste, other.paste, sent, waiting.rest, times, others);
    }
}

/// What has been forwarded before a paste does not matter for what an answer leads to.
proof fn lemma_answer_after(
    translator: Translator,
    sent: Seq<u8>,
    waiting: Waiting,
    answer: Answered,
    times: Seq<u128>,
)
    ensures
        after(sent, Outcome::Ask(waiting)) matches Outcome::Ask(behind) && translator.resumed(
            behind,
            answer,
            times,
        ) == (
            translator.resumed(waiting, answer, times).0,
            after(sent, translator.resumed(waiting, answer, times).1),
        ),
{
    let (drops, next) = translator.token_next(waiting.token(), waiting.inquiry, answer);
    if let TokenNext::Becomes(token) = next {
        let t = waiting.tokens.update(waiting.at, token);
        if next_path(t, waiting.at + 1) >= t.len() {
            let text = bracketed(t, waiting.sep);
            let out = waiting.out + text;
            assert(sent + waiting.out + text =~= sent + out);
            lemma_read_after(translator.paste, sent, out, waiting.rest, times);
        }
    }
}

/// A host whose answers depend on the questions alone.
pub open spec fn steady(answers: spec_fn(Asked) -> Answered) -> spec_fn(nat, Asked) -> Answered {
    |n: nat, question: Asked| answers(question)
}

/// What has been forwarded before, and when, does not matter for a conversation with the host.
proof fn lemma_conversation_after(
    one: Translator,
    other: Translator,
    sent: Seq<u8>,
    outcome: Outcome,
    answers: spec_fn(Asked) -> Answered,
    clock: spec_fn(nat) -> Seq<u128>,
    others: spec_fn(nat) -> Seq<u128>,
    start: nat,
    end: nat,
    other_start: nat,
    other_end: nat,
)
    requires
        alike(one, other),
        end - start == other_end - other_start,
    ensures
        ({
            let (last, told) = conversed(one, outcome, steady(answers), clock, start, end);
            let (other_last, other_told) = conversed(
                other,
                after(sent, outcome),
                steady(answers),
                others,
                other_start,
                other_end,
            );
            &&& alike(last, other_last)
            &&& other_told == after(sent, told)
        }),
    decreases end - start,
{
    if let Outcome::Ask(waiting) = outcome {
        if start < end {
            let host = steady(answers);
            let behind = after(sent, outcome)->Ask_0;
            let answer = answers(waiting.asks());
            assert(behind.asks() == waiting.asks());
            assert(host(start, waiting.asks()) == answer);
            assert(host(other_start, behind.asks()) == answer);
            lemma_answer_after(one, sent, waiting, answer, clock(start));
            lemma_answer_alike(one, other, behind, answer, clock(start), others(other_start));
            let (next, more) = one.resumed(waiting, answer, clock(start));
            let (other_next, other_more) = other.resumed(behind, answer, others(other_start));
            assert(other_more == after(sent, more));
            lemma_conversation_after(
                next,
                other_next,
                sent,
                more,
                answers,
                clock,
                others,
                start + 1,
                end,
                other_start + 1,
                other_end,
            );
        }
    }
}

/// A conversation that has ended stays as it is.
proof fn lemma_conversation_ended(
    translator: Translator,
    outcome: Outcome,
    host: spec_fn(nat, Asked) -> Answered,
    clock: spec_fn(nat) -> Seq<u128>,
    start: nat,
    end: nat,
    later: nat,
)
    requires
        end <= later,
        conversed(translator, outcome, host, clock, start, end).1 is Done,
    ensures
        conversed(translator, outcome, host, clock, start, later) == conversed(
            translator,
            outcome,
            host,
            clock,
            start,
            end,
        ),
    decreases end - start,
{
    if let Outcome::Ask(waiting) = outcome {
        let answer = host(start, waiting.asks());
        let (next, more) = translator.resumed(waiting, answer, clock(start));
        lemma_conversation_ended(next, more, host, clock, start + 1, end, later);
    }
}

/// Any times for `n` bytes.
spec fn some_times(n: nat) -> Seq<u128> {
    Seq::new(n, |i: int| 0u128)
}

/// An answer to a paste with `more` behind it leads where it leads without, as far as the paste and
/// the input before `more` go, and from there on where `more` leads.
proof fn lemma_answer_split(
    one: Translator,
    other: Translator,
    waiting: Waiting,
    answer: Answered,
    more: Seq<u8>,
    times: Seq<u128>,
    others: Seq<u128>,
    second: Seq<u128>,
)
    requires
        alike(one, other),
        one.enabled,
        more.len() > 0,
    ensures
        ({
            let (next, told) = one.resumed(waiting, answer, times);
            let (other_next, other_told) = other.resumed(with_more(waiting, more), answer, others);
            &&& next.enabled
            &&& match told {
                Outcome::Ask(w) => {
                    &&& other_told == Outcome::Ask(with_more(w, more))
                    &&& alike(next, other_next)
                },
                Outcome::Done(sent) => {
                    &&& other_told == after(sent, next.processed(more, second).1)
                    &&& alike(next.processed(more, second).0, other_next)
                },
            }
        }),
{
    let first = some_times(waiting.rest.len());
    let all = with_more(waiting, more);
    lemma_waiting_input_may_be_split(one, waiting, answer, more, first, second);
    lemma_answer_alike(one, one, waiting, answer, times, first);
    lemma_answer_alike(one, other, all, answer, first + second, others);
    let (next, told) = one.resumed(waiting, answer, times);
    let (same, same_told) = one.resumed(waiting, answer, first);
    if let Outcome::Done(sent) = told {
        lemma_input_alike(next, same, more, second, second);
        lemma_alike_transitive(
            next.processed(more, second).0,
            same.processed(more, second).0,
            other.resumed(all, answer, others).0,
        );
    } else {
        lemma_alike_transitive(next, same, other.resumed(all, answer, others).0);
    }
}

proof fn lemma_alike_transitive(a: Translator, b: Translator, c: Translator)
    requires
        alike(a, b),
        alike(b, c),
    ensures
        alike(a, c),
{
}

/// A conversation about a paste with `more` behind it is one about the paste, and then one about
/// `more`.
proof fn lemma_waiting_conversation_split(
    one: Translator,
    other: Translator,
    waiting: Waiting,
    more: Seq<u8>,
    answers: spec_fn(Asked) -> Answered,
    clock: spec_fn(nat) -> Seq<u128>,
    second: Seq<u128>,
    second_clock: spec_fn(nat) -> Seq<u128>,
    others: spec_fn(nat) -> Seq<u128>,
    start: nat,
    end: nat,
    second_end: nat,
    other_start: nat,
    other_end: nat,
)
    requires
        alike(one, other),
        one.enabled,
        more.len() > 0,
        other_end - other_start >= end - start + second_end,
        conversed(one, Outcome::Ask(waiting), steady(answers), clock, start, end).1 is Done,
        ({
            let first = conversed(one, Outcome::Ask(waiting), steady(answers), clock, start, end).0;
            let (next, told) = first.processed(more, second);
            conversed(next, told, steady(answers), second_clock, 0, second_end).1 is Done
        }),
    ensures
        ({
            let host = steady(answers);
            let (first, sent) = conversed(one, Outcome::Ask(waiting), host, clock, start, end);
            let (next, told) = first.processed(more, second);
            let (last, sent2) = conversed(next, told, host, second_clock, 0, second_end);
            let (whole, all) = conversed(
                other,
                Outcome::Ask(with_more(waiting, more)),
                host,
                others,
                other_start,
                other_end,
            );
            &&& alike(last, whole)
            &&& all == Outcome::Done(sent->Done_0 + sent2->Done_0)
        }),
    decreases end - start,
{
    let host = steady(answers);
    let behind = with_more(waiting, more);
    let answer = answers(waiting.asks());
    assert(behind.asks() == waiting.asks());
    assert(host(start, waiting.asks()) == answer);
    assert(host(other_start, behind.asks()) == answer);
    lemma_answer_split(
        one,
        other,
        waiting,
        answer,
        more,
        clock(start),
        others(other_start),
        second,
    );
    let (next, told) = one.resumed(waiting, answer, clock(start));
    let (other_next, other_told) = other.resumed(behind, answer, others(other_start));
    assert(conversed(one, Outcome::Ask(waiting), host, clock, start, end) == conversed(
        next,
        told,
        host,
        clock,
        start + 1,
        end,
    ));
    assert(conversed(other, Outcome::Ask(behind), host, others, other_start, other_end)
        == conversed(other_next, other_told, host, others, other_start + 1, other_end));
    match told {
        Outcome::Ask(w) => {
            lemma_waiting_conversation_split(
                next,
                other_next,
                w,
                more,
                answers,
                clock,
                second,
                second_clock,
                others,
                start + 1,
                end,
                second_end,
                other_start + 1,
                other_end,
            );
        },
        Outcome::Done(sent) => {
            assert(conversed(next, told, host, clock, start + 1, end) == (next, told));
            let (then, then_told) = next.processed(more, second);
            let reached = (other_start + 1 + second_end) as nat;
            lemma_conversation_after(
                then,
                other_next,
                sent,
                then_told,
                answers,
                second_clock,
                others,
                0,
                second_end,
                other_start + 1,
                reached,
            );
            lemma_conversation_ended(
                other_next,
                other_told,
                host,
                others,
                other_start + 1,
                reached,
                other_end,
            );
        },
    }
}

/// Input may arrive in pieces, with the host's answers in between. Let a host answer every question
/// by the question alone. If `a` is settled after at most `first_end` questions, and `b` after it
/// with at most `second_end` more, then `a` and `b` together are settled with no more than both,
/// with the same bytes forwarded in the same order. The translator is then the same, but for the
/// time of the last byte. When the bytes are read does not matter.
pub proof fn lemma_conversation_may_be_joined(
    translator: Translator,
    a: Seq<u8>,
    b: Seq<u8>,
    answers: spec_fn(Asked) -> Answered,
    first: Seq<u128>,
    first_clock: spec_fn(nat) -> Seq<u128>,
    first_end: nat,
    second: Seq<u128>,
    second_clock: spec_fn(nat) -> Seq<u128>,
    second_end: nat,
    times: Seq<u128>,
    clock: spec_fn(nat) -> Seq<u128>,
)
    requires
        a.len() > 0,
        b.len() > 0,
        ({
            let (one, told) = translator.processed(a, first);
            let (middle, sent) = conversed(one, told, steady(answers), first_clock, 0, first_end);
            let (two, more) = middle.processed(b, second);
            &&& sent is Done
            &&& conversed(two, more, steady(answers), second_clock, 0, second_end).1 is Done
        }),
    ensures
        ({
            let host = steady(answers);
            let (one, told) = translator.processed(a, first);
            let (middle, sent) = conversed(one, told, host, first_clock, 0, first_end);
            let (two, more) = middle.processed(b, second);
            let (last, sent2) = conversed(two, more, host, second_clock, 0, second_end);
            let (both, all) = translator.processed(a + b, times);
            let (whole, forwarded) = conversed(both, all, host, clock, 0, first_end + second_end);
            &&& forwarded == Outcome::Done(sent->Done_0 + sent2->Done_0)
            &&& alike(last, whole)
        }),
{
    let host = steady(answers);
    let end = first_end + second_end;
    lemma_input_split(translator, a, b, first, second, times);
    let (one, told) = translator.processed(a, first);
    let (both, all) = translator.processed(a + b, times);
    match told {
        Outcome::Ask(waiting) => {
            lemma_waiting_conversation_split(
                one,
                both,
                waiting,
                b,
                answers,
                first_clock,
                second,
                second_clock,
                clock,
                0,
                first_end,
                second_end,
                0,
                end,
            );
        },
        Outcome::Done(sent) => {
            let (two, more) = one.processed(b, second);
            lemma_conversation_after(
                two,
                both,
                sent,
                more,
                answers,
                second_clock,
                clock,
                0,
                second_end,
                0,
                second_end,
            );
            lemma_conversation_ended(both, all, host, clock, 0, second_end, end);
        },
    }
}

/// To process `a` and `b` together leads where `a` leads, and from there on where `b` leads.
proof fn lemma_input_split(
    translator: Translator,
    a: Seq<u8>,
    b: Seq<u8>,
    first: Seq<u128>,
    second: Seq<u128>,
    times: Seq<u128>,
)
    requires
        a.len() > 0,
        b.len() > 0,
    ensures
        ({
            let (one, told) = translator.processed(a, first);
            let (both, all) = translator.processed(a + b, times);
            match told {
                Outcome::Ask(w) => {
                    &&& one.enabled
                    &&& all == Outcome::Ask(with_more(w, b))
                    &&& alike(one, both)
                },
                Outcome::Done(sent) => {
                    &&& all == after(sent, one.processed(b, second).1)
                    &&& alike(one.processed(b, second).0, both)
                },
            }
        }),
{
    let start = some_times(a.len());
    lemma_input_may_be_split(translator, a, b, start, second);
    lemma_input_alike(translator, translator, a, first, start);
    lemma_input_alike(translator, translator, a + b, start + second, times);
    let (one, told) = translator.processed(a, first);
    let (same, same_told) = translator.processed(a, start);
    let (both, all) = translator.processed(a + b, times);
    if told is Done {
        lemma_input_alike(one, same, b, second, second);
        lemma_alike_transitive(
            one.processed(b, second).0,
            same.processed(b, second).0,
            both,
        );
    } else {
        lemma_alike_transitive(one, same, both);
    }
}

/// If a conversation about a paste with `more` behind it ends, then so does the one about the paste,
/// and the one about `more` after it.
proof fn lemma_waiting_conversation_ends(
    one: Translator,
    other: Translator,
    waiting: Waiting,
    more: Seq<u8>,
    answers: spec_fn(Asked) -> Answered,
    clock: spec_fn(nat) -> Seq<u128>,
    second: Seq<u128>,
    second_clock: spec_fn(nat) -> Seq<u128>,
    others: spec_fn(nat) -> Seq<u128>,
    start: nat,
    end: nat,
    second_end: nat,
    other_start: nat,
    other_end: nat,
)
    requires
        alike(one, other),
        one.enabled,
        more.len() > 0,
        end - start >= other_end - other_start,
        second_end >= other_end - other_start,
        conversed(
            other,
            Outcome::Ask(with_more(waiting, more)),
            steady(answers),
            others,
            other_start,
            other_end,
        ).1 is Done,
    ensures
        ({
            let host = steady(answers);
            let (first, sent) = conversed(one, Outcome::Ask(waiting), host, clock, start, end);
            let (next, told) = first.processed(more, second);
            &&& sent is Done
            &&& conversed(next, told, host, second_clock, 0, second_end).1 is Done
        }),
    decreases other_end - other_start,
{
    let host = steady(answers);
    let behind = with_more(waiting, more);
    let answer = answers(waiting.asks());
    assert(behind.asks() == waiting.asks());
    assert(host(start, waiting.asks()) == answer);
    assert(host(other_start, behind.asks()) == answer);
    lemma_answer_split(
        one,
        other,
        waiting,
        answer,
        more,
        clock(start),
        others(other_start),
        second,
    );
    let (next, told) = one.resumed(waiting, answer, clock(start));
    let (other_next, other_told) = other.resumed(behind, answer, others(other_start));
    assert(conversed(one, Outcome::Ask(waiting), host, clock, start, end) == conversed(
        next,
        told,
        host,
        clock,
        start + 1,
        end,
    ));
    assert(conversed(other, Outcome::Ask(behind), host, others, other_start, other_end)
        == conversed(other_next, other_told, host, others, other_start + 1, other_end));
    match told {
        Outcome::Ask(w) => {
            lemma_waiting_conversation_ends(
                next,
                other_next,
                w,
                more,
                answers,
                clock,
                second,
                second_clock,
                others,
                start + 1,
                end,
                second_end,
                other_start + 1,
                other_end,
            );
        },
        Outcome::Done(sent) => {
            assert(conversed(next, told, host, clock, start + 1, end) == (next, told));
            let (then, then_told) = next.processed(more, second);
            let needed = (other_end - other_start - 1) as nat;
            lemma_conversation_after(
                then,
                other_next,
                sent,
                then_told,
                answers,
                second_clock,
                others,
                0,
                needed,
                other_start + 1,
                other_end,
            );
            lemma_conversation_ended(
                then,
                then_told,
                host,
                second_clock,
                0,
                needed,
                second_end,
            );
        },
    }
}

/// Input that is settled in one piece is settled in two, and the same is forwarded. Let a host
/// answer every question by the question alone. If `a` and `b` together are settled after at most
/// `end` questions, then so is `a`, and `b` after it, with the same bytes forwarded in the same
/// order. The translator is then the same, but for the time of the last byte. When the bytes are
/// read does not matter.
pub proof fn lemma_conversation_may_be_split(
    translator: Translator,
    a: Seq<u8>,
    b: Seq<u8>,
    answers: spec_fn(Asked) -> Answered,
    times: Seq<u128>,
    clock: spec_fn(nat) -> Seq<u128>,
    end: nat,
    first: Seq<u128>,
    first_clock: spec_fn(nat) -> Seq<u128>,
    second: Seq<u128>,
    second_clock: spec_fn(nat) -> Seq<u128>,
)
    requires
        a.len() > 0,
        b.len() > 0,
        ({
            let (both, all) = translator.processed(a + b, times);
            conversed(both, all, steady(answers), clock, 0, end).1 is Done
        }),
    ensures
        ({
            let host = steady(answers);
            let (both, all) = translator.processed(a + b, times);
            let (whole, forwarded) = conversed(both, all, host, clock, 0, end);
            let (one, told) = translator.processed(a, first);
            let (middle, sent) = conversed(one, told, host, first_clock, 0, end);
            let (two, more) = middle.processed(b, second);
            let (last, sent2) = conversed(two, more, host, second_clock, 0, end);
            &&& sent is Done
            &&& sent2 is Done
            &&& forwarded == Outcome::Done(sent->Done_0 + sent2->Done_0)
            &&& alike(last, whole)
        }),
{
    let host = steady(answers);
    lemma_input_split(translator, a, b, first, second, times);
    let (one, told) = translator.processed(a, first);
    let (both, all) = translator.processed(a + b, times);
    match told {
        Outcome::Ask(waiting) => {
            lemma_waiting_conversation_ends(
                one,
                both,
                waiting,
                b,
                answers,
                first_clock,
                second,
                second_clock,
                clock,
                0,
                end,
                end,
                0,
                end,
            );
        },
        Outcome::Done(sent) => {
            let (two, more) = one.processed(b, second);
            lemma_conversation_after(
                two,
                both,
                sent,
                more,
                answers,
                second_clock,
                clock,
                0,
                end,
                0,
                end,
            );
        },
    }
    lemma_conversation_may_be_joined(
        translator,
        a,
        b,
        answers,
        first,
        first_clock,
        end,
        second,
        second_clock,
        end,
        times,
        clock,
    );
    lemma_conversation_ended(both, all, host, clock, 0, end, end + end);
}

} // verus!
