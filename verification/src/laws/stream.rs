//! How the stream of input is read: in pieces or at once, without loss, and paste by paste.

use crate::host::Answered;
use crate::paste::rematched;
use crate::paste::Paste;
use crate::paste::Step;
use crate::paste::PASTE_BUF_LIMIT;
use crate::paste::PASTE_END;
use crate::paste::PASTE_START;
use crate::paste::UNTERMINATED_PASTE_TIMEOUT;
use crate::tokenize::tokens;
use crate::translator::bracketed;
use crate::translator::is_path;
use crate::translator::next_path;
use crate::translator::read_on;
use crate::translator::translate_on;
use crate::translator::Outcome;
use crate::translator::Translator;
use crate::translator::Waiting;
use vstd::prelude::*;

verus! {

/// A byte is neither lost nor doubled: what it sets free and what is held back after it are what
/// was held back before it, and the byte itself. The state stays valid. Where the byte completes
/// a paste, the bytes held back are that paste, marker to marker.
pub proof fn lemma_byte_conserved(paste: Paste, b: u8, now: u128)
    requires
        paste.valid(),
    ensures
        match paste.step(b, now) {
            Step::Forward { next, emitted } => {
                &&& next.valid()
                &&& emitted + next.held() == paste.held().push(b)
            },
            Step::Complete { body } => {
                &&& body.len() <= PASTE_BUF_LIMIT
                &&& paste.held().push(b) == PASTE_START@ + body + PASTE_END@
            },
        },
{
    let held = paste.held().push(b);
    match paste {
        Paste::Outside { matched } => {
            assert(b == PASTE_START@[matched as int] ==> PASTE_START@.take(matched as int).push(b)
                =~= PASTE_START@.take((matched + 1) as int));
        },
        Paste::Inside { body, last_byte, overflow, matched } => {
            assert(b == PASTE_END@[matched as int] ==> PASTE_END@.take(matched as int).push(b)
                =~= PASTE_END@.take((matched + 1) as int));
        },
    }
    match paste.step(b, now) {
        Step::Forward { next, emitted } => {
            assert(emitted + next.held() =~= held);
        },
        Step::Complete { body } => {
            assert(held =~= PASTE_START@ + body + PASTE_END@);
        },
    }
}

/// The input `s`, read at the times `times`, completes no paste that is to be translated.
pub open spec fn completes_no_paste(paste: Paste, s: Seq<u8>, times: Seq<u128>) -> bool
    decreases s.len(),
{
    s.len() > 0 ==> {
        &&& paste.step(s[0], times[0]) matches Step::Forward { next, .. }
        &&& completes_no_paste(next, s.skip(1), times.skip(1))
    }
}

/// Input that completes no paste to be translated goes through as it is, in order and without
/// loss, but for what is held back.
pub proof fn lemma_input_conserved(paste: Paste, out: Seq<u8>, s: Seq<u8>, times: Seq<u128>)
    requires
        paste.valid(),
        completes_no_paste(paste, s, times),
    ensures
        read_on(paste, out, s, times).0.valid(),
        read_on(paste, out, s, times).1 matches Outcome::Done(sent) && sent + read_on(
            paste,
            out,
            s,
            times,
        ).0.held() == out + paste.held() + s,
    decreases s.len(),
{
    if s.len() > 0 {
        lemma_byte_conserved(paste, s[0], times[0]);
        if let Step::Forward { next, emitted } = paste.step(s[0], times[0]) {
            lemma_input_conserved(next, out + emitted, s.skip(1), times.skip(1));
            assert(out + emitted + next.held() + s.skip(1) =~= out + (emitted + next.held())
                + s.skip(1));
            assert(out + paste.held().push(s[0]) + s.skip(1) =~= out + paste.held() + s);
        }
    } else {
        assert(out + paste.held() + s =~= out + paste.held());
    }
}

/// Every state that reading leads to is valid, and every paste that waits for the host has a token
/// that it waits for.
pub proof fn lemma_reading_stays_valid(paste: Paste, out: Seq<u8>, s: Seq<u8>, times: Seq<u128>)
    requires
        paste.valid(),
    ensures
        read_on(paste, out, s, times).0.valid(),
        read_on(paste, out, s, times).1 matches Outcome::Ask(w) ==> 0 <= w.at < w.tokens.len(),
    decreases s.len(), 0int,
{
    if s.len() > 0 {
        let later = times.skip(1);
        lemma_byte_conserved(paste, s[0], times[0]);
        match paste.step(s[0], times[0]) {
            Step::Forward { next, emitted } => {
                lemma_reading_stays_valid(next, out + emitted, s.skip(1), later);
            },
            Step::Complete { body } => {
                let (t, sep) = tokens(body);
                lemma_translating_stays_valid(Paste::idle(), out, s.skip(1), t, 0, sep, later);
            },
        }
    }
}

proof fn lemma_translating_stays_valid(
    paste: Paste,
    out: Seq<u8>,
    s: Seq<u8>,
    t: Seq<Seq<u8>>,
    at: int,
    sep: Seq<u8>,
    times: Seq<u128>,
)
    requires
        paste.valid(),
        0 <= at,
    ensures
        translate_on(paste, out, s, t, at, sep, times).0.valid(),
        translate_on(paste, out, s, t, at, sep, times).1 matches Outcome::Ask(w) ==> 0 <= w.at
            < w.tokens.len(),
    decreases s.len(), 1int,
{
    lemma_next_path(t, at);
    if next_path(t, at) >= t.len() {
        lemma_reading_stays_valid(paste, out + bracketed(t, sep), s, times);
    }
}

/// The next path is at or behind where the search starts.
proof fn lemma_next_path(t: Seq<Seq<u8>>, at: int)
    ensures
        at <= next_path(t, at),
    decreases t.len() - at,
{
    if at < t.len() && !is_path(t[at]) {
        lemma_next_path(t, at + 1);
    }
}

/// The outcome with `more` behind the input that has not been read.
pub open spec fn with_more(w: Waiting, more: Seq<u8>) -> Waiting {
    Waiting {
        out: w.out,
        rest: w.rest + more,
        tokens: w.tokens,
        at: w.at,
        sep: w.sep,
        inquiry: w.inquiry,
    }
}

/// The outcome with `sent` in front of what is forwarded.
pub open spec fn after(sent: Seq<u8>, outcome: Outcome) -> Outcome {
    match outcome {
        Outcome::Done(out) => Outcome::Done(sent + out),
        Outcome::Ask(w) => Outcome::Ask(
            Waiting {
                out: sent + w.out,
                rest: w.rest,
                tokens: w.tokens,
                at: w.at,
                sep: w.sep,
                inquiry: w.inquiry,
            },
        ),
    }
}

/// What has been forwarded before does not matter for what follows.
pub proof fn lemma_read_after(
    paste: Paste,
    sent: Seq<u8>,
    out: Seq<u8>,
    s: Seq<u8>,
    times: Seq<u128>,
)
    ensures
        read_on(paste, sent + out, s, times) == (
            read_on(paste, out, s, times).0,
            after(sent, read_on(paste, out, s, times).1),
        ),
    decreases s.len(), 0int,
{
    if s.len() > 0 {
        let later = times.skip(1);
        match paste.step(s[0], times[0]) {
            Step::Forward { next, emitted } => {
                assert(sent + out + emitted =~= sent + (out + emitted));
                lemma_read_after(next, sent, out + emitted, s.skip(1), later);
            },
            Step::Complete { body } => {
                let (t, sep) = tokens(body);
                lemma_translate_after(Paste::idle(), sent, out, s.skip(1), t, 0, sep, later);
            },
        }
    }
}

proof fn lemma_translate_after(
    paste: Paste,
    sent: Seq<u8>,
    out: Seq<u8>,
    s: Seq<u8>,
    t: Seq<Seq<u8>>,
    at: int,
    sep: Seq<u8>,
    times: Seq<u128>,
)
    ensures
        translate_on(paste, sent + out, s, t, at, sep, times) == (
            translate_on(paste, out, s, t, at, sep, times).0,
            after(sent, translate_on(paste, out, s, t, at, sep, times).1),
        ),
    decreases s.len(), 1int,
{
    if next_path(t, at) >= t.len() {
        let text = bracketed(t, sep);
        assert(sent + out + text =~= sent + (out + text));
        lemma_read_after(paste, sent, out + text, s, times);
    }
}

/// What becomes of `read`, the outcome of a first part of the input, when `more` follows, read at
/// the times `times`.
pub open spec fn followed(read: (Paste, Outcome), more: Seq<u8>, times: Seq<u128>) -> (
    Paste,
    Outcome,
) {
    match read.1 {
        Outcome::Done(out) => read_on(read.0, out, more, times),
        Outcome::Ask(w) => (read.0, Outcome::Ask(with_more(w, more))),
    }
}

/// Input may arrive in pieces: reading `a`, and later `b`, is reading `a` and `b` together.
proof fn lemma_read_split(
    paste: Paste,
    out: Seq<u8>,
    a: Seq<u8>,
    b: Seq<u8>,
    first: Seq<u128>,
    second: Seq<u128>,
)
    requires
        first.len() == a.len(),
    ensures
        read_on(paste, out, a + b, first + second) == followed(
            read_on(paste, out, a, first),
            b,
            second,
        ),
    decreases a.len(), 0int,
{
    let ab = a + b;
    let times = first + second;
    if a.len() == 0 {
        assert(ab =~= b);
        assert(times =~= second);
    } else {
        let later = first.skip(1);
        assert(ab.skip(1) =~= a.skip(1) + b);
        assert(times.skip(1) =~= later + second);
        assert(ab[0] == a[0] && times[0] == first[0]);
        match paste.step(a[0], first[0]) {
            Step::Forward { next, emitted } => {
                lemma_read_split(next, out + emitted, a.skip(1), b, later, second);
            },
            Step::Complete { body } => {
                let (t, sep) = tokens(body);
                lemma_translate_split(
                    Paste::idle(),
                    out,
                    a.skip(1),
                    b,
                    t,
                    0,
                    sep,
                    later,
                    second,
                );
            },
        }
    }
}

proof fn lemma_translate_split(
    paste: Paste,
    out: Seq<u8>,
    a: Seq<u8>,
    b: Seq<u8>,
    t: Seq<Seq<u8>>,
    at: int,
    sep: Seq<u8>,
    first: Seq<u128>,
    second: Seq<u128>,
)
    requires
        first.len() == a.len(),
    ensures
        translate_on(paste, out, a + b, t, at, sep, first + second) == followed(
            translate_on(paste, out, a, t, at, sep, first),
            b,
            second,
        ),
    decreases a.len(), 1int,
{
    if next_path(t, at) >= t.len() {
        lemma_read_split(paste, out + bracketed(t, sep), a, b, first, second);
    }
}

/// What becomes of `read`, the outcome of a first part of the input, when `more` arrives, read at
/// the times `times`.
pub open spec fn processed_then(
    read: (Translator, Outcome),
    more: Seq<u8>,
    times: Seq<u128>,
) -> (Translator, Outcome) {
    match read.1 {
        Outcome::Done(sent) => {
            let (translator, outcome) = read.0.processed(more, times);
            (translator, after(sent, outcome))
        },
        Outcome::Ask(w) => (read.0, Outcome::Ask(with_more(w, more))),
    }
}

/// Input may arrive in pieces. To process `a`, and later `b`, gives what it gives to process `a`
/// and `b` together: the same bytes in the same order, the same questions, and the same state.
pub proof fn lemma_input_may_be_split(
    translator: Translator,
    a: Seq<u8>,
    b: Seq<u8>,
    first: Seq<u128>,
    second: Seq<u128>,
)
    requires
        a.len() > 0,
        b.len() > 0,
        first.len() == a.len(),
    ensures
        translator.processed(a + b, first + second) == processed_then(
            translator.processed(a, first),
            b,
            second,
        ),
{
    let paste = translator.paste;
    lemma_read_split(paste, Seq::empty(), a, b, first, second);
    let (next, outcome) = read_on(paste, Seq::empty(), a, first);
    if let Outcome::Done(sent) = outcome {
        assert(sent + Seq::<u8>::empty() =~= sent);
        lemma_read_after(next, sent, Seq::empty(), b, second);
    }
}

/// Input that arrives while a paste waits for the host may as well arrive afterwards.
pub proof fn lemma_waiting_input_may_be_split(
    translator: Translator,
    waiting: Waiting,
    answer: Answered,
    more: Seq<u8>,
    first: Seq<u128>,
    second: Seq<u128>,
)
    requires
        translator.enabled,
        more.len() > 0,
        first.len() == waiting.rest.len(),
    ensures
        translator.resumed(with_more(waiting, more), answer, first + second) == processed_then(
            translator.resumed(waiting, answer, first),
            more,
            second,
        ),
{
    let (drops, outcome) = translator.answered(waiting, answer);
    if let Outcome::Done(sent) = outcome {
        lemma_read_split(translator.paste, sent, waiting.rest, more, first, second);
        let (paste, read) = read_on(translator.paste, sent, waiting.rest, first);
        if let Outcome::Done(forwarded) = read {
            assert(forwarded + Seq::<u8>::empty() =~= forwarded);
            lemma_read_after(paste, forwarded, Seq::empty(), more, second);
        }
    }
}

/// Whether `marker` stands somewhere in `s`.
pub open spec fn occurs(marker: Seq<u8>, s: Seq<u8>) -> bool {
    exists|i: int|
        0 <= i <= s.len() - marker.len() && #[trigger] s.subrange(i, i + marker.len()) == marker
}

/// Whether `s` ends with a part of `marker` that begins it, and that is neither empty nor whole.
pub open spec fn ends_within(marker: Seq<u8>, s: Seq<u8>) -> bool {
    exists|k: int| 0 < k < marker.len() && #[trigger] marker.take(k).is_suffix_of(s)
}

/// How many bytes of `marker` the end of `s` matches.
spec fn matched_of(marker: Seq<u8>, s: Seq<u8>) -> nat
    decreases s.len(),
{
    if s.len() == 0 {
        0
    } else {
        let m = matched_of(marker, s.drop_last());
        if m < marker.len() && s.last() == marker[m as int] {
            m + 1
        } else {
            rematched(s.last(), marker)
        }
    }
}

/// The first byte of a marker does not occur in it again.
spec fn is_marker(marker: Seq<u8>) -> bool {
    marker.len() > 1 && forall|k: int| 0 < k < marker.len() ==> #[trigger] marker[k] != marker[0]
}

proof fn lemma_markers()
    ensures
        is_marker(PASTE_START@),
        is_marker(PASTE_END@),
        PASTE_START@.len() == 6,
        PASTE_END@.len() == 6,
        PASTE_START@[0] == PASTE_END@[0],
{
}

proof fn lemma_matched_of(marker: Seq<u8>, s: Seq<u8>)
    requires
        is_marker(marker),
    ensures
        matched_of(marker, s) <= marker.len(),
        matched_of(marker, s) <= s.len(),
        marker.take(matched_of(marker, s) as int) == s.subrange(
            s.len() - matched_of(marker, s),
            s.len() as int,
        ),
        !occurs(marker, s) ==> matched_of(marker, s) < marker.len(),
    decreases s.len(),
{
    if s.len() > 0 {
        let before = s.drop_last();
        lemma_matched_of(marker, before);
        let m = matched_of(marker, before);
        let n = matched_of(marker, s);
        assert(marker.take(n as int) =~= s.subrange(s.len() - n, s.len() as int)) by {
            if n > 0 {
                assert forall|i: int| 0 <= i < n implies marker[i] == s[s.len() - n + i] by {
                    if i < n - 1 {
                        assert(marker.take(m as int)[i] == before.subrange(
                            before.len() - m,
                            before.len() as int,
                        )[i]);
                    }
                }
            }
        }
        if n == marker.len() {
            assert(marker.take(n as int) =~= marker);
            assert(s.subrange(s.len() - n, s.len() - n + marker.len()) == marker);
        }
    } else {
        assert(marker.take(0) =~= s.subrange(0, 0));
    }
}

/// A part of the input holds no marker that the whole does not hold.
proof fn lemma_occurs_before(marker: Seq<u8>, s: Seq<u8>)
    requires
        s.len() > 0,
        !occurs(marker, s),
    ensures
        !occurs(marker, s.drop_last()),
{
    let before = s.drop_last();
    if occurs(marker, before) {
        let i = choose|i: int|
            0 <= i <= before.len() - marker.len() && #[trigger] before.subrange(i, i + marker.len())
                == marker;
        assert(s.subrange(i, i + marker.len()) =~= before.subrange(i, i + marker.len()));
    }
}

proof fn lemma_ends_within(marker: Seq<u8>, s: Seq<u8>)
    requires
        is_marker(marker),
        !occurs(marker, s),
    ensures
        ends_within(marker, s) <==> matched_of(marker, s) > 0,
{
    lemma_matched_of(marker, s);
    let m = matched_of(marker, s) as int;
    if m > 0 {
        assert(marker.take(m).is_suffix_of(s));
    }
    if ends_within(marker, s) {
        let k = choose|k: int| 0 < k < marker.len() && #[trigger] marker.take(k).is_suffix_of(s);
        lemma_suffix_is_matched(marker, s, k);
    }
}

proof fn lemma_suffix_is_matched(marker: Seq<u8>, s: Seq<u8>, k: int)
    requires
        is_marker(marker),
        !occurs(marker, s),
        0 < k < marker.len(),
        marker.take(k).is_suffix_of(s),
    ensures
        matched_of(marker, s) == k,
    decreases k,
{
    let before = s.drop_last();
    lemma_occurs_before(marker, s);
    lemma_matched_of(marker, before);
    assert(s.last() == marker.take(k)[k - 1]) by {
        assert(s.subrange(s.len() - k, s.len() as int)[k - 1] == s.last());
    }
    if k > 1 {
        assert(marker.take(k - 1).is_suffix_of(before)) by {
            assert(before.subrange(before.len() - (k - 1), before.len() as int)
                =~= s.subrange(s.len() - k, s.len() as int).take(k - 1));
            assert(marker.take(k).take(k - 1) =~= marker.take(k - 1));
        }
        lemma_suffix_is_matched(marker, before, k - 1);
    }
}

/// Text that holds no start marker goes through as it is. Only what may still become a start
/// marker is held back: the longest end of the text that begins one.
pub proof fn lemma_text_passes(text: Seq<u8>, out: Seq<u8>, times: Seq<u128>)
    requires
        times.len() >= text.len(),
        !occurs(PASTE_START@, text),
    ensures
        ({
            let (paste, outcome) = read_on(Paste::idle(), out, text, times);
            &&& paste matches Paste::Outside { matched }
            &&& matched < PASTE_START@.len()
            &&& PASTE_START@.take(matched as int).is_suffix_of(text)
            &&& forall|k: int|
                matched < k < PASTE_START@.len() ==> !(#[trigger] PASTE_START@.take(
                    k,
                )).is_suffix_of(text)
            &&& outcome matches Outcome::Done(sent) && sent + paste.held() == out + text
            &&& !ends_within(PASTE_START@, text) ==> outcome == Outcome::Done(out + text)
        }),
{
    lemma_markers();
    lemma_text_state(text, out, times);
    lemma_matched_of(PASTE_START@, text);
    lemma_ends_within(PASTE_START@, text);
    let (paste, outcome) = read_on(Paste::idle(), out, text, times);
    let matched = matched_of(PASTE_START@, text);
    assert forall|k: int| matched < k < PASTE_START@.len() implies !(#[trigger] PASTE_START@.take(
        k,
    )).is_suffix_of(text) by {
        if PASTE_START@.take(k).is_suffix_of(text) {
            lemma_suffix_is_matched(PASTE_START@, text, k);
        }
    }
    if let Outcome::Done(sent) = outcome {
        if !ends_within(PASTE_START@, text) {
            assert(sent + paste.held() =~= sent);
        }
    }
}

proof fn lemma_text_state(text: Seq<u8>, out: Seq<u8>, times: Seq<u128>)
    requires
        times.len() >= text.len(),
        !occurs(PASTE_START@, text),
    ensures
        read_on(Paste::idle(), out, text, times).0 == (Paste::Outside {
            matched: matched_of(PASTE_START@, text),
        }),
        read_on(Paste::idle(), out, text, times).1 matches Outcome::Done(sent) && sent + read_on(
            Paste::idle(),
            out,
            text,
            times,
        ).0.held() == out + text,
    decreases text.len(),
{
    lemma_markers();
    if text.len() == 0 {
        assert(out + PASTE_START@.take(0) =~= out + text);
    } else {
        let before = text.drop_last();
        let b = text.last();
        let first = times.take(before.len() as int);
        let second = times.skip(before.len() as int);
        let now = second[0];
        lemma_occurs_before(PASTE_START@, text);
        lemma_text_state(before, out, first);
        lemma_matched_of(PASTE_START@, text);
        lemma_matched_of(PASTE_START@, before);
        assert(text =~= before + seq![b]);
        assert(times =~= first + second);
        lemma_read_split(Paste::idle(), out, before, seq![b], first, second);
        let (paste, outcome) = read_on(Paste::idle(), out, before, first);
        if let Outcome::Done(sent) = outcome {
            lemma_byte_conserved(paste, b, now);
            lemma_read_one(paste, sent, b, second);
            if let Step::Forward { next, emitted } = paste.step(b, now) {
                assert(sent + emitted + next.held() =~= sent + (emitted + next.held()));
                assert(sent + paste.held().push(b) =~= (sent + paste.held()).push(b));
                assert((out + before).push(b) =~= out + text);
            }
        }
    }
}

/// What becomes of a single byte that completes no paste.
proof fn lemma_read_one(paste: Paste, out: Seq<u8>, b: u8, times: Seq<u128>)
    ensures
        paste.step(b, times[0]) matches Step::Forward { next, emitted } ==> read_on(
            paste,
            out,
            seq![b],
            times,
        ) == (next, Outcome::Done(out + emitted)),
{
    if let Step::Forward { next, emitted } = paste.step(b, times[0]) {
        assert(seq![b].skip(1).len() == 0);
        assert(read_on(paste, out, seq![b], times) == read_on(
            next,
            out + emitted,
            seq![b].skip(1),
            times.skip(1),
        ));
    }
}

/// A paste that has just been opened.
spec fn opened_at(now: u128) -> Paste {
    Paste::Inside { body: Seq::empty(), last_byte: now, overflow: false, matched: 0 }
}

/// Where reading the body of a paste leads that was opened at time `start`.
proof fn lemma_body_state(body: Seq<u8>, out: Seq<u8>, start: u128, times: Seq<u128>)
    requires
        times.len() >= body.len(),
        !occurs(PASTE_END@, body),
    ensures
        ({
            let (paste, outcome) = read_on(opened_at(start), out, body, times);
            &&& paste.valid()
            &&& paste matches Paste::Inside { body: kept, last_byte, overflow, matched }
            &&& last_byte == if body.len() == 0 {
                start
            } else {
                times[body.len() - 1]
            }
            &&& matched == matched_of(PASTE_END@, body)
            &&& overflow ==> body.len() > PASTE_BUF_LIMIT
            &&& !overflow ==> kept + PASTE_END@.take(matched as int) == body
            &&& outcome matches Outcome::Done(sent) && sent + paste.held() == out + PASTE_START@
                + body && (!overflow ==> sent == out)
        }),
    decreases body.len(),
{
    lemma_markers();
    if body.len() == 0 {
        assert(out + (PASTE_START@ + body + PASTE_END@.take(0)) =~= out + PASTE_START@ + body);
        assert(body + PASTE_END@.take(0) =~= body);
        assert(body =~= Seq::empty());
    } else {
        let before = body.drop_last();
        let b = body.last();
        let first = times.take(before.len() as int);
        let second = times.skip(before.len() as int);
        let now = second[0];
        lemma_occurs_before(PASTE_END@, body);
        lemma_body_state(before, out, start, first);
        lemma_matched_of(PASTE_END@, body);
        lemma_matched_of(PASTE_END@, before);
        assert(body =~= before + seq![b]);
        assert(times =~= first + second);
        lemma_read_split(opened_at(start), out, before, seq![b], first, second);
        let (paste, outcome) = read_on(opened_at(start), out, before, first);
        if let Outcome::Done(sent) = outcome {
            lemma_byte_conserved(paste, b, now);
            lemma_read_one(paste, sent, b, second);
            assert(paste.step(b, now) is Forward);
            if let Step::Forward { next, emitted } = paste.step(b, now) {
                assert(sent + emitted + next.held() =~= sent + (emitted + next.held()));
                assert(sent + paste.held().push(b) =~= (sent + paste.held()).push(b));
                assert((out + PASTE_START@ + before).push(b) =~= out + PASTE_START@ + body);
                if let Paste::Inside { body: kept, overflow, matched, .. } = paste {
                    assert(b == PASTE_END@[matched as int] ==> PASTE_END@.take(matched as int).push(b)
                        =~= PASTE_END@.take((matched + 1) as int));
                    assert(kept.len() + matched == before.len() || overflow);
                    if let Paste::Inside { body: kept2, overflow: overflow2, matched: matched2, .. } =
                        next {
                        if !overflow2 {
                            assert(kept2 + PASTE_END@.take(matched2 as int) =~= (kept
                                + PASTE_END@.take(matched as int)).push(b));
                            assert(sent + emitted =~= out);
                        }
                    }
                }
            }
        }
    }
}

/// Where the rest of the end marker leads, once a part of it has been matched.
proof fn lemma_end_state(paste: Paste, out: Seq<u8>, rest: Seq<u8>, times: Seq<u128>)
    requires
        paste.valid(),
        paste matches Paste::Inside { matched, .. } && matched > 0 && times.len()
            >= PASTE_END@.len() - matched,
    ensures
        paste matches Paste::Inside { body, overflow, matched, .. } && {
            let later = times.skip(PASTE_END@.len() - matched);
            read_on(paste, out, PASTE_END@.skip(matched as int) + rest, times) == if overflow {
                read_on(Paste::idle(), out + PASTE_END@, rest, later)
            } else {
                translate_on(
                    Paste::idle(),
                    out,
                    rest,
                    tokens(body).0,
                    0,
                    tokens(body).1,
                    later,
                )
            }
        },
    decreases
            PASTE_END@.len() - match paste {
                Paste::Inside { matched, .. } => matched,
                Paste::Outside { .. } => 0,
            },
{
    lemma_markers();
    if let Paste::Inside { body, last_byte, overflow, matched } = paste {
        let input = PASTE_END@.skip(matched as int) + rest;
        assert(input[0] == PASTE_END@[matched as int]);
        assert(input.skip(1) =~= PASTE_END@.skip((matched + 1) as int) + rest);
        if matched + 1 < PASTE_END@.len() {
            let next = Paste::Inside {
                body,
                last_byte: times[0],
                overflow,
                matched: matched + 1,
            };
            lemma_end_state(next, out, rest, times.skip(1));
            assert(times.skip(1).skip(PASTE_END@.len() - matched - 1) =~= times.skip(
                PASTE_END@.len() - matched,
            ));
            assert(out + Seq::<u8>::empty() =~= out);
        } else {
            assert(PASTE_END@.skip((matched + 1) as int) + rest =~= rest);
        }
    }
}

/// Where the rest of the start marker leads, once `k` bytes of it have been matched.
proof fn lemma_start_state(k: nat, out: Seq<u8>, rest: Seq<u8>, times: Seq<u128>)
    requires
        k < PASTE_START@.len(),
        times.len() >= PASTE_START@.len() - k,
    ensures
        read_on(Paste::Outside { matched: k }, out, PASTE_START@.skip(k as int) + rest, times)
            == read_on(
            opened_at(times[PASTE_START@.len() - k - 1]),
            out,
            rest,
            times.skip(PASTE_START@.len() - k),
        ),
    decreases PASTE_START@.len() - k,
{
    lemma_markers();
    let input = PASTE_START@.skip(k as int) + rest;
    assert(input[0] == PASTE_START@[k as int]);
    assert(input.skip(1) =~= PASTE_START@.skip((k + 1) as int) + rest);
    assert(out + Seq::<u8>::empty() =~= out);
    if k + 1 < PASTE_START@.len() {
        lemma_start_state(k + 1, out, rest, times.skip(1));
        assert(times.skip(1).skip(PASTE_START@.len() - k - 1) =~= times.skip(
            PASTE_START@.len() - k,
        ));
    } else {
        assert(PASTE_START@.skip((k + 1) as int) + rest =~= rest);
    }
}

/// Whether a paste with this body is translated: it has to fit into the buffer, with room for one
/// byte more if it ends with what may begin an end marker.
pub open spec fn fits(body: Seq<u8>) -> bool {
    body.len() + if ends_within(PASTE_END@, body) {
        1int
    } else {
        0
    } <= PASTE_BUF_LIMIT
}

/// A paste is taken apart where it was put together. If its body fits into the buffer, exactly
/// that body is translated. If not, the paste goes through as it is, marker to marker. Either way
/// the input behind it is read as input outside a paste.
pub proof fn lemma_paste_framed(body: Seq<u8>, out: Seq<u8>, rest: Seq<u8>, times: Seq<u128>)
    requires
        times.len() >= PASTE_START@.len() + body.len() + PASTE_END@.len(),
        !occurs(PASTE_END@, body),
    ensures
        ({
            let later = times.skip((PASTE_START@.len() + body.len() + PASTE_END@.len()) as int);
            read_on(Paste::idle(), out, PASTE_START@ + body + PASTE_END@ + rest, times) == if fits(
                body,
            ) {
                translate_on(
                    Paste::idle(),
                    out,
                    rest,
                    tokens(body).0,
                    0,
                    tokens(body).1,
                    later,
                )
            } else {
                read_on(Paste::idle(), out + PASTE_START@ + body + PASTE_END@, rest, later)
            }
        }),
{
    lemma_markers();
    lemma_matched_of(PASTE_END@, body);
    lemma_ends_within(PASTE_END@, body);
    let closing = PASTE_END@ + rest;
    let n = body.len() as int;
    let inside = times.skip(6);
    let first = inside.take(n);
    let second = inside.skip(n);
    let start = times[5];
    let now = second[0];
    let later = times.skip(n + 12);
    assert(inside =~= first + second);
    assert(second.skip(1).skip(5) =~= later);
    assert(PASTE_START@ + body + PASTE_END@ + rest =~= PASTE_START@.skip(0) + (body + closing));
    lemma_start_state(0, out, body + closing, times);
    lemma_body_state(body, out, start, first);
    lemma_read_split(opened_at(start), out, body, closing, first, second);
    let (paste, outcome) = read_on(opened_at(start), out, body, first);
    if let Outcome::Done(sent) = outcome {
        if let Paste::Inside { body: kept, overflow, matched, .. } = paste {
            let b = PASTE_END@[0];
            assert(closing[0] == b);
            assert(closing.skip(1) =~= PASTE_END@.skip(1) + rest);
            lemma_byte_conserved(paste, b, now);
            if let Step::Forward { next, emitted } = paste.step(b, now) {
                lemma_end_state(next, sent + emitted, rest, second.skip(1));
                if matched == 0 {
                    assert(kept + PASTE_END@.take(0) =~= kept);
                }
                if let Paste::Inside { body: kept2, overflow: overflow2, .. } = next {
                    if overflow2 {
                        assert(next.held() =~= seq![b]);
                        assert(sent + emitted + seq![b] =~= sent + (emitted + next.held()));
                        assert(sent + paste.held().push(b) =~= (sent + paste.held()).push(b));
                        assert(sent + emitted + PASTE_END@ =~= (sent + emitted + seq![b])
                            + PASTE_END@.skip(1));
                        assert((out + PASTE_START@ + body).push(b) + PASTE_END@.skip(1) =~= out
                            + PASTE_START@ + body + PASTE_END@);
                        assert(!fits(body));
                    } else {
                        assert(kept2 =~= body);
                        assert(sent + emitted =~= out);
                        assert(fits(body));
                    }
                }
            }
        }
    }
}

/// A paste may stand behind any text that holds no start marker, even if the text ends with what may
/// begin one: the text goes through as it is, and the paste is read as it is on its own.
pub proof fn lemma_paste_behind_text(
    text: Seq<u8>,
    tail: Seq<u8>,
    out: Seq<u8>,
    times: Seq<u128>,
)
    requires
        times.len() >= text.len(),
        !occurs(PASTE_START@, text),
    ensures
        read_on(Paste::idle(), out, text + PASTE_START@ + tail, times) == read_on(
            Paste::idle(),
            out + text,
            PASTE_START@ + tail,
            times.skip(text.len() as int),
        ),
{
    lemma_markers();
    let n = text.len() as int;
    let first = times.take(n);
    let second = times.skip(n);
    let opening = PASTE_START@ + tail;
    let b = PASTE_START@[0];
    let now = second[0];
    assert(times =~= first + second);
    assert(text + PASTE_START@ + tail =~= text + opening);
    assert(opening[0] == b);
    lemma_text_state(text, out, first);
    lemma_matched_of(PASTE_START@, text);
    lemma_read_split(Paste::idle(), out, text, opening, first, second);
    let (paste, outcome) = read_on(Paste::idle(), out, text, first);
    if let Outcome::Done(sent) = outcome {
        let matched = matched_of(PASTE_START@, text);
        assert(matched > 0 ==> b != PASTE_START@[matched as int]);
        if let Step::Forward { next, emitted } = paste.step(b, now) {
            assert(next == Paste::Outside { matched: 1 });
            assert(sent + emitted =~= sent + paste.held());
            assert(out + text + Seq::<u8>::empty() =~= out + text);
            assert(Paste::idle().step(b, now) == Step::Forward {
                next: Paste::Outside { matched: 1 },
                emitted: Seq::empty(),
            });
        }
    }
}

/// A translator that is switched off forwards every input as it is, and does nothing else.
pub proof fn lemma_disabled_passes(translator: Translator, input: Seq<u8>, times: Seq<u128>)
    requires
        !translator.enabled,
    ensures
        translator.processed(input, times) == (translator, Outcome::Done(input)),
{
}

/// Text that holds no start marker is forwarded, but for the longest end of it that begins one. That
/// end is held back for as long as it takes: no time makes it come out, only more input does.
pub proof fn lemma_text_forwarded(
    translator: Translator,
    text: Seq<u8>,
    times: Seq<u128>,
    checked: u128,
)
    requires
        translator.enabled,
        translator.paste == Paste::idle(),
        text.len() > 0,
        times.len() >= text.len(),
        !occurs(PASTE_START@, text),
    ensures
        ({
            let (next, outcome) = translator.processed(text, times);
            &&& next.paste matches Paste::Outside { matched }
            &&& next == translator.with_paste(next.paste)
            &&& matched < PASTE_START@.len()
            &&& outcome matches Outcome::Done(sent) && sent + PASTE_START@.take(matched as int)
                == text
            &&& forall|k: int|
                matched < k < PASTE_START@.len() ==> !(#[trigger] PASTE_START@.take(
                    k,
                )).is_suffix_of(text)
            &&& next.processed(Seq::empty(), seq![checked]) == (
                next,
                Outcome::Done(Seq::<u8>::empty()),
            )
        }),
{
    lemma_text_passes(text, Seq::empty(), times);
    assert(Seq::<u8>::empty() + text =~= text);
    let (next, outcome) = translator.processed(text, times);
    assert(next.with_paste(next.paste) == next);
}

/// A paste that is never closed is not lost. Once it has been without a byte for long enough, a
/// call without input gives all of it that has not been forwarded yet, and the translator is ready
/// for the next input. Before that, such a call does nothing. The time that counts is that since
/// the last byte was read.
pub proof fn lemma_unterminated_paste_flushed(
    translator: Translator,
    body: Seq<u8>,
    times: Seq<u128>,
    checked: u128,
)
    requires
        translator.enabled,
        translator.paste == Paste::idle(),
        times.len() == PASTE_START@.len() + body.len(),
        !occurs(PASTE_END@, body),
    ensures
        ({
            let (waiting, outcome) = translator.processed(PASTE_START@ + body, times);
            let (last, late) = waiting.processed(Seq::empty(), seq![checked]);
            &&& outcome is Done
            &&& late is Done
            &&& checked - times.last() >= UNTERMINATED_PASTE_TIMEOUT ==> {
                &&& last == translator
                &&& outcome->Done_0 + late->Done_0 == PASTE_START@ + body
            }
            &&& checked - times.last() < UNTERMINATED_PASTE_TIMEOUT ==> {
                &&& last == waiting
                &&& late->Done_0 == Seq::<u8>::empty()
            }
        }),
{
    lemma_markers();
    assert(PASTE_START@.skip(0) + body =~= PASTE_START@ + body);
    lemma_start_state(0, Seq::empty(), body, times);
    lemma_body_state(body, Seq::empty(), times[5], times.skip(6));
    assert(Seq::<u8>::empty() + PASTE_START@ + body =~= PASTE_START@ + body);
    assert(translator.with_paste(Paste::idle()) == translator);
}

} // verus!
