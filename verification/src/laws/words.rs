//! How any text is read, stated on its bytes.

use crate::laws::quoting::reads_as_quoted;
use crate::tokenize::double_unquoted;
use crate::tokenize::is_blank;
use crate::tokenize::last_blank;
use crate::tokenize::opened;
use crate::tokenize::quoted_apostrophe;
use crate::tokenize::single_unquoted;
use crate::tokenize::tokens;
use crate::tokenize::trimmed;
use crate::tokenize::words;
use vstd::prelude::*;

verus! {

/// Whether `c` is white space.
pub open spec fn is_white(c: u8) -> bool {
    c == 0x20 || c == 0x09 || c == 0x0a || c == 0x0c || c == 0x0d
}

/// Whether all of `s` is white space.
pub open spec fn all_white(s: Seq<u8>) -> bool {
    forall|i: int| 0 <= i < s.len() ==> is_white(#[trigger] s[i])
}

/// Whether `s` neither begins nor ends with white space.
pub open spec fn is_trim(s: Seq<u8>) -> bool {
    s.len() > 0 ==> !is_white(s[0]) && !is_white(s[s.len() - 1])
}

/// Trimming takes away the white space at both ends, all of it and nothing else.
pub proof fn lemma_trimmed_text(before: Seq<u8>, text: Seq<u8>, behind: Seq<u8>)
    requires
        all_white(before),
        all_white(behind),
        is_trim(text),
    ensures
        trimmed(before + text + behind) == text,
    decreases before.len() + behind.len(),
{
    let s = before + text + behind;
    if before.len() > 0 {
        assert(is_white(before[0]));
        assert(s.skip(1) =~= before.skip(1) + text + behind);
        lemma_trimmed_text(before.skip(1), text, behind);
    } else if behind.len() > 0 {
        assert(is_white(behind[behind.len() - 1]));
        if text.len() == 0 {
            assert(is_white(behind[0]));
            assert(s.skip(1) =~= before + text + behind.skip(1));
            lemma_trimmed_text(before, text, behind.skip(1));
        } else {
            assert(s[0] == text[0]);
            assert(s.drop_last() =~= before + text + behind.drop_last());
            lemma_trimmed_text(before, text, behind.drop_last());
        }
    } else {
        assert(s =~= text);
    }
}

/// White space alone is read as one empty name.
pub proof fn lemma_white_text(text: Seq<u8>)
    requires
        all_white(text),
    ensures
        tokens(text) == (seq![Seq::<u8>::empty()], seq![0x20u8]),
{
    let none = Seq::<u8>::empty();
    lemma_trimmed_text(text, none, none);
    assert(text + none + none =~= text);
}

/// White space around a text does not matter for how it is read.
pub proof fn lemma_white_around(before: Seq<u8>, text: Seq<u8>, behind: Seq<u8>)
    requires
        all_white(before),
        all_white(behind),
        is_trim(text),
    ensures
        tokens(before + text + behind) == tokens(text),
{
    let none = Seq::<u8>::empty();
    lemma_trimmed_text(before, text, behind);
    lemma_trimmed_text(none, text, none);
    assert(none + text + none =~= text);
}

/// A text that begins and ends with the same quotation mark is one name, what the text between the
/// marks stands for, unless that name would hold a line feed.
pub proof fn lemma_quoted_text(text: Seq<u8>)
    requires
        text.len() >= 2,
    ensures
        ({
            let name = text.subrange(1, text.len() - 1);
            &&& text[0] == 0x27 && text[text.len() - 1] == 0x27 && !single_unquoted(name).contains(
                0x0a,
            ) ==> tokens(text) == (seq![single_unquoted(name)], seq![0x20u8])
            &&& text[0] == 0x22 && text[text.len() - 1] == 0x22 && !double_unquoted(name).contains(
                0x0a,
            ) ==> tokens(text) == (seq![double_unquoted(name)], seq![0x20u8])
        }),
{
    let none = Seq::<u8>::empty();
    assert(none + text + none =~= text);
    if is_trim(text) {
        lemma_trimmed_text(none, text, none);
    }
}

/// How an apostrophe is written between single quotes.
pub open spec fn apostrophe() -> Seq<u8> {
    seq![0x27u8, 0x5c, 0x27, 0x27]
}

/// Whether `part` stands in `s` at the position `i`.
pub open spec fn stands_at(part: Seq<u8>, s: Seq<u8>, i: int) -> bool {
    0 <= i && i + part.len() <= s.len() && s.subrange(i, i + part.len()) == part
}

/// Between single quotes every byte stands for itself, where no `'\''` stands among them.
pub proof fn lemma_single_quotes(a: Seq<u8>)
    requires
        forall|i: int| !#[trigger] stands_at(apostrophe(), a, i),
    ensures
        single_unquoted(a) == a,
    decreases a.len(),
{
    let q = apostrophe();
    assert(q =~= quoted_apostrophe());
    if a.len() > 0 {
        let rest = a.skip(1);
        assert(!q.is_prefix_of(a)) by {
            assert(!stands_at(q, a, 0));
        }
        assert forall|i: int| !#[trigger] stands_at(q, rest, i) by {
            if stands_at(q, rest, i) {
                assert(a.subrange(i + 1, i + 1 + 4) =~= rest.subrange(i, i + 4));
                assert(stands_at(q, a, i + 1));
            }
        }
        lemma_single_quotes(rest);
        assert(seq![a[0]] + rest =~= a);
    } else {
        assert(a =~= Seq::empty());
    }
}

/// Between single quotes `'\''` stands for an apostrophe: up to the first of these the text is kept,
/// and what follows it is read in the same way.
pub proof fn lemma_quoted_apostrophe(a: Seq<u8>, b: Seq<u8>)
    requires
        forall|i: int| i < a.len() ==> !#[trigger] stands_at(apostrophe(), a + apostrophe() + b, i),
    ensures
        single_unquoted(a + apostrophe() + b) == a + seq![0x27u8] + single_unquoted(b),
    decreases a.len(),
{
    let q = apostrophe();
    assert(q =~= quoted_apostrophe());
    let s = a + q + b;
    let read = single_unquoted(b);
    if a.len() > 0 {
        let rest = a.skip(1);
        let next = rest + q + b;
        assert(!q.is_prefix_of(s)) by {
            assert(!stands_at(q, s, 0));
        }
        assert(s.skip(1) =~= next);
        assert(s[0] == a[0]);
        assert forall|i: int| i < rest.len() implies !#[trigger] stands_at(q, next, i) by {
            if stands_at(q, next, i) {
                assert(s.subrange(i + 1, i + 1 + 4) =~= next.subrange(i, i + 4));
                assert(stands_at(q, s, i + 1));
            }
        }
        lemma_quoted_apostrophe(rest, b);
        assert(seq![a[0]] + (rest + seq![0x27u8] + read) =~= a + seq![0x27u8] + read);
    } else {
        assert(s.subrange(0, 4) =~= q);
        assert(s.skip(4) =~= b);
        assert(a + seq![0x27u8] + read =~= seq![0x27u8] + read);
    }
}

/// Between double quotes every byte stands for itself, but for a backslash that is not the last
/// byte, which stands for the byte behind it: up to the first of these the text is kept, and what
/// follows the byte behind it is read in the same way.
pub proof fn lemma_double_quotes(a: Seq<u8>, x: u8, b: Seq<u8>)
    ensures
        (forall|i: int| 0 <= i < a.len() - 1 ==> #[trigger] a[i] != 0x5c) ==> double_unquoted(a)
            == a,
        (forall|i: int| 0 <= i < a.len() ==> #[trigger] a[i] != 0x5c) ==> double_unquoted(
            a + seq![0x5cu8, x] + b,
        ) == a + seq![x] + double_unquoted(b),
    decreases a.len(),
{
    let s = a + seq![0x5cu8, x] + b;
    if a.len() == 0 {
        assert(a =~= Seq::empty());
        assert(s[0] == 0x5c && s[1] == x);
        assert(s.skip(2) =~= b);
        assert(a + seq![x] + double_unquoted(b) =~= seq![x] + double_unquoted(b));
    } else {
        let rest = a.skip(1);
        lemma_double_quotes(rest, x, b);
        assert(seq![a[0]] + rest =~= a);
        if forall|i: int| 0 <= i < a.len() - 1 ==> #[trigger] a[i] != 0x5c {
            assert(a.len() > 1 ==> a[0] != 0x5c);
            assert forall|i: int| 0 <= i < rest.len() - 1 implies #[trigger] rest[i] != 0x5c by {
                assert(rest[i] == a[i + 1]);
            }
        }
        if forall|i: int| 0 <= i < a.len() ==> #[trigger] a[i] != 0x5c {
            assert(s[0] == a[0] && a[0] != 0x5c);
            assert(s.skip(1) =~= rest + seq![0x5cu8, x] + b);
            assert forall|i: int| 0 <= i < rest.len() implies #[trigger] rest[i] != 0x5c by {
                assert(rest[i] == a[i + 1]);
            }
            assert(seq![a[0]] + (rest + seq![x] + double_unquoted(b)) =~= a + seq![x]
                + double_unquoted(b));
        }
    }
}

/// A word as it is written: each of its bytes either with a backslash before it, or as it is.
pub open spec fn written(word: Seq<(bool, u8)>) -> Seq<u8>
    decreases word.len(),
{
    if word.len() == 0 {
        Seq::empty()
    } else if word[0].0 {
        seq![0x5cu8, word[0].1] + written(word.skip(1))
    } else {
        seq![word[0].1] + written(word.skip(1))
    }
}

/// What a word stands for: its bytes, without the backslashes.
pub open spec fn meant(word: Seq<(bool, u8)>) -> Seq<u8> {
    word.map_values(|b: (bool, u8)| b.1)
}

/// Whether every blank and every backslash in the word has a backslash before it. A backslash that
/// is the last byte of the whole text needs none.
pub open spec fn is_writable(word: Seq<(bool, u8)>, ends_text: bool) -> bool {
    &&& word.len() > 0
    &&& forall|i: int|
        0 <= i < word.len() && !(#[trigger] word[i]).0 ==> {
            &&& word[i].1 != 0x20 && word[i].1 != 0x09
            &&& word[i].1 == 0x5c ==> ends_text && i == word.len() - 1
        }
}

/// The words in order, with the gap number `i` behind the word number `i`.
pub open spec fn spaced(all: Seq<Seq<(bool, u8)>>, gaps: Seq<Seq<u8>>) -> Seq<u8>
    decreases all.len(),
{
    if all.len() == 0 {
        Seq::empty()
    } else if all.len() == 1 {
        written(all[0])
    } else {
        written(all[0]) + gaps[0] + spaced(all.skip(1), gaps.skip(1))
    }
}

/// Whether each gap is made of spaces and tabs, and is not empty.
pub open spec fn are_gaps(gaps: Seq<Seq<u8>>) -> bool {
    &&& forall|i: int| 0 <= i < gaps.len() ==> (#[trigger] gaps[i]).len() > 0
    &&& forall|i: int, j: int|
        0 <= i < gaps.len() && 0 <= j < gaps[i].len() ==> #[trigger] gaps[i][j] == 0x20
            || gaps[i][j] == 0x09
}

/// Whether the words can stand in one text.
pub open spec fn are_writable(all: Seq<Seq<(bool, u8)>>) -> bool {
    forall|i: int| 0 <= i < all.len() ==> is_writable(#[trigger] all[i], i == all.len() - 1)
}

/// A text that is not quoted as a whole is taken apart at its spaces and tabs, however many stand
/// together, but for those with a backslash before them. The names are the words between them, of
/// any number and length, without the backslashes that are before a byte. The separator is the last
/// byte of the last gap, or a space if there is none.
pub proof fn lemma_spaced_words(all: Seq<Seq<(bool, u8)>>, gaps: Seq<Seq<u8>>)
    requires
        all.len() > 0,
        gaps.len() == all.len() - 1,
        are_writable(all),
        are_gaps(gaps),
        is_trim(spaced(all, gaps)),
        !reads_as_quoted(spaced(all, gaps)),
    ensures
        tokens(spaced(all, gaps)) == (
            all.map_values(|word: Seq<(bool, u8)>| meant(word)),
            seq![
                if gaps.len() > 0 {
                    gaps.last().last()
                } else {
                    0x20u8
                },
            ],
        ),
{
    let s = spaced(all, gaps);
    let none = Seq::<u8>::empty();
    lemma_words_split(all, gaps, 0x20);
    lemma_trimmed_text(none, s, none);
    assert(none + s + none =~= s);
    assert(is_writable(all[0], 0 == all.len() - 1));
    assert(written(all[0]).len() > 0);
    assert(s.len() > 0);
}

proof fn lemma_words_split(all: Seq<Seq<(bool, u8)>>, gaps: Seq<Seq<u8>>, before: u8)
    requires
        all.len() > 0,
        gaps.len() == all.len() - 1,
        are_writable(all),
        are_gaps(gaps),
    ensures
        words(spaced(all, gaps), None) == all.map_values(|word: Seq<(bool, u8)>| meant(word)),
        last_blank(spaced(all, gaps), before) == if gaps.len() > 0 {
            gaps.last().last()
        } else {
            before
        },
    decreases all.len(),
{
    let first = all[0];
    let means = all.map_values(|word: Seq<(bool, u8)>| meant(word));
    let none = Seq::<u8>::empty();
    assert(is_writable(first, 0 == all.len() - 1));
    assert(none + meant(first) =~= meant(first));
    if all.len() == 1 {
        lemma_word_read(first, none, None, before);
        assert(written(first) + none =~= written(first));
        assert(seq![meant(first)] =~= means);
    } else {
        let rest = all.skip(1);
        let later = gaps.skip(1);
        let tail = spaced(rest, later);
        assert forall|i: int| 0 <= i < rest.len() implies is_writable(
            #[trigger] rest[i],
            i == rest.len() - 1,
        ) by {
            assert(is_writable(all[i + 1], i + 1 == all.len() - 1));
        }
        assert(are_gaps(later)) by {
            assert forall|i: int| 0 <= i < later.len() implies (#[trigger] later[i]).len() > 0 by {
                assert(gaps[i + 1].len() > 0);
            }
            assert forall|i: int, j: int|
                0 <= i < later.len() && 0 <= j < later[i].len() implies #[trigger] later[i][j]
                == 0x20 || later[i][j] == 0x09 by {
                assert(gaps[i + 1][j] == 0x20 || gaps[i + 1][j] == 0x09);
            }
        }
        let gap = gaps[0];
        assert(gap.len() > 0);
        assert forall|j: int| 0 <= j < gap.len() implies is_blank(#[trigger] gap[j]) by {
            assert(gaps[0][j] == 0x20 || gaps[0][j] == 0x09);
        }
        lemma_word_read(first, gap + tail, None, before);
        assert(spaced(all, gaps) =~= written(first) + (gap + tail));
        lemma_gap_read(gap, tail, Some(meant(first)), before);
        lemma_words_split(rest, later, gap.last());
        assert(seq![meant(first)] + rest.map_values(|word: Seq<(bool, u8)>| meant(word)) =~= means);
        if later.len() > 0 {
            assert(later.last() == gaps.last());
        }
    }
}

proof fn lemma_gap_read(gap: Seq<u8>, rest: Seq<u8>, open: Option<Seq<u8>>, before: u8)
    requires
        gap.len() > 0,
        forall|j: int| 0 <= j < gap.len() ==> is_blank(#[trigger] gap[j]),
    ensures
        words(gap + rest, open) == (match open {
            Some(word) => seq![word],
            None => Seq::empty(),
        }) + words(rest, None),
        last_blank(gap + rest, before) == last_blank(rest, gap.last()),
    decreases gap.len(),
{
    let s = gap + rest;
    let later = gap.skip(1);
    assert(is_blank(gap[0]));
    assert(s[0] == gap[0]);
    assert(s.skip(1) =~= later + rest);
    if later.len() > 0 {
        lemma_gap_read(later, rest, None, gap[0]);
        assert(later.last() == gap.last());
        assert(Seq::<Seq<u8>>::empty() + words(rest, None) =~= words(rest, None));
    } else {
        assert(later + rest =~= rest);
    }
}

proof fn lemma_word_read(
    word: Seq<(bool, u8)>,
    rest: Seq<u8>,
    open: Option<Seq<u8>>,
    before: u8,
)
    requires
        is_writable(word, rest.len() == 0),
    ensures
        words(written(word) + rest, open) == words(rest, Some(opened(open) + meant(word))),
        last_blank(written(word) + rest, before) == last_blank(rest, before),
    decreases word.len(),
{
    let s = written(word) + rest;
    let later = word.skip(1);
    let b = word[0].1;
    let grown = opened(open).push(b);
    if word[0].0 {
        assert(s[0] == 0x5c && s[1] == b);
        assert(s.skip(2) =~= written(later) + rest);
    } else {
        assert(s[0] == b);
        assert(s.skip(1) =~= written(later) + rest);
        if b == 0x5c {
            assert(later.len() == 0 && rest.len() == 0);
        }
    }
    assert(grown + meant(later) =~= opened(open) + meant(word));
    if later.len() > 0 {
        assert(is_writable(later, rest.len() == 0)) by {
            assert forall|i: int| 0 <= i < later.len() && !(#[trigger] later[i]).0 implies {
                &&& later[i].1 != 0x20 && later[i].1 != 0x09
                &&& later[i].1 == 0x5c ==> rest.len() == 0 && i == later.len() - 1
            } by {
                assert(later[i] == word[i + 1]);
            }
        }
        lemma_word_read(later, rest, Some(grown), before);
    } else {
        assert(written(later) + rest =~= rest);
        assert(grown =~= opened(open) + meant(word));
    }
}

} // verus!
