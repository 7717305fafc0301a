//! How file names are written in a paste, and that reading gives back what was written.

use crate::bytes::joined;
use crate::bytes::APOSTROPHE;
use crate::bytes::BACKSLASH;
use crate::bytes::LINE_FEED;
use crate::bytes::QUOTE;
use crate::bytes::SPACE;
use crate::bytes::TAB;
use crate::tokenize::closed_word;
use crate::tokenize::double_unquoted;
use crate::tokenize::inner;
use crate::tokenize::is_blank;
use crate::tokenize::is_quoted;
use crate::tokenize::is_space;
use crate::tokenize::last_blank;
use crate::tokenize::opened;
use crate::tokenize::quoted_apostrophe;
use crate::tokenize::single_unquoted;
use crate::tokenize::tokens;
use crate::tokenize::trimmed;
use crate::tokenize::words;
use vstd::prelude::*;

verus! {

/// What stands between the single quotes for `name`: an apostrophe is written as `'\''`.
pub open spec fn single_escaped(name: Seq<u8>) -> Seq<u8>
    decreases name.len(),
{
    if name.len() == 0 {
        Seq::empty()
    } else if name[0] == APOSTROPHE {
        quoted_apostrophe() + single_escaped(name.skip(1))
    } else {
        seq![name[0]] + single_escaped(name.skip(1))
    }
}

/// `name` in single quotes.
pub open spec fn single_quoted(name: Seq<u8>) -> Seq<u8> {
    seq![APOSTROPHE] + single_escaped(name) + seq![APOSTROPHE]
}

/// `name` with a backslash before each byte that is `special`.
pub open spec fn escaped(name: Seq<u8>, special: spec_fn(u8) -> bool) -> Seq<u8>
    decreases name.len(),
{
    if name.len() == 0 {
        Seq::empty()
    } else if special(name[0]) {
        seq![BACKSLASH, name[0]] + escaped(name.skip(1), special)
    } else {
        seq![name[0]] + escaped(name.skip(1), special)
    }
}

/// `name` in double quotes, with a backslash before each byte that is `special`.
pub open spec fn double_quoted(name: Seq<u8>, special: spec_fn(u8) -> bool) -> Seq<u8> {
    seq![QUOTE] + escaped(name, special) + seq![QUOTE]
}

/// The names in order, each with a backslash before every special byte, and with `blank` between
/// each two.
pub open spec fn listed(names: Seq<Seq<u8>>, special: spec_fn(u8) -> bool, blank: u8) -> Seq<u8> {
    joined(names.map_values(|name: Seq<u8>| escaped(name, special)), seq![blank])
}

/// Whether the whole of `s` is read as one quoted name: it both begins and ends with an apostrophe,
/// or both begins and ends with a double quotation mark, and the name holds no line feed.
pub open spec fn reads_as_quoted(s: Seq<u8>) -> bool {
    &&& s.len() >= 2
    &&& {
        let name = s.subrange(1, s.len() - 1);
        ||| s[0] == 0x27 && s[s.len() - 1] == 0x27 && !single_unquoted(name).contains(0x0a)
        ||| s[0] == 0x22 && s[s.len() - 1] == 0x22 && !double_unquoted(name).contains(0x0a)
    }
}

/// A single-quoted name is read as that name, whatever bytes it holds but a line feed.
pub proof fn lemma_single_quoted_name(name: Seq<u8>)
    requires
        !name.contains(LINE_FEED),
    ensures
        tokens(single_quoted(name)) == (seq![name], seq![SPACE]),
{
    let s = single_quoted(name);
    lemma_single_escaped(name);
    assert(s[0] == APOSTROPHE && s.last() == APOSTROPHE);
    assert(trimmed(s) == s);
    assert(inner(s) =~= single_escaped(name));
}

/// Any name is read back from between single quotes.
pub proof fn lemma_single_escaped(name: Seq<u8>)
    ensures
        single_unquoted(single_escaped(name)) == name,
    decreases name.len(),
{
    if name.len() > 0 {
        let rest = name.skip(1);
        let s = single_escaped(name);
        lemma_single_escaped(rest);
        if name[0] == APOSTROPHE {
            assert(s.subrange(0, 4) =~= quoted_apostrophe());
            assert(s.skip(4) =~= single_escaped(rest));
        } else {
            assert(s[0] == name[0]);
            assert(!quoted_apostrophe().is_prefix_of(s)) by {
                if quoted_apostrophe().is_prefix_of(s) {
                    assert(s.subrange(0, 4)[0] == quoted_apostrophe()[0]);
                }
            }
            assert(s.skip(1) =~= single_escaped(rest));
        }
        assert(seq![name[0]] + rest =~= name);
    } else {
        assert(name =~= Seq::empty());
    }
}

/// A double-quoted name is read as that name, whatever bytes it holds but a line feed, as long as
/// its backslashes are escaped. Which other bytes are escaped does not matter.
pub proof fn lemma_double_quoted_name(name: Seq<u8>, special: spec_fn(u8) -> bool)
    requires
        special(BACKSLASH),
        !name.contains(LINE_FEED),
    ensures
        tokens(double_quoted(name, special)) == (seq![name], seq![SPACE]),
{
    let s = double_quoted(name, special);
    lemma_double_escaped(name, special);
    assert(s[0] == QUOTE && s.last() == QUOTE);
    assert(trimmed(s) == s);
    assert(inner(s) =~= escaped(name, special));
}

/// Any name is read back from between double quotes, as long as its backslashes are escaped. Which
/// other bytes are escaped does not matter.
pub proof fn lemma_double_escaped(name: Seq<u8>, special: spec_fn(u8) -> bool)
    requires
        special(BACKSLASH),
    ensures
        double_unquoted(escaped(name, special)) == name,
    decreases name.len(),
{
    if name.len() > 0 {
        let rest = name.skip(1);
        let s = escaped(name, special);
        lemma_double_escaped(rest, special);
        if special(name[0]) {
            assert(s[0] == BACKSLASH && s[1] == name[0]);
            assert(s.skip(2) =~= escaped(rest, special));
        } else {
            assert(s[0] == name[0]);
            assert(s.skip(1) =~= escaped(rest, special));
        }
        assert(seq![name[0]] + rest =~= name);
    } else {
        assert(name =~= Seq::empty());
    }
}

/// Names that are written with a backslash before every blank and every backslash in them, and
/// with a blank between each two, are read as those names, and the blank as their separator. Which
/// other bytes are escaped does not matter. A name at either end must not lose a byte to the
/// trimming of white space, and the whole must not read as a quoted name.
pub proof fn lemma_listed_names(names: Seq<Seq<u8>>, special: spec_fn(u8) -> bool, blank: u8)
    requires
        names.len() > 0,
        forall|i: int| 0 <= i < names.len() ==> (#[trigger] names[i]).len() > 0,
        special(SPACE) && special(TAB) && special(BACKSLASH),
        is_blank(blank),
        is_space(names[0][0]) ==> special(names[0][0]),
        !is_space(names.last().last()),
        !reads_as_quoted(listed(names, special, blank)),
    ensures
        tokens(listed(names, special, blank)) == (
            names,
            seq![
                if names.len() > 1 {
                    blank
                } else {
                    SPACE
                },
            ],
        ),
{
    let s = listed(names, special, blank);
    let parts = names.map_values(|name: Seq<u8>| escaped(name, special));
    lemma_listed_words(names, special, blank, SPACE);
    lemma_escaped_ends(names[0], special);
    lemma_escaped_ends(names.last(), special);
    assert(parts[0] == escaped(names[0], special));
    assert(parts.last() == escaped(names.last(), special));
    lemma_joined_ends(parts, seq![blank]);
    assert(trimmed(s) == s);
}

/// What `escaped` begins and ends with.
proof fn lemma_escaped_ends(name: Seq<u8>, special: spec_fn(u8) -> bool)
    requires
        name.len() > 0,
    ensures
        escaped(name, special).len() > 0,
        escaped(name, special)[0] == if special(name[0]) {
            BACKSLASH
        } else {
            name[0]
        },
        escaped(name, special).last() == name.last(),
    decreases name.len(),
{
    let rest = name.skip(1);
    if rest.len() > 0 {
        lemma_escaped_ends(rest, special);
        assert(rest.last() == name.last());
    } else {
        assert(escaped(rest, special).len() == 0);
    }
}

/// What `joined` begins and ends with.
proof fn lemma_joined_ends(parts: Seq<Seq<u8>>, sep: Seq<u8>)
    requires
        parts.len() > 0,
        parts[0].len() > 0,
        parts.last().len() > 0,
    ensures
        joined(parts, sep).len() > 0,
        joined(parts, sep)[0] == parts[0][0],
        joined(parts, sep).last() == parts.last().last(),
{
    lemma_joined_last(parts, sep);
}

proof fn lemma_joined_last(parts: Seq<Seq<u8>>, sep: Seq<u8>)
    requires
        parts.len() > 0,
        parts.last().len() > 0,
    ensures
        joined(parts, sep).len() > 0,
        joined(parts, sep).last() == parts.last().last(),
    decreases parts.len(),
{
    if parts.len() > 1 {
        assert(parts.skip(1).last() == parts.last());
        lemma_joined_last(parts.skip(1), sep);
    }
}

proof fn lemma_listed_words(
    names: Seq<Seq<u8>>,
    special: spec_fn(u8) -> bool,
    blank: u8,
    before: u8,
)
    requires
        names.len() > 0,
        forall|i: int| 0 <= i < names.len() ==> (#[trigger] names[i]).len() > 0,
        special(SPACE) && special(TAB) && special(BACKSLASH),
        is_blank(blank),
    ensures
        words(listed(names, special, blank), None) == names,
        last_blank(listed(names, special, blank), before) == if names.len() > 1 {
            blank
        } else {
            before
        },
    decreases names.len(),
{
    let parts = names.map_values(|name: Seq<u8>| escaped(name, special));
    let s = listed(names, special, blank);
    let first = names[0];
    assert(parts[0] == escaped(first, special));
    assert(Seq::<u8>::empty() + first =~= first);
    if names.len() == 1 {
        lemma_word(first, special, Seq::empty(), None, before);
        assert(s + Seq::<u8>::empty() =~= s);
        assert(seq![first] =~= names);
    } else {
        let rest = names.skip(1);
        let tail = listed(rest, special, blank);
        assert(parts.skip(1) =~= rest.map_values(|name: Seq<u8>| escaped(name, special)));
        lemma_word(first, special, seq![blank] + tail, None, before);
        assert(s =~= escaped(first, special) + (seq![blank] + tail));
        assert((seq![blank] + tail).skip(1) =~= tail);
        lemma_listed_words(rest, special, blank, blank);
        assert(seq![first] + rest =~= names);
    }
}

/// What an escaped name does to the words that are read.
proof fn lemma_word(
    name: Seq<u8>,
    special: spec_fn(u8) -> bool,
    rest: Seq<u8>,
    open: Option<Seq<u8>>,
    before: u8,
)
    requires
        special(SPACE) && special(TAB) && special(BACKSLASH),
        name.len() > 0,
    ensures
        words(escaped(name, special) + rest, open) == words(rest, Some(opened(open) + name)),
        last_blank(escaped(name, special) + rest, before) == last_blank(rest, before),
    decreases name.len(),
{
    let s = escaped(name, special) + rest;
    let tail = name.skip(1);
    let grown = Some(opened(open).push(name[0]));
    if special(name[0]) {
        assert(s[0] == BACKSLASH && s[1] == name[0]);
        assert(s.skip(2) =~= escaped(tail, special) + rest);
    } else {
        assert(s[0] == name[0]);
        assert(s.skip(1) =~= escaped(tail, special) + rest);
    }
    assert(opened(open).push(name[0]) + tail =~= opened(open) + name);
    if tail.len() > 0 {
        lemma_word(tail, special, rest, grown, before);
    } else {
        assert(escaped(tail, special) + rest =~= rest);
        assert(opened(open).push(name[0]) =~= opened(open) + name);
    }
}

/// Plain words are read as they stand: words without a blank or backslash in them, with a blank
/// between each two.
pub proof fn lemma_plain_words(names: Seq<Seq<u8>>, blank: u8)
    requires
        names.len() > 0,
        forall|i: int| 0 <= i < names.len() ==> is_plain_word(#[trigger] names[i]),
        is_blank(blank),
        !is_space(names[0][0]),
        !is_space(names.last().last()),
        !reads_as_quoted(joined(names, seq![blank])),
    ensures
        tokens(joined(names, seq![blank])).0 == names,
        joined(tokens(joined(names, seq![blank])).0, tokens(joined(names, seq![blank])).1) == joined(
            names,
            seq![blank],
        ),
{
    let special = |b: u8| is_blank(b) || b == BACKSLASH;
    let parts = names.map_values(|name: Seq<u8>| escaped(name, special));
    assert forall|i: int| 0 <= i < names.len() implies parts[i] == names[i] by {
        assert(is_plain_word(names[i]));
        lemma_nothing_escaped(names[i], special);
    }
    assert(parts =~= names);
    assert forall|i: int| 0 <= i < names.len() implies (#[trigger] names[i]).len() > 0 by {
        assert(is_plain_word(names[i]));
    }
    lemma_listed_names(names, special, blank);
}

/// Whether `word` is not empty and holds neither a blank nor a backslash.
pub open spec fn is_plain_word(word: Seq<u8>) -> bool {
    word.len() > 0 && forall|i: int|
        0 <= i < word.len() ==> !is_blank(#[trigger] word[i]) && word[i] != BACKSLASH
}

proof fn lemma_nothing_escaped(word: Seq<u8>, special: spec_fn(u8) -> bool)
    requires
        forall|i: int| 0 <= i < word.len() ==> !special(#[trigger] word[i]),
    ensures
        escaped(word, special) == word,
    decreases word.len(),
{
    if word.len() > 0 {
        lemma_nothing_escaped(word.skip(1), special);
        assert(seq![word[0]] + word.skip(1) =~= word);
    } else {
        assert(word =~= Seq::empty());
    }
}

/// Whatever the text, there is one blank to separate its tokens, and there is at least one token. A
/// single token has a space for that blank. Where there are several, none is empty, and the blank
/// is the last one of the trimmed text that no backslash escapes.
pub proof fn lemma_tokens_shape(raw: Seq<u8>)
    ensures
        tokens(raw).1.len() == 1,
        is_blank(tokens(raw).1[0]),
        tokens(raw).0.len() > 0,
        tokens(raw).0.len() > 1 ==> forall|i: int|
            0 <= i < tokens(raw).0.len() ==> (#[trigger] tokens(raw).0[i]).len() > 0,
        tokens(raw).0.len() == 1 ==> tokens(raw).1 == seq![SPACE],
        tokens(raw).0.len() > 1 ==> tokens(raw).1 == seq![last_blank(trimmed(raw), SPACE)],
{
    let s = trimmed(raw);
    lemma_trimmed_ends(raw);
    lemma_words_shape(s, None);
    lemma_last_blank(s, SPACE);
    if s.len() > 0 {
        lemma_blank_between_words(s, None, SPACE);
    }
}

/// Where a text ends with no blank, an unescaped blank in it stands before a word.
proof fn lemma_blank_between_words(s: Seq<u8>, open: Option<Seq<u8>>, before: u8)
    requires
        s.len() > 0 ==> !is_blank(s.last()),
    ensures
        open is Some || s.len() > 0 ==> words(s, open).len() > 0,
        last_blank(s, before) == before || words(s, open).len() > if open is Some || !is_blank(
            s[0],
        ) {
            1int
        } else {
            0
        },
    decreases s.len(),
{
    if s.len() > 0 {
        if s[0] == BACKSLASH && s.len() > 1 {
            let rest = s.skip(2);
            assert(rest.len() > 0 ==> rest.last() == s.last());
            lemma_blank_between_words(rest, Some(opened(open).push(s[1])), before);
        } else {
            let rest = s.skip(1);
            assert(rest.len() > 0 ==> rest.last() == s.last());
            if is_blank(s[0]) {
                lemma_blank_between_words(rest, None, s[0]);
            } else {
                lemma_blank_between_words(rest, Some(opened(open).push(s[0])), before);
            }
        }
    }
}

/// What is left between the white space neither begins nor ends with white space.
proof fn lemma_trimmed_ends(s: Seq<u8>)
    ensures
        trimmed(s).len() > 0 ==> !is_space(trimmed(s)[0]) && !is_space(trimmed(s).last()),
    decreases s.len(),
{
    if s.len() > 0 && is_space(s[0]) {
        lemma_trimmed_ends(s.skip(1));
    } else if s.len() > 0 && is_space(s.last()) {
        lemma_trimmed_ends(s.drop_last());
    }
}

proof fn lemma_last_blank(s: Seq<u8>, before: u8)
    requires
        is_blank(before),
    ensures
        is_blank(last_blank(s, before)),
    decreases s.len(),
{
    if s.len() > 0 {
        if s[0] == BACKSLASH && s.len() > 1 {
            lemma_last_blank(s.skip(2), before);
        } else if is_blank(s[0]) {
            lemma_last_blank(s.skip(1), s[0]);
        } else {
            lemma_last_blank(s.skip(1), before);
        }
    }
}

/// No word is empty, and there is one where one is open or begins.
proof fn lemma_words_shape(s: Seq<u8>, open: Option<Seq<u8>>)
    requires
        open matches Some(word) ==> word.len() > 0,
    ensures
        forall|i: int| 0 <= i < words(s, open).len() ==> (#[trigger] words(s, open)[i]).len() > 0,
        open is Some || (s.len() > 0 && !is_blank(s[0])) ==> words(s, open).len() > 0,
    decreases s.len(),
{
    if s.len() > 0 {
        if s[0] == BACKSLASH && s.len() > 1 {
            lemma_words_shape(s.skip(2), Some(opened(open).push(s[1])));
        } else if is_blank(s[0]) {
            lemma_words_shape(s.skip(1), None);
            let first = closed_word(open);
            assert forall|i: int| 0 <= i < words(s, open).len() implies (#[trigger] words(
                s,
                open,
            )[i]).len() > 0 by {
                if i >= first.len() {
                    assert(words(s, open)[i] == words(s.skip(1), None)[i - first.len()]);
                }
            }
        } else {
            lemma_words_shape(s.skip(1), Some(opened(open).push(s[0])));
        }
    }
}

/// Whether `s` is white space, and nothing else.
pub open spec fn all_space(s: Seq<u8>) -> bool {
    forall|i: int| 0 <= i < s.len() ==> is_space(#[trigger] s[i])
}

/// White space around a text does not matter.
pub proof fn lemma_white_space_around(before: Seq<u8>, text: Seq<u8>, behind: Seq<u8>)
    requires
        all_space(before),
        all_space(behind),
    ensures
        tokens(before + text + behind) == tokens(text),
{
    lemma_space_before(before, text + behind);
    assert(before + text + behind =~= before + (text + behind));
    lemma_space_behind(text, behind);
}

proof fn lemma_space_before(before: Seq<u8>, text: Seq<u8>)
    requires
        all_space(before),
    ensures
        trimmed(before + text) == trimmed(text),
    decreases before.len(),
{
    if before.len() > 0 {
        assert(is_space(before[0]));
        assert((before + text).skip(1) =~= before.skip(1) + text);
        lemma_space_before(before.skip(1), text);
    } else {
        assert(before + text =~= text);
    }
}

proof fn lemma_space_behind(text: Seq<u8>, behind: Seq<u8>)
    requires
        all_space(behind),
    ensures
        trimmed(text + behind) == trimmed(text),
    decreases text.len() + behind.len(),
{
    let all = text + behind;
    if behind.len() == 0 {
        assert(all =~= text);
    } else if text.len() == 0 {
        assert(is_space(behind[0]));
        assert(all.skip(1) =~= text + behind.skip(1));
        lemma_space_behind(text, behind.skip(1));
    } else if is_space(text[0]) {
        assert(all.skip(1) =~= text.skip(1) + behind);
        lemma_space_behind(text.skip(1), behind);
    } else {
        assert(is_space(behind[behind.len() - 1]));
        assert(all.drop_last() =~= text + behind.drop_last());
        lemma_space_behind(text, behind.drop_last());
    }
}

/// The tokens of a text, put together again.
pub open spec fn rejoined(raw: Seq<u8>) -> Seq<u8> {
    joined(tokens(raw).0, tokens(raw).1)
}

/// Whether `s` holds neither a quotation mark nor a backslash.
pub open spec fn is_unquoted(s: Seq<u8>) -> bool {
    !s.contains(APOSTROPHE) && !s.contains(QUOTE) && !s.contains(BACKSLASH)
}

/// Taking a text without quotation marks and backslashes apart and putting it together again
/// changes nothing the second time. The tokens are then the same, too.
pub proof fn lemma_rejoined_twice(raw: Seq<u8>)
    requires
        is_unquoted(raw),
    ensures
        rejoined(rejoined(raw)) == rejoined(raw),
        tokens(rejoined(raw)).0 == tokens(raw).0,
{
    let s = trimmed(raw);
    lemma_trimmed_ends(raw);
    lemma_trimmed_holds(raw);
    lemma_tokens_shape(raw);
    let names = tokens(raw).0;
    let blank = tokens(raw).1[0];
    assert(tokens(raw).1 =~= seq![blank]);
    let text = joined(names, seq![blank]);
    if s.len() == 0 {
        assert(s =~= Seq::empty());
        assert(text =~= s);
    } else {
        assert forall|i: int| 0 <= i < s.len() implies #[trigger] s[i] != APOSTROPHE && s[i] != QUOTE
            && s[i] != BACKSLASH by {
            assert(raw.contains(s[i]));
        }
        assert(!is_quoted(s, APOSTROPHE) && !is_quoted(s, QUOTE)) by {
            assert(s[0] != APOSTROPHE && s[0] != QUOTE);
        }
        assert(names == words(s, None));
        lemma_words_plain(s, None);
        lemma_words_ends(s, None);
        lemma_words_shape(s, None);
        assert forall|i: int| 0 <= i < names.len() implies is_plain_word(#[trigger] names[i]) by {}
        lemma_joined_ends(names, seq![blank]);
        assert(text[0] == s[0]);
        lemma_plain_words(names, blank);
    }
}

/// What is left between the white space was there before.
proof fn lemma_trimmed_holds(s: Seq<u8>)
    ensures
        forall|i: int| 0 <= i < trimmed(s).len() ==> s.contains(#[trigger] trimmed(s)[i]),
    decreases s.len(),
{
    if s.len() > 0 && is_space(s[0]) {
        let rest = s.skip(1);
        lemma_trimmed_holds(rest);
        assert forall|i: int| 0 <= i < trimmed(s).len() implies s.contains(
            #[trigger] trimmed(s)[i],
        ) by {
            assert(rest.contains(trimmed(rest)[i]));
            let k = choose|k: int| 0 <= k < rest.len() && rest[k] == trimmed(rest)[i];
            assert(s[k + 1] == rest[k]);
        }
    } else if s.len() > 0 && is_space(s.last()) {
        let rest = s.drop_last();
        lemma_trimmed_holds(rest);
        assert forall|i: int| 0 <= i < trimmed(s).len() implies s.contains(
            #[trigger] trimmed(s)[i],
        ) by {
            assert(rest.contains(trimmed(rest)[i]));
            let k = choose|k: int| 0 <= k < rest.len() && rest[k] == trimmed(rest)[i];
            assert(s[k] == rest[k]);
        }
    }
}

/// Whether `s` holds no backslash.
spec fn no_backslash(s: Seq<u8>) -> bool {
    forall|i: int| 0 <= i < s.len() ==> #[trigger] s[i] != BACKSLASH
}

/// The words of a text without backslashes are plain.
proof fn lemma_words_plain(s: Seq<u8>, open: Option<Seq<u8>>)
    requires
        no_backslash(s),
        open matches Some(word) ==> is_plain_word(word),
    ensures
        forall|i: int| 0 <= i < words(s, open).len() ==> is_plain_word(#[trigger] words(s, open)[i]),
    decreases s.len(),
{
    if s.len() > 0 {
        assert(s[0] != BACKSLASH);
        if is_blank(s[0]) {
            lemma_words_plain(s.skip(1), None);
            let first = closed_word(open);
            assert forall|i: int| 0 <= i < words(s, open).len() implies is_plain_word(
                #[trigger] words(s, open)[i],
            ) by {
                if i >= first.len() {
                    assert(words(s, open)[i] == words(s.skip(1), None)[i - first.len()]);
                }
            }
        } else {
            let grown = opened(open).push(s[0]);
            assert(is_plain_word(grown));
            lemma_words_plain(s.skip(1), Some(grown));
            assert(words(s, open) == words(s.skip(1), Some(grown)));
        }
    } else if let Some(word) = open {
        assert(words(s, open) =~= seq![word]);
    }
}

/// What the words of a text without backslashes begin and end with.
proof fn lemma_words_ends(s: Seq<u8>, open: Option<Seq<u8>>)
    requires
        no_backslash(s),
        open matches Some(word) ==> word.len() > 0,
        s.len() == 0 ==> open is Some,
        s.len() > 0 ==> !is_blank(s.last()),
    ensures
        words(s, open).len() > 0,
        open matches Some(word) ==> words(s, open)[0].len() > 0 && words(s, open)[0][0] == word[0],
        open is None && !is_blank(s[0]) ==> words(s, open)[0].len() > 0 && words(s, open)[0][0]
            == s[0],
        words(s, open).last().len() > 0,
        s.len() > 0 ==> words(s, open).last().last() == s.last(),
        s.len() == 0 ==> words(s, open).last().last() == open.unwrap().last(),
    decreases s.len(),
{
    if s.len() > 0 {
        assert(s[0] != BACKSLASH);
        let rest = s.skip(1);
        if rest.len() > 0 {
            assert(rest.last() == s.last());
        }
        if is_blank(s[0]) {
            lemma_words_ends(rest, None);
            assert(words(s, open).last() == words(rest, None).last());
        } else {
            let grown = opened(open).push(s[0]);
            lemma_words_ends(rest, Some(grown));
            assert(grown[0] == if open is Some { open.unwrap()[0] } else { s[0] });
        }
    }
}

} // verus!
