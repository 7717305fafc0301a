//! Splitting of pasted text into the file names that a drag produces.
//!
//! Terminals write a dragged file name in one of three forms:
//!   1. backslash-escaped: `/foo/My\ File.txt`, several names being separated by blanks;
//!   2. single-quoted, with `'\''` for an apostrophe;
//!   3. plain or double-quoted.

use crate::bytes::memchr;
use crate::bytes::starts_with;
use crate::bytes::texts;
use crate::bytes::to_vec;
use crate::bytes::APOSTROPHE;
use crate::bytes::BACKSLASH;
use crate::bytes::LINE_FEED;
use crate::bytes::QUOTE;
use crate::bytes::SPACE;
use crate::bytes::TAB;
use vstd::prelude::*;

verus! {

/// Whether `c` is white space in ASCII: a space, tab, line feed, form feed or carriage return.
pub open spec fn is_space(c: u8) -> bool {
    c == SPACE || c == TAB || c == LINE_FEED || c == 0x0c || c == 0x0d
}

/// Whether `c` separates names.
pub open spec fn is_blank(c: u8) -> bool {
    c == SPACE || c == TAB
}

/// `s` without the white space at its two ends.
pub open spec fn trimmed(s: Seq<u8>) -> Seq<u8>
    decreases s.len(),
{
    if s.len() > 0 && is_space(s[0]) {
        trimmed(s.skip(1))
    } else if s.len() > 0 && is_space(s.last()) {
        trimmed(s.drop_last())
    } else {
        s
    }
}

/// How a single-quoted string writes an apostrophe: it closes the string, adds an escaped
/// apostrophe, and opens the string again.
pub open spec fn quoted_apostrophe() -> Seq<u8> {
    seq![APOSTROPHE, BACKSLASH, APOSTROPHE, APOSTROPHE]
}

/// What the text between two single quotes stands for.
pub open spec fn single_unquoted(s: Seq<u8>) -> Seq<u8>
    decreases s.len(),
{
    if s.len() == 0 {
        Seq::empty()
    } else if quoted_apostrophe().is_prefix_of(s) {
        seq![APOSTROPHE] + single_unquoted(s.skip(4))
    } else {
        seq![s[0]] + single_unquoted(s.skip(1))
    }
}

/// What the text between two double quotes stands for: a backslash gives the byte after it.
pub open spec fn double_unquoted(s: Seq<u8>) -> Seq<u8>
    decreases s.len(),
{
    if s.len() == 0 {
        Seq::empty()
    } else if s[0] == BACKSLASH && s.len() > 1 {
        seq![s[1]] + double_unquoted(s.skip(2))
    } else {
        seq![s[0]] + double_unquoted(s.skip(1))
    }
}

/// The words of `s`, which blanks separate. A backslash takes the byte after it literally. `open`
/// is the part of the first word that stands before `s`, if a word is open there.
pub open spec fn words(s: Seq<u8>, open: Option<Seq<u8>>) -> Seq<Seq<u8>>
    decreases s.len(),
{
    if s.len() == 0 {
        closed_word(open)
    } else if s[0] == BACKSLASH && s.len() > 1 {
        words(s.skip(2), Some(opened(open).push(s[1])))
    } else if is_blank(s[0]) {
        closed_word(open) + words(s.skip(1), None)
    } else {
        words(s.skip(1), Some(opened(open).push(s[0])))
    }
}

/// The word that ends here, if one is open.
pub open spec fn closed_word(open: Option<Seq<u8>>) -> Seq<Seq<u8>> {
    match open {
        Some(word) => seq![word],
        None => Seq::empty(),
    }
}

/// What the word that goes on here holds so far.
pub open spec fn opened(open: Option<Seq<u8>>) -> Seq<u8> {
    match open {
        Some(word) => word,
        None => Seq::empty(),
    }
}

/// The last blank of `s` that no backslash escapes, or else `before`.
pub open spec fn last_blank(s: Seq<u8>, before: u8) -> u8
    decreases s.len(),
{
    if s.len() == 0 {
        before
    } else if s[0] == BACKSLASH && s.len() > 1 {
        last_blank(s.skip(2), before)
    } else if is_blank(s[0]) {
        last_blank(s.skip(1), s[0])
    } else {
        last_blank(s.skip(1), before)
    }
}

/// Whether `s` begins and ends with the quotation mark `q`.
pub open spec fn is_quoted(s: Seq<u8>, q: u8) -> bool {
    s.len() >= 2 && s[0] == q && s.last() == q
}

/// What `s` holds between its first and last byte.
pub open spec fn inner(s: Seq<u8>) -> Seq<u8> {
    s.subrange(1, s.len() - 1)
}

/// The tokens of a paste, and the separator that stands between them when they are put together
/// again. A text that is quoted as a whole is one token, unless that token would hold a line feed.
pub open spec fn tokens(raw: Seq<u8>) -> (Seq<Seq<u8>>, Seq<u8>) {
    let s = trimmed(raw);
    if s.len() == 0 {
        (seq![s], seq![SPACE])
    } else if is_quoted(s, APOSTROPHE) && !single_unquoted(inner(s)).contains(LINE_FEED) {
        (seq![single_unquoted(inner(s))], seq![SPACE])
    } else if is_quoted(s, QUOTE) && !double_unquoted(inner(s)).contains(LINE_FEED) {
        (seq![double_unquoted(inner(s))], seq![SPACE])
    } else {
        (words(s, None), seq![last_blank(s, SPACE)])
    }
}

fn is_ascii_whitespace(c: u8) -> (r: bool)
    ensures
        r == is_space(c),
{
    c == SPACE || c == TAB || c == LINE_FEED || c == 0x0c || c == 0x0d
}

/// `b` without the white space at its two ends.
pub fn trim_bytes(b: &[u8]) -> (r: &[u8])
    ensures
        r@ == trimmed(b@),
{
    let mut start: usize = 0;
    let mut end: usize = b.len();
    assert(b@.subrange(0, b@.len() as int) =~= b@);
    while start < end && is_ascii_whitespace(b[start])
        invariant
            start <= end <= b@.len(),
            end == b@.len(),
            trimmed(b@) == trimmed(b@.subrange(start as int, end as int)),
        decreases end - start,
    {
        let ghost s = b@.subrange(start as int, end as int);
        assert(s.skip(1) =~= b@.subrange(start + 1, end as int));
        start = start + 1;
    }
    while start < end && is_ascii_whitespace(b[end - 1])
        invariant
            start <= end <= b@.len(),
            start < end ==> !is_space(b@[start as int]),
            trimmed(b@) == trimmed(b@.subrange(start as int, end as int)),
        decreases end - start,
    {
        let ghost s = b@.subrange(start as int, end as int);
        assert(s[0] == b@[start as int]);
        assert(s.last() == b@[end - 1]);
        assert(s.drop_last() =~= b@.subrange(start as int, end - 1));
        end = end - 1;
    }
    &b[start..end]
}

/// What the text between two single quotes stands for.
pub fn unescape_single_quoted(text: &[u8]) -> (r: Vec<u8>)
    ensures
        r@ == single_unquoted(text@),
{
    let apostrophe: [u8; 4] = [APOSTROPHE, BACKSLASH, APOSTROPHE, APOSTROPHE];
    assert(apostrophe@ =~= quoted_apostrophe());
    let mut out: Vec<u8> = Vec::new();
    let mut i: usize = 0;
    assert(text@.skip(0) =~= text@);
    while i < text.len()
        invariant
            i <= text@.len(),
            apostrophe@ == quoted_apostrophe(),
            single_unquoted(text@) =~= out@ + single_unquoted(text@.skip(i as int)),
        decreases text@.len() - i,
    {
        let ghost rest = text@.skip(i as int);
        if starts_with(&text[i..text.len()], apostrophe.as_slice()) {
            assert(text@.subrange(i as int, text@.len() as int) =~= rest);
            out.push(APOSTROPHE);
            assert(rest.skip(4) =~= text@.skip(i + 4));
            i = i + 4;
        } else {
            assert(text@.subrange(i as int, text@.len() as int) =~= rest);
            out.push(text[i]);
            assert(rest.skip(1) =~= text@.skip(i + 1));
            i = i + 1;
        }
    }
    out
}

/// What the text between two double quotes stands for.
pub fn unescape_double_quoted(text: &[u8]) -> (r: Vec<u8>)
    ensures
        r@ == double_unquoted(text@),
{
    let mut out: Vec<u8> = Vec::new();
    let mut i: usize = 0;
    assert(text@.skip(0) =~= text@);
    while i < text.len()
        invariant
            i <= text@.len(),
            double_unquoted(text@) =~= out@ + double_unquoted(text@.skip(i as int)),
        decreases text@.len() - i,
    {
        let ghost rest = text@.skip(i as int);
        if text[i] == BACKSLASH && i + 1 < text.len() {
            out.push(text[i + 1]);
            assert(rest.skip(2) =~= text@.skip(i + 2));
            i = i + 2;
        } else {
            out.push(text[i]);
            assert(rest.skip(1) =~= text@.skip(i + 1));
            i = i + 1;
        }
    }
    out
}

/// The words of `text`, which unescaped blanks separate, and the last of these blanks.
fn split_words(text: &[u8]) -> (r: (Vec<Vec<u8>>, u8))
    ensures
        texts(r.0@) == words(text@, None),
        r.1 == last_blank(text@, SPACE),
{
    let mut found: Vec<Vec<u8>> = Vec::new();
    let mut sep: u8 = SPACE;
    let mut cur: Vec<u8> = Vec::new();
    let mut in_token: bool = false;
    let mut i: usize = 0;
    assert(text@.skip(0) =~= text@);
    assert(texts(found@) =~= Seq::<Seq<u8>>::empty());
    while i < text.len()
        invariant
            i <= text@.len(),
            !in_token ==> cur@.len() == 0,
            words(text@, None) =~= texts(found@) + words(
                text@.skip(i as int),
                if in_token {
                    Some(cur@)
                } else {
                    None
                },
            ),
            last_blank(text@, SPACE) == last_blank(text@.skip(i as int), sep),
        decreases text@.len() - i,
    {
        let b: u8 = text[i];
        let ghost rest = text@.skip(i as int);
        let ghost open: Option<Seq<u8>> = if in_token {
            Some(cur@)
        } else {
            None
        };
        assert(opened(open) =~= cur@);
        if b == BACKSLASH && i + 1 < text.len() {
            in_token = true;
            cur.push(text[i + 1]);
            assert(rest.skip(2) =~= text@.skip(i + 2));
            i = i + 2;
        } else if b == SPACE || b == TAB {
            let ghost before = texts(found@);
            if in_token {
                let mut word: Vec<u8> = Vec::new();
                std::mem::swap(&mut word, &mut cur);
                let ghost w = word@;
                found.push(word);
                in_token = false;
                assert(texts(found@) =~= before.push(w));
            }
            assert(texts(found@) =~= before + closed_word(open));
            sep = b;
            assert(rest.skip(1) =~= text@.skip(i + 1));
            i = i + 1;
        } else {
            in_token = true;
            cur.push(b);
            assert(rest.skip(1) =~= text@.skip(i + 1));
            i = i + 1;
        }
    }
    let ghost before = texts(found@);
    if in_token {
        let ghost w = cur@;
        found.push(cur);
        assert(texts(found@) =~= before.push(w));
    }
    (found, sep)
}

/// A vector that holds one token.
fn single(token: Vec<u8>) -> (r: Vec<Vec<u8>>)
    ensures
        texts(r@) == seq![token@],
{
    let ghost t = token@;
    let mut r: Vec<Vec<u8>> = Vec::new();
    r.push(token);
    assert(texts(r@) =~= seq![t]);
    r
}

/// The tokens of a paste, and the separator that stood between them.
pub fn tokenize(raw: &[u8]) -> (r: (Vec<Vec<u8>>, Vec<u8>))
    ensures
        (texts(r.0@), r.1@) == tokens(raw@),
{
    let text: &[u8] = trim_bytes(raw);
    let mut blank: Vec<u8> = Vec::new();
    if text.len() == 0 {
        blank.push(SPACE);
        assert(blank@ =~= seq![SPACE]);
        return (single(to_vec(text)), blank);
    }
    let first: u8 = text[0];
    let last: u8 = text[text.len() - 1];
    if text.len() >= 2 && first == APOSTROPHE && last == APOSTROPHE {
        let unquoted: Vec<u8> = unescape_single_quoted(&text[1..text.len() - 1]);
        if memchr(LINE_FEED, unquoted.as_slice()).is_none() {
            blank.push(SPACE);
            assert(blank@ =~= seq![SPACE]);
            return (single(unquoted), blank);
        }
    }
    if text.len() >= 2 && first == QUOTE && last == QUOTE {
        let unquoted: Vec<u8> = unescape_double_quoted(&text[1..text.len() - 1]);
        if memchr(LINE_FEED, unquoted.as_slice()).is_none() {
            blank.push(SPACE);
            assert(blank@ =~= seq![SPACE]);
            return (single(unquoted), blank);
        }
    }
    let (found, sep): (Vec<Vec<u8>>, u8) = split_words(text);
    blank.push(sep);
    assert(blank@ =~= seq![last_blank(text@, SPACE)]);
    (found, blank)
}

} // verus!
