use drag_translate::bytes::decimal_digits;
use drag_translate::bytes::join;
use drag_translate::bytes::memchr;
use drag_translate::bytes::same;
use drag_translate::bytes::starts_with;
use drag_translate::paste::PasteState;
use drag_translate::paste::PASTE_START;
use drag_translate::paste::UNTERMINATED_PASTE_TIMEOUT;
use drag_translate::path::file_name;
use drag_translate::path::join_path;
use drag_translate::path::strip_prefix;
use drag_translate::staging::candidate_path;
use drag_translate::staging::numbered_path;
use drag_translate::staging::StageError;
use drag_translate::staging::StageStep;
use drag_translate::tokenize::tokenize;
use drag_translate::tokenize::trim_bytes;
use drag_translate::tokenize::unescape_double_quoted;
use drag_translate::tokenize::unescape_single_quoted;
use drag_translate::DropsStaging;
use drag_translate::Question;

#[test]
fn tokenize_backslash_escaped() {
    let input = b"/Users/dev/My\\ Folder/img.png";
    let (tokens, _) = tokenize(input);
    assert_eq!(tokens.len(), 1);
    assert_eq!(tokens[0], b"/Users/dev/My Folder/img.png");
}

#[test]
fn tokenize_single_quoted() {
    let input = b"'/Users/dev/My Folder/img.png'";
    let (tokens, _) = tokenize(input);
    assert_eq!(tokens.len(), 1);
    assert_eq!(tokens[0], b"/Users/dev/My Folder/img.png");
}

#[test]
fn tokenize_single_quoted_apostrophe() {
    let input = b"'/Users/dev/it'\\''s a file.txt'";
    let (tokens, _) = tokenize(input);
    assert_eq!(tokens.len(), 1);
    assert_eq!(tokens[0], b"/Users/dev/it's a file.txt");
}

#[test]
fn tokenize_multi_token() {
    let input = b"/foo/bar /baz/qux";
    let (tokens, _) = tokenize(input);
    assert_eq!(tokens.len(), 2);
    assert_eq!(tokens[0], b"/foo/bar");
    assert_eq!(tokens[1], b"/baz/qux");
}

#[test]
fn tokenize_multi_backslash() {
    let input = b"/foo/bar\\ one /baz/qux\\ two";
    let (tokens, _) = tokenize(input);
    assert_eq!(tokens.len(), 2);
    assert_eq!(tokens[0], b"/foo/bar one");
    assert_eq!(tokens[1], b"/baz/qux two");
}

#[test]
fn tokenize_double_quoted() {
    let (tokens, sep) = tokenize(b" \"/a b/c\\\"d\" ");
    assert_eq!(tokens, vec![b"/a b/c\"d".to_vec()]);
    assert_eq!(sep, b" ");
}

#[test]
fn tokenize_blank_input() {
    let (tokens, sep) = tokenize(b" \t\r\n");
    assert_eq!(tokens, vec![Vec::new()]);
    assert_eq!(sep, b" ");
    let (tokens, _) = tokenize(b"");
    assert_eq!(tokens, vec![Vec::new()]);
}

#[test]
fn tokenize_keeps_the_last_separator() {
    let (tokens, sep) = tokenize(b"a  b\tc");
    assert_eq!(tokens, vec![b"a".to_vec(), b"b".to_vec(), b"c".to_vec()]);
    assert_eq!(sep, b"\t");
    let (_, sep) = tokenize(b"a\tb c\\\td");
    assert_eq!(sep, b" ");
}

#[test]
fn tokenize_quoted_line_feed_is_split() {
    let (tokens, _) = tokenize(b"'a b\nc'");
    assert_eq!(tokens, vec![b"'a".to_vec(), b"b\nc'".to_vec()]);
    let (tokens, _) = tokenize(b"\"a\n b\"");
    assert_eq!(tokens, vec![b"\"a\n".to_vec(), b"b\"".to_vec()]);
}

#[test]
fn tokenize_lone_quotes_and_backslashes() {
    assert_eq!(tokenize(b"'").0, vec![b"'".to_vec()]);
    assert_eq!(tokenize(b"''").0, vec![Vec::new()]);
    assert_eq!(tokenize(b"a\\").0, vec![b"a\\".to_vec()]);
    assert_eq!(tokenize(b"\\ ").0, vec![b"\\".to_vec()]);
    assert_eq!(tokenize(b"\\  x").0, vec![b" ".to_vec(), b"x".to_vec()]);
}

#[test]
fn white_space_around_does_not_matter() {
    for text in [&b"a b"[..], &b"'a b'"[..], &b""[..], &b"\"x\"\ty"[..]] {
        let mut padded = b" \t\n".to_vec();
        padded.extend_from_slice(text);
        padded.extend_from_slice(b"\r\x0c ");
        assert_eq!(tokenize(&padded), tokenize(text));
    }
}

#[test]
fn tokens_have_their_shape() {
    for text in [&b"a  b\t\tc"[..], &b" "[..], &b"''"[..], &b"\\ \t x"[..], &b"'\n'  y"[..]] {
        let (tokens, sep) = tokenize(text);
        assert_eq!(sep.len(), 1);
        assert!(sep[0] == b' ' || sep[0] == b'\t');
        assert!(!tokens.is_empty());
        assert!(tokens.len() == 1 || tokens.iter().all(|t| !t.is_empty()));
    }
    assert_eq!(tokenize(b"\ta\\\tb\t").1, b" ");
    assert_eq!(tokenize(b"a b\tc\\ d \t").1, b"\t");
}

#[test]
fn markers_are_matched_byte_by_byte() {
    let mut state = PasteState::Pass;
    let mut out = Vec::new();
    for (i, &b) in PASTE_START.iter().enumerate() {
        assert!(state.process_byte(b, 1, &mut out).is_none());
        if i + 1 < PASTE_START.len() {
            assert!(matches!(state, PasteState::MatchingStart { idx } if idx == i + 1));
        }
    }
    assert!(matches!(state, PasteState::InPaste { last_byte: 1, overflow: false, .. }));
    assert!(state.process_byte(0x1b, 2, &mut out).is_none());
    assert!(matches!(state, PasteState::MatchingEnd { idx: 1, last_byte: 2, .. }));
    assert!(state.process_byte(b'x', 3, &mut out).is_none());
    assert!(matches!(&state, PasteState::InPaste { buf, last_byte: 3, .. } if buf == b"\x1bx"));
    state.check_paste_timeout(3 + UNTERMINATED_PASTE_TIMEOUT - 1, &mut out);
    assert!(out.is_empty());
    state.check_paste_timeout(3 + UNTERMINATED_PASTE_TIMEOUT, &mut out);
    assert!(matches!(state, PasteState::Pass));
    assert_eq!(out, b"\x1b[200~\x1bx");
}

#[test]
fn unescaping() {
    assert_eq!(unescape_single_quoted(b"it'\\''s"), b"it's");
    assert_eq!(unescape_single_quoted(b"a'\\'b\\c"), b"a'\\'b\\c");
    assert_eq!(unescape_double_quoted(b"a\\\\b\\\"c\\"), b"a\\b\"c\\");
}

#[test]
fn trimming() {
    assert_eq!(trim_bytes(b" \t\x0ca b\r\n"), b"a b");
    assert_eq!(trim_bytes(b"   "), b"");
    assert_eq!(trim_bytes(b"\x0bx"), b"\x0bx");
}

#[test]
fn byte_helpers() {
    assert_eq!(memchr(b'c', b"abcabc"), Some(2));
    assert_eq!(memchr(b'x', b"abc"), None);
    assert!(starts_with(b"abc", b"ab"));
    assert!(!starts_with(b"ab", b"abc"));
    assert!(same(b"ab", b"ab"));
    assert!(!same(b"ab", b"ac"));
    assert_eq!(decimal_digits(0), b"0");
    assert_eq!(decimal_digits(1009), b"1009");
    assert_eq!(decimal_digits(u64::MAX), b"18446744073709551615");
    let parts = vec![b"a".to_vec(), Vec::new(), b"c".to_vec()];
    assert_eq!(join(&parts, b", "), b"a, , c");
    assert_eq!(join(&Vec::new(), b", "), b"");
}

/// The byte paths agree with the paths of the standard library.
#[test]
fn paths_agree_with_std() {
    let samples = [
        "", "/", "//", ".", "./", "./a", "..", "../a", "a", "a/", "a//b", "a/./b", "a/.", "/a",
        "/a/", "/a/b", "/a//b/", "/a/../b", "/./a", "/.", "/..", "/a/b/c.txt", "/ab", ".a", "a/..",
        "./.", "././a", "/a/./", "a/b/c", "...", "/.../x",
    ];
    for p in samples {
        let path = std::path::Path::new(p);
        let name = path.file_name().map(|n| n.to_str().unwrap().as_bytes().to_vec());
        assert_eq!(file_name(p.as_bytes()), name, "file_name {:?}", p);
        for q in samples {
            let other = std::path::Path::new(q);
            let stripped = path
                .strip_prefix(other)
                .ok()
                .map(|s| s.to_str().unwrap().as_bytes().to_vec());
            assert_eq!(
                strip_prefix(p.as_bytes(), q.as_bytes()),
                stripped,
                "strip_prefix {:?} {:?}",
                p,
                q
            );
            let joined = path.join(other);
            assert_eq!(
                join_path(p.as_bytes(), q.as_bytes()),
                joined.to_str().unwrap().as_bytes(),
                "join {:?} {:?}",
                p,
                q
            );
        }
    }
}

#[test]
fn candidate_names() {
    assert_eq!(candidate_path(b"/d", b"a.txt", 0), b"/d/a.txt");
    assert_eq!(candidate_path(b"/d", b"a.txt", 1), b"/d/a.txt-1");
    assert_eq!(candidate_path(b"/d/", b"a", 12), b"/d/a-12");
    assert_eq!(candidate_path(b"/d", b"\xff", 0), b"/d/\xff");
    assert_eq!(candidate_path(b"/d", b"\xffx", 3), b"/d/\xef\xbf\xbdx-3");
    assert_eq!(numbered_path(b"/d", b"b", 7), b"/d/b-7");
}

#[test]
fn staging_one_file() {
    let mut d = DropsStaging::new(b"/h".to_vec(), b"/g".to_vec());
    let staging = match d.stage(b"/x/y.txt") {
        Ok(s) => s,
        Err(_) => panic!("the file has a name"),
    };
    assert!(matches!(staging.question(), Question::CreateDir { path } if path == b"/h/0"));
    let staging = match staging.answer(true) {
        StageStep::Ask(s) => s,
        _ => panic!("there is more to do"),
    };
    assert!(matches!(staging.question(), Question::Exists { path } if path == b"/h/0/y.txt"));
    assert!(staging.can_take(true));
    let staging = match staging.answer(false) {
        StageStep::Ask(s) => s,
        _ => panic!("there is more to do"),
    };
    assert!(matches!(
        staging.question(),
        Question::HardLink { from, to } if from == b"/x/y.txt" && to == b"/h/0/y.txt"
    ));
    match staging.answer(true) {
        StageStep::Done(guest) => assert_eq!(guest, b"/g/0/y.txt"),
        _ => panic!("the file is there"),
    }
}

#[test]
fn staging_needs_a_base_name() {
    let mut d = DropsStaging::new(b"/h".to_vec(), b"/g".to_vec());
    assert!(matches!(d.stage(b"/"), Err(StageError::NoBasename)));
    assert!(matches!(d.stage(b"/x/.."), Err(StageError::NoBasename)));
    match d.stage(b"/x") {
        Ok(s) => assert!(matches!(s.question(), Question::CreateDir { path } if path == b"/h/2")),
        Err(_) => panic!("the file has a name"),
    }
}
