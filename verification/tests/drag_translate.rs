use drag_translate::paste::PASTE_BUF_LIMIT;
use drag_translate::paste::PASTE_END;
use drag_translate::paste::PASTE_START;
use drag_translate::paste::UNTERMINATED_PASTE_TIMEOUT;
use drag_translate::Answer;
use drag_translate::DirectoryShare;
use drag_translate::DragTranslator;
use drag_translate::DropsStaging;
use drag_translate::Progress;
use drag_translate::Question;
use drag_translate::ResolvedShare;

fn translator_no_shares() -> DragTranslator {
    DragTranslator::new(&[], None, true)
}

fn paste(body: &[u8]) -> Vec<u8> {
    let mut v = PASTE_START.to_vec();
    v.extend_from_slice(body);
    v.extend_from_slice(&PASTE_END);
    v
}

/// Processes `input`, with every question answered by `host`.
fn process_with(
    t: &mut DragTranslator,
    input: &[u8],
    host: &mut dyn FnMut(Question) -> Answer,
) -> Vec<u8> {
    let mut progress = t.process(input);
    loop {
        match progress {
            Progress::Done(out) => return out,
            Progress::Ask(pending) => {
                let answer = host(pending.question());
                assert!(pending.can_take(&answer));
                progress = t.resume(pending, answer);
            }
        }
    }
}

/// Processes `input` on a host without files.
fn process_all(t: &mut DragTranslator, input: &[u8]) -> Vec<u8> {
    process_with(t, input, &mut |_| Answer::No)
}

fn share(host: &[u8], canon: Option<&[u8]>, guest: &[u8]) -> ResolvedShare {
    ResolvedShare {
        share: DirectoryShare {
            host: host.to_vec(),
            guest: guest.to_vec(),
            read_only: false,
        },
        canon_host: canon.map(|c| c.to_vec()),
    }
}

/// A host on which every path exists and is its own canonical path, and every file is regular.
fn everything_exists(q: Question) -> Answer {
    match q {
        Question::Resolve { path } => Answer::Canonical(path),
        Question::Exists { .. } => Answer::No,
        _ => Answer::Yes,
    }
}

fn describe(q: &Question) -> String {
    let text = |b: &Vec<u8>| String::from_utf8_lossy(b).into_owned();
    match q {
        Question::Resolve { path } => format!("resolve {}", text(path)),
        Question::IsFile { path } => format!("is_file {}", text(path)),
        Question::CreateDir { path } => format!("create_dir {}", text(path)),
        Question::Exists { path } => format!("exists {}", text(path)),
        Question::HardLink { from, to } => format!("link {} {}", text(from), text(to)),
        Question::Copy { from, to } => format!("copy {} {}", text(from), text(to)),
    }
}

#[test]
fn non_paste_passthrough() {
    let mut t = translator_no_shares();
    let input = b"hello world";
    assert_eq!(process_all(&mut t, input), input);
}

#[test]
fn paste_no_paths_unchanged() {
    let mut t = translator_no_shares();
    let input = paste(b"hello");
    let out = process_all(&mut t, &input);
    assert_eq!(out, input);
}

#[test]
fn paste_fake_path_unchanged() {
    let mut t = translator_no_shares();
    let body = b"/this/path/does/not/exist/at/all/hopefully";
    let input = paste(body);
    let out = process_all(&mut t, &input);
    assert!(out.windows(body.len()).any(|w| w == body));
    assert_eq!(out, input);
}

#[test]
fn split_read_assembles_correctly() {
    let mut t = translator_no_shares();
    let full = paste(b"hello");
    let mut out = Vec::new();
    for &b in &full {
        out.extend(process_all(&mut t, &[b]));
    }
    assert_eq!(out, full);
}

#[test]
fn esc_outside_paste_passthrough() {
    let mut t = translator_no_shares();
    let input = b"\x1b[A";
    let out = process_all(&mut t, input);
    assert_eq!(out, input);
}

#[test]
fn partial_paste_start_mismatch_emitted() {
    let mut t = translator_no_shares();
    let input = b"\x1b[Bhi";
    let out = process_all(&mut t, input);
    assert_eq!(out, b"\x1b[Bhi");
}

#[test]
fn oversize_paste_passthrough() {
    let mut t = translator_no_shares();
    let body = vec![b'x'; PASTE_BUF_LIMIT + 100];
    let input = paste(&body);
    let out = process_all(&mut t, &input);
    assert!(out.windows(10).any(|w| w == &body[..10]));
    assert_eq!(out, input);
}

#[test]
fn share_prefix_rewrite() {
    let shares = [share(b"/tmp", Some(b"/tmp"), b"/root/tmp")];
    let mut t = DragTranslator::new(&shares, None, true);
    let raw_path = b"/tmp/vibe_test_4711".to_vec();
    let wrapped = paste(&raw_path);
    let out = process_with(&mut t, &wrapped, &mut everything_exists);
    let expected_prefix = b"/root/tmp/";
    assert!(
        out.windows(expected_prefix.len())
            .any(|w| w == expected_prefix),
        "expected /root/tmp/ prefix in output: {:?}",
        String::from_utf8_lossy(&out)
    );
    assert_eq!(out, paste(b"/root/tmp/vibe_test_4711"));
}

#[test]
fn disabled_passthrough() {
    let mut t = DragTranslator::new(&[], None, false);
    let host_path = b"/some/host/path";
    let input = paste(host_path);
    let out = process_all(&mut t, &input);
    assert_eq!(out, input);
}

#[test]
fn text_after_paste_passthrough() {
    let mut t = translator_no_shares();
    let mut input = paste(b"hello");
    input.extend_from_slice(b" world");
    let out = process_all(&mut t, &input);
    let expected = {
        let mut e = paste(b"hello");
        e.extend_from_slice(b" world");
        e
    };
    assert_eq!(out, expected);
}

#[test]
fn multiple_pastes_in_sequence() {
    let mut t = translator_no_shares();
    let mut input = paste(b"one");
    input.extend_from_slice(&paste(b"two"));
    let out = process_all(&mut t, &input);
    assert!(out.windows(3).any(|w| w == b"one"));
    assert!(out.windows(3).any(|w| w == b"two"));
    assert_eq!(out, input);
}

#[test]
fn disabled_translator_asks_nothing() {
    let mut t = DragTranslator::new(&[share(b"/a", Some(b"/a"), b"/b")], None, false);
    match t.process(&paste(b"/a/x")) {
        Progress::Done(out) => assert_eq!(out, paste(b"/a/x")),
        Progress::Ask(_) => panic!("nothing is to be asked"),
    }
}

#[test]
fn split_paths_are_rewritten_alike() {
    let shares = [share(b"/tmp", Some(b"/tmp"), b"/guest")];
    let mut input = b"before ".to_vec();
    input.extend_from_slice(&paste(b"/tmp/a /tmp/b"));
    input.extend_from_slice(&paste(b"'/tmp/c d'"));
    input.extend_from_slice(b" after");
    let mut expected = b"before ".to_vec();
    expected.extend_from_slice(&paste(b"/guest/a /guest/b"));
    expected.extend_from_slice(&paste(b"/guest/c d"));
    expected.extend_from_slice(b" after");
    for cut in 1..input.len() {
        let mut t = DragTranslator::new(&shares, None, true);
        let mut out = process_with(&mut t, &input[..cut], &mut everything_exists);
        out.extend(process_with(&mut t, &input[cut..], &mut everything_exists));
        assert_eq!(out, expected);
    }
}

#[test]
fn split_conversations_forward_the_same() {
    let shares = [share(b"/tmp", Some(b"/tmp"), b"/guest")];
    let mut input = b"x".to_vec();
    input.extend_from_slice(&paste(b"/home/a /tmp/b /home/c"));
    input.extend_from_slice(b"y");
    input.extend_from_slice(&paste(b"/home/a"));
    let mut expected = b"x".to_vec();
    expected.extend_from_slice(&paste(b"/mnt/drops/0/a /guest/b /mnt/drops/1/c"));
    expected.extend_from_slice(b"y");
    expected.extend_from_slice(&paste(b"/mnt/drops/2/a"));
    let mut t = DragTranslator::new(&shares, Some(drops()), true);
    assert_eq!(process_with(&mut t, &input, &mut everything_exists), expected);
    for cut in 1..input.len() {
        let mut t = DragTranslator::new(&shares, Some(drops()), true);
        let mut out = process_with(&mut t, &input[..cut], &mut everything_exists);
        out.extend(process_with(&mut t, &input[cut..], &mut everything_exists));
        assert_eq!(out, expected);
        let out = process_with(&mut t, &paste(b"/home/z"), &mut everything_exists);
        assert_eq!(out, paste(b"/mnt/drops/3/z"));
    }
}

#[test]
fn times_do_not_matter_for_what_is_read() {
    let mut input = paste(b"a  b");
    input.extend_from_slice(b"c\x1b[200~d");
    let rising: Vec<u128> = (0..input.len() as u128).map(|i| i * i).collect();
    let mut sent = paste(b"a b");
    sent.push(b'c');
    for times in [rising, vec![0; input.len()], vec![u128::MAX; input.len()]] {
        let mut t = translator_no_shares();
        match t.process_at(&input, &times) {
            Progress::Done(out) => assert_eq!(out, sent),
            Progress::Ask(_) => panic!("nothing is to be asked"),
        }
        match t.process_at(b"\x1b[201~", &[7; 6]) {
            Progress::Done(out) => assert_eq!(out, paste(b"d")),
            Progress::Ask(_) => panic!("nothing is to be asked"),
        }
    }
}

#[test]
fn held_back_start_marker_is_forwarded_later() {
    let mut t = translator_no_shares();
    assert_eq!(process_all(&mut t, b"a\x1b[20"), b"a");
    assert_eq!(process_all(&mut t, b""), b"");
    assert_eq!(process_all(&mut t, b"x"), b"\x1b[20x");
    assert_eq!(process_all(&mut t, b"\x1b\x1b[A"), b"\x1b\x1b[A");
}

#[test]
fn escape_sequences_inside_a_paste_are_kept() {
    let mut t = translator_no_shares();
    let input = paste(b"a\x1b[31mred\x1b[20\x1b[200~b\x1b");
    assert_eq!(process_all(&mut t, &input), input);
}

#[test]
fn paste_limit_is_exact() {
    let shares = [share(b"/tmp", Some(b"/tmp"), b"/guest")];
    let mut body = b"/tmp/".to_vec();
    body.resize(PASTE_BUF_LIMIT, b'x');
    let mut t = DragTranslator::new(&shares, None, true);
    let out = process_with(&mut t, &paste(&body), &mut everything_exists);
    let mut guest = b"/guest/".to_vec();
    guest.extend_from_slice(&body[5..]);
    assert_eq!(out, paste(&guest));
    body.push(b'x');
    let out = process_with(&mut t, &paste(&body), &mut everything_exists);
    assert_eq!(out, paste(&body));
    body.truncate(PASTE_BUF_LIMIT - 1);
    body.push(0x1b);
    let out = process_with(&mut t, &paste(&body), &mut everything_exists);
    assert_eq!(out, paste(&body));
}

#[test]
fn oversize_paste_with_escapes_is_unchanged() {
    let mut t = translator_no_shares();
    let mut body = vec![b'x'; PASTE_BUF_LIMIT - 3];
    body.extend_from_slice(b"\x1b[201\x1b[20more\x1b[2\x1b");
    let input = paste(&body);
    assert_eq!(process_all(&mut t, &input), input);
    assert_eq!(process_all(&mut t, b"plain"), b"plain");
}

/// Processes `input`, with every byte of it read at the same time.
fn process_at_once(t: &mut DragTranslator, input: &[u8], time: u128) -> Progress {
    t.process_at(input, &vec![time; input.len().max(1)])
}

#[test]
fn unterminated_paste_is_flushed() {
    let mut t = translator_no_shares();
    let mut input = PASTE_START.to_vec();
    input.extend_from_slice(b"/half a pat\x1b[2");
    match process_at_once(&mut t, &input, 1000) {
        Progress::Done(out) => assert_eq!(out, b""),
        Progress::Ask(_) => panic!("nothing is to be asked"),
    }
    match process_at_once(&mut t, b"", 1000 + UNTERMINATED_PASTE_TIMEOUT - 1) {
        Progress::Done(out) => assert_eq!(out, b""),
        Progress::Ask(_) => panic!("nothing is to be asked"),
    }
    match process_at_once(&mut t, b"", 1000 + UNTERMINATED_PASTE_TIMEOUT) {
        Progress::Done(out) => assert_eq!(out, input),
        Progress::Ask(_) => panic!("nothing is to be asked"),
    }
    assert_eq!(process_all(&mut t, b"hi"), b"hi");
}

#[test]
fn oversize_paste_holds_only_the_marker() {
    let mut t = translator_no_shares();
    let mut input = PASTE_START.to_vec();
    input.extend_from_slice(&vec![b'x'; PASTE_BUF_LIMIT + 1]);
    match process_at_once(&mut t, &input, 0) {
        Progress::Done(out) => assert_eq!(out, input),
        Progress::Ask(_) => panic!("nothing is to be asked"),
    }
    match process_at_once(&mut t, b"y\x1b[", 5) {
        Progress::Done(out) => assert_eq!(out, b"y"),
        Progress::Ask(_) => panic!("nothing is to be asked"),
    }
    match process_at_once(&mut t, b"", 5 + UNTERMINATED_PASTE_TIMEOUT) {
        Progress::Done(out) => assert_eq!(out, b"\x1b["),
        Progress::Ask(_) => panic!("nothing is to be asked"),
    }
}

#[test]
fn last_byte_counts_for_the_timeout() {
    let mut t = translator_no_shares();
    let input = b"\x1b[200~ab";
    let times = [1, 2, 3, 4, 5, 6, 70, 800];
    assert!(matches!(t.process_at(input, &times), Progress::Done(out) if out.is_empty()));
    let early = 800 + UNTERMINATED_PASTE_TIMEOUT - 1;
    assert!(matches!(t.process_at(b"", &[early]), Progress::Done(out) if out.is_empty()));
    assert!(matches!(t.process_at(b"", &[early + 1]), Progress::Done(out) if out == input));
}

#[test]
fn input_behind_a_paste_is_read_when_it_is_done() {
    let mut t = translator_no_shares();
    let mut input = paste(b"/a");
    input.extend_from_slice(b"x\x1b[200~y");
    let pending = match process_at_once(&mut t, &input, 10) {
        Progress::Ask(pending) => pending,
        Progress::Done(_) => panic!("a path is to be looked up"),
    };
    assert_eq!(pending.unread(), 8);
    let mut sent = paste(b"/a");
    sent.push(b'x');
    let times = [20, 30, 40, 50, 60, 70, 80, 90];
    match t.resume_at(pending, Answer::No, &times) {
        Progress::Done(out) => assert_eq!(out, sent),
        Progress::Ask(_) => panic!("nothing more is to be asked"),
    }
    let early = 90 + UNTERMINATED_PASTE_TIMEOUT - 1;
    assert!(matches!(t.process_at(b"", &[early]), Progress::Done(out) if out.is_empty()));
    assert!(matches!(t.process_at(b"", &[early + 1]), Progress::Done(out) if out == b"\x1b[200~y"));
}

#[test]
fn reset_keeps_the_clock_running() {
    let mut t = translator_no_shares();
    t.reset();
    assert_eq!(process_all(&mut t, b"\x1b[200~abc"), b"");
    let start = std::time::Instant::now();
    while start.elapsed() < std::time::Duration::from_millis(2100) {
        if start.elapsed() < std::time::Duration::from_millis(1000) {
            assert_eq!(process_all(&mut t, b""), b"");
        }
    }
    assert_eq!(process_all(&mut t, b""), b"\x1b[200~abc");
}

#[test]
fn clock_does_not_expire_a_fresh_paste() {
    let mut t = translator_no_shares();
    assert_eq!(process_all(&mut t, b"\x1b[200~abc"), b"");
    assert_eq!(process_all(&mut t, b""), b"");
    assert_eq!(process_all(&mut t, b"\x1b[201~"), paste(b"abc"));
}

#[test]
fn clock_expires_an_old_paste() {
    let mut t = translator_no_shares();
    assert_eq!(process_all(&mut t, b"\x1b[200~abc"), b"");
    let start = std::time::Instant::now();
    while start.elapsed() < std::time::Duration::from_millis(2100) {}
    assert_eq!(process_all(&mut t, b""), b"\x1b[200~abc");
}

#[test]
fn reset_forgets_what_is_held_back() {
    let mut t = translator_no_shares();
    assert_eq!(process_all(&mut t, b"\x1b[200~abc"), b"");
    t.reset();
    assert_eq!(process_all(&mut t, b"\x1b[201~x"), b"\x1b[201~x");
}

#[test]
fn longest_share_wins() {
    let shares = [
        share(b"/a", Some(b"/a"), b"/one"),
        share(b"/a/bb", Some(b"/a/bb"), b"/two"),
        share(b"/gone", None, b"/three"),
        share(b"/a/b", Some(b"/a/b"), b"/four"),
        share(b"/a/b/", Some(b"/a/b"), b"/five"),
    ];
    let mut t = DragTranslator::new(&shares, None, true);
    let mut ask = |p: &[u8]| process_with(&mut t, &paste(p), &mut everything_exists);
    assert_eq!(ask(b"/a/x"), paste(b"/one/x"));
    assert_eq!(ask(b"/a/bb/x"), paste(b"/two/x"));
    assert_eq!(ask(b"/a/bbb/x"), paste(b"/one/bbb/x"));
    assert_eq!(ask(b"/a/b/x/y"), paste(b"/four/x/y"));
    assert_eq!(ask(b"/a/b"), paste(b"/four/"));
    assert_eq!(ask(b"/gone/x"), paste(b"/gone/x"));
}

#[test]
fn canonical_path_decides() {
    let shares = [share(b"/data", Some(b"/real/data"), b"/guest")];
    let mut t = DragTranslator::new(&shares, None, true);
    let mut host = |q: Question| match q {
        Question::Resolve { .. } => Answer::Canonical(b"/real/data/f".to_vec()),
        _ => Answer::No,
    };
    let out = process_with(&mut t, &paste(b"/link/f"), &mut host);
    assert_eq!(out, paste(b"/guest/f"));
}

#[test]
fn dangling_link_is_matched_by_its_own_path() {
    let shares = [share(b"/data", Some(b"/data"), b"/guest")];
    let mut t = DragTranslator::new(&shares, None, true);
    let mut host = |q: Question| match q {
        Question::Resolve { .. } => Answer::Yes,
        _ => Answer::No,
    };
    let out = process_with(&mut t, &paste(b"/data//x/./y/"), &mut host);
    assert_eq!(out, paste(b"/guest/x/./y"));
}

#[test]
fn only_absolute_paths_are_looked_up() {
    let mut t = translator_no_shares();
    let mut asked: Vec<String> = Vec::new();
    let mut host = |q: Question| {
        asked.push(describe(&q));
        Answer::No
    };
    let out = process_with(
        &mut t,
        &paste(b"rel/path /abs/path ~/x /two\\ words \\\n/y /li\\\nne"),
        &mut host,
    );
    assert_eq!(
        out,
        paste(b"rel/path /abs/path ~/x /two words \n/y /li\nne")
    );
    assert_eq!(asked, vec!["resolve /abs/path", "resolve /two words"]);
}

fn drops() -> DropsStaging {
    DropsStaging::new(b"/var/drops".to_vec(), b"/mnt/drops".to_vec())
}

#[test]
fn file_outside_a_share_is_staged() {
    let mut t = DragTranslator::new(&[], Some(drops()), true);
    let mut asked: Vec<String> = Vec::new();
    let mut host = |q: Question| {
        asked.push(describe(&q));
        everything_exists(q)
    };
    let out = process_with(&mut t, &paste(b"/home/a.txt '/home/b.txt'"), &mut host);
    assert_eq!(out, paste(b"/mnt/drops/0/a.txt '/home/b.txt'"));
    let out = process_with(&mut t, &paste(b"/home/c/"), &mut everything_exists);
    assert_eq!(out, paste(b"/mnt/drops/1/c"));
    assert_eq!(
        asked,
        vec![
            "resolve /home/a.txt",
            "is_file /home/a.txt",
            "create_dir /var/drops/0",
            "exists /var/drops/0/a.txt",
            "link /home/a.txt /var/drops/0/a.txt",
        ]
    );
}

#[test]
fn staging_falls_back_to_a_copy() {
    let mut t = DragTranslator::new(&[], Some(drops()), true);
    let mut asked: Vec<String> = Vec::new();
    let mut host = |q: Question| {
        asked.push(describe(&q));
        match q {
            Question::HardLink { .. } => Answer::No,
            q => everything_exists(q),
        }
    };
    let out = process_with(&mut t, &paste(b"/home/a"), &mut host);
    assert_eq!(out, paste(b"/mnt/drops/0/a"));
    assert_eq!(
        asked[asked.len() - 1],
        "copy /home/a /var/drops/0/a".to_string()
    );
}

#[test]
fn taken_names_get_a_number() {
    let mut t = DragTranslator::new(&[], Some(drops()), true);
    let mut linked: Vec<String> = Vec::new();
    let mut host = |q: Question| match q {
        Question::Exists { path } => {
            if path == b"/var/drops/0/a" || path == b"/var/drops/0/a-1" {
                Answer::Yes
            } else {
                Answer::No
            }
        }
        Question::HardLink { .. } => {
            linked.push(describe(&q));
            Answer::Yes
        }
        q => everything_exists(q),
    };
    let out = process_with(&mut t, &paste(b"/home/a"), &mut host);
    assert_eq!(out, paste(b"/mnt/drops/0/a"));
    assert_eq!(linked, vec!["link /home/a /var/drops/0/a-2"]);
}

#[test]
fn failed_staging_leaves_the_path() {
    let mut t = DragTranslator::new(&[], Some(drops()), true);
    let mut no_dir = |q: Question| match q {
        Question::CreateDir { .. } => Answer::No,
        q => everything_exists(q),
    };
    assert_eq!(
        process_with(&mut t, &paste(b"/home/a"), &mut no_dir),
        paste(b"/home/a")
    );
    let mut no_copy = |q: Question| match q {
        Question::HardLink { .. } | Question::Copy { .. } => Answer::No,
        q => everything_exists(q),
    };
    assert_eq!(
        process_with(&mut t, &paste(b"/home/a"), &mut no_copy),
        paste(b"/home/a")
    );
    assert_eq!(
        process_with(&mut t, &paste(b"/home/a"), &mut everything_exists),
        paste(b"/mnt/drops/2/a")
    );
}

#[test]
fn directories_and_nameless_paths_are_not_staged() {
    let mut t = DragTranslator::new(&[], Some(drops()), true);
    let mut directory = |q: Question| match q {
        Question::IsFile { .. } => Answer::No,
        q => everything_exists(q),
    };
    assert_eq!(
        process_with(&mut t, &paste(b"/home"), &mut directory),
        paste(b"/home")
    );
    assert_eq!(
        process_with(&mut t, &paste(b"/home/.."), &mut everything_exists),
        paste(b"/home/..")
    );
    assert_eq!(
        process_with(&mut t, &paste(b"/home/a"), &mut everything_exists),
        paste(b"/mnt/drops/1/a")
    );
}

#[test]
fn no_staging_without_a_directory() {
    let mut t = translator_no_shares();
    assert_eq!(
        process_with(&mut t, &paste(b"/home/a"), &mut everything_exists),
        paste(b"/home/a")
    );
}

#[test]
fn drops_can_be_shared() {
    let d = drops();
    let s = d.as_share();
    assert_eq!(s.host, b"/var/drops");
    assert_eq!(s.guest, b"/mnt/drops");
    assert!(!s.read_only);
    let shares = [ResolvedShare {
        share: s,
        canon_host: Some(b"/var/drops".to_vec()),
    }];
    let mut t = DragTranslator::new(&shares, None, true);
    assert_eq!(
        process_with(
            &mut t,
            &paste(b"/var/drops/0/a.txt"),
            &mut everything_exists
        ),
        paste(b"/mnt/drops/0/a.txt")
    );
}

#[test]
fn plain_words_come_out_unchanged() {
    let mut t = translator_no_shares();
    for body in [
        &b"one two three"[..],
        &b"it's a \"test\" (really)"[..],
        &b"a\tb\tc"[..],
        &b"line one\nline two"[..],
    ] {
        assert_eq!(process_all(&mut t, &paste(body)), paste(body));
    }
}

#[test]
fn blanks_and_backslashes_are_normalised() {
    let mut t = translator_no_shares();
    assert_eq!(process_all(&mut t, &paste(b" a  b\tc ")), paste(b"a\tb\tc"));
    assert_eq!(process_all(&mut t, &paste(b"a\\ b")), paste(b"a b"));
    assert_eq!(process_all(&mut t, &paste(b"'a b'")), paste(b"a b"));
    assert_eq!(process_all(&mut t, &paste(b"")), paste(b""));
}

#[test]
fn translating_twice_is_translating_once() {
    let mut t = translator_no_shares();
    for body in [&b" /a  b\t/c d "[..], &b"\t\r\n"[..], &b"one  two"[..], &b"/x\ny z"[..]] {
        let once = process_with(&mut t, &paste(body), &mut everything_exists);
        assert_eq!(process_with(&mut t, &once, &mut everything_exists), once);
    }
    let once = process_with(&mut t, &paste(b" /a  b\t/c d "), &mut everything_exists);
    assert_eq!(once, paste(b"/a b /c d"));
}

#[test]
fn every_form_of_a_name_is_rewritten() {
    let shares = [share(b"/tmp", Some(b"/tmp"), b"/guest")];
    let mut t = DragTranslator::new(&shares, None, true);
    for body in [
        &b"/tmp/it\\'s\\ \\\"here\\\""[..],
        &b"'/tmp/it'\\''s \"here\"'"[..],
        &b"\"/tmp/it's \\\"here\\\"\""[..],
    ] {
        let out = process_with(&mut t, &paste(body), &mut everything_exists);
        assert_eq!(out, paste(b"/guest/it's \"here\""));
    }
}

#[test]
fn names_that_are_not_utf8_are_kept() {
    let shares = [share(b"/t\xff", Some(b"/t\xff"), b"/guest")];
    let mut t = DragTranslator::new(&shares, None, true);
    let out = process_with(&mut t, &paste(b"/t\xff/\xfe"), &mut everything_exists);
    assert_eq!(out, paste(b"/guest/\xfe"));
}
