use headr::{error_line, run_batch, source_output, take_bytes, take_lines, Limit, ReadOutcome};

#[test]
fn line_mode_takes_whole_lines_with_terminators() {
    let data = b"one\ntwo\nthree\n".to_vec();
    assert_eq!(take_lines(&data, 2), b"one\ntwo\n".to_vec());
    assert_eq!(take_lines(&data, 3), b"one\ntwo\nthree\n".to_vec());
    // Reading stops early the moment the source is exhausted.
    assert_eq!(take_lines(&data, 10), b"one\ntwo\nthree\n".to_vec());
    assert_eq!(take_lines(&data, 0), b"".to_vec());
}

#[test]
fn line_mode_keeps_an_unterminated_final_line() {
    let data = b"one\ntwo".to_vec();
    assert_eq!(take_lines(&data, 1), b"one\n".to_vec());
    assert_eq!(take_lines(&data, 2), b"one\ntwo".to_vec());
    assert_eq!(take_lines(&data, 5), b"one\ntwo".to_vec());
    assert_eq!(take_lines(&b"".to_vec(), 5), b"".to_vec());
}

#[test]
fn byte_mode_takes_min_of_limit_and_length() {
    let data = b"one\ntwo\n".to_vec();
    assert_eq!(take_bytes(&data, 5), b"one\nt".to_vec());
    assert_eq!(take_bytes(&data, 8), b"one\ntwo\n".to_vec());
    assert_eq!(take_bytes(&data, 100), b"one\ntwo\n".to_vec());
}

#[test]
fn single_source_has_no_header() {
    let data = b"a\nb\nc\n".to_vec();
    let out = source_output("a.txt", 0, 1, &data, &Limit::Lines(2));
    assert_eq!(out, "a\nb\n".to_string());
}

#[test]
fn stdin_default_takes_first_ten_of_fifteen_lines() {
    let mut text = String::new();
    for i in 1..=15 {
        text.push_str(&format!("line {}\n", i));
    }
    let data = text.clone().into_bytes();
    let out = source_output("-", 0, 1, &data, &Limit::Lines(10));
    let expected: String = text.lines().take(10).map(|l| format!("{}\n", l)).collect();
    assert_eq!(out, expected);
    assert!(!out.contains("==>"));
}

#[test]
fn headers_separate_multiple_sources() {
    let a = b"aaa\n".to_vec();
    let b = b"bbb\n".to_vec();
    let first = source_output("a.txt", 0, 2, &a, &Limit::Lines(10));
    let second = source_output("b.txt", 1, 2, &b, &Limit::Lines(10));
    assert_eq!(first, "==> a.txt <==\naaa\n".to_string());
    // Every header after the first is preceded by a blank line.
    assert_eq!(second, "\n==> b.txt <==\nbbb\n".to_string());
}

#[test]
fn byte_limit_on_two_sources() {
    let sources = vec![
        (
            "a.txt".to_string(),
            ReadOutcome::Contents(b"one\ntwo\nthree\n".to_vec()),
        ),
        (
            "b.txt".to_string(),
            ReadOutcome::Contents(b"four\nfive\n".to_vec()),
        ),
    ];
    let (out, errs) = run_batch(&sources, &Limit::Bytes(5));
    assert_eq!(
        out,
        "==> a.txt <==\none\nt\n==> b.txt <==\nfour\n".to_string()
    );
    assert!(errs.is_empty());
}

#[test]
fn byte_limit_may_split_a_character() {
    // Cutting two bytes into the middle of a multi-byte character renders a
    // replacement marker rather than the raw byte.
    let data = "aé".as_bytes().to_vec();
    let out = source_output("x", 0, 1, &data, &Limit::Bytes(2));
    assert_eq!(out, "a\u{FFFD}".to_string());
}

#[test]
fn a_failed_source_does_not_disturb_the_others() {
    let sources = vec![
        ("a.txt".to_string(), ReadOutcome::Contents(b"aaa\n".to_vec())),
        (
            "missing.txt".to_string(),
            ReadOutcome::Failure("No such file or directory".to_string()),
        ),
        ("b.txt".to_string(), ReadOutcome::Contents(b"bbb\n".to_vec())),
    ];
    let (out, errs) = run_batch(&sources, &Limit::Lines(10));
    // The other sources are fully processed, keeping their positions' headers.
    assert_eq!(
        out,
        "==> a.txt <==\naaa\n\n==> b.txt <==\nbbb\n".to_string()
    );
    // An error naming the missing source appears.
    assert_eq!(
        errs,
        vec!["missing.txt, No such file or directory".to_string()]
    );
}

#[test]
fn error_line_names_source_and_cause() {
    assert_eq!(
        error_line("blargh", "No such file or directory"),
        "blargh, No such file or directory".to_string()
    );
}
