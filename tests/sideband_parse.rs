use git_mirror::sideband::{parse_sideband_chars, parse_sideband_msg, trim_chars};

#[test]
fn parses_done_line() {
    let p = parse_sideband_msg("Compressing objects: 100% (129/146), done.").expect("progress line");
    assert_eq!(p.prefix, "Compressing objects");
    assert_eq!(p.percent, 100);
    assert_eq!(p.m, 129);
    assert_eq!(p.n, 146);
    assert!(p.done);
}

#[test]
fn parses_line_without_done() {
    let p = parse_sideband_msg("Counting objects:  54% (108/200)").expect("progress line");
    assert_eq!(p.prefix, "Counting objects");
    assert_eq!(p.percent, 54);
    assert_eq!(p.m, 108);
    assert_eq!(p.n, 200);
    assert!(!p.done);
}

#[test]
fn parses_after_trimming() {
    let p = parse_sideband_msg("  Receiving objects:  50% (10/20)\r\n").expect("progress line");
    assert_eq!(p.prefix, "Receiving objects");
    assert_eq!(p.percent, 50);
    assert_eq!(p.m, 10);
    assert_eq!(p.n, 20);
    assert!(!p.done);
}

#[test]
fn accepts_tabs_and_unicode_spaces() {
    let p = parse_sideband_msg("Resolving deltas:\t7%\u{3000}(7/100)").expect("progress line");
    assert_eq!(p.prefix, "Resolving deltas");
    assert_eq!(p.percent, 7);
}

#[test]
fn rejects_other_lines() {
    assert!(parse_sideband_msg("Total 3 (delta 0), reused 0 (delta 0)").is_none());
    assert!(parse_sideband_msg("Enumerating objects: 5, done.").is_none());
    assert!(parse_sideband_msg("").is_none());
    assert!(parse_sideband_msg(":  50% (1/2)").is_none());
    assert!(parse_sideband_msg("Counting objects:50% (1/2)").is_none());
    assert!(parse_sideband_msg("Counting objects: 50%(1/2)").is_none());
    assert!(parse_sideband_msg("Counting objects: 50% (1/2), done").is_none());
    assert!(parse_sideband_msg("Counting objects: 50% (1/2) extra").is_none());
    assert!(parse_sideband_msg("Counting objects: % (1/2)").is_none());
    assert!(parse_sideband_msg("a:b: 50% (1/2)").is_none());
}

#[test]
fn rejects_percent_above_hundred() {
    assert!(parse_sideband_msg("Receiving objects: 150% (1/2)").is_none());
    assert!(parse_sideband_msg("Receiving objects: 100% (2/2)").is_some());
}

#[test]
fn rejects_numbers_that_overflow() {
    assert!(parse_sideband_msg("Receiving objects: 5% (99999999999999999999999/2)").is_none());
    let max = format!("Receiving objects: 5% ({}/2)", usize::MAX);
    assert_eq!(parse_sideband_msg(&max).expect("fits").m, usize::MAX);
}

#[test]
fn leading_zeros_are_read_as_decimal() {
    let p = parse_sideband_msg("Receiving objects: 007% (0010/020)").expect("progress line");
    assert_eq!(p.percent, 7);
    assert_eq!(p.m, 10);
    assert_eq!(p.n, 20);
}

#[test]
fn label_may_hold_spaces_and_digits() {
    let p = parse_sideband_msg("remote: Counting 2 objects: 1% (1/100)").is_none();
    assert!(p);
    let q = parse_sideband_msg("Counting 2 objects: 1% (1/100)").expect("progress line");
    assert_eq!(q.prefix, "Counting 2 objects");
}

#[test]
fn parses_char_slices() {
    let line: Vec<char> = "Writing objects: 3% (3/100), done.".chars().collect();
    let p = parse_sideband_chars(&line).expect("progress line");
    assert_eq!(p.prefix, "Writing objects");
    assert!(p.done);
}

#[test]
fn trims_unicode_whitespace() {
    let s: Vec<char> = "\u{a0}\t abc d \u{2003}\n".chars().collect();
    let t: String = trim_chars(&s).into_iter().collect();
    assert_eq!(t, "abc d");
    let blank: Vec<char> = " \t\r\n".chars().collect();
    assert!(trim_chars(&blank).is_empty());
}
