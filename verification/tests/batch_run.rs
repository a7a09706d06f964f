use fastmod::batch::{process_file_batch, process_file_interactive, run_batch};
use fastmod::pattern::{ConfigError, Options, PatternSpec};
use fastmod::records::Decision;
use fastmod::scan::{scan, ScanError};

fn options() -> Options {
    Options {
        case_insensitive: false,
        multiline_dot: false,
        fixed_string: false,
        hidden_files_included: false,
        print_changed_files: false,
    }
}

fn compile(pattern: &str, subst: &[u8], opts: &Options) -> PatternSpec {
    PatternSpec::compile(pattern, &subst.to_vec(), opts).expect("pattern should compile")
}

#[test]
fn batch_splices_every_match() {
    let ps = compile("cat", b"dog", &options());
    let files = vec![
        b"a cat sat on a cat".to_vec(),
        b"no animals here".to_vec(),
    ];
    let outs = run_batch(&ps, &files);
    assert_eq!(outs.len(), 2);
    assert!(outs[0].changed);
    assert_eq!(outs[0].content, b"a dog sat on a dog".to_vec());
    assert_eq!(outs[0].bytes_written(), b"a dog sat on a dog".len());
    assert!(!outs[1].changed);
    assert_eq!(outs[1].content, files[1]);
    assert_eq!(outs[1].bytes_written(), 0);
}

#[test]
fn batch_expands_capture_groups() {
    let ps = compile(
        "<font *color=\"?(.*?)\"?>(.*?)</font>",
        b"<span style=\"color: ${1};\">${2}</span>",
        &options(),
    );
    let files = vec![b"before <font color=\"red\">hi</font> after".to_vec()];
    let outs = run_batch(&ps, &files);
    assert!(outs[0].changed);
    assert_eq!(
        outs[0].content,
        b"before <span style=\"color: red;\">hi</span> after".to_vec()
    );
}

#[test]
fn accepting_the_single_match_interactively_matches_batch() {
    let ps = compile(
        "<font *color=\"?(.*?)\"?>(.*?)</font>",
        b"<span style=\"color: ${1};\">${2}</span>",
        &options(),
    );
    let content = b"<font color=\"red\">hi</font>".to_vec();
    let (outcome, quit, global) =
        process_file_interactive(&ps, &content, vec![Decision::Accept], false);
    assert!(!quit);
    assert!(!global);
    assert!(outcome.changed);
    assert_eq!(outcome.content, b"<span style=\"color: red;\">hi</span>".to_vec());
}

#[test]
fn second_run_reports_zero_changed_files() {
    let ps = compile("cat", b"dog", &options());
    let files = vec![b"one cat, two cats".to_vec()];
    let first = run_batch(&ps, &files);
    assert!(first.iter().any(|o| o.changed));
    let rewritten: Vec<Vec<u8>> = first.into_iter().map(|o| o.content).collect();
    let second = run_batch(&ps, &rewritten);
    assert_eq!(second.iter().filter(|o| o.changed).count(), 0);
    assert_eq!(second[0].content, b"one dog, two dogs".to_vec());
}

#[test]
fn rejecting_every_match_reproduces_the_original() {
    let ps = compile("cat", b"dog", &options());
    let content = b"cat and cat".to_vec();
    let (outcome, quit, _) = process_file_interactive(
        &ps,
        &content,
        vec![Decision::Reject, Decision::Reject],
        false,
    );
    assert!(!quit);
    assert!(!outcome.changed);
    assert_eq!(outcome.content, content);
}

#[test]
fn fixed_string_matches_only_the_literal_text() {
    let mut opts = options();
    opts.fixed_string = true;
    let ps = compile("a.b", b"Z", &opts);
    let files = vec![b"a.b and aXb".to_vec()];
    let outs = run_batch(&ps, &files);
    assert_eq!(outs[0].content, b"Z and aXb".to_vec());

    // without fixed strings the dot matches any character
    let loose = compile("a.b", b"Z", &options());
    let outs = run_batch(&loose, &files);
    assert_eq!(outs[0].content, b"Z and Z".to_vec());
}

#[test]
fn fixed_string_replacement_is_emitted_verbatim() {
    let mut opts = options();
    opts.fixed_string = true;
    let ps = compile("cost", b"$1 price", &opts);
    let files = vec![b"the cost".to_vec()];
    let outs = run_batch(&ps, &files);
    assert_eq!(outs[0].content, b"the $1 price".to_vec());
}

#[test]
fn doubled_dollar_expands_to_a_literal_dollar() {
    let ps = compile("(a)", b"$$1", &options());
    let outs = run_batch(&ps, &vec![b"a".to_vec()]);
    assert_eq!(outs[0].content, b"$1".to_vec());
}

#[test]
fn unclosed_brace_expands_literally_and_passes_validation() {
    let ps = compile("(a)", b"${x", &options());
    let outs = run_batch(&ps, &vec![b"a".to_vec()]);
    assert_eq!(outs[0].content, b"${x".to_vec());
}

#[test]
fn non_text_content_is_skipped_with_a_warning_outcome() {
    let ps = compile("cat", b"dog", &options());
    let content = vec![0xff, 0xfe, b'c', b'a', b't'];
    let out = process_file_batch(&ps, &content);
    assert!(out.skipped);
    assert!(!out.changed);
    assert_eq!(out.content, content);
    assert_eq!(out.bytes_written(), 0);
    assert!(matches!(
        scan(&ps, &content),
        Err(ScanError::NonTextContent)
    ));
}

#[test]
fn match_spans_ascend_and_never_overlap() {
    let ps = compile("aa", b"x", &options());
    let content = b"aaaa aa".to_vec();
    let records = scan(&ps, &content).expect("text content");
    assert_eq!(records.len(), 3);
    for w in records.windows(2) {
        assert!(w[0].end_offset <= w[1].start_offset);
        assert!(w[0].start_offset < w[1].start_offset);
    }
    for r in &records {
        assert_eq!(r.matched_text, b"aa".to_vec());
        assert!(r.end_offset <= content.len());
    }
}

#[test]
fn empty_matches_splice_between_every_byte() {
    let ps = compile("x*", b"-", &options());
    let outs = run_batch(&ps, &vec![b"ab".to_vec()]);
    assert!(outs[0].changed);
    assert_eq!(outs[0].content, b"-a-b-".to_vec());
}

#[test]
fn case_insensitive_flag_applies_uniformly() {
    let mut opts = options();
    opts.case_insensitive = true;
    let ps = compile("cat", b"dog", &opts);
    let outs = run_batch(&ps, &vec![b"Cat CAT cat".to_vec()]);
    assert_eq!(outs[0].content, b"dog dog dog".to_vec());
}

#[test]
fn multiline_dot_flag_lets_dot_cross_lines() {
    let mut opts = options();
    opts.multiline_dot = true;
    let ps = compile("a.b", b"Z", &opts);
    let outs = run_batch(&ps, &vec![b"a\nb".to_vec()]);
    assert_eq!(outs[0].content, b"Z".to_vec());

    let plain = compile("a.b", b"Z", &options());
    let outs = run_batch(&plain, &vec![b"a\nb".to_vec()]);
    assert!(!outs[0].changed);
}

#[test]
fn anchors_match_per_line() {
    let ps = compile("^x$", b"y", &options());
    let outs = run_batch(&ps, &vec![b"x\nnot x\nx".to_vec()]);
    assert_eq!(outs[0].content, b"y\nnot x\ny".to_vec());
}

#[test]
fn empty_matching_pattern_is_flagged_as_a_hazard() {
    let ps = compile("x*", b"y", &options());
    assert!(ps.matches_empty_string());
    let ps = compile("xyz", b"y", &options());
    assert!(!ps.matches_empty_string());
}

#[test]
fn bad_pattern_is_a_fatal_config_error() {
    let err = PatternSpec::compile("(unclosed", &b"r".to_vec(), &options());
    match err {
        Err(ConfigError::BadPattern(msg)) => assert!(!msg.is_empty()),
        _ => panic!("expected a pattern error"),
    }
}
