use fastmod::pattern::{ConfigError, Options, PatternSpec, escape_dollars, template_refs};

fn options(fixed: bool) -> Options {
    Options {
        case_insensitive: false,
        multiline_dot: false,
        fixed_string: fixed,
        hidden_files_included: false,
        print_changed_files: false,
    }
}

#[test]
fn dollars_are_doubled_for_fixed_replacements() {
    assert_eq!(escape_dollars(&b"$x".to_vec()), b"$$x".to_vec());
    assert_eq!(escape_dollars(&b"a$b$".to_vec()), b"a$$b$$".to_vec());
    assert_eq!(escape_dollars(&b"plain".to_vec()), b"plain".to_vec());
    assert_eq!(escape_dollars(&Vec::new()), Vec::<u8>::new());
}

#[test]
fn template_refs_reads_braced_and_unbraced_references() {
    let refs = template_refs(&b"a $1 then ${name} done".to_vec());
    assert_eq!(refs, vec![b"1".to_vec(), b"name".to_vec()]);
}

#[test]
fn template_refs_takes_the_longest_word_run() {
    let refs = template_refs(&b"$1a and ${1}a".to_vec());
    assert_eq!(refs, vec![b"1a".to_vec(), b"1".to_vec()]);
}

#[test]
fn doubled_dollar_is_a_literal_not_a_reference() {
    let refs = template_refs(&b"pay $$100 now".to_vec());
    assert_eq!(refs, Vec::<Vec<u8>>::new());
}

#[test]
fn unclosed_brace_and_bare_dollar_are_literal() {
    assert_eq!(template_refs(&b"${unclosed".to_vec()), Vec::<Vec<u8>>::new());
    assert_eq!(template_refs(&b"$".to_vec()), Vec::<Vec<u8>>::new());
    assert_eq!(template_refs(&b"100$ fee".to_vec()), Vec::<Vec<u8>>::new());
}

#[test]
fn empty_braced_reference_is_collected_and_rejected() {
    assert_eq!(template_refs(&b"${}".to_vec()), vec![Vec::<u8>::new()]);
    let err = PatternSpec::compile("(a)", &b"${}".to_vec(), &options(false));
    assert!(matches!(err, Err(ConfigError::BadTemplate(_))));
}

#[test]
fn numeric_reference_beyond_group_count_is_fatal() {
    let err = PatternSpec::compile("(a)(b)", &b"$3".to_vec(), &options(false));
    match err {
        Err(ConfigError::BadTemplate(bad)) => assert_eq!(bad, b"3".to_vec()),
        _ => panic!("expected a template error"),
    }
    assert!(PatternSpec::compile("(a)(b)", &b"$2".to_vec(), &options(false)).is_ok());
    assert!(PatternSpec::compile("(a)", &b"$0".to_vec(), &options(false)).is_ok());
}

#[test]
fn huge_numeric_reference_is_fatal_without_overflowing() {
    let err = PatternSpec::compile(
        "(a)",
        &b"${99999999999999999999999999}".to_vec(),
        &options(false),
    );
    assert!(matches!(err, Err(ConfigError::BadTemplate(_))));
}

#[test]
fn unbraced_reference_takes_the_longest_run_when_validated() {
    // `$1a` names a group `1a`, it is not group 1 followed by `a`
    let err = PatternSpec::compile("(x)", &b"$1a".to_vec(), &options(false));
    match err {
        Err(ConfigError::BadTemplate(bad)) => assert_eq!(bad, b"1a".to_vec()),
        _ => panic!("expected a template error"),
    }
    assert!(PatternSpec::compile("(x)", &b"${1}a".to_vec(), &options(false)).is_ok());
}

#[test]
fn named_reference_must_name_a_group() {
    assert!(PatternSpec::compile("(?P<word>x+)", &b"$word".to_vec(), &options(false)).is_ok());
    let err = PatternSpec::compile("(?P<word>x+)", &b"$misspelt".to_vec(), &options(false));
    match err {
        Err(ConfigError::BadTemplate(bad)) => assert_eq!(bad, b"misspelt".to_vec()),
        _ => panic!("expected a template error"),
    }
}

#[test]
fn fixed_string_mode_skips_reference_checks() {
    // the escaped template has no references left, so nothing can be invalid
    assert!(PatternSpec::compile("a+b", &b"$9".to_vec(), &options(true)).is_ok());
}
