use fastmod::batch::{process_file_interactive, run_interactive};
use fastmod::decide::{FileReview, Session, UserChoice, parse_choice, resolve_plan};
use fastmod::pattern::{Options, PatternSpec};
use fastmod::records::Decision;

fn options() -> Options {
    Options {
        case_insensitive: false,
        multiline_dot: false,
        fixed_string: false,
        hidden_files_included: false,
        print_changed_files: false,
    }
}

fn compile(pattern: &str, subst: &[u8]) -> PatternSpec {
    PatternSpec::compile(pattern, &subst.to_vec(), &options()).expect("pattern should compile")
}

#[test]
fn prompt_replies_parse_to_choices() {
    assert_eq!(parse_choice(""), Some(UserChoice::Accept));
    assert_eq!(parse_choice("y"), Some(UserChoice::Accept));
    assert_eq!(parse_choice("n"), Some(UserChoice::Reject));
    assert_eq!(parse_choice("e"), Some(UserChoice::Edit));
    assert_eq!(parse_choice("A"), Some(UserChoice::AcceptAllFile));
    assert_eq!(parse_choice("E"), Some(UserChoice::AcceptAllGlobal));
    assert_eq!(parse_choice("q"), Some(UserChoice::Quit));
    assert_eq!(parse_choice("z"), None);
    assert_eq!(parse_choice("yes"), None);
}

#[test]
fn quit_rejects_the_rest_and_stops_the_run() {
    let (plan, quit, global) = resolve_plan(
        3,
        vec![Decision::Accept, Decision::Quit, Decision::Accept],
    );
    assert_eq!(plan.len(), 3);
    assert!(matches!(plan[0], Decision::Accept));
    assert!(matches!(plan[1], Decision::Reject));
    assert!(matches!(plan[2], Decision::Reject));
    assert!(quit);
    assert!(!global);
}

#[test]
fn quit_mid_file_keeps_earlier_decisions() {
    let ps = compile("X", b"Y");
    let content = b"aXbXcXd".to_vec();
    let (outcome, quit, global) = process_file_interactive(
        &ps,
        &content,
        vec![Decision::Accept, Decision::Quit],
        false,
    );
    assert!(quit);
    assert!(!global);
    assert!(outcome.changed);
    assert_eq!(outcome.content, b"aYbXcXd".to_vec());
}

#[test]
fn accept_rest_of_file_takes_every_later_match() {
    let (plan, quit, global) =
        resolve_plan(4, vec![Decision::Reject, Decision::AcceptAllRemainingInFile]);
    assert!(matches!(plan[0], Decision::Reject));
    assert!(matches!(plan[1], Decision::Accept));
    assert!(matches!(plan[2], Decision::Accept));
    assert!(matches!(plan[3], Decision::Accept));
    assert!(!quit);
    assert!(!global);
}

#[test]
fn accept_rest_at_first_match_accepts_both_and_changes_the_file() {
    let ps = compile("X", b"Y");
    let content = b"aXbXc".to_vec();
    let (outcome, quit, global) = process_file_interactive(
        &ps,
        &content,
        vec![Decision::AcceptAllRemainingInFile],
        false,
    );
    assert!(!quit);
    assert!(!global);
    assert!(outcome.changed);
    assert_eq!(outcome.content, b"aYbYc".to_vec());
}

#[test]
fn accept_rest_globally_sets_the_sticky_flag() {
    let (plan, quit, global) =
        resolve_plan(2, vec![Decision::AcceptAllRemainingGlobally]);
    assert!(matches!(plan[0], Decision::Accept));
    assert!(matches!(plan[1], Decision::Accept));
    assert!(!quit);
    assert!(global);
}

#[test]
fn sticky_flag_accepts_later_files_without_prompting() {
    let ps = compile("X", b"Y");
    let content = b"XX".to_vec();
    // no choices are consumed once the run-wide flag is on
    let (outcome, quit, global) = process_file_interactive(&ps, &content, Vec::new(), true);
    assert!(!quit);
    assert!(global);
    assert!(outcome.changed);
    assert_eq!(outcome.content, b"YY".to_vec());
}

#[test]
fn exhausted_choices_reject_the_remaining_matches() {
    let (plan, quit, _) = resolve_plan(2, vec![Decision::Accept]);
    assert!(matches!(plan[0], Decision::Accept));
    assert!(matches!(plan[1], Decision::Reject));
    assert!(quit);
}

#[test]
fn edited_replacement_is_spliced_without_moving_offsets() {
    let ps = compile("X", b"Y");
    let content = b"aXbXc".to_vec();
    let (outcome, _, _) = process_file_interactive(
        &ps,
        &content,
        vec![
            Decision::AcceptEdited(b"LONG EDIT".to_vec()),
            Decision::Accept,
        ],
        false,
    );
    assert_eq!(outcome.content, b"aLONG EDITbYc".to_vec());
}

#[test]
fn review_presents_matches_in_order_and_completes_the_plan() {
    let mut review = FileReview::new(3, false);
    assert!(review.needs_prompt());
    assert_eq!(review.next_index(), 0);
    review.apply(Decision::Reject);
    assert_eq!(review.next_index(), 1);
    review.apply(Decision::AcceptAllRemainingInFile);
    assert!(!review.needs_prompt());
    let (plan, quit, global) = review.finish();
    assert_eq!(plan.len(), 3);
    assert!(matches!(plan[0], Decision::Reject));
    assert!(matches!(plan[1], Decision::Accept));
    assert!(matches!(plan[2], Decision::Accept));
    assert!(!quit);
    assert!(!global);
}

#[test]
fn review_with_global_flag_never_prompts() {
    let review = FileReview::new(2, true);
    assert!(!review.needs_prompt());
    let (plan, quit, global) = review.finish();
    assert_eq!(plan.len(), 2);
    assert!(matches!(plan[0], Decision::Accept));
    assert!(matches!(plan[1], Decision::Accept));
    assert!(!quit);
    assert!(!global);
}

#[test]
fn quit_stops_processing_later_files() {
    let ps = compile("X", b"Y");
    let files = vec![b"aXb".to_vec(), b"cXd".to_vec(), b"eXf".to_vec()];
    let outs = run_interactive(
        &ps,
        &files,
        vec![
            vec![Decision::Accept],
            vec![Decision::Quit],
            vec![Decision::Accept],
        ],
    );
    // the file before the quit stays rewritten as decided
    assert!(outs[0].changed);
    assert_eq!(outs[0].content, b"aYb".to_vec());
    // the quit rejects the match it was made at
    assert!(!outs[1].changed);
    assert_eq!(outs[1].content, files[1]);
    // no file after the quit is processed
    assert!(!outs[2].changed);
    assert_eq!(outs[2].content, files[2]);
}

#[test]
fn non_text_file_mid_run_does_not_stop_the_run() {
    let ps = compile("X", b"Y");
    let files = vec![b"aXb".to_vec(), vec![0xff, 0xfe], b"cXd".to_vec()];
    let outs = run_interactive(
        &ps,
        &files,
        vec![
            vec![Decision::Accept],
            Vec::new(),
            vec![Decision::Accept],
        ],
    );
    assert!(outs[0].changed);
    assert_eq!(outs[0].content, b"aYb".to_vec());
    assert!(outs[1].skipped);
    assert!(!outs[1].changed);
    assert_eq!(outs[1].content, files[1]);
    assert!(outs[2].changed);
    assert_eq!(outs[2].content, b"cYd".to_vec());
}

#[test]
fn global_accept_carries_into_later_files() {
    let ps = compile("X", b"Y");
    let files = vec![b"aXb".to_vec(), b"cXd".to_vec()];
    let outs = run_interactive(
        &ps,
        &files,
        vec![vec![Decision::AcceptAllRemainingGlobally], Vec::new()],
    );
    assert_eq!(outs[0].content, b"aYb".to_vec());
    // the second file needs no prompt decisions at all
    assert!(outs[1].changed);
    assert_eq!(outs[1].content, b"cYd".to_vec());
}

#[test]
fn session_flags_are_sticky() {
    let mut session = Session::new();
    assert!(!session.accept_all_global);
    assert!(!session.quitting);
    session.absorb(false, true);
    assert!(session.accept_all_global);
    session.absorb(false, false);
    assert!(session.accept_all_global);
    session.absorb(true, false);
    assert!(session.quitting);
    session.absorb(false, false);
    assert!(session.quitting);
    assert!(session.accept_all_global);
}
