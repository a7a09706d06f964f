use fastmod::records::{Decision, MatchRecord};
use fastmod::rewrite::{any_accepted, apply_plan};

fn record(start: usize, end: usize, matched: &[u8], replacement: &[u8]) -> MatchRecord {
    MatchRecord {
        start_offset: start,
        end_offset: end,
        matched_text: matched.to_vec(),
        expanded_replacement: replacement.to_vec(),
    }
}

#[test]
fn splice_accepts_single_match() {
    let buf = b"one two three".to_vec();
    let rs = vec![record(4, 7, b"two", b"2")];
    let ds = vec![Decision::Accept];
    let out = apply_plan(&buf, &rs, &ds);
    assert_eq!(out, b"one 2 three".to_vec());
}

#[test]
fn splice_rejects_everything_reproduces_original() {
    let buf = b"aXbXc".to_vec();
    let rs = vec![record(1, 2, b"X", b"Y"), record(3, 4, b"X", b"Y")];
    let ds = vec![Decision::Reject, Decision::Reject];
    let out = apply_plan(&buf, &rs, &ds);
    assert_eq!(out, buf);
}

#[test]
fn splice_mixes_decisions_in_order() {
    let buf = b"aXbXcXd".to_vec();
    let rs = vec![
        record(1, 2, b"X", b"one"),
        record(3, 4, b"X", b"two"),
        record(5, 6, b"X", b"three"),
    ];
    let ds = vec![
        Decision::Accept,
        Decision::Reject,
        Decision::AcceptEdited(b"EDIT".to_vec()),
    ];
    let out = apply_plan(&buf, &rs, &ds);
    assert_eq!(out, b"aonebXcEDITd".to_vec());
}

#[test]
fn splice_with_empty_plan_keeps_buffer() {
    let buf = b"untouched".to_vec();
    let out = apply_plan(&buf, &Vec::new(), &Vec::new());
    assert_eq!(out, buf);
}

#[test]
fn splice_at_buffer_edges() {
    let buf = b"XmiddleX".to_vec();
    let rs = vec![record(0, 1, b"X", b"<"), record(7, 8, b"X", b">")];
    let ds = vec![Decision::Accept, Decision::Accept];
    let out = apply_plan(&buf, &rs, &ds);
    assert_eq!(out, b"<middle>".to_vec());
}

#[test]
fn any_accepted_sees_edits_and_accepts() {
    assert!(!any_accepted(&vec![Decision::Reject, Decision::Quit]));
    assert!(any_accepted(&vec![Decision::Reject, Decision::Accept]));
    assert!(any_accepted(&vec![Decision::AcceptEdited(b"t".to_vec())]));
    assert!(!any_accepted(&Vec::new()));
}
