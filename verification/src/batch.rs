//! The drivers: the batch pass that accepts every match of every file, and
//! the per-file and whole-run interactive composition of scanning, decision
//! resolution and rewriting.

use vstd::prelude::*;
use crate::decide::{goes_global_spec, quits_spec, resolve_plan, resolve_spec};
use crate::pattern::PatternSpec;
use crate::records::{Decision, copy_bytes, is_accepting};
use crate::rewrite::{
    any_accepted,
    apply_plan,
    lemma_spliced_by_spans,
    records_carry,
    spliced_spans,
};
use crate::scan::{scan, utf8_ok};

verus! {

/// The plan batch mode synthesizes: every match accepted, no prompt.
pub open spec fn all_accept(n: nat) -> Seq<Decision> {
    Seq::new(n, |i: int| Decision::Accept)
}

fn make_accept_all(n: usize) -> (r: Vec<Decision>)
    ensures
        r@ == all_accept(n as nat),
{
    let mut v: Vec<Decision> = Vec::new();
    while v.len() < n
        invariant
            v@.len() <= n,
            forall|i: int| 0 <= i < v@.len() ==> #[trigger] v@[i] == Decision::Accept,
        decreases n - v@.len(),
    {
        v.push(Decision::Accept);
    }
    proof {
        assert(v@ =~= all_accept(n as nat));
    }
    v
}

/// What one file's pass produced: whether the file must be written back,
/// whether it was skipped as non-text, and the buffer that stands for it
/// (the rewritten one when changed, the original otherwise).
#[derive(Debug)]
pub struct FileOutcome {
    pub changed: bool,
    pub skipped: bool,
    pub content: Vec<u8>,
}

impl FileOutcome {
    /// How many bytes a write-back persists: the whole new buffer when the
    /// file changed, nothing otherwise.
    pub fn bytes_written(&self) -> (r: usize)
        ensures
            r == if self.changed {
                self.content@.len()
            } else {
                0
            },
    {
        if self.changed {
            self.content.len()
        } else {
            0
        }
    }
}

/// The contract of one batch pass over a file: a non-text file is skipped
/// untouched; otherwise the outcome's buffer splices the template
/// expansion over every one of the pattern's match spans, leaves every
/// other byte as it was, and the file counts as changed exactly when there
/// was a match at all.
pub open spec fn batch_outcome_ok(ps: PatternSpec, orig: Seq<u8>, o: FileOutcome) -> bool {
    if o.skipped {
        &&& !utf8_ok(orig)
        &&& !o.changed
        &&& o.content@ == orig
    } else {
        &&& utf8_ok(orig)
        &&& o.content@ == spliced_spans(
            orig,
            ps.spans_in(orig),
            ps.expansions_in(orig),
            all_accept(ps.spans_in(orig).len()),
        )
        &&& o.changed == (ps.spans_in(orig).len() > 0)
    }
}

/// One file of the batch pass: accepts every match without prompting.
pub fn process_file_batch(ps: &PatternSpec, content: &Vec<u8>) -> (o: FileOutcome)
    ensures
        batch_outcome_ok(*ps, content@, o),
{
    match scan(ps, content) {
        Err(_) => FileOutcome { changed: false, skipped: true, content: copy_bytes(content) },
        Ok(rs) => {
            let ds = make_accept_all(rs.len());
            let out = apply_plan(content, &rs, &ds);
            let changed = rs.len() > 0;
            proof {
                assert(records_carry(rs@, ps.spans_in(content@), ps.expansions_in(content@)));
                lemma_spliced_by_spans(
                    content@,
                    rs@,
                    ps.spans_in(content@),
                    ps.expansions_in(content@),
                    ds@,
                );
            }
            FileOutcome { changed, skipped: false, content: out }
        },
    }
}

/// The batch driver: auto-accepts every match across every file, with no
/// prompting and no possibility of a quit. One outcome per file, in order.
pub fn run_batch(ps: &PatternSpec, files: &Vec<Vec<u8>>) -> (outs: Vec<FileOutcome>)
    ensures
        outs@.len() == files@.len(),
        forall|i: int|
            0 <= i < files@.len() ==> batch_outcome_ok(*ps, files@[i]@, #[trigger] outs@[i]),
{
    let mut outs: Vec<FileOutcome> = Vec::new();
    let mut i: usize = 0;
    while i < files.len()
        invariant
            outs@.len() == i <= files@.len(),
            forall|j: int|
                0 <= j < i ==> batch_outcome_ok(*ps, files@[j]@, #[trigger] outs@[j]),
        decreases files@.len() - i,
    {
        let o = process_file_batch(ps, &files[i]);
        outs.push(o);
        i = i + 1;
    }
    outs
}

/// The plan the interactive pass resolves for `n` matches: with the sticky
/// run-wide flag on, every match is accepted without a prompt; otherwise
/// the prompt decisions are resolved in order.
pub open spec fn plan_of(n: nat, choices: Seq<Decision>, global0: bool) -> Seq<Decision> {
    if global0 {
        all_accept(n)
    } else {
        resolve_spec(n, choices)
    }
}

/// Whether some decision of the plan accepts its match.
pub open spec fn any_accepting(ds: Seq<Decision>) -> bool {
    exists|i: int| 0 <= i < ds.len() && is_accepting(#[trigger] ds[i])
}

/// The contract of one interactive pass over a file, against the decisions
/// the user would make at successive prompts. A non-text file is skipped
/// untouched and changes no run state. Otherwise the pattern's match spans
/// are resolved by the plan and spliced in; the file counts as changed
/// exactly when some decision accepted its match; the run stops exactly
/// when the review quit; and the sticky run-wide flag, once on, stays on.
pub open spec fn interactive_outcome_ok(
    ps: PatternSpec,
    orig: Seq<u8>,
    choices: Seq<Decision>,
    global0: bool,
    o: FileOutcome,
    quit: bool,
    global1: bool,
) -> bool {
    if o.skipped {
        &&& !utf8_ok(orig)
        &&& !o.changed
        &&& o.content@ == orig
        &&& quit == false
        &&& global1 == global0
    } else {
        let n = ps.spans_in(orig).len();
        &&& utf8_ok(orig)
        &&& o.content@ == spliced_spans(
            orig,
            ps.spans_in(orig),
            ps.expansions_in(orig),
            plan_of(n, choices, global0),
        )
        &&& o.changed == any_accepting(plan_of(n, choices, global0))
        &&& quit == (!global0 && quits_spec(n, choices))
        &&& global1 == (global0 || goes_global_spec(n, choices))
    }
}

/// One file of the interactive pass, with the prompt decisions given up
/// front: scans, resolves the plan under the sticky flag, splices, and
/// reports whether the run must stop and whether the flag was turned on.
pub fn process_file_interactive(
    ps: &PatternSpec,
    content: &Vec<u8>,
    choices: Vec<Decision>,
    accept_all_global: bool,
) -> (r: (FileOutcome, bool, bool))
    ensures
        interactive_outcome_ok(*ps, content@, choices@, accept_all_global, r.0, r.1, r.2),
{
    match scan(ps, content) {
        Err(_) => (
            FileOutcome { changed: false, skipped: true, content: copy_bytes(content) },
            false,
            accept_all_global,
        ),
        Ok(rs) => {
            let ghost gchoices = choices@;
            let (plan, quit, went_global) = if accept_all_global {
                (make_accept_all(rs.len()), false, false)
            } else {
                resolve_plan(rs.len(), choices)
            };
            proof {
                crate::decide::lemma_resolve_len(rs@.len(), gchoices);
            }
            let out = apply_plan(content, &rs, &plan);
            let changed = any_accepted(&plan);
            let global1 = accept_all_global || went_global;
            proof {
                assert(plan@ == plan_of(ps.spans_in(content@).len(), gchoices, accept_all_global));
                assert(records_carry(rs@, ps.spans_in(content@), ps.expansions_in(content@)));
                lemma_spliced_by_spans(
                    content@,
                    rs@,
                    ps.spans_in(content@),
                    ps.expansions_in(content@),
                    plan@,
                );
            }
            (FileOutcome { changed, skipped: false, content: out }, quit, global1)
        },
    }
}

/// The run state after file `i` of an interactive run: whether the run has
/// quit, and whether the sticky accept-all flag is on. It is a function of
/// the pattern, the files and the prompt decisions: once the quit bit is
/// on it never changes, a skipped file changes nothing, and otherwise the
/// file's own match count under its decisions settles both bits.
pub open spec fn run_state_after(
    ps: PatternSpec,
    files: Seq<Vec<u8>>,
    choices: Seq<Vec<Decision>>,
    i: int,
) -> (bool, bool)
    decreases i,
{
    if i < 0 {
        (false, false)
    } else {
        let prev = if i == 0 {
            (false, false)
        } else {
            run_state_after(ps, files, choices, i - 1)
        };
        if prev.0 {
            prev
        } else if !utf8_ok(files[i]@) {
            prev
        } else {
            let n = ps.spans_in(files[i]@).len();
            ((!prev.1 && quits_spec(n, choices[i]@)), (prev.1 || goes_global_spec(n, choices[i]@)))
        }
    }
}

/// One file of an interactive run: after a quit was recorded, the file is
/// left exactly as it stands and never scanned; otherwise it is processed
/// under the sticky flag, and the run state afterwards records its quit
/// and its flag.
pub open spec fn run_file_ok(
    ps: PatternSpec,
    files: Seq<Vec<u8>>,
    choices: Seq<Vec<Decision>>,
    outs: Seq<FileOutcome>,
    i: int,
) -> bool {
    let prev = run_state_after(ps, files, choices, i - 1);
    let cur = run_state_after(ps, files, choices, i);
    if prev.0 {
        &&& outs[i].content@ == files[i]@
        &&& !outs[i].changed
        &&& !outs[i].skipped
    } else {
        interactive_outcome_ok(ps, files[i]@, choices[i]@, prev.1, outs[i], cur.0, cur.1)
    }
}

/// The whole interactive run holds together, file by file; in particular
/// no file after a quit is ever scanned or changed.
pub open spec fn run_ok(
    ps: PatternSpec,
    files: Seq<Vec<u8>>,
    choices: Seq<Vec<Decision>>,
    outs: Seq<FileOutcome>,
) -> bool {
    forall|i: int| 0 <= i < files.len() ==> #[trigger] run_file_ok(ps, files, choices, outs, i)
}

/// A quit never clears: once the run state records it after file `i`, it
/// still stands after every later file, so `run_ok` leaves all of them
/// untouched.
pub proof fn lemma_quit_stops_the_run(
    ps: PatternSpec,
    files: Seq<Vec<u8>>,
    choices: Seq<Vec<Decision>>,
    i: int,
    j: int,
)
    requires
        0 <= i <= j,
        run_state_after(ps, files, choices, i).0,
    ensures
        run_state_after(ps, files, choices, j).0,
    decreases j - i,
{
    if j > i {
        lemma_quit_stops_the_run(ps, files, choices, i, j - 1);
    }
}

/// The interactive driver over in-memory files, with each file's prompt
/// decisions given up front. Files are reviewed in order under the sticky
/// run-wide flag; a quit decision stops the run, leaving every later file
/// untouched and unscanned, while files already rewritten stay rewritten.
pub fn run_interactive(ps: &PatternSpec, files: &Vec<Vec<u8>>, choices: Vec<Vec<Decision>>) -> (outs:
    Vec<FileOutcome>)
    requires
        choices@.len() == files@.len(),
    ensures
        outs@.len() == files@.len(),
        run_ok(*ps, files@, choices@, outs@),
{
    let ghost choices0 = choices@;
    let mut rest = choices;
    let mut outs: Vec<FileOutcome> = Vec::new();
    let mut session = crate::decide::Session::new();
    let mut i: usize = 0;
    while i < files.len()
        invariant
            choices0.len() == files@.len(),
            outs@.len() == i <= files@.len(),
            rest@ == choices0.skip(i as int),
            session.quitting == run_state_after(*ps, files@, choices0, i as int - 1).0,
            session.accept_all_global == run_state_after(*ps, files@, choices0, i as int - 1).1,
            forall|j: int| 0 <= j < i ==> #[trigger] run_file_ok(*ps, files@, choices0, outs@, j),
        decreases files@.len() - i,
    {
        let ghost outs0 = outs@;
        let ghost prev = run_state_after(*ps, files@, choices0, i as int - 1);
        let c = rest.remove(0);
        proof {
            assert(rest@ =~= choices0.skip(i as int + 1));
            assert(c == choices0[i as int]);
        }
        if session.quitting {
            outs.push(
                FileOutcome { changed: false, skipped: false, content: copy_bytes(&files[i]) },
            );
            proof {
                assert(run_state_after(*ps, files@, choices0, i as int) == prev);
                assert(run_file_ok(*ps, files@, choices0, outs@, i as int));
            }
        } else {
            let (o, quit, global1) = process_file_interactive(
                ps,
                &files[i],
                c,
                session.accept_all_global,
            );
            session.absorb(quit, global1);
            proof {
                if o.skipped {
                    assert(run_state_after(*ps, files@, choices0, i as int) == prev);
                } else {
                    assert(run_state_after(*ps, files@, choices0, i as int) == (quit, global1));
                }
            }
            outs.push(o);
            proof {
                assert(run_file_ok(*ps, files@, choices0, outs@, i as int));
            }
        }
        proof {
            assert forall|j: int| 0 <= j < i + 1 implies #[trigger] run_file_ok(
                *ps,
                files@,
                choices0,
                outs@,
                j,
            ) by {
                if j < i {
                    assert(run_file_ok(*ps, files@, choices0, outs0, j));
                    assert(outs@[j] == outs0[j]);
                }
            }
        }
        i = i + 1;
    }
    outs
}

/// Batch mode is the interactive path with every prompt answered accept:
/// resolving an all-accept choice sequence that covers every match accepts
/// every match, and never quits.
pub proof fn lemma_accept_every_prompt(n: nat, choices: Seq<Decision>)
    requires
        choices.len() >= n,
        forall|j: int| 0 <= j < n ==> #[trigger] choices[j] == Decision::Accept,
    ensures
        resolve_spec(n, choices) == all_accept(n),
        !quits_spec(n, choices),
    decreases n,
{
    if n > 0 {
        assert(choices[0] == Decision::Accept);
        lemma_accept_every_prompt((n - 1) as nat, choices.drop_first());
        assert(resolve_spec(n, choices) == seq![Decision::Accept] + resolve_spec(
            (n - 1) as nat,
            choices.drop_first(),
        ));
        assert(seq![Decision::Accept] + all_accept((n - 1) as nat) =~= all_accept(n));
    }
}

} // verus!
