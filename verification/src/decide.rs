//! The per-match decision state machine: resolves the user's choices into a
//! total plan over one file's matches, handles the bulk-accept modes and the
//! sticky run-wide accept-all flag, and says when the run must stop.

use vstd::prelude::*;
use vstd::string::StrSliceExecFns;
use crate::records::{Decision, is_plain};

verus! {

/// What the review of one file is doing: still prompting, accepting every
/// remaining match without prompting, or quitting the whole run.
#[derive(Clone, Copy, Debug, PartialEq, Eq, Structural)]
pub enum ReviewMode {
    Prompting,
    AcceptRest,
    Quitting,
}

/// A single prompt answer, before the editor (if any) has produced a text.
#[derive(Clone, Copy, Debug, PartialEq, Eq, Structural)]
pub enum UserChoice {
    Accept,
    Reject,
    Edit,
    AcceptAllFile,
    AcceptAllGlobal,
    Quit,
}

/// How one choice made at a prompt resolves for the match it was made at:
/// a quit rejects the match it was made at, the bulk accepts take it.
pub open spec fn resolved_one(d: Decision) -> Decision {
    match d {
        Decision::Quit => Decision::Reject,
        Decision::AcceptAllRemainingInFile => Decision::Accept,
        Decision::AcceptAllRemainingGlobally => Decision::Accept,
        plain => plain,
    }
}

/// The mode the review is in after a choice made while prompting.
pub open spec fn mode_after(d: Decision) -> ReviewMode {
    match d {
        Decision::Quit => ReviewMode::Quitting,
        Decision::AcceptAllRemainingInFile => ReviewMode::AcceptRest,
        Decision::AcceptAllRemainingGlobally => ReviewMode::AcceptRest,
        _ => ReviewMode::Prompting,
    }
}

/// The total plan over `n` matches, given the decisions the user would make
/// at successive prompts. A plain decision settles one match and the next
/// one is prompted for; `Quit` rejects the current match and every later
/// one; the two bulk accepts take the current match and every later one.
/// When the choices run out, the remaining matches are rejected, as a quit
/// would leave them.
pub open spec fn resolve_spec(n: nat, choices: Seq<Decision>) -> Seq<Decision>
    decreases n,
{
    if n == 0 {
        Seq::empty()
    } else if choices.len() == 0 {
        Seq::new(n, |i: int| Decision::Reject)
    } else {
        match choices[0] {
            Decision::Quit => Seq::new(n, |i: int| Decision::Reject),
            Decision::AcceptAllRemainingInFile => Seq::new(n, |i: int| Decision::Accept),
            Decision::AcceptAllRemainingGlobally => Seq::new(n, |i: int| Decision::Accept),
            plain => seq![plain] + resolve_spec((n - 1) as nat, choices.drop_first()),
        }
    }
}

/// Whether reviewing `n` matches under these choices ends the whole run.
pub open spec fn quits_spec(n: nat, choices: Seq<Decision>) -> bool
    decreases n,
{
    if n == 0 {
        false
    } else if choices.len() == 0 {
        true
    } else {
        match choices[0] {
            Decision::Quit => true,
            Decision::AcceptAllRemainingInFile => false,
            Decision::AcceptAllRemainingGlobally => false,
            _ => quits_spec((n - 1) as nat, choices.drop_first()),
        }
    }
}

/// Whether reviewing `n` matches under these choices turns on the run-wide
/// accept-all flag.
pub open spec fn goes_global_spec(n: nat, choices: Seq<Decision>) -> bool
    decreases n,
{
    if n == 0 || choices.len() == 0 {
        false
    } else {
        match choices[0] {
            Decision::AcceptAllRemainingGlobally => true,
            Decision::Quit => false,
            Decision::AcceptAllRemainingInFile => false,
            _ => goes_global_spec((n - 1) as nat, choices.drop_first()),
        }
    }
}

/// A resolved plan has one decision per match.
pub proof fn lemma_resolve_len(n: nat, choices: Seq<Decision>)
    ensures
        resolve_spec(n, choices).len() == n,
    decreases n,
{
    if n > 0 && choices.len() > 0 {
        match choices[0] {
            Decision::Quit => {},
            Decision::AcceptAllRemainingInFile => {},
            Decision::AcceptAllRemainingGlobally => {},
            _ => {
                lemma_resolve_len((n - 1) as nat, choices.drop_first());
            },
        }
    }
}

/// A quit at match `k` leaves matches before `k` exactly as decided, rejects
/// match `k` and every later match of the file, and ends the run, so that no
/// later file is processed.
pub proof fn lemma_quit_decision(n: nat, choices: Seq<Decision>, k: int)
    requires
        0 <= k < n,
        k < choices.len(),
        forall|j: int| 0 <= j < k ==> is_plain(#[trigger] choices[j]),
        choices[k] == Decision::Quit,
    ensures
        forall|j: int| 0 <= j < k ==> resolve_spec(n, choices)[j] == choices[j],
        forall|j: int| k <= j < n ==> resolve_spec(n, choices)[j] == Decision::Reject,
        quits_spec(n, choices),
    decreases k,
{
    lemma_resolve_len(n, choices);
    if k == 0 {
    } else {
        lemma_quit_decision((n - 1) as nat, choices.drop_first(), k - 1);
        lemma_resolve_len((n - 1) as nat, choices.drop_first());
        assert(is_plain(choices[0]));
        assert(resolve_spec(n, choices) == seq![choices[0]] + resolve_spec(
            (n - 1) as nat,
            choices.drop_first(),
        ));
        assert forall|j: int| 0 <= j < k implies resolve_spec(n, choices)[j] == choices[j] by {
            if j > 0 {
                assert(choices.drop_first()[j - 1] == choices[j]);
            }
        }
        assert forall|j: int| k <= j < n implies resolve_spec(n, choices)[j] == Decision::Reject by {
            assert(resolve_spec(n, choices)[j] == resolve_spec((n - 1) as nat, choices.drop_first())[j - 1]);
        }
    }
}

/// A bulk accept at match `k` leaves matches before `k` exactly as decided
/// and accepts match `k` and every later match of the file; the run goes on.
pub proof fn lemma_accept_rest_decision(n: nat, choices: Seq<Decision>, k: int)
    requires
        0 <= k < n,
        k < choices.len(),
        forall|j: int| 0 <= j < k ==> is_plain(#[trigger] choices[j]),
        choices[k] == Decision::AcceptAllRemainingInFile || choices[k]
            == Decision::AcceptAllRemainingGlobally,
    ensures
        forall|j: int| 0 <= j < k ==> resolve_spec(n, choices)[j] == choices[j],
        forall|j: int| k <= j < n ==> resolve_spec(n, choices)[j] == Decision::Accept,
        !quits_spec(n, choices),
    decreases k,
{
    lemma_resolve_len(n, choices);
    if k == 0 {
    } else {
        lemma_accept_rest_decision((n - 1) as nat, choices.drop_first(), k - 1);
        lemma_resolve_len((n - 1) as nat, choices.drop_first());
        assert(is_plain(choices[0]));
        assert(resolve_spec(n, choices) == seq![choices[0]] + resolve_spec(
            (n - 1) as nat,
            choices.drop_first(),
        ));
        assert forall|j: int| 0 <= j < k implies resolve_spec(n, choices)[j] == choices[j] by {
            if j > 0 {
                assert(choices.drop_first()[j - 1] == choices[j]);
            }
        }
        assert forall|j: int| k <= j < n implies resolve_spec(n, choices)[j] == Decision::Accept by {
            assert(resolve_spec(n, choices)[j] == resolve_spec((n - 1) as nat, choices.drop_first())[j - 1]);
        }
    }
}

/// Resolves one file's matches against a fixed sequence of prompt decisions:
/// the one-shot mirror of driving `FileReview` prompt by prompt. Returns the
/// total plan, whether the run stops after this file, and whether the
/// run-wide accept-all flag was turned on during the file.
pub fn resolve_plan(n_matches: usize, choices: Vec<Decision>) -> (r: (Vec<Decision>, bool, bool))
    ensures
        r.0@ == resolve_spec(n_matches as nat, choices@),
        r.1 == quits_spec(n_matches as nat, choices@),
        r.2 == goes_global_spec(n_matches as nat, choices@),
{
    let ghost orig = choices@;
    let n = n_matches;
    let mut rest = choices;
    let mut plan: Vec<Decision> = Vec::new();
    let mut prompting: bool = true;
    let mut accept_rest: bool = false;
    let mut quit: bool = false;
    let mut global: bool = false;
    while prompting && plan.len() < n && rest.len() > 0
        invariant
            plan@.len() <= n,
            prompting ==> {
                &&& resolve_spec(n as nat, orig) == plan@ + resolve_spec(
                    (n - plan@.len()) as nat,
                    rest@,
                )
                &&& quits_spec(n as nat, orig) == quits_spec((n - plan@.len()) as nat, rest@)
                &&& goes_global_spec(n as nat, orig) == goes_global_spec(
                    (n - plan@.len()) as nat,
                    rest@,
                )
                &&& !quit && !global && !accept_rest
            },
            !prompting ==> {
                &&& (accept_rest ==> resolve_spec(n as nat, orig) == plan@ + Seq::new(
                    (n - plan@.len()) as nat,
                    |i: int| Decision::Accept,
                ))
                &&& (!accept_rest ==> resolve_spec(n as nat, orig) == plan@ + Seq::new(
                    (n - plan@.len()) as nat,
                    |i: int| Decision::Reject,
                ))
                &&& quits_spec(n as nat, orig) == quit
                &&& goes_global_spec(n as nat, orig) == global
            },
        decreases rest@.len(),
    {
        let ghost m = (n - plan@.len()) as nat;
        let ghost rest0 = rest@;
        let d = rest.remove(0);
        proof {
            assert(rest@ =~= rest0.drop_first());
        }
        match d {
            Decision::Quit => {
                proof {
                    assert(resolve_spec(m, rest0) == Seq::new(m, |i: int| Decision::Reject));
                }
                plan.push(Decision::Reject);
                prompting = false;
                quit = true;
                proof {
                    assert(plan@ + Seq::new((n - plan@.len()) as nat, |i: int| Decision::Reject)
                        =~= plan@.drop_last() + Seq::new(m, |i: int| Decision::Reject));
                }
            },
            Decision::AcceptAllRemainingInFile => {
                proof {
                    assert(resolve_spec(m, rest0) == Seq::new(m, |i: int| Decision::Accept));
                }
                plan.push(Decision::Accept);
                prompting = false;
                accept_rest = true;
                proof {
                    assert(plan@ + Seq::new((n - plan@.len()) as nat, |i: int| Decision::Accept)
                        =~= plan@.drop_last() + Seq::new(m, |i: int| Decision::Accept));
                }
            },
            Decision::AcceptAllRemainingGlobally => {
                proof {
                    assert(resolve_spec(m, rest0) == Seq::new(m, |i: int| Decision::Accept));
                }
                plan.push(Decision::Accept);
                prompting = false;
                accept_rest = true;
                global = true;
                proof {
                    assert(plan@ + Seq::new((n - plan@.len()) as nat, |i: int| Decision::Accept)
                        =~= plan@.drop_last() + Seq::new(m, |i: int| Decision::Accept));
                }
            },
            plain => {
                proof {
                    assert(is_plain(plain));
                    assert(resolve_spec(m, rest0) == seq![plain] + resolve_spec(
                        (m - 1) as nat,
                        rest0.drop_first(),
                    ));
                }
                plan.push(plain);
                proof {
                    assert(plan@ + resolve_spec((n - plan@.len()) as nat, rest@)
                        =~= plan@.drop_last() + (seq![plan@.last()] + resolve_spec(
                        (m - 1) as nat,
                        rest0.drop_first(),
                    )));
                }
            },
        }
    }
    if prompting {
        if plan.len() < n {
            // the choices ran out while matches were still pending: the
            // review stops as a quit would, rejecting the rest
            proof {
                assert(resolve_spec((n - plan@.len()) as nat, rest@) == Seq::new(
                    (n - plan@.len()) as nat,
                    |i: int| Decision::Reject,
                ));
            }
            prompting = false;
            quit = true;
        } else {
            proof {
                assert(resolve_spec((n - plan@.len()) as nat, rest@) == Seq::<Decision>::empty());
                assert(plan@ + Seq::<Decision>::empty() =~= plan@);
            }
            prompting = false;
            proof {
                assert(plan@ + Seq::new((n - plan@.len()) as nat, |i: int| Decision::Reject)
                    =~= plan@);
            }
        }
    }
    while plan.len() < n
        invariant
            plan@.len() <= n,
            accept_rest ==> resolve_spec(n as nat, orig) == plan@ + Seq::new(
                (n - plan@.len()) as nat,
                |i: int| Decision::Accept,
            ),
            !accept_rest ==> resolve_spec(n as nat, orig) == plan@ + Seq::new(
                (n - plan@.len()) as nat,
                |i: int| Decision::Reject,
            ),
        decreases n - plan@.len(),
    {
        let ghost m = (n - plan@.len()) as nat;
        if accept_rest {
            plan.push(Decision::Accept);
            proof {
                assert(plan@.drop_last() + Seq::new(m, |i: int| Decision::Accept) =~= plan@
                    + Seq::new((n - plan@.len()) as nat, |i: int| Decision::Accept));
            }
        } else {
            plan.push(Decision::Reject);
            proof {
                assert(plan@.drop_last() + Seq::new(m, |i: int| Decision::Reject) =~= plan@
                    + Seq::new((n - plan@.len()) as nat, |i: int| Decision::Reject));
            }
        }
    }
    proof {
        assert(plan@ + Seq::new(0, |i: int| Decision::Accept) =~= plan@);
        assert(plan@ + Seq::new(0, |i: int| Decision::Reject) =~= plan@);
    }
    (plan, quit, global)
}

/// The interactive review of one file's matches, advanced one resolved
/// decision at a time. Decisions are resolved in the ascending order the
/// matches were found; a decided match is never revisited.
pub struct FileReview {
    n_matches: usize,
    decisions: Vec<Decision>,
    mode: ReviewMode,
    went_global: bool,
}

impl FileReview {
    /// The number of matches under review.
    pub closed spec fn n(self) -> nat {
        self.n_matches as nat
    }

    /// The decisions resolved so far, in match order.
    pub closed spec fn decided(self) -> Seq<Decision> {
        self.decisions@
    }

    /// The mode the review is in.
    pub closed spec fn mode_spec(self) -> ReviewMode {
        self.mode
    }

    /// Whether a run-wide accept-all was chosen at the last prompt.
    pub closed spec fn went_global_spec(self) -> bool {
        self.went_global
    }

    pub closed spec fn wf(self) -> bool {
        &&& self.decisions@.len() <= self.n_matches
        &&& forall|i: int|
            0 <= i < self.decisions@.len() ==> is_plain(#[trigger] self.decisions@[i])
    }

    /// Starts the review of a file with `n_matches` matches. With the sticky
    /// run-wide flag already on, no match is ever prompted for.
    pub fn new(n_matches: usize, accept_all_global: bool) -> (r: FileReview)
        ensures
            r.wf(),
            r.n() == n_matches,
            r.decided() == Seq::<Decision>::empty(),
            r.mode_spec() == if accept_all_global {
                ReviewMode::AcceptRest
            } else {
                ReviewMode::Prompting
            },
            !r.went_global_spec(),
    {
        FileReview {
            n_matches,
            decisions: Vec::new(),
            mode: if accept_all_global {
                ReviewMode::AcceptRest
            } else {
                ReviewMode::Prompting
            },
            went_global: false,
        }
    }

    /// Whether the next match must be presented at the prompt.
    pub fn needs_prompt(&self) -> (r: bool)
        ensures
            r == (self.mode_spec() == ReviewMode::Prompting && self.decided().len() < self.n()),
    {
        self.mode == ReviewMode::Prompting && self.decisions.len() < self.n_matches
    }

    /// The index of the next match to present.
    pub fn next_index(&self) -> (r: usize)
        ensures
            r == self.decided().len(),
    {
        self.decisions.len()
    }

    /// Resolves the presented match by the user's decision: a plain decision
    /// stands as made, a quit rejects the match and stops prompting, a bulk
    /// accept takes it and stops prompting; earlier decisions are untouched.
    pub fn apply(&mut self, d: Decision)
        requires
            old(self).wf(),
            old(self).mode_spec() == ReviewMode::Prompting,
            old(self).decided().len() < old(self).n(),
        ensures
            final(self).wf(),
            final(self).n() == old(self).n(),
            final(self).decided() == old(self).decided().push(resolved_one(d)),
            final(self).mode_spec() == mode_after(d),
            final(self).went_global_spec() == (d == Decision::AcceptAllRemainingGlobally),
    {
        let (resolved, new_mode, went_global) = match d {
            Decision::Quit => (Decision::Reject, ReviewMode::Quitting, false),
            Decision::AcceptAllRemainingInFile => (Decision::Accept, ReviewMode::AcceptRest, false),
            Decision::AcceptAllRemainingGlobally => (
                Decision::Accept,
                ReviewMode::AcceptRest,
                true,
            ),
            plain => (plain, ReviewMode::Prompting, false),
        };
        self.decisions.push(resolved);
        self.mode = new_mode;
        self.went_global = went_global;
    }

    /// Completes the plan over every match that was never presented: after a
    /// bulk accept the rest are accepted, after a quit the rest are
    /// rejected. Returns the total plan, whether the run must stop, and
    /// whether the run-wide accept-all flag was turned on.
    pub fn finish(self) -> (r: (Vec<Decision>, bool, bool))
        requires
            self.wf(),
            self.mode_spec() != ReviewMode::Prompting || self.decided().len() == self.n(),
        ensures
            r.0@.len() == self.n(),
            r.0@.subrange(0, self.decided().len() as int) == self.decided(),
            forall|i: int|
                self.decided().len() <= i < self.n() ==> #[trigger] r.0@[i] == (if self.mode_spec()
                    == ReviewMode::AcceptRest {
                    Decision::Accept
                } else {
                    Decision::Reject
                }),
            forall|i: int| 0 <= i < r.0@.len() ==> is_plain(#[trigger] r.0@[i]),
            r.1 == (self.mode_spec() == ReviewMode::Quitting),
            r.2 == self.went_global_spec(),
    {
        let ghost d0 = self.decided();
        let ghost m0 = self.mode_spec();
        let FileReview { n_matches, mut decisions, mode, went_global } = self;
        while decisions.len() < n_matches
            invariant
                d0.len() <= decisions@.len() <= n_matches,
                decisions@.subrange(0, d0.len() as int) == d0,
                forall|i: int|
                    d0.len() <= i < decisions@.len() ==> #[trigger] decisions@[i] == (if m0
                        == ReviewMode::AcceptRest {
                        Decision::Accept
                    } else {
                        Decision::Reject
                    }),
                forall|i: int| 0 <= i < decisions@.len() ==> is_plain(#[trigger] decisions@[i]),
                mode == m0,
            decreases n_matches - decisions@.len(),
        {
            let fill = match mode {
                ReviewMode::AcceptRest => Decision::Accept,
                _ => Decision::Reject,
            };
            decisions.push(fill);
            proof {
                assert(decisions@.subrange(0, d0.len() as int) =~= d0);
            }
        }
        (decisions, mode == ReviewMode::Quitting, went_global)
    }
}

/// The state shared by the whole run: the sticky accept-all flag, and
/// whether a quit has been decided. Once on, neither is ever reset, so a
/// quit stops every later file and a run-wide accept prompts for none.
pub struct Session {
    pub accept_all_global: bool,
    pub quitting: bool,
}

impl Session {
    /// A fresh run: nothing accepted in bulk, nothing quit.
    pub fn new() -> (r: Session)
        ensures
            !r.accept_all_global,
            !r.quitting,
    {
        Session { accept_all_global: false, quitting: false }
    }

    /// Folds one file's review outcome into the run state. Both flags are
    /// sticky: once on, they stay on for the rest of the run.
    pub fn absorb(&mut self, quit: bool, went_global: bool)
        ensures
            final(self).accept_all_global == (old(self).accept_all_global || went_global),
            final(self).quitting == (old(self).quitting || quit),
    {
        self.accept_all_global = self.accept_all_global || went_global;
        self.quitting = self.quitting || quit;
    }
}

/// What a one-line prompt reply means: empty or `y` accepts, `n` rejects,
/// `e` edits, `A` accepts the rest of the file, `E` accepts the rest of the
/// run, `q` quits; anything else is invalid and must be prompted again.
pub open spec fn parse_choice_spec(s: Seq<char>) -> Option<UserChoice> {
    if s.len() == 0 {
        Some(UserChoice::Accept)
    } else if s.len() == 1 {
        if s[0] == 'y' {
            Some(UserChoice::Accept)
        } else if s[0] == 'n' {
            Some(UserChoice::Reject)
        } else if s[0] == 'e' {
            Some(UserChoice::Edit)
        } else if s[0] == 'A' {
            Some(UserChoice::AcceptAllFile)
        } else if s[0] == 'E' {
            Some(UserChoice::AcceptAllGlobal)
        } else if s[0] == 'q' {
            Some(UserChoice::Quit)
        } else {
            None
        }
    } else {
        None
    }
}

/// Reads one prompt reply. An invalid reply yields `None`: the caller
/// prompts again without consuming the match.
pub fn parse_choice(s: &str) -> (r: Option<UserChoice>)
    ensures
        r == parse_choice_spec(s@),
{
    let l = s.unicode_len();
    if l == 0 {
        Some(UserChoice::Accept)
    } else if l == 1 {
        let c = s.get_char(0);
        match c {
            'y' => Some(UserChoice::Accept),
            'n' => Some(UserChoice::Reject),
            'e' => Some(UserChoice::Edit),
            'A' => Some(UserChoice::AcceptAllFile),
            'E' => Some(UserChoice::AcceptAllGlobal),
            'q' => Some(UserChoice::Quit),
            _ => None,
        }
    } else {
        None
    }
}

} // verus!
