//! The pattern engine: compiles the pattern with its flags, escapes fixed
//! strings, validates the replacement template's capture references at
//! startup, and finds all matches with their template expansions.

use vstd::prelude::*;
use crate::records::{RawMatch, spans_wf_raw, subvec, copy_bytes};
use crate::scan::{utf8_ok, check_utf8};

verus! {

//
// Trusted view of the regex engine.
//

#[verifier::external_type_specification]
#[verifier::external_body]
pub struct ExRegex(regex::bytes::Regex);

#[verifier::external_type_specification]
#[verifier::external_body]
pub struct ExRegexError(regex::Error);

// The engine's results are functions of the pattern text, the two matching
// flags and the input alone (`^`/`$` always anchor per line), so each gets
// a name that the trusted items below tie to the engine's calls.

/// Whether the pattern text compiles under the given flags.
pub uninterp spec fn pattern_compiles(
    pattern: Seq<char>,
    case_insensitive: bool,
    multiline_dot: bool,
) -> bool;

/// The spans of the successive non-overlapping matches of the pattern in
/// the content, in the order the engine finds them.
pub uninterp spec fn match_spans_of(
    pattern: Seq<char>,
    case_insensitive: bool,
    multiline_dot: bool,
    content: Seq<u8>,
) -> Seq<(nat, nat)>;

/// The template expansion at each of those matches, in the same order.
pub uninterp spec fn expansions_of(
    pattern: Seq<char>,
    case_insensitive: bool,
    multiline_dot: bool,
    template: Seq<u8>,
    content: Seq<u8>,
) -> Seq<Seq<u8>>;

/// The pattern's capture group count, the implicit whole-match group
/// included.
pub uninterp spec fn group_count_of(
    pattern: Seq<char>,
    case_insensitive: bool,
    multiline_dot: bool,
) -> nat;

/// The pattern's capture group names in index order, an empty entry for
/// each unnamed group.
pub uninterp spec fn group_names_of(
    pattern: Seq<char>,
    case_insensitive: bool,
    multiline_dot: bool,
) -> Seq<Seq<u8>>;

/// Whether the pattern matches the empty string.
pub uninterp spec fn matches_empty_of(
    pattern: Seq<char>,
    case_insensitive: bool,
    multiline_dot: bool,
) -> bool;

/// Relies on regex::Error's display rendering for the configuration report.
#[verifier::external_body]
fn regex_error_message(e: &regex::Error) -> String {
    format!("{}", e)
}

/// The characters regex::escape puts a backslash before.
pub open spec fn is_regex_meta(c: char) -> bool {
    c == '\\' || c == '.' || c == '+' || c == '*' || c == '?' || c == '(' || c == ')' || c == '|'
        || c == '[' || c == ']' || c == '{' || c == '}' || c == '^' || c == '$' || c == '#' || c
        == '&' || c == '-' || c == '~'
}

/// A pattern escaped so that it matches only its own literal text: every
/// meta character is preceded by a backslash, all else is unchanged.
pub open spec fn regex_escaped(s: Seq<char>) -> Seq<char>
    decreases s.len(),
{
    if s.len() == 0 {
        s
    } else {
        (if is_regex_meta(s[0]) {
            seq!['\\', s[0]]
        } else {
            seq![s[0]]
        }) + regex_escaped(s.drop_first())
    }
}

/// Relies on regex::escape: it inserts a backslash before each meta
/// character and leaves every other character as it stands.
#[verifier::external_body]
fn regex_escape(s: &str) -> (r: String)
    ensures
        r@ == regex_escaped(s@),
{
    regex::escape(s)
}

/// The returned raw matches are exactly the engine's matches of the
/// pattern in the content, with their template expansions, in order.
pub open spec fn raw_matches_of(ps: PatternSpec, content: Seq<u8>, r: Seq<RawMatch>) -> bool {
    &&& r.len() == ps.spans_in(content).len()
    &&& forall|i: int|
        0 <= i < r.len() ==> {
            &&& (#[trigger] r[i]).start_offset == ps.spans_in(content)[i].0
            &&& r[i].end_offset == ps.spans_in(content)[i].1
            &&& r[i].expanded_replacement@ == ps.expansions_in(content)[i]
        }
}

/// Relies on regex::bytes::Regex::captures_iter and Captures::expand: the
/// iterator yields successive non-overlapping matches of the pristine
/// buffer, scanning left to right, so spans ascend, never overlap, and
/// never repeat a start position; `expand` writes the template expansion
/// for each match's captures. Both results depend on the stored pattern,
/// flags, template and the content alone.
#[verifier::external_body]
pub(crate) fn find_matches(ps: &PatternSpec, content: &Vec<u8>) -> (r: Vec<RawMatch>)
    ensures
        r@.len() == match_spans_of(
            ps.pattern_view(),
            ps.case_insensitive_spec(),
            ps.multiline_dot_spec(),
            content@,
        ).len(),
        expansions_of(
            ps.pattern_view(),
            ps.case_insensitive_spec(),
            ps.multiline_dot_spec(),
            ps.template_view(),
            content@,
        ).len() == r@.len(),
        raw_matches_of(*ps, content@, r@),
        spans_wf_raw(content@.len(), r@),
{
    let mut out: Vec<RawMatch> = Vec::new();
    for caps in ps.regex.captures_iter(content.as_slice()) {
        let m = caps.get(0).unwrap();
        let mut rep: Vec<u8> = Vec::new();
        caps.expand(ps.template.as_slice(), &mut rep);
        out.push(
            RawMatch { start_offset: m.start(), end_offset: m.end(), expanded_replacement: rep },
        );
    }
    out
}

/// Relies on regex::bytes::Regex::captures_len: the number of capture
/// groups, a function of the pattern alone, counts the implicit group for
/// the whole match, so it is at least one.
#[verifier::external_body]
fn captures_len(ps: &PatternSpec) -> (r: usize)
    ensures
        r as nat == group_count_of(
            ps.pattern_view(),
            ps.case_insensitive_spec(),
            ps.multiline_dot_spec(),
        ),
        r >= 1,
{
    ps.regex.captures_len()
}

/// Relies on regex::bytes::Regex::capture_names: one entry per capture
/// group in index order, a function of the pattern alone; an unnamed group
/// (the implicit first group always among them) yields an empty entry here.
#[verifier::external_body]
fn capture_names(ps: &PatternSpec) -> (r: Vec<Vec<u8>>)
    ensures
        deep(r@) == group_names_of(
            ps.pattern_view(),
            ps.case_insensitive_spec(),
            ps.multiline_dot_spec(),
        ),
        r@.len() >= 1,
{
    let mut out: Vec<Vec<u8>> = Vec::new();
    for n in ps.regex.capture_names() {
        out.push(
            match n {
                Some(s) => s.as_bytes().to_vec(),
                None => Vec::new(),
            },
        );
    }
    out
}

/// Relies on regex::bytes::Regex::is_match on the empty haystack, a
/// function of the pattern and flags alone.
#[verifier::external_body]
fn regex_matches_empty(ps: &PatternSpec) -> (r: bool)
    ensures
        r == matches_empty_of(
            ps.pattern_view(),
            ps.case_insensitive_spec(),
            ps.multiline_dot_spec(),
        ),
{
    ps.regex.is_match(b"")
}

//
// Fixed-string escaping of the replacement text.
//

/// A replacement emitted verbatim: every dollar sign doubled, so that
/// template expansion reproduces the literal text.
pub open spec fn dollars_escaped(s: Seq<u8>) -> Seq<u8>
    decreases s.len(),
{
    if s.len() == 0 {
        s
    } else {
        (if s[0] == 36 {
            seq![36u8, 36u8]
        } else {
            seq![s[0]]
        }) + dollars_escaped(s.drop_first())
    }
}

/// Doubles every dollar sign of the replacement text.
pub fn escape_dollars(s: &Vec<u8>) -> (r: Vec<u8>)
    ensures
        r@ == dollars_escaped(s@),
{
    let mut out: Vec<u8> = Vec::new();
    let mut i: usize = 0;
    proof {
        assert(s@.skip(0) =~= s@);
        assert(out@ + dollars_escaped(s@) =~= dollars_escaped(s@));
    }
    while i < s.len()
        invariant
            i <= s@.len(),
            dollars_escaped(s@) == out@ + dollars_escaped(s@.skip(i as int)),
        decreases s@.len() - i,
    {
        proof {
            assert(s@.skip(i as int).drop_first() =~= s@.skip(i as int + 1));
            assert(dollars_escaped(s@.skip(i as int)) == (if s@[i as int] == 36 {
                seq![36u8, 36u8]
            } else {
                seq![s@[i as int]]
            }) + dollars_escaped(s@.skip(i as int + 1)));
        }
        if s[i] == 36 {
            out.push(36);
            out.push(36);
        } else {
            out.push(s[i]);
        }
        i = i + 1;
        proof {
            assert(dollars_escaped(s@) =~= out@ + dollars_escaped(s@.skip(i as int)));
        }
    }
    proof {
        assert(s@.skip(s@.len() as int) =~= Seq::<u8>::empty());
        assert(out@ + dollars_escaped(Seq::<u8>::empty()) =~= out@);
    }
    out
}

//
// The capture references a replacement template makes.
//

/// A byte allowed in an unbraced capture reference name.
pub open spec fn is_word_byte(b: u8) -> bool {
    (48 <= b && b <= 57) || (65 <= b && b <= 90) || (97 <= b && b <= 122) || b == 95
}

/// The first position at or after `i` that does not continue a word run.
pub open spec fn word_end(t: Seq<u8>, i: int) -> int
    decreases t.len() - i,
{
    if i < 0 || i >= t.len() || !is_word_byte(t[i]) {
        i
    } else {
        word_end(t, i + 1)
    }
}

/// The first position at or after `i` holding a closing brace, or the end.
pub open spec fn brace_end(t: Seq<u8>, i: int) -> int
    decreases t.len() - i,
{
    if i < 0 || i >= t.len() {
        i
    } else if t[i] == 125 {
        i
    } else {
        brace_end(t, i + 1)
    }
}

proof fn lemma_word_end_bounds(t: Seq<u8>, i: int)
    requires
        0 <= i <= t.len(),
    ensures
        i <= word_end(t, i) <= t.len(),
    decreases t.len() - i,
{
    if i < t.len() && is_word_byte(t[i]) {
        lemma_word_end_bounds(t, i + 1);
    }
}

proof fn lemma_brace_end_bounds(t: Seq<u8>, i: int)
    requires
        0 <= i <= t.len(),
    ensures
        i <= brace_end(t, i) <= t.len(),
    decreases t.len() - i,
{
    if i < t.len() && t[i] != 125 {
        lemma_brace_end_bounds(t, i + 1);
    }
}

/// The capture references of the template from position `i` on, as the
/// expansion engine reads them: `$$` is a literal dollar; `${ref}` refers to
/// the bytes up to the first closing brace when they are text, and is
/// literal without a closing brace; `$ref` takes the longest word run; a
/// dollar followed by anything else is literal.
pub open spec fn refs_from(t: Seq<u8>, i: int) -> Seq<Seq<u8>>
    decreases t.len() - i,
    via refs_from_dec
{
    if i < 0 || i >= t.len() {
        Seq::empty()
    } else if t[i] != 36 {
        refs_from(t, i + 1)
    } else if i + 1 >= t.len() {
        Seq::empty()
    } else if t[i + 1] == 36 {
        refs_from(t, i + 2)
    } else if t[i + 1] == 123 {
        let e = brace_end(t, i + 2);
        if e < t.len() && utf8_ok(t.subrange(i + 2, e)) {
            seq![t.subrange(i + 2, e)] + refs_from(t, e + 1)
        } else {
            refs_from(t, i + 1)
        }
    } else if is_word_byte(t[i + 1]) {
        seq![t.subrange(i + 1, word_end(t, i + 1))] + refs_from(t, word_end(t, i + 1))
    } else {
        refs_from(t, i + 1)
    }
}

#[via_fn]
proof fn refs_from_dec(t: Seq<u8>, i: int) {
    if 0 <= i && i + 1 < t.len() {
        if t[i] == 36 && t[i + 1] == 123 {
            lemma_brace_end_bounds(t, i + 2);
        }
        if t[i] == 36 && t[i + 1] != 36 && t[i + 1] != 123 && is_word_byte(t[i + 1]) {
            lemma_word_end_bounds(t, i + 2);
            assert(word_end(t, i + 1) == word_end(t, i + 2));
        }
    }
}

proof fn lemma_word_end_shift(x: Seq<u8>, y: Seq<u8>, k: int)
    requires
        0 <= k <= y.len(),
    ensures
        word_end(x + y, x.len() + k) == x.len() + word_end(y, k),
    decreases y.len() - k,
{
    let t = x + y;
    if k < y.len() {
        assert(t[x.len() + k] == y[k]);
        if is_word_byte(y[k]) {
            lemma_word_end_shift(x, y, k + 1);
        }
    }
}

proof fn lemma_brace_end_shift(x: Seq<u8>, y: Seq<u8>, k: int)
    requires
        0 <= k <= y.len(),
    ensures
        brace_end(x + y, x.len() + k) == x.len() + brace_end(y, k),
    decreases y.len() - k,
{
    let t = x + y;
    if k < y.len() {
        assert(t[x.len() + k] == y[k]);
        if y[k] != 125 {
            lemma_brace_end_shift(x, y, k + 1);
        }
    }
}

/// The reference parser never looks behind its position: the references of
/// a concatenation, read from inside the second part, are the references of
/// the second part alone.
proof fn lemma_refs_shift(x: Seq<u8>, y: Seq<u8>, k: int)
    requires
        0 <= k <= y.len(),
    ensures
        refs_from(x + y, x.len() + k) == refs_from(y, k),
    decreases y.len() - k,
{
    let t = x + y;
    let i = x.len() + k;
    if k >= y.len() {
        assert(refs_from(t, i) =~= refs_from(y, k));
    } else {
        assert(t[i] == y[k]);
        if y[k] != 36 {
            lemma_refs_shift(x, y, k + 1);
        } else if k + 1 >= y.len() {
            assert(refs_from(t, i) =~= refs_from(y, k));
        } else {
            assert(t[i + 1] == y[k + 1]);
            if y[k + 1] == 36 {
                lemma_refs_shift(x, y, k + 2);
            } else if y[k + 1] == 123 {
                lemma_brace_end_shift(x, y, k + 2);
                lemma_brace_end_bounds(y, k + 2);
                let ey = brace_end(y, k + 2);
                assert(brace_end(t, i + 2) == x.len() + ey);
                if ey < y.len() {
                    assert(t.subrange(i + 2, x.len() + ey) =~= y.subrange(k + 2, ey));
                    lemma_refs_shift(x, y, ey + 1);
                    if utf8_ok(y.subrange(k + 2, ey)) {
                        assert(refs_from(t, i) == seq![t.subrange(i + 2, x.len() + ey)]
                            + refs_from(t, x.len() + ey + 1));
                        assert(refs_from(y, k) == seq![y.subrange(k + 2, ey)] + refs_from(
                            y,
                            ey + 1,
                        ));
                    } else {
                        lemma_refs_shift(x, y, k + 1);
                    }
                } else {
                    lemma_refs_shift(x, y, k + 1);
                }
            } else if is_word_byte(y[k + 1]) {
                lemma_word_end_shift(x, y, k + 1);
                lemma_word_end_bounds(y, k + 2);
                let ey = word_end(y, k + 1);
                assert(word_end(y, k + 1) == word_end(y, k + 2));
                assert(word_end(t, i + 1) == x.len() + ey);
                assert(t.subrange(i + 1, x.len() + ey) =~= y.subrange(k + 1, ey));
                lemma_refs_shift(x, y, ey);
                assert(refs_from(t, i) == seq![t.subrange(i + 1, x.len() + ey)] + refs_from(
                    t,
                    x.len() + ey,
                ));
                assert(refs_from(y, k) == seq![y.subrange(k + 1, ey)] + refs_from(y, ey));
            } else {
                lemma_refs_shift(x, y, k + 1);
            }
        }
    }
}

/// A fixed-string replacement is emitted verbatim: once its dollars are
/// doubled, the template makes no capture references at all, so expansion
/// can only reproduce the literal text.
pub proof fn lemma_escaped_template_has_no_refs(s: Seq<u8>)
    ensures
        refs_from(dollars_escaped(s), 0) == Seq::<Seq<u8>>::empty(),
    decreases s.len(),
{
    if s.len() == 0 {
    } else {
        let d = dollars_escaped(s);
        let head: Seq<u8> = if s[0] == 36 {
            seq![36u8, 36u8]
        } else {
            seq![s[0]]
        };
        let tail = dollars_escaped(s.drop_first());
        assert(d == head + tail);
        lemma_escaped_template_has_no_refs(s.drop_first());
        if s[0] == 36 {
            assert(d[0] == 36 && d[1] == 36);
            lemma_refs_shift(head, tail, 0);
            assert(refs_from(d, 0) == refs_from(d, 2));
        } else {
            assert(d[0] == s[0] && d[0] != 36);
            lemma_refs_shift(head, tail, 0);
            assert(refs_from(d, 0) == refs_from(d, 1));
        }
    }
}

/// The views of a sequence of byte vectors.
pub open spec fn deep(v: Seq<Vec<u8>>) -> Seq<Seq<u8>> {
    v.map_values(|x: Vec<u8>| x@)
}

/// Collects the capture references the template makes, in order.
pub fn template_refs(t: &Vec<u8>) -> (r: Vec<Vec<u8>>)
    ensures
        deep(r@) == refs_from(t@, 0),
{
    let mut out: Vec<Vec<u8>> = Vec::new();
    let mut i: usize = 0;
    proof {
        assert(deep(out@) + refs_from(t@, 0) =~= refs_from(t@, 0));
    }
    while i < t.len()
        invariant
            i <= t@.len(),
            refs_from(t@, 0) == deep(out@) + refs_from(t@, i as int),
        decreases t@.len() - i,
    {
        let ghost out0 = out@;
        let ghost i0 = i as int;
        if t[i] != 36 {
            i = i + 1;
        } else if i + 1 >= t.len() {
            proof {
                assert(refs_from(t@, i0) =~= refs_from(t@, i0 + 1));
            }
            i = i + 1;
        } else if t[i + 1] == 36 {
            i = i + 2;
        } else if t[i + 1] == 123 {
            let mut e: usize = i + 2;
            while e < t.len() && t[e] != 125
                invariant
                    i0 + 2 <= e <= t@.len(),
                    brace_end(t@, i0 + 2) == brace_end(t@, e as int),
                decreases t@.len() - e,
            {
                proof {
                    assert(brace_end(t@, e as int) == brace_end(t@, e as int + 1));
                }
                e = e + 1;
            }
            proof {
                assert(brace_end(t@, e as int) == e as int);
            }
            if e < t.len() {
                let name = subvec(t, i + 2, e);
                if check_utf8(&name) {
                    out.push(name);
                    proof {
                        assert(deep(out@) =~= deep(out0).push(t@.subrange(i0 + 2, e as int)));
                        assert(deep(out0) + (seq![t@.subrange(i0 + 2, e as int)] + refs_from(
                            t@,
                            e as int + 1,
                        )) =~= deep(out@) + refs_from(t@, e as int + 1));
                    }
                    i = e + 1;
                } else {
                    i = i + 1;
                }
            } else {
                i = i + 1;
            }
        } else {
            let b = t[i + 1];
            if (48 <= b && b <= 57) || (65 <= b && b <= 90) || (97 <= b && b <= 122) || b == 95 {
                let mut e: usize = i + 1;
                while e < t.len() && ((48 <= t[e] && t[e] <= 57) || (65 <= t[e] && t[e] <= 90) || (97
                    <= t[e] && t[e] <= 122) || t[e] == 95)
                    invariant
                        i0 + 1 <= e <= t@.len(),
                        word_end(t@, i0 + 1) == word_end(t@, e as int),
                    decreases t@.len() - e,
                {
                    proof {
                        assert(word_end(t@, e as int) == word_end(t@, e as int + 1));
                    }
                    e = e + 1;
                }
                proof {
                    assert(word_end(t@, e as int) == e as int);
                }
                let name = subvec(t, i + 1, e);
                out.push(name);
                proof {
                    assert(deep(out@) =~= deep(out0).push(t@.subrange(i0 + 1, e as int)));
                    assert(deep(out0) + (seq![t@.subrange(i0 + 1, e as int)] + refs_from(
                        t@,
                        e as int,
                    )) =~= deep(out@) + refs_from(t@, e as int));
                }
                i = e;
            } else {
                i = i + 1;
            }
        }
    }
    proof {
        assert(refs_from(t@, i as int) =~= Seq::<Seq<u8>>::empty());
        assert(deep(out@) + Seq::<Seq<u8>>::empty() =~= deep(out@));
    }
    out
}

//
// Validity of a capture reference against the compiled pattern's groups.
//

pub open spec fn is_digit_byte(b: u8) -> bool {
    48 <= b && b <= 57
}

pub open spec fn all_digits(s: Seq<u8>) -> bool {
    forall|i: int| 0 <= i < s.len() ==> is_digit_byte(#[trigger] s[i])
}

/// The number a digit string denotes.
pub open spec fn digits_val(s: Seq<u8>) -> int
    decreases s.len(),
{
    if s.len() == 0 {
        0
    } else {
        digits_val(s.drop_last()) * 10 + (s.last() - 48)
    }
}

proof fn lemma_digits_val_nonneg(s: Seq<u8>)
    requires
        all_digits(s),
    ensures
        digits_val(s) >= 0,
    decreases s.len(),
{
    if s.len() > 0 {
        assert(all_digits(s.drop_last()));
        lemma_digits_val_nonneg(s.drop_last());
    }
}

/// A digit string denotes at least what any of its prefixes denotes.
proof fn lemma_digits_val_grows(s: Seq<u8>, k: int)
    requires
        all_digits(s),
        0 <= k <= s.len(),
    ensures
        digits_val(s) >= digits_val(s.take(k)),
    decreases s.len() - k,
{
    if k == s.len() {
        assert(s.take(k) =~= s);
    } else {
        assert(s.take(k + 1).drop_last() =~= s.take(k));
        assert(all_digits(s.take(k)));
        lemma_digits_val_nonneg(s.take(k));
        assert(digits_val(s.take(k + 1)) == digits_val(s.take(k)) * 10 + (s[k] - 48));
        lemma_digits_val_grows(s, k + 1);
    }
}

/// Whether a capture reference resolves to a group of the pattern: a digit
/// string must denote a group index below the group count, any other name
/// must be among the pattern's group names.
pub open spec fn ref_ok(name: Seq<u8>, n_groups: int, names: Seq<Seq<u8>>) -> bool {
    name.len() > 0 && if all_digits(name) {
        digits_val(name) < n_groups
    } else {
        names.contains(name)
    }
}

/// Every capture reference of the template resolves to a group.
pub open spec fn template_ok(t: Seq<u8>, n_groups: int, names: Seq<Seq<u8>>) -> bool {
    forall|i: int|
        0 <= i < refs_from(t, 0).len() ==> ref_ok(#[trigger] refs_from(t, 0)[i], n_groups, names)
}

/// Whether two byte vectors hold the same bytes.
fn eq_bytes(a: &Vec<u8>, b: &Vec<u8>) -> (r: bool)
    ensures
        r == (a@ == b@),
{
    if a.len() != b.len() {
        return false;
    }
    let mut i: usize = 0;
    while i < a.len()
        invariant
            i <= a@.len(),
            a@.len() == b@.len(),
            forall|j: int| 0 <= j < i ==> a@[j] == b@[j],
        decreases a@.len() - i,
    {
        if a[i] != b[i] {
            return false;
        }
        i = i + 1;
    }
    proof {
        assert(a@ =~= b@);
    }
    true
}

/// Decides `ref_ok` for one reference against the group count and names.
fn check_ref(name: &Vec<u8>, n_groups: usize, names: &Vec<Vec<u8>>) -> (r: bool)
    ensures
        r == ref_ok(name@, n_groups as int, deep(names@)),
{
    if name.len() == 0 {
        return false;
    }
    let mut digits: bool = true;
    let mut k: usize = 0;
    while k < name.len()
        invariant
            k <= name@.len(),
            digits == all_digits(name@.take(k as int)),
        decreases name@.len() - k,
    {
        let d = 48 <= name[k] && name[k] <= 57;
        proof {
            assert(name@.take(k as int + 1).drop_last() =~= name@.take(k as int));
            assert forall|j: int| 0 <= j < k + 1 implies (all_digits(name@.take(k as int)) && d
                ==> is_digit_byte(#[trigger] name@.take(k as int + 1)[j])) by {
                if j < k {
                    assert(name@.take(k as int + 1)[j] == name@.take(k as int)[j]);
                    assert(all_digits(name@.take(k as int)) ==> is_digit_byte(
                        name@.take(k as int)[j],
                    ));
                }
            }
            assert(!d ==> !is_digit_byte(name@.take(k as int + 1)[k as int]));
        }
        digits = digits && d;
        k = k + 1;
    }
    proof {
        assert(name@.take(name@.len() as int) =~= name@);
    }
    if digits {
        // accumulate the denoted index; any overflow already exceeds the
        // group count
        let mut acc: usize = 0;
        let mut j: usize = 0;
        while j < name.len()
            invariant
                j <= name@.len(),
                all_digits(name@),
                acc == digits_val(name@.take(j as int)),
                acc < n_groups || j == 0,
            decreases name@.len() - j,
        {
            let d = name[j] - 48;
            proof {
                assert(name@.take(j as int + 1).drop_last() =~= name@.take(j as int));
                assert(digits_val(name@.take(j as int + 1)) == digits_val(name@.take(j as int)) * 10
                    + (name@[j as int] - 48));
            }
            let next = match acc.checked_mul(10) {
                Some(m) => m.checked_add(d as usize),
                None => None,
            };
            match next {
                Some(a) => {
                    acc = a;
                },
                None => {
                    proof {
                        lemma_digits_val_grows(name@, j as int + 1);
                    }
                    return false;
                },
            }
            j = j + 1;
            if acc >= n_groups {
                proof {
                    lemma_digits_val_grows(name@, j as int);
                }
                return false;
            }
        }
        proof {
            assert(name@.take(name@.len() as int) =~= name@);
        }
        acc < n_groups
    } else {
        let mut i: usize = 0;
        while i < names.len()
            invariant
                i <= names@.len(),
                forall|j: int| 0 <= j < i ==> deep(names@)[j] != name@,
            decreases names@.len() - i,
        {
            if eq_bytes(&names[i], name) {
                proof {
                    assert(deep(names@)[i as int] == name@);
                    assert(deep(names@).contains(name@));
                }
                return true;
            }
            i = i + 1;
        }
        proof {
            assert(!deep(names@).contains(name@));
        }
        false
    }
}

/// Finds the first capture reference of the list that resolves to no group.
fn first_bad_ref(refs: Vec<Vec<u8>>, n_groups: usize, names: &Vec<Vec<u8>>) -> (r: Option<Vec<u8>>)
    ensures
        match r {
            None => forall|i: int|
                0 <= i < refs@.len() ==> ref_ok(
                    #[trigger] deep(refs@)[i],
                    n_groups as int,
                    deep(names@),
                ),
            Some(bad) => !ref_ok(bad@, n_groups as int, deep(names@)) && deep(refs@).contains(bad@),
        },
{
    let ghost refs0 = refs@;
    let mut rest = refs;
    let ghost mut k: int = 0;
    while rest.len() > 0
        invariant
            0 <= k,
            k + rest@.len() == refs0.len(),
            rest@ == refs0.skip(k),
            forall|i: int|
                0 <= i < k ==> ref_ok(#[trigger] deep(refs0)[i], n_groups as int, deep(names@)),
        decreases rest@.len(),
    {
        let ghost k1 = k;
        let name = rest.remove(0);
        proof {
            assert(rest@ =~= refs0.skip(k1 + 1));
            assert(name == refs0[k1]);
            assert(deep(refs0)[k1] == name@);
        }
        if !check_ref(&name, n_groups, names) {
            proof {
                assert(deep(refs0).contains(name@));
            }
            return Some(name);
        }
        proof {
            k = k + 1;
        }
    }
    None
}

//
// The compiled pattern specification.
//

/// The flags the run was configured with.
#[derive(Clone, Copy, Debug)]
pub struct Options {
    pub case_insensitive: bool,
    pub multiline_dot: bool,
    pub fixed_string: bool,
    pub hidden_files_included: bool,
    pub print_changed_files: bool,
}

/// A fatal configuration error: nothing is scanned once one is reported.
#[derive(Debug)]
pub enum ConfigError {
    /// The pattern does not compile; carries the engine's report.
    BadPattern(String),
    /// The replacement template references a capture group that the pattern
    /// does not have; carries the offending reference.
    BadTemplate(Vec<u8>),
}

/// An immutable compiled matcher together with the replacement template.
/// Template expansion is a function of a match's captures alone. The
/// pattern text and the two matching flags are kept beside the opaque
/// compiled regex; the fields are private and set only by the trusted
/// constructor, so the stored regex is always the one compiled from
/// exactly the stored pattern and flags, and the names above speak of it.
pub struct PatternSpec {
    pattern: String,
    case_insensitive: bool,
    multiline_dot: bool,
    template: Vec<u8>,
    regex: regex::bytes::Regex,
}

/// Relies on regex::bytes::RegexBuilder: compiles exactly the given
/// pattern, with the given case sensitivity, with `^` and `$` anchoring
/// per line, and with the given dot-matches-newline toggle; it returns
/// `Ok` exactly when the pattern is valid, and stores what it was built
/// from beside the compiled regex.
#[verifier::external_body]
fn new_pattern_spec(
    pattern: String,
    case_insensitive: bool,
    multiline_dot: bool,
    template: Vec<u8>,
) -> (r: Result<PatternSpec, regex::Error>)
    ensures
        r.is_ok() == pattern_compiles(pattern@, case_insensitive, multiline_dot),
        match r {
            Ok(ps) => {
                &&& ps.pattern_view() == pattern@
                &&& ps.case_insensitive_spec() == case_insensitive
                &&& ps.multiline_dot_spec() == multiline_dot
                &&& ps.template_view() == template@
            },
            Err(_) => true,
        },
{
    let built = regex::bytes::RegexBuilder::new(&pattern)
        .case_insensitive(case_insensitive)
        .multi_line(true)
        .dot_matches_new_line(multiline_dot)
        .build();
    match built {
        Ok(regex) => Ok(PatternSpec { pattern, case_insensitive, multiline_dot, template, regex }),
        Err(e) => Err(e),
    }
}

impl PatternSpec {
    /// The pattern text the regex was compiled from (already escaped in
    /// fixed-string mode).
    pub closed spec fn pattern_view(self) -> Seq<char> {
        self.pattern@
    }

    /// The case-insensitivity flag the regex was compiled with.
    pub closed spec fn case_insensitive_spec(self) -> bool {
        self.case_insensitive
    }

    /// The dot-matches-newline flag the regex was compiled with.
    pub closed spec fn multiline_dot_spec(self) -> bool {
        self.multiline_dot
    }

    /// The replacement template handed to expansion.
    pub closed spec fn template_view(self) -> Seq<u8> {
        self.template@
    }

    /// The spans of the pattern's matches in the content.
    pub open spec fn spans_in(self, content: Seq<u8>) -> Seq<(nat, nat)> {
        match_spans_of(
            self.pattern_view(),
            self.case_insensitive_spec(),
            self.multiline_dot_spec(),
            content,
        )
    }

    /// The template expansions at the pattern's matches in the content.
    pub open spec fn expansions_in(self, content: Seq<u8>) -> Seq<Seq<u8>> {
        expansions_of(
            self.pattern_view(),
            self.case_insensitive_spec(),
            self.multiline_dot_spec(),
            self.template_view(),
            content,
        )
    }

    /// The pattern's capture group count.
    pub open spec fn group_count(self) -> nat {
        group_count_of(
            self.pattern_view(),
            self.case_insensitive_spec(),
            self.multiline_dot_spec(),
        )
    }

    /// The pattern's capture group names.
    pub open spec fn group_names(self) -> Seq<Seq<u8>> {
        group_names_of(
            self.pattern_view(),
            self.case_insensitive_spec(),
            self.multiline_dot_spec(),
        )
    }
    /// Compiles the pattern and readies the template. In fixed-string mode
    /// the pattern is escaped so it matches only its literal text, and the
    /// template's dollars are doubled so it is emitted verbatim; otherwise
    /// every capture reference of the template is checked against the
    /// pattern's groups, and an unresolved one is a fatal configuration
    /// error before any file is touched.
    pub fn compile(pattern: &str, subst: &Vec<u8>, opts: &Options) -> (r: Result<
        PatternSpec,
        ConfigError,
    >)
        ensures
            ({
                let eff = if opts.fixed_string {
                    regex_escaped(pattern@)
                } else {
                    pattern@
                };
                match r {
                    Ok(ps) => {
                        &&& ps.pattern_view() == eff
                        &&& ps.case_insensitive_spec() == opts.case_insensitive
                        &&& ps.multiline_dot_spec() == opts.multiline_dot
                        &&& ps.template_view() == if opts.fixed_string {
                            dollars_escaped(subst@)
                        } else {
                            subst@
                        }
                        &&& pattern_compiles(eff, opts.case_insensitive, opts.multiline_dot)
                        &&& (opts.fixed_string ==> refs_from(ps.template_view(), 0) == Seq::<
                            Seq<u8>,
                        >::empty())
                        &&& (!opts.fixed_string ==> template_ok(
                            subst@,
                            ps.group_count() as int,
                            ps.group_names(),
                        ))
                    },
                    Err(e) => match e {
                        ConfigError::BadPattern(_) => !pattern_compiles(
                            eff,
                            opts.case_insensitive,
                            opts.multiline_dot,
                        ),
                        ConfigError::BadTemplate(bad) => {
                            &&& !opts.fixed_string
                            &&& pattern_compiles(eff, opts.case_insensitive, opts.multiline_dot)
                            &&& refs_from(subst@, 0).contains(bad@)
                            &&& !ref_ok(
                                bad@,
                                group_count_of(
                                    eff,
                                    opts.case_insensitive,
                                    opts.multiline_dot,
                                ) as int,
                                group_names_of(eff, opts.case_insensitive, opts.multiline_dot),
                            )
                        },
                    },
                }
            }),
    {
        let fixed = opts.fixed_string;
        let template = if fixed {
            escape_dollars(subst)
        } else {
            copy_bytes(subst)
        };
        let built = if fixed {
            let escaped = regex_escape(pattern);
            new_pattern_spec(escaped, opts.case_insensitive, opts.multiline_dot, template)
        } else {
            new_pattern_spec(
                pattern.to_owned(),
                opts.case_insensitive,
                opts.multiline_dot,
                template,
            )
        };
        let ps = match built {
            Ok(ps) => ps,
            Err(e) => {
                return Err(ConfigError::BadPattern(regex_error_message(&e)));
            },
        };
        if fixed {
            proof {
                lemma_escaped_template_has_no_refs(subst@);
            }
            Ok(ps)
        } else {
            let n_groups = captures_len(&ps);
            let names = capture_names(&ps);
            let refs = template_refs(subst);
            match first_bad_ref(refs, n_groups, &names) {
                Some(bad) => Err(ConfigError::BadTemplate(bad)),
                None => Ok(ps),
            }
        }
    }

    /// Whether the pattern matches the empty string: a configuration hazard
    /// the caller must confirm once before any scanning begins.
    pub fn matches_empty_string(&self) -> (r: bool)
        ensures
            r == matches_empty_of(
                self.pattern_view(),
                self.case_insensitive_spec(),
                self.multiline_dot_spec(),
            ),
    {
        regex_matches_empty(self)
    }
}

} // verus!
