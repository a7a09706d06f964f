//! The rewriter: splices the resolved replacements into the original buffer.
//! Every byte outside the matched spans is carried over unchanged.

use vstd::prelude::*;
use crate::records::{Decision, MatchRecord, is_accepting, records_wf, replaced_bytes};

verus! {

/// The output buffer from position `pos` on, with the records from `i` on
/// resolved by their decisions: the gap up to the next span, then the bytes
/// chosen for that span, then the rest; after the last record, the trailing
/// gap of the original buffer.
pub open spec fn splice_from(
    buf: Seq<u8>,
    rs: Seq<MatchRecord>,
    ds: Seq<Decision>,
    i: int,
    pos: int,
) -> Seq<u8>
    decreases rs.len() - i,
{
    if i < 0 || i >= rs.len() {
        buf.subrange(pos, buf.len() as int)
    } else {
        buf.subrange(pos, rs[i].start_offset as int) + replaced_bytes(buf, rs[i], ds[i])
            + splice_from(buf, rs, ds, i + 1, rs[i].end_offset as int)
    }
}

/// The whole output buffer for one file: the original buffer with each
/// match span replaced as its decision says, all other bytes unchanged.
pub open spec fn spliced(buf: Seq<u8>, rs: Seq<MatchRecord>, ds: Seq<Decision>) -> Seq<u8> {
    splice_from(buf, rs, ds, 0, 0)
}

/// Builds the output buffer for one file from the original buffer, its
/// ordered match records and one resolved decision per record.
pub fn apply_plan(buf: &Vec<u8>, rs: &Vec<MatchRecord>, ds: &Vec<Decision>) -> (out: Vec<u8>)
    requires
        records_wf(buf@, rs@),
        ds@.len() == rs@.len(),
    ensures
        out@ == spliced(buf@, rs@, ds@),
{
    let mut out: Vec<u8> = Vec::new();
    let mut pos: usize = 0;
    let mut i: usize = 0;
    while i < rs.len()
        invariant
            i <= rs@.len(),
            pos == if i == 0 { 0int } else { rs@[i as int - 1].end_offset as int },
            pos <= buf@.len(),
            i < rs@.len() ==> pos <= rs@[i as int].start_offset,
            spliced(buf@, rs@, ds@) == out@ + splice_from(buf@, rs@, ds@, i as int, pos as int),
        decreases rs@.len() - i,
    {
        let start = rs[i].start_offset;
        let end = rs[i].end_offset;
        extend_range(&mut out, buf, pos, start);
        match &ds[i] {
            Decision::Reject => extend_range(&mut out, buf, start, end),
            Decision::Quit => extend_range(&mut out, buf, start, end),
            Decision::AcceptEdited(t) => extend_copy(&mut out, t),
            _ => extend_copy(&mut out, &rs[i].expanded_replacement),
        }
        proof {
            assert(splice_from(buf@, rs@, ds@, i as int, pos as int) == buf@.subrange(
                pos as int,
                rs@[i as int].start_offset as int,
            ) + replaced_bytes(buf@, rs@[i as int], ds@[i as int]) + splice_from(
                buf@,
                rs@,
                ds@,
                i as int + 1,
                rs@[i as int].end_offset as int,
            ));
        }
        pos = end;
        i = i + 1;
    }
    extend_range(&mut out, buf, pos, buf.len());
    proof {
        assert(buf@.subrange(pos as int, buf@.len() as int) == splice_from(
            buf@,
            rs@,
            ds@,
            i as int,
            pos as int,
        ));
    }
    out
}

/// Appends `buf[a..b]` to `out`.
fn extend_range(out: &mut Vec<u8>, buf: &Vec<u8>, a: usize, b: usize)
    requires
        a <= b,
        b <= buf@.len(),
    ensures
        final(out)@ == old(out)@ + buf@.subrange(a as int, b as int),
{
    let mut j: usize = a;
    while j < b
        invariant
            a <= j <= b,
            out@ == old(out)@ + buf@.subrange(a as int, j as int),
        decreases b - j,
    {
        out.push(buf[j]);
        j = j + 1;
        proof {
            assert(out@ =~= old(out)@ + buf@.subrange(a as int, j as int));
        }
    }
}

/// Appends all of `t` to `out`.
fn extend_copy(out: &mut Vec<u8>, t: &Vec<u8>)
    ensures
        final(out)@ == old(out)@ + t@,
{
    let mut j: usize = 0;
    while j < t.len()
        invariant
            j <= t@.len(),
            out@ == old(out)@ + t@.subrange(0, j as int),
        decreases t@.len() - j,
    {
        out.push(t[j]);
        j = j + 1;
        proof {
            assert(out@ =~= old(out)@ + t@.subrange(0, j as int));
        }
    }
    proof {
        assert(t@.subrange(0, t@.len() as int) =~= t@);
    }
}

/// Whether at least one decision of the plan accepts its match: exactly the
/// condition under which the file is written back.
pub fn any_accepted(ds: &Vec<Decision>) -> (r: bool)
    ensures
        r == exists|i: int| 0 <= i < ds@.len() && is_accepting(#[trigger] ds@[i]),
{
    let mut i: usize = 0;
    let mut found: bool = false;
    while i < ds.len()
        invariant
            i <= ds@.len(),
            found == exists|j: int| 0 <= j < i && is_accepting(#[trigger] ds@[j]),
        decreases ds@.len() - i,
    {
        let here = match &ds[i] {
            Decision::Reject => false,
            Decision::Quit => false,
            _ => true,
        };
        proof {
            assert(here == is_accepting(ds@[i as int]));
        }
        found = found || here;
        i = i + 1;
    }
    found
}

/// The bytes that stand in for one match span under a decision, with the
/// span and its template expansion given directly.
pub open spec fn chosen_bytes(buf: Seq<u8>, span: (nat, nat), exp: Seq<u8>, d: Decision) -> Seq<
    u8,
> {
    match d {
        Decision::Reject => buf.subrange(span.0 as int, span.1 as int),
        Decision::Quit => buf.subrange(span.0 as int, span.1 as int),
        Decision::AcceptEdited(t) => t@,
        _ => exp,
    }
}

/// As `splice_from`, but over the match spans and expansions themselves
/// rather than over records that carry them.
pub open spec fn splice_spans_from(
    buf: Seq<u8>,
    spans: Seq<(nat, nat)>,
    exps: Seq<Seq<u8>>,
    ds: Seq<Decision>,
    i: int,
    pos: int,
) -> Seq<u8>
    decreases spans.len() - i,
{
    if i < 0 || i >= spans.len() {
        buf.subrange(pos, buf.len() as int)
    } else {
        buf.subrange(pos, spans[i].0 as int) + chosen_bytes(buf, spans[i], exps[i], ds[i])
            + splice_spans_from(buf, spans, exps, ds, i + 1, spans[i].1 as int)
    }
}

/// The whole output buffer for one file, resolved span by span.
pub open spec fn spliced_spans(
    buf: Seq<u8>,
    spans: Seq<(nat, nat)>,
    exps: Seq<Seq<u8>>,
    ds: Seq<Decision>,
) -> Seq<u8> {
    splice_spans_from(buf, spans, exps, ds, 0, 0)
}

/// The records hold exactly these spans and expansions, in order.
pub open spec fn records_carry(
    rs: Seq<MatchRecord>,
    spans: Seq<(nat, nat)>,
    exps: Seq<Seq<u8>>,
) -> bool {
    &&& rs.len() == spans.len()
    &&& rs.len() == exps.len()
    &&& forall|i: int|
        0 <= i < rs.len() ==> {
            &&& (#[trigger] rs[i]).start_offset == spans[i].0
            &&& rs[i].end_offset == spans[i].1
            &&& rs[i].expanded_replacement@ == exps[i]
        }
}

proof fn lemma_splice_records_spans(
    buf: Seq<u8>,
    rs: Seq<MatchRecord>,
    spans: Seq<(nat, nat)>,
    exps: Seq<Seq<u8>>,
    ds: Seq<Decision>,
    i: int,
    pos: int,
)
    requires
        records_carry(rs, spans, exps),
        ds.len() == rs.len(),
        0 <= i,
    ensures
        splice_from(buf, rs, ds, i, pos) == splice_spans_from(buf, spans, exps, ds, i, pos),
    decreases rs.len() - i,
{
    if i < rs.len() {
        lemma_splice_records_spans(buf, rs, spans, exps, ds, i + 1, rs[i].end_offset as int);
        assert(replaced_bytes(buf, rs[i], ds[i]) == chosen_bytes(buf, spans[i], exps[i], ds[i]));
    }
}

/// Splicing through records equals splicing through the spans and
/// expansions they carry.
pub proof fn lemma_spliced_by_spans(
    buf: Seq<u8>,
    rs: Seq<MatchRecord>,
    spans: Seq<(nat, nat)>,
    exps: Seq<Seq<u8>>,
    ds: Seq<Decision>,
)
    requires
        records_carry(rs, spans, exps),
        ds.len() == rs.len(),
    ensures
        spliced(buf, rs, ds) == spliced_spans(buf, spans, exps, ds),
{
    lemma_splice_records_spans(buf, rs, spans, exps, ds, 0, 0);
}

/// Keeping every match (rejecting it or quitting over it) reproduces the
/// original buffer from `pos` on, byte for byte.
proof fn lemma_splice_from_keep(
    buf: Seq<u8>,
    rs: Seq<MatchRecord>,
    ds: Seq<Decision>,
    i: int,
    pos: int,
)
    requires
        records_wf(buf, rs),
        ds.len() == rs.len(),
        forall|j: int| 0 <= j < ds.len() ==> !is_accepting(#[trigger] ds[j]),
        0 <= i,
        0 <= pos <= buf.len(),
        i < rs.len() ==> pos <= rs[i].start_offset,
    ensures
        splice_from(buf, rs, ds, i, pos) == buf.subrange(pos, buf.len() as int),
    decreases rs.len() - i,
{
    if i < rs.len() {
        lemma_splice_from_keep(buf, rs, ds, i + 1, rs[i].end_offset as int);
        assert(replaced_bytes(buf, rs[i], ds[i]) == buf.subrange(
            rs[i].start_offset as int,
            rs[i].end_offset as int,
        ));
        assert(buf.subrange(pos, rs[i].start_offset as int) + buf.subrange(
            rs[i].start_offset as int,
            rs[i].end_offset as int,
        ) + buf.subrange(rs[i].end_offset as int, buf.len() as int) =~= buf.subrange(
            pos,
            buf.len() as int,
        ));
    }
}

/// Round trip: a plan that accepts nothing changes nothing. Splicing with
/// only `Reject` (or `Quit`) decisions yields the original buffer.
pub proof fn lemma_keep_all_is_identity(buf: Seq<u8>, rs: Seq<MatchRecord>, ds: Seq<Decision>)
    requires
        records_wf(buf, rs),
        ds.len() == rs.len(),
        forall|j: int| 0 <= j < ds.len() ==> !is_accepting(#[trigger] ds[j]),
    ensures
        spliced(buf, rs, ds) == buf,
{
    lemma_splice_from_keep(buf, rs, ds, 0, 0);
    assert(buf.subrange(0, buf.len() as int) =~= buf);
}

/// A file in which the pattern no longer matches is reported unchanged:
/// splicing an empty match sequence yields the original buffer.
pub proof fn lemma_no_matches_unchanged(buf: Seq<u8>, rs: Seq<MatchRecord>, ds: Seq<Decision>)
    requires
        rs.len() == 0,
        ds.len() == 0,
    ensures
        spliced(buf, rs, ds) == buf,
{
    assert(buf.subrange(0, buf.len() as int) =~= buf);
}

} // verus!
