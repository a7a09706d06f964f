//! The data model of a scan pass: match records with byte offsets into the
//! original buffer, and the decisions that resolve each match.

use vstd::prelude::*;

verus! {

/// A raw span handed back by the pattern engine: byte offsets into the
/// original buffer together with the template expansion for that match.
#[derive(Debug)]
pub struct RawMatch {
    pub start_offset: usize,
    pub end_offset: usize,
    pub expanded_replacement: Vec<u8>,
}

/// One match of the pattern in a file, with byte offsets into the original,
/// unmodified buffer, the text that was matched, and the replacement the
/// template expands to at this match.
#[derive(Debug)]
pub struct MatchRecord {
    pub start_offset: usize,
    pub end_offset: usize,
    pub matched_text: Vec<u8>,
    pub expanded_replacement: Vec<u8>,
}

/// The spans of `rs` lie inside a buffer of length `len`, in ascending order,
/// non-overlapping: each span ends before the next begins, and starts
/// strictly increase (so empty spans cannot repeat at one position).
pub open spec fn spans_wf_raw(len: nat, rs: Seq<RawMatch>) -> bool {
    &&& forall|i: int|
        0 <= i < rs.len() ==> rs[i].start_offset <= rs[i].end_offset && rs[i].end_offset <= len
    &&& forall|i: int|
        0 <= i < rs.len() - 1 ==> rs[i].end_offset <= rs[i + 1].start_offset
            && rs[i].start_offset < rs[i + 1].start_offset
}

/// A single record is well formed for `buf`: its span is inside the buffer
/// and `matched_text` is exactly the bytes of that span.
pub open spec fn record_wf(buf: Seq<u8>, r: MatchRecord) -> bool {
    &&& r.start_offset <= r.end_offset
    &&& r.end_offset <= buf.len()
    &&& r.matched_text@ == buf.subrange(r.start_offset as int, r.end_offset as int)
}

/// The ordered match sequence of one file: every record well formed, spans
/// ascending, non-overlapping, starts strictly increasing.
pub open spec fn records_wf(buf: Seq<u8>, rs: Seq<MatchRecord>) -> bool {
    &&& forall|i: int| 0 <= i < rs.len() ==> record_wf(buf, #[trigger] rs[i])
    &&& forall|i: int|
        0 <= i < rs.len() - 1 ==> rs[i].end_offset <= rs[i + 1].start_offset
            && rs[i].start_offset < rs[i + 1].start_offset
}

/// The decision resolved for one presented match.
#[derive(Debug)]
pub enum Decision {
    Accept,
    Reject,
    AcceptEdited(Vec<u8>),
    Quit,
    AcceptAllRemainingInFile,
    AcceptAllRemainingGlobally,
}

/// A decision as it stands in a resolved plan: bulk and quit decisions have
/// already been expanded into these three.
pub open spec fn is_plain(d: Decision) -> bool {
    match d {
        Decision::Accept => true,
        Decision::Reject => true,
        Decision::AcceptEdited(_) => true,
        _ => false,
    }
}

/// A decision that commits a replacement for its match.
pub open spec fn is_accepting(d: Decision) -> bool {
    match d {
        Decision::Accept => true,
        Decision::AcceptEdited(_) => true,
        Decision::AcceptAllRemainingInFile => true,
        Decision::AcceptAllRemainingGlobally => true,
        _ => false,
    }
}

/// The bytes that stand in for the span of `r` in the output buffer, under
/// decision `d`: the original bytes when the match is not accepted, the
/// edited text for an edited accept, and the template expansion otherwise.
pub open spec fn replaced_bytes(buf: Seq<u8>, r: MatchRecord, d: Decision) -> Seq<u8> {
    match d {
        Decision::Reject => buf.subrange(r.start_offset as int, r.end_offset as int),
        Decision::Quit => buf.subrange(r.start_offset as int, r.end_offset as int),
        Decision::AcceptEdited(t) => t@,
        _ => r.expanded_replacement@,
    }
}

/// Copies a whole byte vector.
pub fn copy_bytes(v: &Vec<u8>) -> (r: Vec<u8>)
    ensures
        r@ == v@,
{
    let r = subvec(v, 0, v.len());
    proof {
        assert(v@.subrange(0, v@.len() as int) =~= v@);
    }
    r
}

/// Copies `buf[a..b]` into a fresh vector.
pub fn subvec(buf: &Vec<u8>, a: usize, b: usize) -> (r: Vec<u8>)
    requires
        a <= b,
        b <= buf@.len(),
    ensures
        r@ == buf@.subrange(a as int, b as int),
{
    let mut r: Vec<u8> = Vec::new();
    let mut j: usize = a;
    while j < b
        invariant
            a <= j <= b,
            r@ == buf@.subrange(a as int, j as int),
        decreases b - j,
    {
        r.push(buf[j]);
        j = j + 1;
        proof {
            assert(r@ =~= buf@.subrange(a as int, j as int));
        }
    }
    r
}

} // verus!
