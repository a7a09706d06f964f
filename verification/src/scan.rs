//! The match scanner: takes one file's content, rejects non-text content,
//! and produces the ordered match records for the pristine buffer.

use vstd::prelude::*;
use crate::pattern::{PatternSpec, find_matches, raw_matches_of};
use crate::records::{MatchRecord, record_wf, records_wf, spans_wf_raw, subvec};

verus! {

/// Whether a byte sequence is valid UTF-8 text.
pub uninterp spec fn utf8_ok(s: Seq<u8>) -> bool;

/// Relies on core::str::from_utf8: it returns `Ok` exactly when the bytes
/// are valid UTF-8, a function of the bytes alone.
#[verifier::external_body]
pub(crate) fn check_utf8(content: &Vec<u8>) -> (r: bool)
    ensures
        r == utf8_ok(content@),
{
    core::str::from_utf8(content.as_slice()).is_ok()
}

/// Why a file was skipped rather than scanned.
#[derive(Clone, Copy, Debug, PartialEq, Eq, Structural)]
pub enum ScanError {
    /// The content is not UTF-8-decodable text; the file is skipped with a
    /// warning, never a fatal error for the run.
    NonTextContent,
}

/// The records are exactly the pattern's matches in the content: one
/// record per match span, in order, each holding the span, the matched
/// bytes of the original buffer, and the template expansion at that match.
pub open spec fn scan_records_ok(ps: PatternSpec, content: Seq<u8>, rs: Seq<MatchRecord>) -> bool {
    &&& rs.len() == ps.spans_in(content).len()
    &&& ps.expansions_in(content).len() == rs.len()
    &&& forall|i: int|
        0 <= i < rs.len() ==> {
            &&& (#[trigger] rs[i]).start_offset == ps.spans_in(content)[i].0
            &&& rs[i].end_offset == ps.spans_in(content)[i].1
            &&& rs[i].expanded_replacement@ == ps.expansions_in(content)[i]
            &&& record_wf(content, rs[i])
        }
    &&& records_wf(content, rs)
}

/// Scans one file's content against the pattern: rejects non-text content,
/// otherwise hands back exactly the pattern's matches as ordered records,
/// whose spans index the original, unmodified buffer, ascend and never
/// overlap.
pub fn scan(ps: &PatternSpec, content: &Vec<u8>) -> (r: Result<Vec<MatchRecord>, ScanError>)
    ensures
        match r {
            Ok(rs) => utf8_ok(content@) && scan_records_ok(*ps, content@, rs@),
            Err(e) => !utf8_ok(content@) && e == ScanError::NonTextContent,
        },
{
    if !check_utf8(content) {
        return Err(ScanError::NonTextContent);
    }
    let raw = find_matches(ps, content);
    let ghost raw0 = raw@;
    let mut rest = raw;
    let mut out: Vec<MatchRecord> = Vec::new();
    while rest.len() > 0
        invariant
            spans_wf_raw(content@.len(), raw0),
            raw_matches_of(*ps, content@, raw0),
            out@.len() + rest@.len() == raw0.len(),
            rest@ == raw0.skip(out@.len() as int),
            forall|j: int|
                0 <= j < out@.len() ==> {
                    &&& (#[trigger] out@[j]).start_offset == raw0[j].start_offset
                    &&& out@[j].end_offset == raw0[j].end_offset
                    &&& out@[j].expanded_replacement@ == raw0[j].expanded_replacement@
                    &&& record_wf(content@, out@[j])
                },
        decreases rest@.len(),
    {
        let ghost k = out@.len() as int;
        let m = rest.remove(0);
        proof {
            assert(rest@ =~= raw0.skip(k + 1));
            assert(m == raw0[k]);
        }
        let matched = subvec(content, m.start_offset, m.end_offset);
        out.push(
            MatchRecord {
                start_offset: m.start_offset,
                end_offset: m.end_offset,
                matched_text: matched,
                expanded_replacement: m.expanded_replacement,
            },
        );
    }
    proof {
        assert(records_wf(content@, out@));
        assert(scan_records_ok(*ps, content@, out@));
    }
    Ok(out)
}

} // verus!
