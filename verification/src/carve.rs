//! Carving engine: pairs each start marker with the nearest end marker after
//! it and emits the resulting byte ranges in ascending, non-overlapping
//! order.

use crate::matcher::end_marker;
use crate::matcher::end_marker_bytes;
use crate::matcher::find;
use crate::matcher::first_match;
use crate::matcher::lemma_first_match_correct;
use crate::matcher::match_at;
use crate::matcher::start_marker;
use crate::matcher::start_marker_bytes;
use vstd::prelude::*;

verus! {

/// A half-open byte interval `[start, end)` holding one carved image,
/// end marker included.
#[derive(Clone, Copy, Debug, PartialEq, Eq, Structural)]
#[verifier::ext_equal]
pub struct Position {
    pub start: usize,
    pub end: usize,
}

/// The pair that a scan positioned at `from` carves next: the earliest start
/// marker at or after `from`, paired with the first end marker that begins at
/// or after the start marker's last byte. The second component is the offset
/// one past the end marker. `None` when either marker is missing.
pub open spec fn carve_from(data: Seq<u8>, from: int) -> Option<(int, int)> {
    match first_match(data, start_marker(), from) {
        Some(s) => match first_match(data, end_marker(), s + start_marker().len()) {
            Some(e) => Some((s, e + end_marker().len())),
            None => None,
        },
        None => None,
    }
}

/// A carved pair lies at or after `from`, is at least two whole markers wide,
/// and stays inside the buffer.
pub proof fn lemma_carve_bounds(data: Seq<u8>, from: int)
    ensures
        carve_from(data, from) matches Some(p) ==> from <= p.0 && p.0 + start_marker().len()
            + end_marker().len() <= p.1 && p.1 <= data.len(),
{
    lemma_first_match_correct(data, start_marker(), from);
    if let Some(s) = first_match(data, start_marker(), from) {
        lemma_first_match_correct(data, end_marker(), s + start_marker().len());
    }
}

/// The full, ordered sequence of `(start, end)` pairs that scanning `data`
/// from offset `from` emits: carve the next pair, then resume exactly at its
/// end, so consumed bytes are never revisited.
pub open spec fn scan_from(data: Seq<u8>, from: int) -> Seq<(int, int)>
    decreases data.len() - from,
{
    match carve_from(data, from) {
        Some(p) => {
            proof {
                lemma_carve_bounds(data, from);
            }
            seq![p] + scan_from(data, p.1)
        },
        None => Seq::empty(),
    }
}

/// Find the next complete image at or after `start_index`: the earliest start
/// marker, paired with the first end marker beginning at or after the start
/// marker's end; `None` exactly when no complete image remains. The returned
/// interval includes both markers.
pub fn rip_png(data: &[u8], start_index: usize) -> (r: Option<Position>)
    ensures
        r matches Some(p) ==> carve_from(data@, start_index as int) == Some(
            (p.start as int, p.end as int),
        ) && start_index <= p.start && p.start + start_marker().len() + end_marker().len()
            <= p.end && p.end <= data@.len(),
        r is None ==> carve_from(data@, start_index as int) is None,
{
    let dlen: usize = data.len();
    if dlen < 16 || start_index > dlen - 16 {
        proof {
            // any carved pair needs sixteen marker bytes at or after `start_index`
            lemma_first_match_correct(data@, start_marker(), start_index as int);
            if let Some(s) = first_match(data@, start_marker(), start_index as int) {
                lemma_first_match_correct(data@, end_marker(), s + start_marker().len());
            }
        }
        return None;
    }
    let start_pat = start_marker_bytes();
    match find(data, start_pat.as_slice(), start_index) {
        Some(s) => {
            let end_pat = end_marker_bytes();
            match find(data, end_pat.as_slice(), s + 8) {
                Some(e) => Some(Position { start: s, end: e + 8 }),
                None => None,
            }
        },
        None => None,
    }
}

/// The mathematical pairs of a sequence of positions.
pub open spec fn positions_view(ps: Seq<Position>) -> Seq<(int, int)> {
    ps.map_values(|p: Position| (p.start as int, p.end as int))
}

/// Carving engine: every image range in `data`, in ascending order. The
/// result is exactly `scan_from(data@, 0)`, a function of the buffer contents
/// alone; every range is non-empty, within bounds, and ends no later than the
/// next one starts.
pub fn scan(data: &[u8]) -> (r: Vec<Position>)
    ensures
        positions_view(r@) == scan_from(data@, 0),
        forall|k: int| 0 <= k < r@.len() ==> (#[trigger] r@[k]).start < r@[k].end && r@[k].end
            <= data@.len(),
        forall|k: int, l: int| 0 <= k < l < r@.len() ==> r@[k].end <= r@[l].start,
{
    let mut result: Vec<Position> = Vec::new();
    let mut cursor: usize = 0;
    loop
        invariant
            cursor <= data@.len(),
            positions_view(result@) + scan_from(data@, cursor as int) == scan_from(data@, 0),
            forall|k: int| 0 <= k < result@.len() ==> (#[trigger] result@[k]).start
                < result@[k].end && result@[k].end <= cursor,
            forall|k: int, l: int| 0 <= k < l < result@.len() ==> result@[k].end
                <= result@[l].start,
        ensures
            scan_from(data@, cursor as int) == Seq::<(int, int)>::empty(),
        decreases data@.len() - cursor,
    {
        match rip_png(data, cursor) {
            Some(p) => {
                proof {
                    let pair = (p.start as int, p.end as int);
                    assert(scan_from(data@, cursor as int) == seq![pair] + scan_from(
                        data@,
                        p.end as int,
                    ));
                    assert(positions_view(result@.push(p)) =~= positions_view(result@) + seq![
                        pair,
                    ]);
                    assert(positions_view(result@.push(p)) + scan_from(data@, p.end as int)
                        =~= positions_view(result@) + (seq![pair] + scan_from(
                        data@,
                        p.end as int,
                    )));
                }
                result.push(p);
                cursor = p.end;
            },
            None => {
                break;
            },
        }
    }
    proof {
        assert(positions_view(result@) + scan_from(data@, cursor as int) =~= positions_view(
            result@,
        ));
    }
    result
}

/// Induction over the scan: every emitted pair is carved greedily at the end
/// of the previous pair, lies at or after `from`, is at least two markers
/// wide, stays inside the buffer, and begins no earlier than the previous
/// pair ends.
proof fn lemma_scan_from_props(data: Seq<u8>, from: int)
    requires
        0 <= from <= data.len(),
    ensures
        forall|k: int| 0 <= k < scan_from(data, from).len() ==> carve_from(
            data,
            if k == 0 {
                from
            } else {
                scan_from(data, from)[k - 1].1
            },
        ) == Some(#[trigger] scan_from(data, from)[k]),
        forall|k: int| 0 <= k < scan_from(data, from).len() ==> from <= (
        #[trigger] scan_from(data, from)[k]).0 && scan_from(data, from)[k].0
            + start_marker().len() + end_marker().len() <= scan_from(data, from)[k].1
            && scan_from(data, from)[k].1 <= data.len(),
        forall|k: int| 1 <= k < scan_from(data, from).len() ==> scan_from(data, from)[k - 1].1
            <= (#[trigger] scan_from(data, from)[k]).0,
    decreases data.len() - from,
{
    lemma_carve_bounds(data, from);
    match carve_from(data, from) {
        Some(p) => {
            let ps = scan_from(data, from);
            let rest = scan_from(data, p.1);
            lemma_scan_from_props(data, p.1);
            assert(ps[0] == p);
            assert forall|k: int| 0 <= k < ps.len() implies carve_from(
                data,
                if k == 0 {
                    from
                } else {
                    ps[k - 1].1
                },
            ) == Some(#[trigger] ps[k]) by {
                if k == 1 {
                    assert(ps[k] == rest[0]);
                } else if k > 1 {
                    assert(ps[k] == rest[k - 1]);
                    assert(ps[k - 1] == rest[k - 2]);
                }
            }
            assert forall|k: int| 0 <= k < ps.len() implies from <= (#[trigger] ps[k]).0
                && ps[k].0 + start_marker().len() + end_marker().len() <= ps[k].1 && ps[k].1
                <= data.len() by {
                if k > 0 {
                    assert(ps[k] == rest[k - 1]);
                }
            }
            assert forall|k: int| 1 <= k < ps.len() implies ps[k - 1].1 <= (
            #[trigger] ps[k]).0 by {
                if k == 1 {
                    assert(ps[k] == rest[0]);
                } else {
                    assert(ps[k] == rest[k - 1]);
                    assert(ps[k - 1] == rest[k - 2]);
                }
            }
        },
        None => {},
    }
}

/// Soundness of the scan: pair `k` of `scan_from(data, 0)` is exactly what
/// one carving step yields when resumed at the end of pair `k - 1` (at the
/// buffer start for `k == 0`). So every pair brackets a real start marker and
/// a real end marker, the start marker being the earliest one not consumed by
/// an earlier pair and the end marker the nearest one after it.
pub proof fn lemma_scan_sound(data: Seq<u8>)
    ensures
        forall|k: int| 0 <= k < scan_from(data, 0).len() ==> carve_from(
            data,
            if k == 0 {
                0int
            } else {
                scan_from(data, 0)[k - 1].1
            },
        ) == Some(#[trigger] scan_from(data, 0)[k]),
{
    lemma_scan_from_props(data, 0);
}

/// Every emitted pair brackets real marker occurrences: a start marker
/// occurs at the pair's first offset and an end marker ends exactly at its
/// second.
pub proof fn lemma_scan_pairs_bracket_markers(data: Seq<u8>)
    ensures
        forall|k: int| 0 <= k < scan_from(data, 0).len() ==> match_at(
            data,
            start_marker(),
            (#[trigger] scan_from(data, 0)[k]).0,
        ) && match_at(data, end_marker(), scan_from(data, 0)[k].1 - end_marker().len()),
{
    lemma_scan_sound(data);
    let ps = scan_from(data, 0);
    assert forall|k: int| 0 <= k < ps.len() implies match_at(
        data,
        start_marker(),
        (#[trigger] ps[k]).0,
    ) && match_at(data, end_marker(), ps[k].1 - end_marker().len()) by {
        let prev = if k == 0 {
            0int
        } else {
            ps[k - 1].1
        };
        assert(carve_from(data, prev) == Some(ps[k]));
        lemma_first_match_correct(data, start_marker(), prev);
        if let Some(s) = first_match(data, start_marker(), prev) {
            lemma_first_match_correct(data, end_marker(), s + start_marker().len());
        }
    }
}

/// Well-formedness and ordering of the scan: every pair of
/// `scan_from(data, 0)` is a valid non-empty range inside the buffer, at
/// least two markers wide, and each pair begins no earlier than the previous
/// one ends, so the pairs are strictly ascending and non-overlapping.
pub proof fn lemma_scan_pairs_valid(data: Seq<u8>)
    ensures
        forall|k: int| 0 <= k < scan_from(data, 0).len() ==> 0 <= (
        #[trigger] scan_from(data, 0)[k]).0 && scan_from(data, 0)[k].0 + start_marker().len()
            + end_marker().len() <= scan_from(data, 0)[k].1 && scan_from(data, 0)[k].1
            <= data.len(),
        forall|k: int| 1 <= k < scan_from(data, 0).len() ==> scan_from(data, 0)[k - 1].1 <= (
        #[trigger] scan_from(data, 0)[k]).0,
{
    lemma_scan_from_props(data, 0);
}

/// Helper for completeness: a start marker at `i >= from` that lies in no
/// pair of `scan_from(data, from)` has no end marker after it.
proof fn lemma_scan_complete_from(data: Seq<u8>, from: int, i: int)
    requires
        0 <= from <= data.len(),
        from <= i,
        match_at(data, start_marker(), i),
        forall|k: int| 0 <= k < scan_from(data, from).len() ==> !((
        #[trigger] scan_from(data, from)[k]).0 <= i < scan_from(data, from)[k].1),
    ensures
        forall|e: int| i + start_marker().len() <= e ==> !match_at(data, end_marker(), e),
    decreases data.len() - from,
{
    lemma_carve_bounds(data, from);
    lemma_first_match_correct(data, start_marker(), from);
    match first_match(data, start_marker(), from) {
        None => {
            // contradicts the start marker at `i`
            assert(false);
        },
        Some(s) => {
            assert(s <= i);
            lemma_first_match_correct(data, end_marker(), s + start_marker().len());
            match first_match(data, end_marker(), s + start_marker().len()) {
                None => {
                    // no end marker at or after `s + 8`, hence none after `i + 8`
                },
                Some(e) => {
                    let p = (s, e + end_marker().len());
                    let ps = scan_from(data, from);
                    let rest = scan_from(data, p.1);
                    assert(ps[0] == p);
                    // `i` is not inside the first pair and not before it, so it
                    // lies at or after the pair's end
                    assert(!(p.0 <= i < p.1));
                    assert forall|k: int| 0 <= k < rest.len() implies !((#[trigger] rest[k]).0
                        <= i < rest[k].1) by {
                        assert(ps[k + 1] == rest[k]);
                    }
                    lemma_scan_complete_from(data, p.1, i);
                },
            }
        },
    }
}

/// Completeness of the scan: a start marker that lies inside none of the
/// emitted pairs has no end marker after it — the scan never skips an image
/// that could have been paired.
pub proof fn lemma_scan_complete(data: Seq<u8>, i: int)
    requires
        match_at(data, start_marker(), i),
        forall|k: int| 0 <= k < scan_from(data, 0).len() ==> !((
        #[trigger] scan_from(data, 0)[k]).0 <= i < scan_from(data, 0)[k].1),
    ensures
        forall|e: int| i + start_marker().len() <= e ==> !match_at(data, end_marker(), e),
{
    lemma_scan_complete_from(data, 0, i);
}

/// Determinism of the scan: two position sequences that both stand for
/// `scan_from(data, 0)` are equal, so re-running `scan` on the same buffer
/// contents always yields the identical sequence.
pub proof fn lemma_scan_deterministic(data: Seq<u8>, r1: Seq<Position>, r2: Seq<Position>)
    requires
        positions_view(r1) == scan_from(data, 0),
        positions_view(r2) == scan_from(data, 0),
    ensures
        r1 == r2,
{
    assert(positions_view(r1).len() == r1.len());
    assert(positions_view(r2).len() == r2.len());
    assert forall|k: int| 0 <= k < r1.len() implies r1[k] == r2[k] by {
        assert(positions_view(r1)[k] == (r1[k].start as int, r1[k].end as int));
        assert(positions_view(r2)[k] == (r2[k].start as int, r2[k].end as int));
        assert(r1[k] =~= r2[k]);
    }
    assert(r1 =~= r2);
}

/// Boundary: a buffer too short to hold a start marker and an end marker
/// scans to nothing.
pub proof fn lemma_short_buffer_scans_empty(data: Seq<u8>)
    requires
        data.len() < start_marker().len() + end_marker().len(),
    ensures
        scan_from(data, 0) == Seq::<(int, int)>::empty(),
{
    lemma_carve_bounds(data, 0);
}

/// Boundary: a buffer without any end marker scans to nothing — in
/// particular, a trailing start marker with no end marker after it is
/// discarded rather than emitted as a partial range.
pub proof fn lemma_no_end_marker_scans_empty(data: Seq<u8>)
    requires
        forall|e: int| !match_at(data, end_marker(), e),
    ensures
        scan_from(data, 0) == Seq::<(int, int)>::empty(),
{
    lemma_first_match_correct(data, start_marker(), 0);
    if let Some(s) = first_match(data, start_marker(), 0) {
        lemma_first_match_correct(data, end_marker(), s + start_marker().len());
    }
}

} // verus!
