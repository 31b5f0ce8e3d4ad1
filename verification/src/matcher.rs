//! Signature matcher: exact byte-for-byte search for a fixed marker pattern
//! inside a byte buffer.

use vstd::prelude::*;

verus! {

/// The eight bytes that every PNG stream begins with.
pub open spec fn start_marker() -> Seq<u8> {
    seq![0x89u8, 0x50u8, 0x4eu8, 0x47u8, 0x0du8, 0x0au8, 0x1au8, 0x0au8]
}

/// The eight bytes that close a PNG stream: the IEND chunk type tag followed
/// by its constant CRC. The scanner always uses this full footer, so every
/// emitted range keeps the four CRC bytes.
pub open spec fn end_marker() -> Seq<u8> {
    seq![0x49u8, 0x45u8, 0x4eu8, 0x44u8, 0xaeu8, 0x42u8, 0x60u8, 0x82u8]
}

/// `pat` occurs whole in `data` starting at offset `i`.
pub open spec fn match_at(data: Seq<u8>, pat: Seq<u8>, i: int) -> bool {
    &&& 0 <= i
    &&& i + pat.len() <= data.len()
    &&& data.subrange(i, i + pat.len() as int) == pat
}

/// The offset of the first occurrence of `pat` in `data` at or after `from`,
/// or `None` when there is none (meaningful for `0 <= from`).
pub open spec fn first_match(data: Seq<u8>, pat: Seq<u8>, from: int) -> Option<int>
    decreases data.len() - from + 1,
{
    if from < 0 || from + pat.len() > data.len() {
        None
    } else if match_at(data, pat, from) {
        Some(from)
    } else {
        first_match(data, pat, from + 1)
    }
}

/// What `first_match` returns: the smallest matching offset at or after
/// `from`, or `None` exactly when no offset at or after `from` matches.
pub proof fn lemma_first_match_correct(data: Seq<u8>, pat: Seq<u8>, from: int)
    ensures
        first_match(data, pat, from) matches Some(i) ==> from <= i && match_at(data, pat, i)
            && (forall|j: int| from <= j < i ==> !match_at(data, pat, j)),
        0 <= from && first_match(data, pat, from) is None ==> (forall|j: int|
            from <= j ==> !match_at(data, pat, j)),
    decreases data.len() - from + 1,
{
    if from < 0 || from + pat.len() > data.len() {
        // no offset at or after `from` leaves room for the whole pattern
    } else if match_at(data, pat, from) {
    } else {
        lemma_first_match_correct(data, pat, from + 1);
    }
}

/// Byte-for-byte comparison of `pat` against `data` at offset `i`.
fn bytes_match_at(data: &[u8], pat: &[u8], i: usize) -> (r: bool)
    requires
        i + pat@.len() <= data@.len(),
    ensures
        r == match_at(data@, pat@, i as int),
{
    let dlen: usize = data.len();
    let mut k: usize = 0;
    while k < pat.len()
        invariant
            i + pat@.len() <= data@.len(),
            dlen == data@.len(),
            k <= pat@.len(),
            forall|t: int| 0 <= t < k ==> data@[i + t] == pat@[t],
        decreases pat@.len() - k,
    {
        if data[i + k] != pat[k] {
            proof {
                assert(data@.subrange(i as int, i + pat@.len() as int)[k as int] == data@[i
                    + k]);
            }
            return false;
        }
        k = k + 1;
    }
    proof {
        assert(data@.subrange(i as int, i + pat@.len() as int) =~= pat@);
    }
    true
}

/// Signature matcher: the smallest offset `i >= from` at which `pattern`
/// occurs whole in `data`, or `None` when no such offset exists.
pub fn find(data: &[u8], pattern: &[u8], from: usize) -> (r: Option<usize>)
    requires
        1 <= pattern@.len(),
        from <= data@.len(),
    ensures
        r matches Some(i) ==> first_match(data@, pattern@, from as int) == Some(i as int)
            && from <= i && match_at(data@, pattern@, i as int)
            && (forall|j: int| from <= j < i ==> !match_at(data@, pattern@, j)),
        r is None ==> first_match(data@, pattern@, from as int) is None
            && (forall|j: int| from <= j ==> !match_at(data@, pattern@, j)),
{
    let dlen: usize = data.len();
    let plen: usize = pattern.len();
    if plen > dlen || from > dlen - plen {
        proof {
            lemma_first_match_correct(data@, pattern@, from as int);
        }
        return None;
    }
    let mut i: usize = from;
    while i <= dlen - plen
        invariant
            1 <= plen <= dlen,
            dlen == data@.len(),
            plen == pattern@.len(),
            from <= i,
            i <= dlen - plen + 1,
            forall|j: int| from <= j < i ==> !match_at(data@, pattern@, j),
        decreases dlen - i,
    {
        if bytes_match_at(data, pattern, i) {
            proof {
                lemma_first_match_correct(data@, pattern@, from as int);
            }
            return Some(i);
        }
        i = i + 1;
    }
    proof {
        assert forall|j: int| from <= j implies !match_at(data@, pattern@, j) by {
            if j >= i {
                assert(j + plen > dlen);
            }
        }
        lemma_first_match_correct(data@, pattern@, from as int);
    }
    None
}

/// The PNG start signature as runtime bytes.
pub fn start_marker_bytes() -> (r: Vec<u8>)
    ensures
        r@ == start_marker(),
{
    let mut v: Vec<u8> = Vec::new();
    v.push(0x89);
    v.push(0x50);
    v.push(0x4e);
    v.push(0x47);
    v.push(0x0d);
    v.push(0x0a);
    v.push(0x1a);
    v.push(0x0a);
    proof {
        assert(v@ =~= start_marker());
    }
    v
}

/// The PNG IEND footer (type tag plus CRC) as runtime bytes.
pub fn end_marker_bytes() -> (r: Vec<u8>)
    ensures
        r@ == end_marker(),
{
    let mut v: Vec<u8> = Vec::new();
    v.push(0x49);
    v.push(0x45);
    v.push(0x4e);
    v.push(0x44);
    v.push(0xae);
    v.push(0x42);
    v.push(0x60);
    v.push(0x82);
    proof {
        assert(v@ =~= end_marker());
    }
    v
}

} // verus!
