//! Inbound inspection: rejects a body that holds a forbidden byte string.
//!
//! Each segment is scanned on its own, so an occurrence that straddles the
//! boundary between two segments is not seen. Scanning the joined payload
//! (see `chain::concatenate`) would see it, at the cost of always copying the
//! whole body.
use vstd::prelude::*;

verus! {

/// The byte string that a request body must not contain: `DEADBEEF`.
pub const FORBIDDEN_PATTERN: [u8; 8] = [68, 69, 65, 68, 66, 69, 69, 70];

/// `pat` occurs in `seg` at offset `i`.
pub open spec fn occurs_at(seg: Seq<u8>, pat: Seq<u8>, i: int) -> bool {
    0 <= i && i + pat.len() <= seg.len() && seg.subrange(i, i + pat.len()) == pat
}

/// `pat` occurs somewhere in `seg`.
pub open spec fn contains(seg: Seq<u8>, pat: Seq<u8>) -> bool {
    exists|i: int| #[trigger] occurs_at(seg, pat, i)
}

/// Some segment contains `pat` on its own.
pub open spec fn some_segment_contains(segs: Seq<&[u8]>, pat: Seq<u8>) -> bool {
    exists|k: int| 0 <= k < segs.len() && contains(#[trigger] segs[k]@, pat)
}

/// Whether `pat` occurs in `seg`, by comparing each window of its length.
pub fn segment_contains(seg: &[u8], pat: &[u8]) -> (r: bool)
    ensures
        r == contains(seg@, pat@),
{
    if pat.len() > seg.len() {
        proof {
            assert forall|i: int| !occurs_at(seg@, pat@, i) by {}
        }
        return false;
    }
    let mut i: usize = 0;
    while i <= seg.len() - pat.len()
        invariant
            pat@.len() <= seg@.len(),
            i <= seg@.len() - pat@.len() + 1,
            forall|j: int| 0 <= j < i ==> !occurs_at(seg@, pat@, j),
        decreases seg.len() - pat.len() + 1 - i,
    {
        let mut j: usize = 0;
        let mut same = true;
        while j < pat.len()
            invariant
                i + pat@.len() <= seg@.len(),
                seg@.len() == seg.len(),
                j <= pat@.len(),
                same == (forall|m: int| 0 <= m < j ==> seg@[i + m] == pat@[m]),
            decreases pat.len() - j,
        {
            assert(i + j < seg.len());
            if seg[i + j] != pat[j] {
                same = false;
            }
            j += 1;
        }
        if same {
            proof {
                assert(seg@.subrange(i as int, i + pat@.len()) =~= pat@);
                assert(occurs_at(seg@, pat@, i as int));
            }
            return true;
        }
        proof {
            if occurs_at(seg@, pat@, i as int) {
                assert forall|m: int| 0 <= m < pat@.len() implies seg@[i + m] == pat@[m] by {
                    assert(seg@.subrange(i as int, i + pat@.len())[m] == seg@[i + m]);
                }
            }
        }
        i += 1;
    }
    proof {
        assert forall|k: int| !occurs_at(seg@, pat@, k) by {
            if 0 <= k && k < i {
            }
        }
    }
    false
}

/// Whether any one segment contains `pat`.
pub fn segments_contain(segs: &Vec<&[u8]>, pat: &[u8]) -> (r: bool)
    ensures
        r == some_segment_contains(segs@, pat@),
{
    let mut k: usize = 0;
    while k < segs.len()
        invariant
            k <= segs@.len(),
            forall|m: int| 0 <= m < k ==> !contains(#[trigger] segs@[m]@, pat@),
        decreases segs.len() - k,
    {
        if segment_contains(segs[k], pat) {
            return true;
        }
        k += 1;
    }
    false
}

} // verus!
