//! Decomposition of composite keys.
//!
//! Handlers build composite keys out of colon-separated fields
//! (`"pool:token0:token1"`).  This module extracts the `n`-th field,
//! verified against a specification of colon splitting.

use vstd::prelude::*;
use vstd::pervasive::unreached;
use vstd::string::StrSliceExecFns;
use crate::digits::first_occurrence;
use crate::digits::lemma_first_occurrence_at;
use crate::digits::lemma_first_occurrence_none;

verus! {

/// The colon-separated segments of a key: splitting `"a:b:c"` yields
/// `"a"`, `"b"`, `"c"`; a key without colons is one segment, and empty
/// segments between adjacent colons are kept.
pub open spec fn split_segments(s: Seq<char>) -> Seq<Seq<char>>
    decreases s.len(),
{
    let p = first_occurrence(s, ':');
    if p < 0 || p >= s.len() {
        seq![s]
    } else {
        seq![s.subrange(0, p)] + split_segments(s.subrange(p + 1, s.len() as int))
    }
}

/// The requested segment index exceeds the number of colon-separated
/// segments of the key.
#[derive(Clone, Copy, Debug, PartialEq, Eq, Structural)]
pub struct SegmentIndexError {
    pub index: usize,
}

/// Extract the `index`-th colon-separated segment of `key`, reporting
/// an error exactly when the key has no such segment.
#[verifier::loop_isolation(false)]
pub fn try_segment_at(key: &str, index: usize) -> (r: Result<String, SegmentIndexError>)
    ensures
        (match r {
            Ok(seg) => index < split_segments(key@).len() && seg@ == split_segments(
                key@,
            )[index as int],
            Err(e) => index >= split_segments(key@).len() && e.index == index,
        }),
{
    let st = key;
    let n = st.unicode_len();
    let mut start: usize = 0;
    let mut k: usize = index;
    proof {
        assert(key@.subrange(0, n as int) =~= key@);
    }
    loop
        invariant
            0 <= start <= n,
            k <= index,
            n == key@.len(),
            st@ == key@,
            split_segments(key@).len() == (index - k) + split_segments(
                key@.subrange(start as int, n as int),
            ).len(),
            k < split_segments(key@.subrange(start as int, n as int)).len()
                ==> index < split_segments(key@).len() && split_segments(key@)[index as int]
                == split_segments(key@.subrange(start as int, n as int))[k as int],
        decreases n - start + k,
    {
        let ghost rem = key@.subrange(start as int, n as int);
        // Find the next colon at or after `start`.
        let mut e = start;
        while e < n && st.get_char(e) != ':'
            invariant
                start <= e <= n,
                forall|j: int| start <= j < e ==> key@[j] != ':',
            decreases n - e,
        {
            e += 1;
        }
        proof {
            assert(forall|j: int| 0 <= j < rem.len() ==> rem[j] == key@[start + j]);
            if e < n {
                assert(rem[e - start] == ':');
                assert(forall|j: int| 0 <= j < e - start ==> rem[j] != ':');
                lemma_first_occurrence_at(rem, ':', e - start);
            } else {
                assert(forall|j: int| 0 <= j < rem.len() ==> rem[j] != ':');
                lemma_first_occurrence_none(rem, ':');
            }
        }
        if k == 0 {
            let seg = st.substring_char(start, e).to_owned();
            proof {
                if e < n {
                    assert(split_segments(rem)[0] == rem.subrange(0, e - start));
                } else {
                    assert(split_segments(rem)[0] == rem);
                    assert(rem.subrange(0, e - start) =~= rem);
                }
                assert(seg@ =~= rem.subrange(0, e - start));
            }
            return Ok(seg);
        }
        if e == n {
            // No colon left: the remainder is a single segment, and more
            // than one was still wanted.
            proof {
                assert(split_segments(rem).len() == 1);
            }
            return Err(SegmentIndexError { index });
        }
        proof {
            let tail = rem.subrange((e - start) + 1, rem.len() as int);
            assert(tail =~= key@.subrange(e + 1, n as int));
            assert(split_segments(rem) =~= seq![rem.subrange(0, e - start)] + split_segments(
                tail,
            ));
            if k - 1 < split_segments(tail).len() {
                assert(split_segments(rem)[k as int] == split_segments(tail)[k - 1]);
            }
        }
        start = e + 1;
        k -= 1;
    }
}

/// Extract the `index`-th colon-separated segment of `key`.  The caller
/// asserts that the segment exists; out-of-range indices are excluded.
pub fn segment_at_owned(key: String, index: usize) -> (r: String)
    requires
        index < split_segments(key@).len(),
    ensures
        r@ == split_segments(key@)[index as int],
{
    match try_segment_at(key.as_str(), index) {
        Ok(seg) => seg,
        Err(_) => unreached(),
    }
}

} // verus!
