//! Linear scans over byte buffers: finding a delimiter byte and comparing
//! two buffers byte for byte.

use vstd::prelude::*;

verus! {

/// Index of the first occurrence of `b` in `s` at or after `from`, or
/// `s.len()` if `b` does not occur there.  (For a negative `from` the scan
/// simply starts at 0.)
pub open spec fn first_at(s: Seq<u8>, from: int, b: u8) -> int
    decreases s.len() - from,
{
    if from >= s.len() {
        s.len() as int
    } else if 0 <= from && s[from] == b {
        from
    } else {
        first_at(s, from + 1, b)
    }
}

/// `first_at(s, from, b)` lies between `from` and `s.len()`, lands on an
/// occurrence of `b` unless there is none, and skips no occurrence.
pub proof fn lemma_first_at(s: Seq<u8>, from: int, b: u8)
    requires
        0 <= from <= s.len(),
    ensures
        from <= first_at(s, from, b) <= s.len(),
        first_at(s, from, b) < s.len() ==> s[first_at(s, from, b)] == b,
        forall|j: int| from <= j < first_at(s, from, b) ==> s[j] != b,
    decreases s.len() - from,
{
    if from < s.len() && s[from] != b {
        lemma_first_at(s, from + 1, b);
    }
}

/// Position of the first occurrence of `b` in `data` at or after `from`,
/// or `data.len()` if there is none.
pub fn find_from(data: &[u8], from: usize, b: u8) -> (r: usize)
    requires
        from <= data@.len(),
    ensures
        from <= r <= data@.len(),
        r < data@.len() ==> data@[r as int] == b,
        forall|j: int| from <= j < r ==> data@[j] != b,
        r == first_at(data@, from as int, b),
{
    let mut i: usize = from;
    while i < data.len()
        invariant
            from <= i <= data@.len(),
            forall|j: int| from <= j < i ==> data@[j] != b,
        decreases data@.len() - i,
    {
        if data[i] == b {
            proof {
                lemma_first_at(data@, from as int, b);
            }
            return i;
        }
        i = i + 1;
    }
    proof {
        lemma_first_at(data@, from as int, b);
    }
    i
}

/// Byte-for-byte equality of two buffers.
pub fn bytes_eq(a: &[u8], b: &[u8]) -> (r: bool)
    ensures
        r <==> a@ == b@,
{
    if a.len() != b.len() {
        return false;
    }
    let mut i: usize = 0;
    while i < a.len()
        invariant
            i <= a@.len(),
            a@.len() == b@.len(),
            forall|j: int| 0 <= j < i ==> a@[j] == b@[j],
        decreases a@.len() - i,
    {
        if a[i] != b[i] {
            return false;
        }
        i = i + 1;
    }
    proof {
        assert(a@ =~= b@);
    }
    true
}

} // verus!
