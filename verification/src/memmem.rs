//! Case-insensitive byte search: finds a needle in a haystack comparing
//! ASCII letters without regard to case.

use vstd::prelude::*;

verus! {

/// An ASCII byte folded to lowercase; any other byte unchanged.
pub open spec fn lower_byte(b: u8) -> u8 {
    if 65 <= b && b <= 90 {
        (b + 32) as u8
    } else {
        b
    }
}

/// Whether `needle` occurs in `hay` at position `i`, comparing bytes
/// case-insensitively.
pub open spec fn ci_match_at(hay: Seq<u8>, needle: Seq<u8>, i: int) -> bool {
    &&& 0 <= i
    &&& i + needle.len() <= hay.len()
    &&& forall|j: int| 0 <= j < needle.len() ==> lower_byte(hay[i + j]) == lower_byte(needle[j])
}

fn ci_eq(a: u8, b: u8) -> (r: bool)
    ensures
        r == (lower_byte(a) == lower_byte(b)),
{
    let la = if a >= 65 && a <= 90 {
        a + 32
    } else {
        a
    };
    let lb = if b >= 65 && b <= 90 {
        b + 32
    } else {
        b
    };
    la == lb
}

fn matches_at(hay: &[u8], needle: &[u8], i: usize) -> (r: bool)
    requires
        i + needle@.len() <= hay@.len(),
    ensures
        r == ci_match_at(hay@, needle@, i as int),
{
    let m = needle.len();
    let hn = hay.len();
    let mut j: usize = 0;
    while j < m
        invariant
            j <= m,
            m == needle@.len(),
            hn == hay@.len(),
            i + m <= hay@.len(),
            forall|k: int|
                0 <= k < j ==> lower_byte(hay@[i + k]) == lower_byte(needle@[k]),
        decreases m - j,
    {
        if !ci_eq(hay[i + j], needle[j]) {
            proof {
                assert(lower_byte(hay@[i + j]) != lower_byte(needle@[j as int]));
            }
            return false;
        }
        j = j + 1;
    }
    true
}

/// Returns the least index at which `needle` occurs in `slice` ignoring
/// ASCII case, or nothing when it occurs nowhere.  An empty needle occurs
/// at the start.
pub fn search_no_case(slice: &[u8], needle: &[u8]) -> (r: Option<usize>)
    ensures
        match r {
            Some(i) => ci_match_at(slice@, needle@, i as int) && forall|m: int|
                0 <= m < i ==> !ci_match_at(slice@, needle@, m),
            None => forall|m: int| !ci_match_at(slice@, needle@, m),
        },
{
    let n = slice.len();
    let m = needle.len();
    if m > n {
        proof {
            assert forall|k: int| !ci_match_at(slice@, needle@, k) by {
                if 0 <= k {
                    assert(k + needle@.len() > slice@.len());
                }
            }
        }
        return None;
    }
    let mut i: usize = 0;
    while i <= n - m
        invariant
            m <= n,
            n == slice@.len(),
            m == needle@.len(),
            i <= n - m + 1,
            forall|k: int| 0 <= k < i ==> !ci_match_at(slice@, needle@, k),
        decreases n - m + 1 - i,
    {
        if matches_at(slice, needle, i) {
            return Some(i);
        }
        i = i + 1;
    }
    proof {
        assert forall|k: int| !ci_match_at(slice@, needle@, k) by {
            if 0 <= k < i {
            } else if k > n - m {
                assert(!(k + needle@.len() <= slice@.len()));
            }
        }
    }
    None
}

} // verus!
