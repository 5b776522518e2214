//! Scanning H.264 Annex B byte streams for start codes.
//!
//! A start code is a `1` after at least two zeros. The scanners look for the first one at or after
//! an offset and report where its run of zeros begins and how long it is together with the `1`;
//! zeros before the offset do not belong to it.

use vstd::prelude::*;

verus! {

/// Whether a start code ends at `k`: a `1` after two zeros that do not lie before `start`.
pub open spec fn ends_at(nalu: Seq<u8>, start: int, k: int) -> bool {
    start + 2 <= k < nalu.len() && nalu[k] == 1 && nalu[k - 1] == 0 && nalu[k - 2] == 0
}

/// Whether `found` is where the first start code at or after `start` begins and how long it is,
/// with all its zeros, or a pair of -1 where there is none.
pub open spec fn is_first_start_code(nalu: Seq<u8>, start: int, found: (isize, isize)) -> bool {
    if found.0 < 0 {
        found == (-1isize, -1isize) && forall|k: int| !ends_at(nalu, start, k)
    } else {
        let first = found.0 as int;
        let one = found.0 + found.1 - 1;
        &&& start <= first
        &&& ends_at(nalu, start, one)
        &&& forall|k: int| k < one ==> !ends_at(nalu, start, k)
        &&& forall|i: int| first <= i < one ==> #[trigger] nalu[i] == 0
        &&& first == start || nalu[first - 1] != 0
        &&& first + 2 <= one
    }
}

/// Scans byte by byte, counting zeros.
pub fn scalar(nalu: &[u8], start: usize) -> (found: (isize, isize))
    requires
        start <= nalu@.len() <= isize::MAX,
    ensures
        is_first_start_code(nalu@, start as int, found),
{
    let mut zero_count: usize = 0;
    let mut at: usize = start;
    while at < nalu.len()
        invariant
            start <= at <= nalu@.len() <= isize::MAX,
            zero_count <= at - start,
            forall|i: int| at - zero_count <= i < at ==> #[trigger] nalu@[i] == 0,
            at - zero_count == start || nalu@[at - zero_count - 1] != 0,
            forall|k: int| k < at ==> !ends_at(nalu@, start as int, k),
        decreases nalu@.len() - at,
    {
        let b: u8 = nalu[at];
        if b == 0 {
            zero_count = zero_count + 1;
        } else {
            if b == 1 && zero_count >= 2 {
                assert(nalu@[at - 1] == 0 && nalu@[at - 2] == 0);
                return ((at - zero_count) as isize, (zero_count + 1) as isize);
            }
            assert(!ends_at(nalu@, start as int, at as int)) by {
                if zero_count < 2 && start + 2 <= at {
                    assert(nalu@[at - zero_count - 1] != 0);
                }
            }
            zero_count = 0;
        }
        at = at + 1;
    }
    (-1, -1)
}

/// `memchr::memchr_iter`: the positions at which `needle` occurs, in ascending order.
#[verifier::external_body]
fn occurrences(needle: u8, haystack: &[u8]) -> (positions: Vec<usize>)
    ensures
        forall|k: int|
            0 <= k < positions@.len() ==> #[trigger] positions@[k] < haystack@.len()
                && haystack@[positions@[k] as int] == needle,
        forall|j: int, k: int|
            0 <= j < k < positions@.len() ==> #[trigger] positions@[j] < #[trigger] positions@[k],
        forall|i: int|
            0 <= i < haystack@.len() && #[trigger] haystack@[i] == needle ==> exists|k: int|
                0 <= k < positions@.len() && #[trigger] positions@[k] == i,
{
    memchr::memchr_iter(needle, haystack).collect()
}

/// `memchr::memmem::find`: the first position at which `needle` occurs.
#[verifier::external_body]
fn find(haystack: &[u8], needle: &[u8]) -> (position: Option<usize>)
    ensures
        match position {
            Some(p) => {
                &&& p + needle@.len() <= haystack@.len()
                &&& haystack@.subrange(p as int, p + needle@.len()) == needle@
                &&& forall|q: int|
                    0 <= q < p ==> #[trigger] haystack@.subrange(q, q + needle@.len()) != needle@
            },
            None => forall|q: int|
                0 <= q <= haystack@.len() - needle@.len() ==> #[trigger] haystack@.subrange(
                    q,
                    q + needle@.len(),
                ) != needle@,
        },
{
    memchr::memmem::find(haystack, needle)
}

/// Where the run of zeros before `one` begins, not going back further than `start`.
fn run_start(nalu: &[u8], start: usize, one: usize) -> (first: usize)
    requires
        ends_at(nalu@, start as int, one as int),
    ensures
        start <= first,
        first + 2 <= one,
        forall|i: int| first <= i < one ==> #[trigger] nalu@[i] == 0,
        first == start || nalu@[first - 1] != 0,
{
    let mut first: usize = one - 2;
    while first > start && nalu[first - 1] == 0
        invariant
            start <= first,
            first + 2 <= one < nalu@.len(),
            forall|i: int| first <= i < one ==> #[trigger] nalu@[i] == 0,
        decreases first,
    {
        first = first - 1;
    }
    first
}

/// Scans from one `1` to the next and looks at what precedes it.
pub fn byte_search(nalu: &[u8], start: usize) -> (found: (isize, isize))
    requires
        start <= nalu@.len() <= isize::MAX,
    ensures
        is_first_start_code(nalu@, start as int, found),
{
    let rest = &nalu[start..nalu.len()];
    let ones = occurrences(1, rest);
    let mut i: usize = 0;
    while i < ones.len()
        invariant
            start <= nalu@.len() <= isize::MAX,
            rest@ == nalu@.subrange(start as int, nalu@.len() as int),
            i <= ones@.len(),
            forall|k: int| 0 <= k < ones@.len() ==> #[trigger] ones@[k] < rest@.len(),
            forall|k: int| 0 <= k < ones@.len() ==> rest@[#[trigger] ones@[k] as int] == 1,
            forall|j: int, k: int|
                0 <= j < k < ones@.len() ==> #[trigger] ones@[j] < #[trigger] ones@[k],
            forall|p: int|
                0 <= p < rest@.len() && #[trigger] rest@[p] == 1 ==> exists|k: int|
                    0 <= k < ones@.len() && #[trigger] ones@[k] == p,
            forall|k: int|
                0 <= k < i ==> !ends_at(nalu@, start as int, start + #[trigger] ones@[k]),
        decreases ones@.len() - i,
    {
        let relative: usize = ones[i];
        let one: usize = start + relative;
        if !(relative < 2 || nalu[one - 1] != 0 || nalu[one - 2] != 0) {
            assert(nalu@[one as int] == rest@[relative as int]);
            let first: usize = run_start(nalu, start, one);
            assert forall|k: int| k < one implies !ends_at(nalu@, start as int, k) by {
                if ends_at(nalu@, start as int, k) {
                    assert(rest@[k - start] == 1);
                    let j = choose|j: int| 0 <= j < ones@.len() && #[trigger] ones@[j] == k - start;
                    assert(ones@[j] < ones@[i as int]);
                    assert(j < i);
                    assert(!ends_at(nalu@, start as int, start + ones@[j]));
                }
            }
            return (first as isize, (one - first + 1) as isize);
        }
        i = i + 1;
    }
    assert forall|k: int| !ends_at(nalu@, start as int, k) by {
        if ends_at(nalu@, start as int, k) {
            assert(rest@[k - start] == 1);
            let j = choose|j: int| 0 <= j < ones@.len() && #[trigger] ones@[j] == k - start;
            assert(!ends_at(nalu@, start as int, start + ones@[j]));
        }
    }
    (-1, -1)
}

/// Searches for the three bytes that end every start code.
pub fn substring_search(nalu: &[u8], start: usize) -> (found: (isize, isize))
    requires
        start <= nalu@.len() <= isize::MAX,
    ensures
        is_first_start_code(nalu@, start as int, found),
{
    let rest = &nalu[start..nalu.len()];
    let code: [u8; 3] = [0, 0, 1];
    let position = find(rest, code.as_slice());
    proof {
        assert forall|q: int| 0 <= q <= rest@.len() - 3 implies (#[trigger] rest@.subrange(q, q + 3)
            == code@) == ends_at(nalu@, start as int, start + q + 2) by {
            let part = rest@.subrange(q, q + 3);
            assert(part[0] == nalu@[start + q]);
            assert(part[1] == nalu@[start + q + 1]);
            assert(part[2] == nalu@[start + q + 2]);
            if ends_at(nalu@, start as int, start + q + 2) {
                assert(part =~= code@);
            }
        }
    }
    match position {
        Some(relative) => {
            let one: usize = start + relative + 2;
            let first: usize = run_start(nalu, start, one);
            assert forall|k: int| k < one implies !ends_at(nalu@, start as int, k) by {
                if ends_at(nalu@, start as int, k) {
                    let q = k - 2 - start;
                    assert(rest@.subrange(q, q + 3) != code@);
                }
            }
            (first as isize, (one - first + 1) as isize)
        },
        None => {
            assert forall|k: int| !ends_at(nalu@, start as int, k) by {
                if ends_at(nalu@, start as int, k) {
                    let q = k - 2 - start;
                    assert(rest@.subrange(q, q + 3) != code@);
                }
            }
            (-1, -1)
        },
    }
}

/// There is one first start code, so the scanners agree with each other on every input and every
/// offset.
pub proof fn law_scanners_agree(nalu: Seq<u8>, start: int, a: (isize, isize), b: (isize, isize))
    requires
        is_first_start_code(nalu, start, a),
        is_first_start_code(nalu, start, b),
    ensures
        a == b,
{
    let one_a = a.0 + a.1 - 1;
    let one_b = b.0 + b.1 - 1;
    if a.0 >= 0 && b.0 >= 0 {
        assert(one_a == one_b);
        if a.0 < b.0 {
            assert(nalu[b.0 - 1] == 0);
        } else if b.0 < a.0 {
            assert(nalu[a.0 - 1] == 0);
        }
    }
}

} // verus!
