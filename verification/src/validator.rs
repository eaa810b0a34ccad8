//! The sliding-window scan: which numbers are safe, and where the first
//! dangerous one stands.

use vstd::prelude::*;

verus! {

/// The values at positions `p` and `q` of `s` add up to `target`.
/// The sum is taken over the integers, so it never wraps.
pub open spec fn adds_up(s: Seq<u128>, p: int, q: int, target: u128) -> bool {
    s[p] + s[q] == target
}

/// `p` and `q` are two different positions among the `size` positions right
/// before `i`, and their values add up to the value at `i`.
///
/// The positions have to differ, not the values: a window that holds the
/// same value twice may use both occurrences.
pub open spec fn is_pair_for(s: Seq<u128>, size: int, i: int, p: int, q: int) -> bool {
    &&& i - size <= p < i
    &&& i - size <= q < i
    &&& p != q
    &&& adds_up(s, p, q, s[i])
}

/// The number at position `i` is the sum of two numbers at different
/// positions of the window of `size` numbers before it.
pub open spec fn is_safe(s: Seq<u128>, size: int, i: int) -> bool {
    exists|p: int, q: int| is_pair_for(s, size, i, p, q)
}

/// Position `i` has a full window before it and its number is not safe.
pub open spec fn is_dangerous(s: Seq<u128>, size: int, i: int) -> bool {
    size <= i < s.len() && !is_safe(s, size, i)
}

/// Every position of `s` from `size` up to, but not including, `end` is safe.
pub open spec fn all_safe_before(s: Seq<u128>, size: int, end: int) -> bool {
    forall|j: int| size <= j < end ==> is_safe(s, size, j)
}

/// What a scan of `s` with window `size` reports.
///
/// A window of fewer than two numbers offers no pair, and a sequence no
/// longer than the window has no position to check: both count as clear.
/// Otherwise the report is the first dangerous position with its number, or
/// nothing if every checked position is safe.
pub open spec fn is_scan_result(s: Seq<u128>, size: int, r: Option<(usize, u128)>) -> bool {
    match r {
        Some((i, value)) => {
            &&& size >= 2
            &&& is_dangerous(s, size, i as int)
            &&& all_safe_before(s, size, i as int)
            &&& value == s[i as int]
        },
        None => size < 2 || all_safe_before(s, size, s.len() as int),
    }
}

/// Decides whether the number at position `i` is safe.
fn is_safe_at(cave: &Vec<u128>, size: usize, i: usize) -> (safe: bool)
    requires
        size <= i < cave.len(),
    ensures
        safe == is_safe(cave@, size as int, i as int),
{
    let target: u128 = cave[i];
    let start: usize = i - size;
    let mut p: usize = start;
    while p < i
        invariant
            start == i - size,
            start <= p <= i < cave.len(),
            target == cave@[i as int],
            forall|a: int, b: int| start <= a < p && a < b < i ==> !adds_up(cave@, a, b, target),
        decreases i - p,
    {
        let first: u128 = cave[p];
        if first <= target {
            let rest: u128 = target - first;
            let mut q: usize = p + 1;
            while q < i
                invariant
                    start == i - size,
                    start <= p < q <= i < cave.len(),
                    first == cave@[p as int],
                    first <= target,
                    rest == target - first,
                    target == cave@[i as int],
                    forall|b: int| p < b < q ==> !adds_up(cave@, p as int, b, target),
                decreases i - q,
            {
                if cave[q] == rest {
                    assert(is_pair_for(cave@, size as int, i as int, p as int, q as int));
                    return true;
                }
                q += 1;
            }
        }
        p += 1;
    }
    assert forall|a: int, b: int| !is_pair_for(cave@, size as int, i as int, a, b) by {
        if a < b {
            assert(start <= a < p && a < b < i ==> !adds_up(cave@, a, b, target));
        } else {
            assert(start <= b < p && b < a < i ==> !adds_up(cave@, b, a, target));
        }
    }
    false
}

/// Returns the first dangerous number of `cave` and its position, counted
/// from zero over the whole sequence, or `None` when the path is clear.
///
/// A number is dangerous when `size` numbers stand before it and no two of
/// them at different positions add up to it. The scan goes from the front
/// and stops at the first such number. With a window of fewer than two
/// numbers, or a sequence no longer than the window, nothing is checked and
/// the path is clear.
pub fn find_dangerous_number(cave: &Vec<u128>, size: usize) -> (r: Option<(usize, u128)>)
    ensures
        is_scan_result(cave@, size as int, r),
        r is Some <==> size >= 2 && exists|j: int| is_dangerous(cave@, size as int, j),
        r matches Some((i, _)) ==> forall|j: int| is_dangerous(cave@, size as int, j) ==> i <= j,
        cave.len() <= size ==> r is None,
        all_safe_before(cave@, size as int, cave.len() as int) ==> r is None,
{
    if size < 2 {
        return None;
    }
    let mut i: usize = size;
    while i < cave.len()
        invariant
            2 <= size <= i,
            all_safe_before(cave@, size as int, i as int),
        decreases cave.len() - i,
    {
        if !is_safe_at(cave, size, i) {
            return Some((i, cave[i]));
        }
        i += 1;
    }
    None
}

/// Two different positions of the window that hold the same value make the
/// number after the window safe when twice that value is the number.
pub proof fn lemma_equal_values_at_two_positions_pair(
    s: Seq<u128>,
    size: int,
    i: int,
    p: int,
    q: int,
)
    requires
        i - size <= p < i,
        i - size <= q < i,
        p != q,
        s[p] == s[q],
        s[p] + s[p] == s[i],
    ensures
        is_safe(s, size, i),
{
    assert(is_pair_for(s, size, i, p, q));
}

/// A sequence and a window size have exactly one scan result: whatever two
/// scans of the same input report is the same.
pub proof fn lemma_scan_result_unique(
    s: Seq<u128>,
    size: int,
    first: Option<(usize, u128)>,
    second: Option<(usize, u128)>,
)
    requires
        is_scan_result(s, size, first),
        is_scan_result(s, size, second),
    ensures
        first == second,
{
}

} // verus!
