//! Smaller and larger numbers, and the stable ordering of positions by an integer key.
use vstd::prelude::*;

verus! {

pub open spec fn smaller(a: int, b: int) -> int {
    if a <= b {
        a
    } else {
        b
    }
}

pub open spec fn larger(a: int, b: int) -> int {
    if a >= b {
        a
    } else {
        b
    }
}

/// Position `a` comes before position `b`: its key is smaller, or the keys are
/// equal and `a` is the earlier position.
pub open spec fn before(keys: Seq<u128>, a: int, b: int) -> bool {
    keys[a] < keys[b] || (keys[a] == keys[b] && a < b)
}

/// Every position from `lo` up to `hi` occurs in `r`, and `r` is in order.
pub open spec fn ordered(keys: Seq<u128>, r: Seq<usize>, lo: int, hi: int) -> bool {
    &&& r.len() == hi - lo
    &&& forall|a: int| 0 <= a < r.len() ==> lo <= #[trigger] r[a] < hi
    &&& forall|a: int, b: int|
        0 <= a < b < r.len() ==> before(keys, #[trigger] r[a] as int, #[trigger] r[b] as int)
    &&& forall|x: int| lo <= x < hi ==> #[trigger] r.contains(x as usize)
}

fn merge(keys: &Vec<u128>, left: &Vec<usize>, right: &Vec<usize>, Ghost(lo): Ghost<int>, Ghost(
    mid,
): Ghost<int>, Ghost(hi): Ghost<int>) -> (out: Vec<usize>)
    requires
        0 <= lo <= mid <= hi <= keys@.len(),
        ordered(keys@, left@, lo, mid),
        ordered(keys@, right@, mid, hi),
    ensures
        ordered(keys@, out@, lo, hi),
{
    let mut out: Vec<usize> = Vec::new();
    let mut i: usize = 0;
    let mut j: usize = 0;
    while i < left.len() || j < right.len()
        invariant
            0 <= lo <= mid <= hi <= keys@.len(),
            ordered(keys@, left@, lo, mid),
            ordered(keys@, right@, mid, hi),
            i <= left.len(),
            j <= right.len(),
            out@.len() == i + j,
            forall|a: int| 0 <= a < out@.len() ==> lo <= #[trigger] out@[a] < hi,
            forall|a: int, b: int|
                0 <= a < b < out@.len() ==> before(
                    keys@,
                    #[trigger] out@[a] as int,
                    #[trigger] out@[b] as int,
                ),
            forall|a: int, c: int|
                0 <= a < out@.len() && i <= c < left@.len() ==> before(
                    keys@,
                    #[trigger] out@[a] as int,
                    #[trigger] left@[c] as int,
                ),
            forall|a: int, c: int|
                0 <= a < out@.len() && j <= c < right@.len() ==> before(
                    keys@,
                    #[trigger] out@[a] as int,
                    #[trigger] right@[c] as int,
                ),
            forall|c: int| 0 <= c < i ==> out@.contains(#[trigger] left@[c]),
            forall|c: int| 0 <= c < j ==> out@.contains(#[trigger] right@[c]),
        decreases left.len() - i + right.len() - j,
    {
        let ghost prev = out@;
        let from_left: bool = if i < left.len() {
            if j < right.len() {
                keys[left[i]] <= keys[right[j]]
            } else {
                true
            }
        } else {
            false
        };
        let x: usize = if from_left {
            left[i]
        } else {
            right[j]
        };
        out.push(x);
        proof {
            assert forall|y: usize| prev.contains(y) implies out@.contains(y) by {
                let k = choose|k: int| 0 <= k < prev.len() && prev[k] == y;
                assert(out@[k] == y);
            }
            assert(out@[prev.len() as int] == x);
        }
        if from_left {
            i = i + 1;
        } else {
            j = j + 1;
        }
    }
    proof {
        assert forall|x: int| lo <= x < hi implies #[trigger] out@.contains(x as usize) by {
            if x < mid {
                assert(left@.contains(x as usize));
            } else {
                assert(right@.contains(x as usize));
            }
        }
    }
    out
}

fn sort_range(keys: &Vec<u128>, lo: usize, hi: usize) -> (out: Vec<usize>)
    requires
        lo <= hi <= keys.len(),
    ensures
        ordered(keys@, out@, lo as int, hi as int),
    decreases hi - lo,
{
    if lo == hi {
        return Vec::new();
    }
    if hi - lo == 1 {
        let mut out: Vec<usize> = Vec::new();
        out.push(lo);
        assert(out@[0] == lo);
        return out;
    }
    let mid: usize = lo + (hi - lo) / 2;
    let left: Vec<usize> = sort_range(keys, lo, mid);
    let right: Vec<usize> = sort_range(keys, mid, hi);
    merge(keys, &left, &right, Ghost(lo as int), Ghost(mid as int), Ghost(hi as int))
}

/// The positions of `keys`, by increasing key; equal keys keep their order.
pub fn sorted_positions(keys: &Vec<u128>) -> (out: Vec<usize>)
    ensures
        ordered(keys@, out@, 0, keys@.len() as int),
{
    sort_range(keys, 0, keys.len())
}

} // verus!
