//! Tolerance-bounded binary search over a slice sorted by a key.
use vstd::prelude::*;

verus! {

/// A value that carries the key a sorted slice of it is searched by.
pub trait SortKey {
    spec fn key_spec(&self) -> i32;

    fn sort_key(&self) -> (r: i32)
        ensures
            r == self.key_spec(),
    ;
}

impl SortKey for i32 {
    open spec fn key_spec(&self) -> i32 {
        *self
    }

    fn sort_key(&self) -> (r: i32) {
        *self
    }
}

/// The keys of `s[start..end]` are non-decreasing.
pub open spec fn sorted_between<T: SortKey>(s: Seq<T>, start: int, end: int) -> bool {
    forall|i: int, j: int|
        start <= i <= j < end ==> #[trigger] s[i].key_spec() <= #[trigger] s[j].key_spec()
}

/// `l` is where the search for the lower bound `left` settles in `s[start..end]`:
/// the last position whose key is below `left`, or `start` when there is none
/// before the first key at least `left`.
pub open spec fn is_left_index<T: SortKey>(s: Seq<T>, start: int, end: int, left: i32, l: int) -> bool {
    &&& start <= l < end
    &&& (l == start || s[l].key_spec() < left)
    &&& (l + 1 >= end || s[l + 1].key_spec() >= left)
}

/// `r` is where the search for the upper bound `right` settles in `s[start..end]`:
/// the last key equal to `right` if there is one, else the insertion point of
/// `right`, clamped to the last position.
pub open spec fn is_right_index<T: SortKey>(s: Seq<T>, start: int, end: int, right: i32, r: int) -> bool {
    &&& start <= r < end
    &&& (r + 1 >= end || s[r + 1].key_spec() > right)
    &&& (r == start || s[r - 1].key_spec() <= right)
    &&& (s[r].key_spec() > right ==> r == start || s[r - 1].key_spec() < right)
    &&& (s[r].key_spec() < right ==> r + 1 >= end)
}

/// The first position in `s[start..end]` whose key is at least `x`, or `end`.
fn first_not_below<T: SortKey>(s: &[T], start: usize, end: usize, x: i32) -> (p: usize)
    requires
        start <= end <= s@.len(),
        sorted_between(s@, start as int, end as int),
    ensures
        start <= p <= end,
        forall|i: int| start <= i < p ==> #[trigger] s@[i].key_spec() < x,
        forall|i: int| p <= i < end ==> #[trigger] s@[i].key_spec() >= x,
{
    let mut lo: usize = start;
    let mut hi: usize = end;
    while lo < hi
        invariant
            start <= lo <= hi <= end,
            end <= s@.len(),
            sorted_between(s@, start as int, end as int),
            forall|i: int| start <= i < lo ==> #[trigger] s@[i].key_spec() < x,
            forall|i: int| hi <= i < end ==> #[trigger] s@[i].key_spec() >= x,
        decreases hi - lo,
    {
        let mid = lo + (hi - lo) / 2;
        if s[mid].sort_key() < x {
            lo = mid + 1;
        } else {
            hi = mid;
        }
    }
    lo
}

/// The first position in `s[start..end]` whose key is above `x`, or `end`.
fn first_above<T: SortKey>(s: &[T], start: usize, end: usize, x: i32) -> (p: usize)
    requires
        start <= end <= s@.len(),
        sorted_between(s@, start as int, end as int),
    ensures
        start <= p <= end,
        forall|i: int| start <= i < p ==> #[trigger] s@[i].key_spec() <= x,
        forall|i: int| p <= i < end ==> #[trigger] s@[i].key_spec() > x,
{
    let mut lo: usize = start;
    let mut hi: usize = end;
    while lo < hi
        invariant
            start <= lo <= hi <= end,
            end <= s@.len(),
            sorted_between(s@, start as int, end as int),
            forall|i: int| start <= i < lo ==> #[trigger] s@[i].key_spec() <= x,
            forall|i: int| hi <= i < end ==> #[trigger] s@[i].key_spec() > x,
        decreases hi - lo,
    {
        let mid = lo + (hi - lo) / 2;
        if s[mid].sort_key() <= x {
            lo = mid + 1;
        } else {
            hi = mid;
        }
    }
    lo
}

/// Searches the non-empty sorted window `s[start..end]` for the bounds
/// `[left, right]`: every element whose key lies in them stands in
/// `s[l..=r]` of the returned `(l, r)`.
pub fn search_range<T: SortKey>(s: &[T], start: usize, end: usize, left: i32, right: i32) -> (r: (
    usize,
    usize,
))
    requires
        start < end <= s@.len(),
        sorted_between(s@, start as int, end as int),
    ensures
        is_left_index(s@, start as int, end as int, left, r.0 as int),
        is_right_index(s@, start as int, end as int, right, r.1 as int),
        forall|i: int|
            start <= i < end && left <= #[trigger] s@[i].key_spec() <= right ==> r.0 <= i <= r.1,
{
    let p = first_not_below(s, start, end, left);
    let l = if p > start {
        p - 1
    } else {
        start
    };
    let q = first_above(s, start, end, right);
    let r = if q > start && s[q - 1].sort_key() == right {
        q - 1
    } else if q < end {
        q
    } else {
        end - 1
    };
    proof {
        if p == start && start + 1 < end {
            assert(s@[start as int + 1].key_spec() >= left);
        }
    }
    (l, r)
}

/// Searches a slice sorted by key for the bounds `[left, right]`, returning
/// `(left_idx, right_idx)` such that every element whose key lies in the bounds
/// stands in `slice[left_idx..=right_idx]`. Keys equal to `left` are all
/// covered, however many there are. An empty slice gives `(0, 0)`.
pub fn binary_search_slice<T: SortKey>(slice: &[T], left: i32, right: i32) -> (r: (usize, usize))
    requires
        sorted_between(slice@, 0, slice@.len() as int),
    ensures
        slice@.len() == 0 ==> r.0 == 0 && r.1 == 0,
        slice@.len() > 0 ==> is_left_index(slice@, 0, slice@.len() as int, left, r.0 as int),
        slice@.len() > 0 ==> is_right_index(slice@, 0, slice@.len() as int, right, r.1 as int),
        forall|i: int|
            0 <= i < slice@.len() && left <= #[trigger] slice@[i].key_spec() <= right ==> r.0 <= i
                <= r.1,
{
    if slice.len() == 0 {
        (0, 0)
    } else {
        search_range(slice, 0, slice.len(), left, right)
    }
}

} // verus!
