//! Ranges of a sequence by inclusive indices, where a negative index counts from
//! the end.

use vstd::prelude::*;

verus! {

/// The views of the items of a sequence.
pub open spec fn views<T: View>(s: Seq<T>) -> Seq<T::V> {
    Seq::new(s.len(), |i: int| s[i]@)
}

/// Where a range begins: a negative index counts from the end, and one before the
/// first item is taken for the first.
pub open spec fn range_from(len: int, start: int) -> int {
    if start >= 0 {
        start
    } else if len + start >= 0 {
        len + start
    } else {
        0
    }
}

/// The last index of a range: a negative index counts from the end, and one past
/// the last item is taken for the last.
pub open spec fn range_last(len: int, stop: int) -> int {
    let t = if stop >= 0 {
        stop
    } else {
        len + stop
    };
    if t >= len {
        len - 1
    } else {
        t
    }
}

/// The items from index `start` to index `stop`, both included.
pub open spec fn range_of<A>(s: Seq<A>, start: int, stop: int) -> Seq<A> {
    let from = range_from(s.len() as int, start);
    let last = range_last(s.len() as int, stop);
    if from <= last {
        s.subrange(from, last + 1)
    } else {
        Seq::empty()
    }
}

/// The bounds of a range, the second one excluded: equal where the range is empty.
pub fn range_bounds(len: usize, start: i64, stop: i64) -> (bounds: (usize, usize))
    ensures
        bounds.0 <= bounds.1 <= len,
        range_from(len as int, start as int) <= range_last(len as int, stop as int) ==> bounds.0
            == range_from(len as int, start as int) && bounds.1 == range_last(
            len as int,
            stop as int,
        ) + 1,
        range_from(len as int, start as int) > range_last(len as int, stop as int) ==> bounds.0
            == bounds.1,
{
    let n: i128 = len as i128;
    let mut from: i128 = if start < 0 {
        n + start as i128
    } else {
        start as i128
    };
    let mut last: i128 = if stop < 0 {
        n + stop as i128
    } else {
        stop as i128
    };
    if from < 0 {
        from = 0;
    }
    if last >= n {
        last = n - 1;
    }
    if from > last {
        (0, 0)
    } else {
        (from as usize, (last + 1) as usize)
    }
}

} // verus!
