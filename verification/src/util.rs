//! Ranges of positions given by their bounds.

use vstd::prelude::*;
use core::ops::Range;

verus! {

/// One end of a range of positions.
#[derive(Clone, Copy, Debug)]
pub enum Bound {
    /// The range reaches this position and holds it.
    Included(usize),
    /// The range reaches this position and leaves it out.
    Excluded(usize),
    /// The range reaches the end of the sequence on this side.
    Unbounded,
}

/// The first position of a range that starts at `bound` in a sequence of
/// `len` values, if the bound lies within the sequence.
pub open spec fn start_of(bound: Bound, len: int) -> Option<int> {
    match bound {
        Bound::Unbounded => Some(0),
        Bound::Included(i) => if i <= len {
            Some(i as int)
        } else {
            None
        },
        Bound::Excluded(i) => if i < len {
            Some(i + 1)
        } else {
            None
        },
    }
}

/// The position after the last of a range that ends at `bound` in a sequence
/// of `len` values, if the bound lies within the sequence.
pub open spec fn end_of(bound: Bound, len: int) -> Option<int> {
    match bound {
        Bound::Unbounded => Some(len),
        Bound::Excluded(i) => if i <= len {
            Some(i as int)
        } else {
            None
        },
        Bound::Included(i) => if i < len {
            Some(i + 1)
        } else {
            None
        },
    }
}

/// The half-open range of positions between two bounds in a sequence of `len`
/// values, if both bounds lie within the sequence and the start is not after
/// the end.
pub open spec fn range_of(range: (Bound, Bound), len: int) -> Option<(int, int)> {
    match (start_of(range.0, len), end_of(range.1, len)) {
        (Some(start), Some(end)) => if start <= end {
            Some((start, end))
        } else {
            None
        },
        _ => None,
    }
}

/// The half-open range between two bounds in a sequence of `len` values, or
/// nothing where the bounds select no range of the sequence.
pub fn try_simplify_range(range: (Bound, Bound), len: usize) -> (simple: Option<Range<usize>>)
    ensures
        match simple {
            Some(simple) => range_of(range, len as int) == Some(
                (simple.start as int, simple.end as int),
            ),
            None => range_of(range, len as int) is None,
        },
{
    let start = match range.0 {
        Bound::Unbounded => 0,
        Bound::Included(i) => {
            if i <= len {
                i
            } else {
                return None;
            }
        },
        Bound::Excluded(i) => {
            if i < len {
                i + 1
            } else {
                return None;
            }
        },
    };
    let end = match range.1 {
        Bound::Unbounded => len,
        Bound::Excluded(i) => {
            if i <= len {
                i
            } else {
                return None;
            }
        },
        Bound::Included(i) => {
            if i < len {
                i + 1
            } else {
                return None;
            }
        },
    };
    if start > end {
        return None;
    }
    Some(start..end)
}

/// The half-open range between two bounds that select a range of a sequence
/// of `len` values.
pub fn simplify_range(range: (Bound, Bound), len: usize) -> (simple: Range<usize>)
    requires
        range_of(range, len as int) is Some,
    ensures
        range_of(range, len as int) == Some((simple.start as int, simple.end as int)),
        simple.start <= simple.end <= len,
{
    try_simplify_range(range, len).unwrap()
}

} // verus!
