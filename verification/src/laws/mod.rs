//! What the operations are for: laws that say of their results, in terms of the
//! inputs alone, what must hold of them.
use vstd::prelude::*;
use crate::single::Single;

pub mod attention;
pub mod convolutions;
pub mod detections;
pub mod dictionaries;
pub mod joins;
pub mod networks;
pub mod parameters;
pub mod pictures;
pub mod planes;
pub mod tensors;
pub mod text;

verus! {

/// The place of a number in the total order of bit patterns: those without a sign
/// by their bits, before them those with a sign, from the greatest bits on.
pub open spec fn total_place(value: Single) -> int {
    if value.bits < 0x8000_0000 {
        value.bits as int
    } else {
        0x7fff_ffff - value.bits
    }
}

/// The place of a number among the numbers, in which both zeros are the same.
pub open spec fn number_place(value: Single) -> int {
    if value.bits < 0x8000_0000 {
        value.bits as int
    } else {
        0x8000_0000 - value.bits
    }
}

/// Whether a bit pattern is no number.
pub open spec fn not_number(value: Single) -> bool {
    0x7f80_0000 < value.bits < 0x8000_0000 || value.bits > 0xff80_0000
}

/// Whether `result` is what folding pairs into a start may give, the first pair first:
/// `sums` are the running sums.
pub open spec fn folds<T, M: Fn(T, T, T) -> T>(
    mul_add: M,
    start: T,
    pairs: Seq<(T, T)>,
    sums: Seq<T>,
    result: T,
) -> bool {
    &&& sums.len() == pairs.len() + 1
    &&& sums[0] == start
    &&& sums[pairs.len() as int] == result
    &&& forall|k: int|
        0 <= k < pairs.len() ==> call_ensures(
            mul_add,
            (pairs[k].0, pairs[k].1, sums[k]),
            #[trigger] sums[k + 1],
        )
}

/// Whether `result` is what folding pairs into a start may give.
pub open spec fn folded<T, M: Fn(T, T, T) -> T>(
    mul_add: M,
    start: T,
    pairs: Seq<(T, T)>,
    result: T,
) -> bool {
    exists|sums: Seq<T>| #[trigger] folds(mul_add, start, pairs, sums, result)
}

/// A chain of multiply-adds folds its pairs.
pub proof fn lemma_folded<T, M: Fn(T, T, T) -> T>(
    mul_add: M,
    start: T,
    pairs: Seq<(T, T)>,
    result: T,
)
    requires
        crate::accumulate::accumulates(mul_add, start, pairs, result),
    ensures
        folded(mul_add, start, pairs, result),
{
    let sums = choose|sums: Seq<T>| #[trigger]
        crate::accumulate::running_sums(mul_add, start, pairs, sums) && sums.last() == result;
    assert forall|k: int| 0 <= k < pairs.len() implies call_ensures(
        mul_add,
        (pairs[k].0, pairs[k].1, sums[k]),
        #[trigger] sums[k + 1],
    ) by {
        let pair = pairs[k];
    }
    assert(folds(mul_add, start, pairs, sums, result));
}

/// Whether an operation on rows may give one row for another.
pub open spec fn maps_row<T, R: Fn(Vec<T>) -> Vec<T>>(
    operation: R,
    before: Seq<T>,
    after: Seq<T>,
) -> bool {
    exists|row: Vec<T>, result: Vec<T>| #[trigger]
        call_ensures(operation, (row,), result) && row@ == before && result@ == after
}

} // verus!
