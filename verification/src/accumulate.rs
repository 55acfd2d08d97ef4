//! Chains of multiply-add steps over an element type whose arithmetic is
//! supplied by the caller.
//!
//! Every kernel computes an output element by starting from an initial value
//! and folding in one pair of factors after another. The element type and its
//! fused multiply-add are parameters, so a contract states which pairs are
//! folded, in which order, and from which initial value.
use vstd::prelude::*;

verus! {

/// The additive identity of an element type and its fused multiply-add, which
/// takes two factors and the running sum.
pub struct Arithmetic<T, M> {
    pub zero: T,
    pub mul_add: M,
}

impl<T: Copy, M: Fn(T, T, T) -> T> Arithmetic<T, M> {
    /// The multiply-add accepts all operands.
    pub open spec fn valid(&self) -> bool {
        forall|a: T, b: T, c: T| #[trigger] call_requires(self.mul_add, (a, b, c))
    }
}

/// `sums` lists the running sums of a chain: it starts with `initial`, and each
/// further entry is a multiply-add of the next pair and the entry before.
pub open spec fn running_sums<T, M: Fn(T, T, T) -> T>(
    mul_add: M,
    initial: T,
    terms: Seq<(T, T)>,
    sums: Seq<T>,
) -> bool {
    &&& sums.len() == terms.len() + 1
    &&& sums[0] == initial
    &&& forall|k: int|
        0 <= k < terms.len() ==> call_ensures(
            mul_add,
            ((#[trigger] terms[k]).0, terms[k].1, sums[k]),
            sums[k + 1],
        )
}

/// `result` is what folding `terms` into `initial`, first pair first, may give.
pub open spec fn accumulates<T, M: Fn(T, T, T) -> T>(
    mul_add: M,
    initial: T,
    terms: Seq<(T, T)>,
    result: T,
) -> bool {
    exists|sums: Seq<T>| #[trigger]
        running_sums(mul_add, initial, terms, sums) && sums.last() == result
}

/// The activation, where there is one, accepts all operands.
pub open spec fn activation_valid<T, A: Fn(T) -> T>(activation: Option<&A>) -> bool {
    activation matches Some(function) ==> forall|a: T| #[trigger] call_requires(*function, (a,))
}

/// `result` is what the activation may give for `sum`; without an activation it
/// is `sum` itself.
pub open spec fn activates<T, A: Fn(T) -> T>(activation: Option<&A>, sum: T, result: T) -> bool {
    match activation {
        Some(function) => call_ensures(*function, (sum,), result),
        None => result == sum,
    }
}

/// `result` is an activated sum of `terms` that started from `initial`.
pub open spec fn fused<T, M: Fn(T, T, T) -> T, A: Fn(T) -> T>(
    mul_add: M,
    activation: Option<&A>,
    initial: T,
    terms: Seq<(T, T)>,
    result: T,
) -> bool {
    exists|sum: T| #[trigger]
        accumulates(mul_add, initial, terms, sum) && activates(activation, sum, result)
}

/// One more multiply-add extends a chain by one pair.
pub proof fn lemma_accumulate_step<T, M: Fn(T, T, T) -> T>(
    mul_add: M,
    initial: T,
    terms: Seq<(T, T)>,
    partial: T,
    term: (T, T),
    result: T,
)
    requires
        accumulates(mul_add, initial, terms, partial),
        call_ensures(mul_add, (term.0, term.1, partial), result),
    ensures
        accumulates(mul_add, initial, terms.push(term), result),
{
    let sums = choose|sums: Seq<T>| #[trigger]
        running_sums(mul_add, initial, terms, sums) && sums.last() == partial;
    let extended = sums.push(result);
    assert forall|k: int| 0 <= k < terms.push(term).len() implies call_ensures(
        mul_add,
        ((#[trigger] terms.push(term)[k]).0, terms.push(term)[k].1, extended[k]),
        extended[k + 1],
    ) by {
        if k < terms.len() {
            assert(terms.push(term)[k] == terms[k]);
        }
    }
    assert(running_sums(mul_add, initial, terms.push(term), extended));
    assert(extended.last() == result);
}

/// A chain without pairs keeps its initial value.
pub proof fn lemma_accumulate_none<T, M: Fn(T, T, T) -> T>(mul_add: M, initial: T, terms: Seq<(T, T)>)
    requires
        terms.len() == 0,
    ensures
        accumulates(mul_add, initial, terms, initial),
{
    let sums = seq![initial];
    assert(running_sums(mul_add, initial, terms, sums));
    assert(sums.last() == initial);
}

/// A chain that goes on from where another one ended is one chain over both
/// lists of pairs: splitting the depth of a product into blocks that are
/// accumulated one after the other gives what one pass gives.
pub proof fn lemma_accumulate_blocks<T, M: Fn(T, T, T) -> T>(
    mul_add: M,
    initial: T,
    first: Seq<(T, T)>,
    partial: T,
    second: Seq<(T, T)>,
    result: T,
)
    requires
        accumulates(mul_add, initial, first, partial),
        accumulates(mul_add, partial, second, result),
    ensures
        accumulates(mul_add, initial, first + second, result),
{
    let head = choose|sums: Seq<T>| #[trigger]
        running_sums(mul_add, initial, first, sums) && sums.last() == partial;
    let tail = choose|sums: Seq<T>| #[trigger]
        running_sums(mul_add, partial, second, sums) && sums.last() == result;
    let terms = first + second;
    let sums = head + tail.skip(1);
    assert forall|k: int| 0 <= k < terms.len() implies call_ensures(
        mul_add,
        ((#[trigger] terms[k]).0, terms[k].1, sums[k]),
        sums[k + 1],
    ) by {
        if k < first.len() {
            assert(terms[k] == first[k]);
        } else {
            assert(terms[k] == second[k - first.len()]);
            assert(sums[k] == tail[k - first.len()]);
        }
    }
    assert(running_sums(mul_add, initial, terms, sums));
    assert(sums.last() == result);
}

/// Applies an activation, where there is one.
pub fn activate<T: Copy, A: Fn(T) -> T>(activation: Option<&A>, sum: T) -> (result: T)
    requires
        activation_valid(activation),
    ensures
        activates(activation, sum, result),
{
    match activation {
        Some(function) => function(sum),
        None => sum,
    }
}

} // verus!
