//! Single-precision numbers by their bit pattern: what can be told of their
//! order without arithmetic.
use vstd::prelude::*;

verus! {

/// The bit pattern of a single-precision number.
#[derive(Clone, Copy, Debug, PartialEq, Eq, Structural)]
pub struct Single {
    pub bits: u32,
}

impl Single {
    /// The bit pattern without the sign.
    pub open spec fn spec_magnitude(self) -> int {
        self.bits as int % 0x8000_0000
    }

    /// Whether the sign bit is set.
    pub open spec fn spec_negative(self) -> bool {
        self.bits >= 0x8000_0000
    }

    /// The place of the number among the finite ones; both zeros have place 0.
    pub open spec fn rank(self) -> int {
        if self.spec_negative() {
            -self.spec_magnitude()
        } else {
            self.spec_magnitude()
        }
    }

    /// The place of the number in the total order of all bit patterns, in which
    /// negative zero comes right before zero.
    pub open spec fn total_rank(self) -> int {
        if self.spec_negative() {
            -self.spec_magnitude() - 1
        } else {
            self.spec_magnitude()
        }
    }

    /// Whether the number is neither infinite nor not a number.
    pub open spec fn finite(self) -> bool {
        self.spec_magnitude() < 0x7f80_0000
    }

    /// Whether the number is neither infinite nor not a number.
    pub fn is_finite(self) -> (result: bool)
        ensures
            result == self.finite(),
    {
        self.bits % 0x8000_0000 < 0x7f80_0000
    }

    /// Whether this number comes before another in the total order.
    pub fn total_less(self, other: Single) -> (result: bool)
        ensures
            result == (self.total_rank() < other.total_rank()),
    {
        self.total_place() < other.total_place()
    }

    fn total_place(self) -> (result: i64)
        ensures
            result == self.total_rank(),
    {
        let magnitude: i64 = (self.bits % 0x8000_0000) as i64;
        if self.bits >= 0x8000_0000 {
            -magnitude - 1
        } else {
            magnitude
        }
    }

    /// The place of the number among the finite ones.
    pub fn place(self) -> (result: i64)
        ensures
            result == self.rank(),
    {
        let magnitude: i64 = (self.bits % 0x8000_0000) as i64;
        if self.bits >= 0x8000_0000 {
            -magnitude
        } else {
            magnitude
        }
    }
}

/// Whether every number is finite.
pub open spec fn all_finite(values: Seq<Single>) -> bool {
    forall|i: int| 0 <= i < values.len() ==> (#[trigger] values[i]).finite()
}

/// Whether every number is finite.
pub fn are_finite(values: &[Single]) -> (result: bool)
    ensures
        result == all_finite(values@),
{
    for index in 0..values.len()
        invariant
            forall|i: int| 0 <= i < index ==> (#[trigger] values@[i]).finite(),
    {
        if !values[index].is_finite() {
            assert(!values@[index as int].finite());
            return false;
        }
    }
    true
}

/// The place of the last of the greatest among the first `count` numbers.
pub open spec fn argmax_of(values: Seq<Single>, count: int) -> int
    decreases count,
{
    if count <= 1 {
        0
    } else {
        let best = argmax_of(values, count - 1);
        if values[best].total_rank() <= values[count - 1].total_rank() {
            count - 1
        } else {
            best
        }
    }
}

/// The greatest number is at the place `argmax_of` gives, and no later one is as great.
pub proof fn lemma_argmax(values: Seq<Single>, count: int)
    requires
        1 <= count <= values.len(),
    ensures
        0 <= argmax_of(values, count) < count,
        forall|i: int|
            0 <= i < count ==> (#[trigger] values[i]).total_rank() <= values[argmax_of(
                values,
                count,
            )].total_rank(),
        forall|i: int|
            argmax_of(values, count) < i < count ==> (#[trigger] values[i]).total_rank()
                < values[argmax_of(values, count)].total_rank(),
    decreases count,
{
    if count > 1 {
        lemma_argmax(values, count - 1);
    }
}

/// The place of the last of the greatest numbers of a part of a list.
pub fn argmax(values: &[Single], start: usize, count: usize) -> (result: usize)
    requires
        count > 0,
        start + count <= values@.len(),
    ensures
        result == argmax_of(values@.subrange(start as int, start + count), count as int),
        result < count,
{
    let ghost row = values@.subrange(start as int, start + count);
    let len: usize = values.len();
    let mut best: usize = 0;
    for index in 1..count
        invariant
            len == values@.len(),
            start + count <= len,
            row == values@.subrange(start as int, start + count),
            best == argmax_of(row, index as int),
            best < index,
    {
        assert(row[index as int] == values@[start + index]);
        assert(row[best as int] == values@[start + best]);
        if !values[start + index].total_less(values[start + best]) {
            best = index;
        }
    }
    best
}

} // verus!
