//! Connected components of a detector's output.
use vstd::prelude::*;
use crate::index::{lemma_decode, lemma_row_bound};
use crate::single::Single;

verus! {

/// Why a detector output or its options were refused.
#[derive(Clone, Copy, Debug, PartialEq, Eq, Structural)]
pub enum DetectionError {
    /// The binary threshold is not within zero and one.
    BinaryThreshold,
    /// The box threshold is not within zero and one.
    BoxThreshold,
    /// The minimum area is zero.
    MinimumArea,
    /// The maximum number of boxes is zero.
    MaximumBoxes,
    /// The unclip ratio is not a finite number above zero.
    UnclipRatio,
    /// The shape is not one map of rows and columns.
    Shape,
    /// The shape holds more values than can be counted.
    ShapeOverflow,
    /// The number of values is not what the shape says.
    Length { values: usize, expected: usize },
    /// A value is infinite or not a number.
    NonFinite,
    /// The content region is empty.
    EmptyContent,
}

/// How detections are read from a detector output.
#[derive(Clone, Copy, Debug)]
pub struct DetectorPostprocessOptions {
    pub binary_threshold: Single,
    pub box_threshold: Single,
    pub min_area: usize,
    pub unclip_ratio: Single,
    pub max_boxes: usize,
}

/// Whether a number lies within zero and one.
pub open spec fn probability(value: Single) -> bool {
    value.finite() && 0 <= value.rank() <= 0x3f80_0000
}

impl Default for DetectorPostprocessOptions {
    /// The thresholds 0.2 and 0.4, an area of three pixels, the ratio 1.4 and a thousand boxes.
    fn default() -> (result: Self)
        ensures
            result == (DetectorPostprocessOptions {
                binary_threshold: Single { bits: 0x3e4c_cccd },
                box_threshold: Single { bits: 0x3ecc_cccd },
                min_area: 3,
                unclip_ratio: Single { bits: 0x3fb3_3333 },
                max_boxes: 1_000,
            }),
    {
        DetectorPostprocessOptions {
            binary_threshold: Single { bits: 0x3e4c_cccd },
            box_threshold: Single { bits: 0x3ecc_cccd },
            min_area: 3,
            unclip_ratio: Single { bits: 0x3fb3_3333 },
            max_boxes: 1_000,
        }
    }
}

impl DetectorPostprocessOptions {
    /// Why the options cannot be used; `None` where they can.
    pub open spec fn error(self) -> Option<DetectionError> {
        if !probability(self.binary_threshold) {
            Some(DetectionError::BinaryThreshold)
        } else if !probability(self.box_threshold) {
            Some(DetectionError::BoxThreshold)
        } else if self.min_area == 0 {
            Some(DetectionError::MinimumArea)
        } else if self.max_boxes == 0 {
            Some(DetectionError::MaximumBoxes)
        } else if !self.unclip_ratio.finite() || self.unclip_ratio.rank() <= 0 {
            Some(DetectionError::UnclipRatio)
        } else {
            None
        }
    }

    /// Checks the options.
    pub fn validate(self) -> (result: Result<(), DetectionError>)
        ensures
            result == match self.error() {
                Some(error) => Err::<(), DetectionError>(error),
                None => Ok(()),
            },
    {
        if !is_probability(self.binary_threshold) {
            return Err(DetectionError::BinaryThreshold);
        }
        if !is_probability(self.box_threshold) {
            return Err(DetectionError::BoxThreshold);
        }
        if self.min_area == 0 {
            return Err(DetectionError::MinimumArea);
        }
        if self.max_boxes == 0 {
            return Err(DetectionError::MaximumBoxes);
        }
        if !self.unclip_ratio.is_finite() || self.unclip_ratio.place() <= 0 {
            return Err(DetectionError::UnclipRatio);
        }
        Ok(())
    }
}

fn is_probability(value: Single) -> (result: bool)
    ensures
        result == probability(value),
{
    value.is_finite() && 0 <= value.place() && value.place() <= 0x3f80_0000
}

/// What the shape of a detector output gives: rows and columns.
pub open spec fn detector_shape_of(shape: Seq<usize>, values: int) -> Result<
    (usize, usize),
    DetectionError,
> {
    if shape.len() != 4 || shape[0] != 1 || shape[1] != 1 || shape[2] == 0 || shape[3] == 0 {
        Err(DetectionError::Shape)
    } else if shape[2] * shape[3] > usize::MAX {
        Err(DetectionError::ShapeOverflow)
    } else if values != shape[2] * shape[3] {
        Err(
            DetectionError::Length {
                values: values as usize,
                expected: (shape[2] * shape[3]) as usize,
            },
        )
    } else {
        Ok((shape[2], shape[3]))
    }
}

/// The rows and columns of a detector output.
pub fn detector_output_shape(shape: &[usize], value_len: usize) -> (result: Result<
    (usize, usize),
    DetectionError,
>)
    ensures
        result == detector_shape_of(shape@, value_len as int),
{
    if shape.len() != 4 || shape[0] != 1 || shape[1] != 1 || shape[2] == 0 || shape[3] == 0 {
        return Err(DetectionError::Shape);
    }
    match shape[2].checked_mul(shape[3]) {
        None => Err(DetectionError::ShapeOverflow),
        Some(expected) => {
            if value_len != expected {
                return Err(DetectionError::Length { values: value_len, expected });
            }
            Ok((shape[2], shape[3]))
        },
    }
}

/// A column and a row.
#[derive(Clone, Copy, Debug, PartialEq, Eq, Structural)]
pub struct Cell {
    pub x: usize,
    pub y: usize,
}

/// Cells as plain numbers.
pub open spec fn places(cells: Seq<Cell>) -> Seq<(int, int)> {
    cells.map_values(|cell: Cell| (cell.x as int, cell.y as int))
}

/// The part of an output that is searched: the first `width` columns of the
/// first `height` rows, `stride` values apart.
#[derive(Clone, Copy, Debug)]
pub struct Region<'a> {
    pub values: &'a [Single],
    pub stride: usize,
    pub width: usize,
    pub height: usize,
    pub threshold: Single,
}

impl<'a> Region<'a> {
    /// Whether the region lies within the values.
    pub open spec fn valid(self) -> bool {
        &&& self.width <= self.stride
        &&& self.height * self.stride <= self.values@.len()
        &&& self.width * self.height <= usize::MAX
    }

    /// Whether a place lies within the region.
    pub open spec fn inside(self, place: (int, int)) -> bool {
        0 <= place.0 < self.width && 0 <= place.1 < self.height
    }

    /// Whether a place lies within the region and its value reaches the threshold.
    pub open spec fn active(self, place: (int, int)) -> bool {
        self.inside(place) && self.values@[place.1 * self.stride + place.0].rank()
            >= self.threshold.rank()
    }

    /// The number of places.
    pub open spec fn area(self) -> int {
        self.width * self.height
    }

    /// The place with this number, row by row.
    pub open spec fn place_at(self, index: int) -> (int, int) {
        (index % self.width as int, index / self.width as int)
    }
}

/// The neighbour with this number: three above, two beside, three below.
pub open spec fn neighbour(place: (int, int), number: int) -> (int, int) {
    if number == 0 {
        (place.0 - 1, place.1 - 1)
    } else if number == 1 {
        (place.0, place.1 - 1)
    } else if number == 2 {
        (place.0 + 1, place.1 - 1)
    } else if number == 3 {
        (place.0 - 1, place.1)
    } else if number == 4 {
        (place.0 + 1, place.1)
    } else if number == 5 {
        (place.0 - 1, place.1 + 1)
    } else if number == 6 {
        (place.0, place.1 + 1)
    } else {
        (place.0 + 1, place.1 + 1)
    }
}

/// Whether a place is active and was not visited before.
pub open spec fn free(region: Region, visited: Seq<(int, int)>, place: (int, int)) -> bool {
    region.active(place) && !visited.contains(place)
}

/// The free neighbours of a place, of the first `count`, that are not known yet.
pub open spec fn fresh(
    region: Region,
    visited: Seq<(int, int)>,
    known: Seq<(int, int)>,
    place: (int, int),
    count: int,
) -> Seq<(int, int)>
    decreases count,
{
    if count <= 0 {
        Seq::empty()
    } else {
        let before = fresh(region, visited, known, place, count - 1);
        let next = neighbour(place, count - 1);
        if free(region, visited, next) && !known.contains(next) {
            before.push(next)
        } else {
            before
        }
    }
}

/// The places known after the neighbours of the first `count` of them were
/// looked at, in the order in which they were found.
pub open spec fn explored(
    region: Region,
    visited: Seq<(int, int)>,
    start: (int, int),
    count: int,
) -> Seq<(int, int)>
    decreases count,
{
    if count <= 0 {
        seq![start]
    } else {
        let known = explored(region, visited, start, count - 1);
        if count - 1 < known.len() {
            known + fresh(region, visited, known, known[count - 1], 8)
        } else {
            known
        }
    }
}

/// The component of a place, in the order in which its places are found.
pub open spec fn component(
    region: Region,
    visited: Seq<(int, int)>,
    start: (int, int),
) -> Seq<(int, int)> {
    explored(region, visited, start, region.area())
}

/// Whether two places touch.
pub open spec fn adjacent(first: (int, int), second: (int, int)) -> bool {
    &&& first != second
    &&& -1 <= first.0 - second.0 <= 1
    &&& -1 <= first.1 - second.1 <= 1
}

proof fn lemma_neighbours(place: (int, int))
    ensures
        forall|k: int| 0 <= k < 8 ==> adjacent(place, #[trigger] neighbour(place, k)),
        forall|other: (int, int)| #[trigger]
            adjacent(place, other) ==> exists|k: int|
                0 <= k < 8 && #[trigger] neighbour(place, k) == other,
        forall|j: int, k: int|
            0 <= j < k < 8 ==> #[trigger] neighbour(place, j) != #[trigger] neighbour(place, k),
{
    assert forall|other: (int, int)| #[trigger] adjacent(place, other) implies exists|k: int|
        0 <= k < 8 && #[trigger] neighbour(place, k) == other by {
        assert(neighbour(place, 0) == other || neighbour(place, 1) == other || neighbour(place, 2)
            == other || neighbour(place, 3) == other || neighbour(place, 4) == other || neighbour(
            place,
            5,
        ) == other || neighbour(place, 6) == other || neighbour(place, 7) == other);
    }
}

proof fn lemma_fresh(
    region: Region,
    visited: Seq<(int, int)>,
    known: Seq<(int, int)>,
    place: (int, int),
    count: int,
)
    requires
        0 <= count <= 8,
    ensures
        forall|other: (int, int)|
            fresh(region, visited, known, place, count).contains(other) ==> adjacent(place, other)
                && #[trigger] free(region, visited, other) && !known.contains(other),
        forall|k: int|
            0 <= k < count && free(region, visited, #[trigger] neighbour(place, k))
                && !known.contains(neighbour(place, k)) ==> fresh(
                region,
                visited,
                known,
                place,
                count,
            ).contains(neighbour(place, k)),
        fresh(region, visited, known, place, count).no_duplicates(),
        forall|other: (int, int)|
            fresh(region, visited, known, place, count).contains(other) ==> exists|k: int|
                0 <= k < count && #[trigger] neighbour(place, k) == other,
    decreases count,
{
    lemma_neighbours(place);
    if count > 0 {
        lemma_fresh(region, visited, known, place, count - 1);
        let before = fresh(region, visited, known, place, count - 1);
        let next = neighbour(place, count - 1);
        let after = fresh(region, visited, known, place, count);
        if free(region, visited, next) && !known.contains(next) {
            assert(after == before.push(next));
            assert(after[before.len() as int] == next);
            assert forall|other: (int, int)| after.contains(other) implies other == next
                || before.contains(other) by {
                let i = choose|i: int| 0 <= i < after.len() && after[i] == other;
                if i < before.len() {
                    assert(before[i] == other);
                }
            }
            assert forall|other: (int, int)| before.contains(other) implies after.contains(
                other,
            ) by {
                let i = choose|i: int| 0 <= i < before.len() && before[i] == other;
                assert(after[i] == other);
            }
            assert(!before.contains(next)) by {
                if before.contains(next) {
                    let k = choose|k: int| 0 <= k < count - 1 && #[trigger] neighbour(place, k) == next;
                    assert(neighbour(place, k) != neighbour(place, count - 1));
                }
            }
            assert(after.no_duplicates()) by {
                assert forall|i: int, j: int| 0 <= i < j < after.len() implies after[i]
                    != after[j] by {
                    assert(after[i] == before[i]);
                    assert(before.contains(before[i]));
                    if j < before.len() {
                        assert(after[j] == before[j]);
                    }
                }
            }
        }
    }
}

/// What holds of the places known at every moment.
pub proof fn lemma_explored(
    region: Region,
    visited: Seq<(int, int)>,
    start: (int, int),
    count: int,
)
    requires
        free(region, visited, start),
        count >= 0,
    ensures
        ({
            let known = explored(region, visited, start, count);
            &&& known.len() > 0
            &&& known[0] == start
            &&& known.no_duplicates()
            &&& forall|i: int| 0 <= i < known.len() ==> free(region, visited, #[trigger] known[i])
            &&& forall|i: int, other: (int, int)|
                0 <= i < known.len() && i < count && #[trigger] adjacent(known[i], other) && free(
                    region,
                    visited,
                    other,
                ) ==> known.contains(other)
            &&& forall|i: int|
                1 <= i < known.len() ==> exists|j: int|
                    0 <= j < i && adjacent(#[trigger] known[j], #[trigger] known[i])
        }),
    decreases count,
{
    if count > 0 {
        lemma_explored(region, visited, start, count - 1);
        let before = explored(region, visited, start, count - 1);
        let known = explored(region, visited, start, count);
        if count - 1 < before.len() {
            let place = before[count - 1];
            let found = fresh(region, visited, before, place, 8);
            lemma_fresh(region, visited, before, place, 8);
            lemma_neighbours(place);
            assert(known == before + found);
            assert forall|other: (int, int)| before.contains(other) || found.contains(
                other,
            ) implies known.contains(other) by {
                if before.contains(other) {
                    let i = choose|i: int| 0 <= i < before.len() && before[i] == other;
                    assert(known[i] == other);
                } else {
                    let i = choose|i: int| 0 <= i < found.len() && found[i] == other;
                    assert(known[before.len() + i] == other);
                }
            }
            assert forall|i: int| 0 <= i < known.len() implies free(
                region,
                visited,
                #[trigger] known[i],
            ) by {
                if i < before.len() {
                    assert(known[i] == before[i]);
                } else {
                    assert(found.contains(found[i - before.len()]));
                }
            }
            assert(known.no_duplicates()) by {
                assert forall|i: int, j: int| 0 <= i < j < known.len() implies known[i]
                    != known[j] by {
                    if j < before.len() {
                        assert(before[i] != before[j]);
                    } else if i < before.len() {
                        assert(before.contains(before[i]));
                        assert(found.contains(found[j - before.len()]));
                    } else {
                        assert(found[i - before.len()] != found[j - before.len()]);
                    }
                }
            }
            assert forall|i: int, other: (int, int)|
                0 <= i < known.len() && i < count && #[trigger] adjacent(known[i], other) && free(
                    region,
                    visited,
                    other,
                ) implies known.contains(other) by {
                assert(known[i] == before[i]);
                if i < count - 1 {
                    assert(before.contains(other));
                } else {
                    let k = choose|k: int| 0 <= k < 8 && #[trigger] neighbour(place, k) == other;
                    if !before.contains(other) {
                        assert(found.contains(neighbour(place, k)));
                    }
                }
            }
            assert forall|i: int| 1 <= i < known.len() implies exists|j: int|
                0 <= j < i && adjacent(#[trigger] known[j], #[trigger] known[i]) by {
                if i < before.len() {
                    let j = choose|j: int|
                        0 <= j < i && adjacent(#[trigger] before[j], before[i]);
                    assert(known[j] == before[j] && known[i] == before[i]);
                    assert(adjacent(known[j], known[i]));
                } else {
                    assert(found.contains(found[i - before.len()]));
                    assert(known[count - 1] == place);
                    assert(known[i] == found[i - before.len()]);
                    assert(adjacent(known[count - 1], known[i]));
                }
            }
        }
    }
}

/// Different places of the region are no more than its area.
proof fn lemma_at_most_area(region: Region, known: Seq<(int, int)>)
    requires
        known.no_duplicates(),
        forall|i: int| 0 <= i < known.len() ==> region.inside(#[trigger] known[i]),
    ensures
        known.len() <= region.area(),
{
    let width: int = region.width as int;
    let numbers = known.map_values(|place: (int, int)| place.1 * width + place.0);
    assert forall|i: int| 0 <= i < numbers.len() implies 0 <= #[trigger] numbers[i]
        < region.area() by {
        assert(region.inside(known[i]));
        lemma_row_bound(known[i].1, region.height as int, known[i].0, width);
        assert(region.height * width == region.area()) by (nonlinear_arith)
            requires
                width == region.width,
                region.area() == region.width * region.height,
        ;
    }
    assert(numbers.no_duplicates()) by {
        assert forall|i: int, j: int| 0 <= i < j < numbers.len() implies numbers[i]
            != numbers[j] by {
            assert(region.inside(known[i]) && region.inside(known[j]));
            lemma_decode(known[i].1, known[i].0, width);
            lemma_decode(known[j].1, known[j].0, width);
            assert(known[i] != known[j]);
        }
    }
    numbers.unique_seq_to_set();
    let all = vstd::set_lib::set_int_range(0, region.area());
    if region.area() < 0 {
        assert(region.area() >= 0) by (nonlinear_arith)
            requires
                region.area() == region.width * region.height,
        ;
    }
    vstd::set_lib::lemma_int_range(0, region.area());
    assert(numbers.to_set().subset_of(all)) by {
        assert forall|n: int| numbers.to_set().contains(n) implies all.contains(n) by {
            let i = choose|i: int| 0 <= i < numbers.len() && numbers[i] == n;
            assert(0 <= numbers[i] < region.area());
        }
    }
    vstd::set_lib::lemma_len_subset(numbers.to_set(), all);
}

/// Once every known place was looked at, nothing more is found.
proof fn lemma_settled(
    region: Region,
    visited: Seq<(int, int)>,
    start: (int, int),
    count: int,
    later: int,
)
    requires
        0 <= count <= later,
        explored(region, visited, start, count).len() <= count,
    ensures
        explored(region, visited, start, later) == explored(region, visited, start, count),
    decreases later,
{
    if later > count {
        lemma_settled(region, visited, start, count, later - 1);
    }
}

/// Whether a list of places leads from one free place to the next.
pub open spec fn is_path(
    region: Region,
    visited: Seq<(int, int)>,
    path: Seq<(int, int)>,
) -> bool {
    &&& path.len() > 0
    &&& forall|i: int| 0 <= i < path.len() ==> free(region, visited, #[trigger] path[i])
    &&& forall|i: int|
        0 <= i < path.len() - 1 ==> adjacent(#[trigger] path[i], path[i + 1])
}

/// The component of a free place holds exactly the places that a path of free
/// places leads to, each of them once.
pub proof fn lemma_component_exact(
    region: Region,
    visited: Seq<(int, int)>,
    start: (int, int),
)
    requires
        free(region, visited, start),
    ensures
        component(region, visited, start).no_duplicates(),
        component(region, visited, start).len() <= region.area(),
        forall|place: (int, int)|
            component(region, visited, start).contains(place) <==> exists|path: Seq<(int, int)>|
                #[trigger] is_path(region, visited, path) && path[0] == start && path.last()
                    == place,
{
    let area = region.area();
    assert(area >= 0) by (nonlinear_arith)
        requires
            area == region.width * region.height,
    ;
    lemma_explored(region, visited, start, area);
    let known = component(region, visited, start);
    lemma_at_most_area(region, known);
    assert forall|place: (int, int)| known.contains(place) implies exists|path: Seq<(int, int)>|
        #[trigger] is_path(region, visited, path) && path[0] == start && path.last() == place by {
        let i = choose|i: int| 0 <= i < known.len() && known[i] == place;
        lemma_path_to(region, visited, known, i);
    }
    assert forall|place: (int, int)|
        (exists|path: Seq<(int, int)>| #[trigger]
            is_path(region, visited, path) && path[0] == start && path.last() == place) implies known.contains(place) by {
        let path = choose|path: Seq<(int, int)>| #[trigger]
            is_path(region, visited, path) && path[0] == start && path.last() == place;
        lemma_path_within(region, visited, known, path, path.len() - 1);
    }
}

proof fn lemma_path_to(
    region: Region,
    visited: Seq<(int, int)>,
    known: Seq<(int, int)>,
    i: int,
)
    requires
        0 <= i < known.len(),
        forall|i: int| 0 <= i < known.len() ==> free(region, visited, #[trigger] known[i]),
        forall|i: int|
            1 <= i < known.len() ==> exists|j: int|
                0 <= j < i && adjacent(#[trigger] known[j], #[trigger] known[i]),
    ensures
        exists|path: Seq<(int, int)>| #[trigger]
            is_path(region, visited, path) && path[0] == known[0] && path.last() == known[i],
    decreases i,
{
    if i == 0 {
        let path = seq![known[0]];
        assert(is_path(region, visited, path) && path[0] == known[0] && path.last() == known[i]);
    } else {
        let j = choose|j: int| 0 <= j < i && adjacent(#[trigger] known[j], known[i]);
        lemma_path_to(region, visited, known, j);
        let head = choose|path: Seq<(int, int)>| #[trigger]
            is_path(region, visited, path) && path[0] == known[0] && path.last() == known[j];
        let path = head.push(known[i]);
        assert forall|k: int| 0 <= k < path.len() implies free(
            region,
            visited,
            #[trigger] path[k],
        ) by {
            if k < head.len() {
                assert(path[k] == head[k]);
            }
        }
        assert forall|k: int| 0 <= k < path.len() - 1 implies adjacent(
            #[trigger] path[k],
            path[k + 1],
        ) by {
            assert(path[k] == head[k]);
            if k < head.len() - 1 {
                assert(path[k + 1] == head[k + 1]);
            }
        }
        assert(is_path(region, visited, path) && path[0] == known[0] && path.last() == known[i]);
    }
}

proof fn lemma_path_within(
    region: Region,
    visited: Seq<(int, int)>,
    known: Seq<(int, int)>,
    path: Seq<(int, int)>,
    i: int,
)
    requires
        is_path(region, visited, path),
        0 <= i < path.len(),
        known.contains(path[0]),
        forall|i: int, other: (int, int)|
            0 <= i < known.len() && #[trigger] adjacent(known[i], other) && free(
                region,
                visited,
                other,
            ) ==> known.contains(other),
    ensures
        known.contains(path[i]),
    decreases i,
{
    if i > 0 {
        lemma_path_within(region, visited, known, path, i - 1);
        let k = choose|k: int| 0 <= k < known.len() && known[k] == path[i - 1];
        assert(adjacent(path[i - 1], path[i - 1 + 1]));
        assert(adjacent(known[k], path[i]));
        assert(free(region, visited, path[i]));
    }
}

/// The places visited before or found, as flags row by row.
pub open spec fn flags_hold(
    region: Region,
    flags: Seq<bool>,
    visited: Seq<(int, int)>,
    known: Seq<(int, int)>,
) -> bool {
    &&& flags.len() == region.area()
    &&& forall|x: int, y: int|
        region.inside((x, y)) ==> #[trigger] flags[y * region.width + x] == (visited.contains(
            (x, y),
        ) || known.contains((x, y)))
}

fn neighbour_of(cell: Cell, number: usize, width: usize, height: usize) -> (result: Option<Cell>)
    requires
        number < 8,
        cell.x < width,
        cell.y < height,
    ensures
        ({
            let next = neighbour((cell.x as int, cell.y as int), number as int);
            if 0 <= next.0 < width && 0 <= next.1 < height {
                result matches Some(found) && found.x == next.0 && found.y == next.1
            } else {
                result is None
            }
        }),
{
    let left: bool = number == 0 || number == 3 || number == 5;
    let right: bool = number == 2 || number == 4 || number == 7;
    let above: bool = number <= 2;
    let below: bool = number >= 5;
    if left && cell.x == 0 || right && cell.x + 1 >= width || above && cell.y == 0 || below
        && cell.y + 1 >= height {
        return None;
    }
    let x: usize = if left {
        cell.x - 1
    } else if right {
        cell.x + 1
    } else {
        cell.x
    };
    let y: usize = if above {
        cell.y - 1
    } else if below {
        cell.y + 1
    } else {
        cell.y
    };
    Some(Cell { x, y })
}

fn reaches(region: &Region, cell: Cell) -> (result: bool)
    requires
        region.valid(),
        region.inside((cell.x as int, cell.y as int)),
    ensures
        result == region.active((cell.x as int, cell.y as int)),
{
    let len: usize = region.values.len();
    proof {
        lemma_row_bound(
            cell.y as int,
            region.height as int,
            cell.x as int,
            region.stride as int,
        );
        assert(cell.y * region.stride >= 0) by (nonlinear_arith)
            requires
                cell.y >= 0,
                region.stride >= 0,
        ;
    }
    let value: Single = region.values[cell.y * region.stride + cell.x];
    value.place() >= region.threshold.place()
}

/// Collects the component of a place and marks its places as visited.
#[verifier::spinoff_prover]
pub(crate) fn collect_component(
    region: &Region,
    start_x: usize,
    start_y: usize,
    visited: &mut Vec<bool>,
    Ghost(seen): Ghost<Seq<(int, int)>>,
) -> (result: Vec<Cell>)
    requires
        region.valid(),
        flags_hold(*region, old(visited)@, seen, Seq::empty()),
        free(*region, seen, (start_x as int, start_y as int)),
    ensures
        places(result@) == component(*region, seen, (start_x as int, start_y as int)),
        flags_hold(*region, final(visited)@, seen, places(result@)),
{
    let ghost start = (start_x as int, start_y as int);
    let width: usize = region.width;
    let mut points: Vec<Cell> = Vec::new();
    points.push(Cell { x: start_x, y: start_y });
    assert(places(points@) =~= seq![start]);
    proof {
        lemma_row_bound(start.1, region.height as int, start.0, width as int);
        assert(region.height * width == region.area()) by (nonlinear_arith)
            requires
                width == region.width,
                region.area() == region.width * region.height,
        ;
        assert(start.1 * width >= 0) by (nonlinear_arith)
            requires
                start.1 >= 0,
                width >= 0,
        ;
    }
    visited.set(start_y * width + start_x, true);
    proof {
        lemma_flags_set(*region, old(visited)@, seen, Seq::empty(), start);
        assert(Seq::<(int, int)>::empty().push(start) =~= places(points@));
    }
    let mut next: usize = 0;
    while next < points.len()
        invariant
            region.valid(),
            width == region.width,
            region.height * width == region.area(),
            free(*region, seen, start),
            next <= points@.len(),
            places(points@) == explored(*region, seen, start, next as int),
            flags_hold(*region, visited@, seen, places(points@)),
        decreases region.area() - next,
    {
        let cell: Cell = points[next];
        let ghost known = places(points@);
        let ghost place = (cell.x as int, cell.y as int);
        proof {
            assert(known[next as int] == place);
            lemma_explored(*region, seen, start, next as int);
            lemma_at_most_area(*region, known);
            assert(free(*region, seen, known[next as int]));
            assert(known + fresh(*region, seen, known, place, 0) =~= known);
        }
        for number in 0..8usize
            invariant
                region.valid(),
                width == region.width,
                region.height * width == region.area(),
                place == (cell.x as int, cell.y as int),
                region.inside(place),
                next < points@.len(),
                places(points@) == known + fresh(*region, seen, known, place, number as int),
                flags_hold(*region, visited@, seen, places(points@)),
        {
            let ghost found = fresh(*region, seen, known, place, number as int);
            let ghost there = neighbour(place, number as int);
            match neighbour_of(cell, number, width, region.height) {
                None => {
                    assert(!region.active(there));
                },
                Some(other) => {
                    proof {
                        lemma_row_bound(there.1, region.height as int, there.0, width as int);
                        assert(there.1 * width >= 0) by (nonlinear_arith)
                            requires
                                there.1 >= 0,
                                width >= 0,
                        ;
                        lemma_fresh(*region, seen, known, place, number as int);
                        lemma_neighbours(place);
                        assert(visited@[there.1 * region.width + there.0] == (seen.contains(there)
                            || places(points@).contains(there)));
                        assert(places(points@).contains(there) == known.contains(there)) by {
                            if known.contains(there) {
                                let i = choose|i: int| 0 <= i < known.len() && known[i] == there;
                                assert(places(points@)[i] == there);
                            }
                            if places(points@).contains(there) && !known.contains(there) {
                                let i = choose|i: int|
                                    0 <= i < places(points@).len() && places(points@)[i] == there;
                                assert(i >= known.len()) by {
                                    if i < known.len() {
                                        assert(known[i] == there);
                                    }
                                }
                                assert(found[i - known.len()] == there);
                                assert(found.contains(there));
                                let k = choose|k: int|
                                    0 <= k < number && #[trigger] neighbour(place, k) == there;
                                assert(neighbour(place, k) != neighbour(place, number as int));
                            }
                        }
                    }
                    let index: usize = other.y * width + other.x;
                    if !visited[index] && reaches(region, other) {
                        let ghost flags = visited@;
                        let ghost before = places(points@);
                        visited.set(index, true);
                        points.push(other);
                        proof {
                            lemma_flags_set(*region, flags, seen, before, there);
                            assert(places(points@) =~= before.push(there));
                            assert(before.push(there) =~= known + found.push(there));
                        }
                    }
                },
            }
        }
        next = next + 1;
    }
    proof {
        lemma_explored(*region, seen, start, next as int);
        let known = places(points@);
        assert forall|i: int| 0 <= i < known.len() implies region.inside(#[trigger] known[i]) by {
            assert(free(*region, seen, known[i]));
        }
        lemma_at_most_area(*region, known);
        lemma_settled(*region, seen, start, next as int, region.area());
    }
    points
}

proof fn lemma_flags_set(
    region: Region,
    flags: Seq<bool>,
    visited: Seq<(int, int)>,
    known: Seq<(int, int)>,
    place: (int, int),
)
    requires
        flags_hold(region, flags, visited, known),
        region.inside(place),
    ensures
        flags_hold(
            region,
            flags.update(place.1 * region.width + place.0, true),
            visited,
            known.push(place),
        ),
{
    let after = flags.update(place.1 * region.width + place.0, true);
    let more = known.push(place);
    let width: int = region.width as int;
    lemma_row_bound(place.1, region.height as int, place.0, width);
    assert(region.height * width == region.area()) by (nonlinear_arith)
        requires
            width == region.width,
            region.area() == region.width * region.height,
    ;
    assert(place.1 * width >= 0) by (nonlinear_arith)
        requires
            place.1 >= 0,
            width >= 0,
    ;
    assert(after.len() == flags.len());
    assert forall|x: int, y: int| region.inside((x, y)) implies #[trigger] after[y * region.width
        + x] == (visited.contains((x, y)) || more.contains((x, y))) by {
        lemma_decode(y, x, width);
        lemma_decode(place.1, place.0, width);
        lemma_row_bound(y, region.height as int, x, width);
        assert(flags[y * region.width + x] == (visited.contains((x, y)) || known.contains((x, y))));
        if (x, y) == place {
            assert(more[known.len() as int] == place);
        } else {
            if known.contains((x, y)) {
                let i = choose|i: int| 0 <= i < known.len() && known[i] == (x, y);
                assert(more[i] == (x, y));
            }
            if more.contains((x, y)) {
                let i = choose|i: int| 0 <= i < more.len() && more[i] == (x, y);
                assert(known[i] == (x, y));
            }
        }
    }
}

} // verus!
