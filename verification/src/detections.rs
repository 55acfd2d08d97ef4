//! The components of a detector output, and the order of detections.
use vstd::prelude::*;
use crate::components::{
    collect_component, component, detector_output_shape, detector_shape_of, flags_hold, free,
    is_path, lemma_component_exact, places, Cell, DetectionError, DetectorPostprocessOptions,
    Region,
};
use crate::index::{lemma_encode, lemma_row_bound};
use crate::single::{all_finite, are_finite, Single};

verus! {

/// The places of all components that start at one of the first `count` places.
pub open spec fn covered(region: Region, count: int) -> Seq<(int, int)>
    decreases count,
{
    if count <= 0 {
        Seq::empty()
    } else {
        let before = covered(region, count - 1);
        let place = region.place_at(count - 1);
        if free(region, before, place) {
            before + component(region, before, place)
        } else {
            before
        }
    }
}

/// The components of at least `least` places that start at one of the first
/// `count` places.
pub open spec fn found(region: Region, least: int, count: int) -> Seq<Seq<(int, int)>>
    decreases count,
{
    if count <= 0 {
        Seq::empty()
    } else {
        let seen = covered(region, count - 1);
        let before = found(region, least, count - 1);
        let place = region.place_at(count - 1);
        if free(region, seen, place) && component(region, seen, place).len() >= least {
            before.push(component(region, seen, place))
        } else {
            before
        }
    }
}

/// What lists of cells hold.
pub open spec fn all_places(lists: Seq<Vec<Cell>>) -> Seq<Seq<(int, int)>> {
    lists.map_values(|list: Vec<Cell>| places(list@))
}

/// Every active place lies in exactly one component: none is listed twice, and
/// all are listed.
pub proof fn lemma_components_partition(region: Region, count: int)
    requires
        0 <= count <= region.area(),
    ensures
        covered(region, count).no_duplicates(),
        forall|i: int|
            0 <= i < covered(region, count).len() ==> region.active(
                #[trigger] covered(region, count)[i],
            ),
        forall|i: int|
            0 <= i < count && region.active(#[trigger] region.place_at(i)) ==> covered(
                region,
                count,
            ).contains(region.place_at(i)),
    decreases count,
{
    if count > 0 {
        lemma_components_partition(region, count - 1);
        let before = covered(region, count - 1);
        let after = covered(region, count);
        let place = region.place_at(count - 1);
        if free(region, before, place) {
            let more = component(region, before, place);
            lemma_component_exact(region, before, place);
            assert(after == before + more);
            let alone = seq![place];
            assert(is_path(region, before, alone) && alone[0] == place && alone.last() == place);
            assert(more.contains(place));
            assert forall|other: (int, int)| before.contains(other) || more.contains(
                other,
            ) implies after.contains(other) by {
                if before.contains(other) {
                    let i = choose|i: int| 0 <= i < before.len() && before[i] == other;
                    assert(after[i] == other);
                } else {
                    let i = choose|i: int| 0 <= i < more.len() && more[i] == other;
                    assert(after[before.len() + i] == other);
                }
            }
            assert forall|other: (int, int)| more.contains(other) implies free(
                region,
                before,
                other,
            ) by {
                let path = choose|path: Seq<(int, int)>| #[trigger]
                    is_path(region, before, path) && path[0] == place && path.last() == other;
                assert(free(region, before, path[path.len() - 1]));
            }
            assert forall|i: int| 0 <= i < after.len() implies region.active(
                #[trigger] after[i],
            ) by {
                if i < before.len() {
                    assert(after[i] == before[i]);
                } else {
                    assert(more.contains(more[i - before.len()]));
                    assert(free(region, before, more[i - before.len()]));
                }
            }
            assert(after.no_duplicates()) by {
                assert forall|i: int, j: int| 0 <= i < j < after.len() implies after[i]
                    != after[j] by {
                    if j < before.len() {
                        assert(before[i] != before[j]);
                    } else if i < before.len() {
                        assert(before.contains(before[i]));
                        assert(more.contains(more[j - before.len()]));
                        assert(free(region, before, more[j - before.len()]));
                    } else {
                        assert(more[i - before.len()] != more[j - before.len()]);
                    }
                }
            }
        }
    }
}

/// Finds the components of a region, from the top row by row, that have at
/// least `least` places.
#[verifier::spinoff_prover]
pub fn find_components(region: &Region, least: usize) -> (result: Vec<Vec<Cell>>)
    requires
        region.valid(),
    ensures
        all_places(result@) == found(*region, least as int, region.area()),
{
    let width: usize = region.width;
    let height: usize = region.height;
    let mut result: Vec<Vec<Cell>> = Vec::new();
    assert(all_places(result@) =~= Seq::<Seq<(int, int)>>::empty());
    let mut visited: Vec<bool> = Vec::new();
    let area: usize = width * height;
    for _index in 0..area
        invariant
            visited@ == Seq::new(_index as nat, |i: int| false),
    {
        visited.push(false);
        assert(visited@ =~= Seq::new((_index + 1) as nat, |i: int| false));
    }
    assert(flags_hold(*region, visited@, Seq::empty(), Seq::empty())) by {
        assert forall|x: int, y: int| region.inside((x, y)) implies #[trigger] visited@[y
            * region.width + x] == false by {
            lemma_row_bound(y, height as int, x, width as int);
            assert(height * width == area) by (nonlinear_arith)
                requires
                    area == width * height,
            ;
            assert(y * width >= 0) by (nonlinear_arith)
                requires
                    y >= 0,
                    width >= 0,
            ;
        }
    }
    if width == 0 {
        assert(area == 0) by (nonlinear_arith)
            requires
                area == width * height,
                width == 0,
        ;
        return result;
    }
    let ghost mut seen: Seq<(int, int)> = Seq::empty();
    for index in 0..area
        invariant
            region.valid(),
            width == region.width,
            height == region.height,
            width > 0,
            area == region.area(),
            seen == covered(*region, index as int),
            all_places(result@) == found(*region, least as int, index as int),
            flags_hold(*region, visited@, seen, Seq::empty()),
    {
        let x: usize = index % width;
        let y: usize = index / width;
        let ghost place = region.place_at(index as int);
        proof {
            lemma_encode(index as int, width as int);
            assert(y < height) by (nonlinear_arith)
                requires
                    index < width * height,
                    index == y * width + x,
                    x < width,
                    x >= 0,
                    y >= 0,
            ;
            assert(region.inside(place));
            assert(visited@[place.1 * region.width + place.0] == seen.contains(place));
        }
        let stride: usize = region.stride;
        let len: usize = region.values.len();
        proof {
            lemma_row_bound(y as int, height as int, x as int, stride as int);
            assert(y * stride >= 0) by (nonlinear_arith)
                requires
                    y >= 0,
                    stride >= 0,
            ;
        }
        let value: Single = region.values[y * stride + x];
        if !visited[index] && value.place() >= region.threshold.place() {
            assert(free(*region, seen, place));
            let points: Vec<Cell> = collect_component(region, x, y, &mut visited, Ghost(seen));
            let ghost before = seen;
            proof {
                seen = before + places(points@);
                assert forall|x: int, y: int| region.inside((x, y)) implies #[trigger] visited@[y
                    * region.width + x] == (seen.contains((x, y)) || Seq::<
                    (int, int),
                >::empty().contains((x, y))) by {
                    let known = places(points@);
                    if before.contains((x, y)) {
                        let i = choose|i: int| 0 <= i < before.len() && before[i] == (x, y);
                        assert(seen[i] == (x, y));
                    }
                    if known.contains((x, y)) {
                        let i = choose|i: int| 0 <= i < known.len() && known[i] == (x, y);
                        assert(seen[before.len() + i] == (x, y));
                    }
                    if seen.contains((x, y)) {
                        let i = choose|i: int| 0 <= i < seen.len() && seen[i] == (x, y);
                        if i < before.len() {
                            assert(before[i] == (x, y));
                        } else {
                            assert(known[i - before.len()] == (x, y));
                        }
                    }
                }
                assert(flags_hold(*region, visited@, seen, Seq::empty()));
            }
            if points.len() >= least {
                let ghost held = all_places(result@);
                result.push(points);
                assert(all_places(result@) =~= held.push(places(points@)));
            }
        } else {
            assert(!free(*region, seen, place));
        }
    }
    result
}

/// Why a detector output cannot be searched; `None` where it can.
pub open spec fn search_error(
    values: Seq<Single>,
    shape: Seq<usize>,
    content_width: usize,
    content_height: usize,
    options: DetectorPostprocessOptions,
) -> Option<DetectionError> {
    if options.error() is Some {
        options.error()
    } else {
        match detector_shape_of(shape, values.len() as int) {
            Err(error) => Some(error),
            Ok(_) => if !all_finite(values) {
                Some(DetectionError::NonFinite)
            } else if content_width == 0 || content_height == 0 {
                Some(DetectionError::EmptyContent)
            } else {
                None
            },
        }
    }
}

/// The smaller of two numbers.
pub open spec fn lesser(first: usize, second: usize) -> usize {
    if first < second {
        first
    } else {
        second
    }
}

/// The components of a detector output, within the content that was not added
/// to fill the input, whose values reach the binary threshold.
pub fn extract_components(
    values: &[Single],
    shape: &[usize],
    content_width: usize,
    content_height: usize,
    options: DetectorPostprocessOptions,
) -> (result: Result<Vec<Vec<Cell>>, DetectionError>)
    ensures
        match (search_error(values@, shape@, content_width, content_height, options), result) {
            (Some(wanted), Err(error)) => error == wanted,
            (None, Ok(lists)) => {
                let region = (Region {
                    values,
                    stride: shape@[3],
                    width: lesser(content_width, shape@[3]),
                    height: lesser(content_height, shape@[2]),
                    threshold: options.binary_threshold,
                });
                &&& region.valid()
                &&& all_places(lists@) == found(region, options.min_area as int, region.area())
            },
            _ => false,
        },
{
    match options.validate() {
        Err(error) => {
            return Err(error);
        },
        Ok(()) => {},
    }
    let (rows, columns): (usize, usize) = match detector_output_shape(shape, values.len()) {
        Err(error) => {
            return Err(error);
        },
        Ok(sizes) => sizes,
    };
    if !are_finite(values) {
        return Err(DetectionError::NonFinite);
    }
    let width: usize = if content_width < columns {
        content_width
    } else {
        columns
    };
    let height: usize = if content_height < rows {
        content_height
    } else {
        rows
    };
    if width == 0 || height == 0 {
        return Err(DetectionError::EmptyContent);
    }
    let len: usize = values.len();
    let region: Region = Region {
        values,
        stride: columns,
        width,
        height,
        threshold: options.binary_threshold,
    };
    proof {
        assert(height * columns <= rows * columns) by (nonlinear_arith)
            requires
                height <= rows,
                columns >= 0,
        ;
        assert(width * height <= height * columns) by (nonlinear_arith)
            requires
                width <= columns,
                height >= 0,
        ;
    }
    Ok(find_components(&region, options.min_area))
}

/// What a detection is ordered by.
#[derive(Clone, Copy, Debug)]
pub struct DetectionKey {
    pub center_x: Single,
    pub center_y: Single,
    pub score: Single,
}

/// Whether one triple comes before another, by the first number that differs.
pub open spec fn precedes(first: (int, int, int), second: (int, int, int)) -> bool {
    ||| first.0 < second.0
    ||| first.0 == second.0 && first.1 < second.1
    ||| first.0 == second.0 && first.1 == second.1 && first.2 < second.2
}

/// From top to bottom, then from left to right, then by score.
pub open spec fn reading_key(key: DetectionKey) -> (int, int, int) {
    (key.center_y.total_rank(), key.center_x.total_rank(), key.score.total_rank())
}

/// By falling score, then from top to bottom, then from left to right.
pub open spec fn score_key(key: DetectionKey) -> (int, int, int) {
    (-key.score.total_rank(), key.center_y.total_rank(), key.center_x.total_rank())
}

/// Whether the detection at `first` comes before that at `second` where they
/// are ordered by `key_of` and, where that does not tell, by their place.
pub open spec fn comes_before(
    keys: Seq<DetectionKey>,
    by_score: bool,
    first: int,
    second: int,
) -> bool {
    let key_of = |key: DetectionKey|
        if by_score {
            score_key(key)
        } else {
            reading_key(key)
        };
    ||| precedes(key_of(keys[first]), key_of(keys[second]))
    ||| key_of(keys[first]) == key_of(keys[second]) && first < second
}

/// Whether a list of places rises in the order.
pub open spec fn rising(keys: Seq<DetectionKey>, by_score: bool, order: Seq<usize>) -> bool {
    forall|i: int, j: int|
        0 <= i < j < order.len() ==> comes_before(
            keys,
            by_score,
            #[trigger] order[i] as int,
            #[trigger] order[j] as int,
        )
}

fn is_before(keys: &[DetectionKey], by_score: bool, first: usize, second: usize) -> (result: bool)
    requires
        first < keys@.len(),
        second < keys@.len(),
    ensures
        result == comes_before(keys@, by_score, first as int, second as int),
{
    let one: DetectionKey = keys[first];
    let other: DetectionKey = keys[second];
    if by_score {
        if one.score.bits != other.score.bits {
            return other.score.total_less(one.score);
        }
        if one.center_y.bits != other.center_y.bits {
            return one.center_y.total_less(other.center_y);
        }
        if one.center_x.bits != other.center_x.bits {
            return one.center_x.total_less(other.center_x);
        }
    } else {
        if one.center_y.bits != other.center_y.bits {
            return one.center_y.total_less(other.center_y);
        }
        if one.center_x.bits != other.center_x.bits {
            return one.center_x.total_less(other.center_x);
        }
        if one.score.bits != other.score.bits {
            return one.score.total_less(other.score);
        }
    }
    first < second
}

/// The given places in the order.
fn sorted(keys: &[DetectionKey], by_score: bool, given: &Vec<usize>) -> (result: Vec<usize>)
    requires
        forall|i: int| 0 <= i < given@.len() ==> (#[trigger] given@[i]) < keys@.len(),
        given@.no_duplicates(),
    ensures
        rising(keys@, by_score, result@),
        result@.len() == given@.len(),
        forall|value: usize| given@.contains(value) <==> result@.contains(value),
{
    let mut result: Vec<usize> = Vec::new();
    let total: usize = given.len();
    for count in 0..total
        invariant
            total == given@.len(),
            forall|i: int| 0 <= i < given@.len() ==> (#[trigger] given@[i]) < keys@.len(),
            given@.no_duplicates(),
            rising(keys@, by_score, result@),
            result@.len() == count,
            forall|value: usize| given@.take(count as int).contains(value) <==> result@.contains(
                value,
            ),
    {
        let value: usize = given[count];
        let mut position: usize = result.len();
        proof {
            assert forall|i: int| 0 <= i < result@.len() implies #[trigger] result@[i]
                < keys@.len() && result@[i] != value by {
                assert(result@.contains(result@[i]));
                let j = choose|j: int|
                    0 <= j < given@.take(count as int).len() && given@.take(count as int)[j]
                        == result@[i];
                assert(given@[j] == result@[i]);
                assert(given@[j] != given@[count as int]);
            }
        }
        while position > 0 && is_before(keys, by_score, value, result[position - 1])
            invariant
                value < keys@.len(),
                position <= result@.len(),
                rising(keys@, by_score, result@),
                forall|i: int|
                    0 <= i < result@.len() ==> #[trigger] result@[i] < keys@.len() && result@[i]
                        != value,
                forall|i: int|
                    position <= i < result@.len() ==> comes_before(
                        keys@,
                        by_score,
                        value as int,
                        #[trigger] result@[i] as int,
                    ),
            decreases position,
        {
            position = position - 1;
        }
        let ghost before = result@;
        result.insert(position, value);
        proof {
            let after = result@;
            assert(after == before.insert(position as int, value));
            if position > 0 {
                lemma_trichotomy(keys@, by_score, value as int, before[position - 1] as int);
            }
            assert forall|i: int, j: int| 0 <= i < j < after.len() implies comes_before(
                keys@,
                by_score,
                #[trigger] after[i] as int,
                #[trigger] after[j] as int,
            ) by {
                let a: int = if i < position {
                    i
                } else {
                    i - 1
                };
                let b: int = if j < position {
                    j
                } else {
                    j - 1
                };
                if i == position {
                    assert(after[j] == before[b]);
                } else if j == position {
                    assert(after[i] == before[i]);
                    if i < position - 1 {
                        assert(comes_before(
                            keys@,
                            by_score,
                            before[i] as int,
                            before[position - 1] as int,
                        ));
                    }
                } else {
                    assert(after[i] == before[a] && after[j] == before[b]);
                    assert(comes_before(keys@, by_score, before[a] as int, before[b] as int));
                }
            }
            let head = given@.take(count as int);
            let longer = given@.take(count + 1);
            assert forall|other: usize| longer.contains(other) <==> after.contains(other) by {
                if longer.contains(other) {
                    let i = choose|i: int| 0 <= i < longer.len() && longer[i] == other;
                    if i == count {
                        assert(after[position as int] == other);
                    } else {
                        assert(head[i] == other);
                        assert(head.contains(other));
                        assert(before.contains(other));
                        let j = choose|j: int| 0 <= j < before.len() && before[j] == other;
                        if j < position {
                            assert(after[j] == other);
                        } else {
                            assert(after[j + 1] == other);
                        }
                    }
                }
                if after.contains(other) {
                    let j = choose|j: int| 0 <= j < after.len() && after[j] == other;
                    if j == position {
                        assert(longer[count as int] == other);
                    } else {
                        let k: int = if j < position {
                            j
                        } else {
                            j - 1
                        };
                        assert(before[k] == other);
                        assert(before.contains(other));
                        let i = choose|i: int| 0 <= i < head.len() && head[i] == other;
                        assert(longer[i] == other);
                    }
                }
            }
        }
    }
    assert(given@.take(total as int) =~= given@);
    result
}

proof fn lemma_trichotomy(keys: Seq<DetectionKey>, by_score: bool, first: int, second: int)
    requires
        first != second,
    ensures
        comes_before(keys, by_score, first, second) != comes_before(keys, by_score, second, first),
{
}

/// Whether `order` lists, in reading order, the detections that stay: all of
/// them, or the `max_boxes` that come first by score.
pub open spec fn is_selection(
    keys: Seq<DetectionKey>,
    max_boxes: int,
    order: Seq<usize>,
) -> bool {
    &&& order.len() == if keys.len() < max_boxes {
        keys.len() as int
    } else {
        max_boxes
    }
    &&& forall|i: int| 0 <= i < order.len() ==> (#[trigger] order[i]) < keys.len()
    &&& rising(keys, false, order)
    &&& forall|i: int, other: usize|
        0 <= i < order.len() && other < keys.len() && !order.contains(other) ==> #[trigger]
            comes_before(keys, true, order[i] as int, other as int)
}

/// The detections that stay, in reading order. `keys` tells where each stands
/// and its score; the result lists their places.
pub fn order_detections(keys: &[DetectionKey], max_boxes: usize) -> (result: Vec<usize>)
    ensures
        is_selection(keys@, max_boxes as int, result@),
{
    let total: usize = keys.len();
    let mut all: Vec<usize> = Vec::new();
    for index in 0..total
        invariant
            all@ == Seq::new(index as nat, |i: int| i as usize),
    {
        all.push(index);
        assert(all@ =~= Seq::new((index + 1) as nat, |i: int| i as usize));
    }
    assert forall|value: usize| value < total implies all@.contains(value) by {
        assert(all@[value as int] == value);
    }
    if total <= max_boxes {
        let result: Vec<usize> = sorted(keys, false, &all);
        proof {
            assert forall|i: int| 0 <= i < result@.len() implies (#[trigger] result@[i])
                < keys@.len() by {
                assert(result@.contains(result@[i]));
                assert(all@.contains(result@[i]));
            }
        }
        return result;
    }
    let by_score: Vec<usize> = sorted(keys, true, &all);
    let mut kept: Vec<usize> = Vec::new();
    for index in 0..max_boxes
        invariant
            max_boxes <= by_score@.len(),
            kept@ == by_score@.take(index as int),
    {
        kept.push(by_score[index]);
        assert(kept@ =~= by_score@.take(index + 1));
    }
    proof {
        assert forall|i: int| 0 <= i < kept@.len() implies (#[trigger] kept@[i]) < keys@.len() by {
            assert(by_score@.contains(by_score@[i]));
            assert(all@.contains(by_score@[i]));
        }
        assert(kept@.no_duplicates()) by {
            assert forall|i: int, j: int| 0 <= i < j < kept@.len() implies kept@[i]
                != kept@[j] by {
                assert(comes_before(keys@, true, by_score@[i] as int, by_score@[j] as int));
            }
        }
    }
    let result: Vec<usize> = sorted(keys, false, &kept);
    proof {
        assert forall|i: int| 0 <= i < result@.len() implies (#[trigger] result@[i])
            < keys@.len() by {
            assert(result@.contains(result@[i]));
            assert(kept@.contains(result@[i]));
        }
        assert forall|i: int, other: usize|
            0 <= i < result@.len() && other < keys@.len() && !result@.contains(
                other,
            ) implies #[trigger] comes_before(keys@, true, result@[i] as int, other as int) by {
            assert(result@.contains(result@[i]));
            assert(kept@.contains(result@[i]));
            let p = choose|p: int| 0 <= p < kept@.len() && kept@[p] == result@[i];
            assert(all@.contains(other));
            assert(by_score@.contains(other));
            let q = choose|q: int| 0 <= q < by_score@.len() && by_score@[q] == other;
            assert(!kept@.contains(other));
            if q < max_boxes {
                assert(kept@[q] == other);
            }
            assert(comes_before(keys@, true, by_score@[p] as int, by_score@[q] as int));
        }
    }
    result
}

/// What a component is measured as: the outline of its text, the middle of the
/// outline and the score.
#[derive(Clone, Copy)]
pub struct Fitted<P> {
    pub polygon: P,
    pub key: DetectionKey,
}

/// A piece of text that was found.
#[derive(Clone, Copy)]
pub struct Detection<P> {
    pub polygon: P,
    pub score: Single,
}

/// Whether a score is not below the threshold. A score that is no number is
/// below nothing.
pub open spec fn keeps_score(options: DetectorPostprocessOptions, score: Single) -> bool {
    score.spec_magnitude() > 0x7f80_0000 || score.rank() >= options.box_threshold.rank()
}

/// The measures whose score is not below the threshold, in order.
pub open spec fn kept_fits<P>(options: DetectorPostprocessOptions, fits: Seq<Fitted<P>>) -> Seq<
    Fitted<P>,
>
    decreases fits.len(),
{
    if fits.len() == 0 {
        Seq::empty()
    } else {
        let before = kept_fits(options, fits.drop_last());
        if keeps_score(options, fits.last().key.score) {
            before.push(fits.last())
        } else {
            before
        }
    }
}

/// The keys of measures.
pub open spec fn keys_of<P>(fits: Seq<Fitted<P>>) -> Seq<DetectionKey> {
    fits.map_values(|fit: Fitted<P>| fit.key)
}

/// Whether the detections are those of the components, each measured, held
/// against the threshold, and put in reading order.
pub open spec fn are_detections<P, M: Fn(Vec<Cell>) -> Fitted<P>>(
    options: DetectorPostprocessOptions,
    measure: M,
    components: Seq<Vec<Cell>>,
    fits: Seq<Fitted<P>>,
    order: Seq<usize>,
    detections: Seq<Detection<P>>,
) -> bool {
    let kept = kept_fits(options, fits);
    &&& fits.len() == components.len()
    &&& forall|i: int|
        0 <= i < fits.len() ==> call_ensures(measure, (components[i],), #[trigger] fits[i])
    &&& is_selection(keys_of(kept), options.max_boxes as int, order)
    &&& detections.len() == order.len()
    &&& forall|i: int|
        0 <= i < order.len() ==> 0 <= order[i] < kept.len() && (#[trigger] detections[i]).polygon
            == kept[order[i] as int].polygon && detections[i].score == kept[order[i] as int].key.score
}

/// Whether the detections are those of the components of a region.
pub open spec fn are_found<P, M: Fn(Vec<Cell>) -> Fitted<P>>(
    options: DetectorPostprocessOptions,
    measure: M,
    region: Region,
    detections: Seq<Detection<P>>,
) -> bool {
    exists|components: Seq<Vec<Cell>>, fits: Seq<Fitted<P>>, order: Seq<usize>|
        all_places(components) == found(region, options.min_area as int, region.area())
            && #[trigger] are_detections(options, measure, components, fits, order, detections)
}

/// The pieces of text that a detector output shows. `measure` fits an outline
/// around the cells of a component and tells its score.
pub fn extract_detections<P: Copy, M: Fn(Vec<Cell>) -> Fitted<P>>(
    values: &[Single],
    shape: &[usize],
    content_width: usize,
    content_height: usize,
    options: DetectorPostprocessOptions,
    measure: &M,
) -> (result: Result<Vec<Detection<P>>, DetectionError>)
    requires
        forall|cells: Vec<Cell>| #[trigger] call_requires(*measure, (cells,)),
    ensures
        match (search_error(values@, shape@, content_width, content_height, options), result) {
            (Some(wanted), Err(error)) => error == wanted,
            (None, Ok(detections)) => {
                let region = (Region {
                    values,
                    stride: shape@[3],
                    width: lesser(content_width, shape@[3]),
                    height: lesser(content_height, shape@[2]),
                    threshold: options.binary_threshold,
                });
                &&& region.valid()
                &&& are_found(options, *measure, region, detections@)
            },
            _ => false,
        },
{
    let components: Vec<Vec<Cell>> = match extract_components(
        values,
        shape,
        content_width,
        content_height,
        options,
    ) {
        Err(error) => {
            return Err(error);
        },
        Ok(components) => components,
    };
    let ghost all = components@;
    let ghost region = Region {
        values,
        stride: shape@[3],
        width: lesser(content_width, shape@[3]),
        height: lesser(content_height, shape@[2]),
        threshold: options.binary_threshold,
    };
    let count: usize = components.len();
    let mut rest: Vec<Vec<Cell>> = components;
    let ghost mut fits: Seq<Fitted<P>> = Seq::empty();
    let mut kept: Vec<Fitted<P>> = Vec::new();
    let mut keys: Vec<DetectionKey> = Vec::new();
    assert(keys_of(kept@) =~= keys@);
    for index in 0..count
        invariant
            forall|cells: Vec<Cell>| #[trigger] call_requires(*measure, (cells,)),
            count == all.len(),
            rest@ == all.skip(index as int),
            fits.len() == index,
            forall|i: int|
                0 <= i < index ==> call_ensures(*measure, (all[i],), #[trigger] fits[i]),
            kept@ == kept_fits(options, fits),
            keys@ == keys_of(kept@),
    {
        assert(rest@[0] == all[index as int]);
        let cells: Vec<Cell> = rest.remove(0);
        assert(rest@ =~= all.skip(index + 1));
        let fit: Fitted<P> = measure(cells);
        let score: Single = fit.key.score;
        proof {
            let longer = fits.push(fit);
            assert(longer.drop_last() =~= fits);
            fits = longer;
        }
        if score.bits % 0x8000_0000 > 0x7f80_0000 || score.place()
            >= options.box_threshold.place() {
            kept.push(fit);
            keys.push(fit.key);
            assert(keys@ =~= keys_of(kept@));
        }
    }
    let order: Vec<usize> = order_detections(keys.as_slice(), options.max_boxes);
    let mut detections: Vec<Detection<P>> = Vec::new();
    for index in 0..order.len()
        invariant
            is_selection(keys_of(kept@), options.max_boxes as int, order@),
            detections@.len() == index,
            forall|i: int|
                0 <= i < index ==> 0 <= order@[i] < kept@.len() && (#[trigger] detections@[i]).polygon
                    == kept@[order@[i] as int].polygon && detections@[i].score
                    == kept@[order@[i] as int].key.score,
    {
        assert(order@[index as int] < keys_of(kept@).len());
        let fit: Fitted<P> = kept[order[index]];
        detections.push(Detection { polygon: fit.polygon, score: fit.key.score });
    }
    assert(are_detections(options, *measure, all, fits, order@, detections@));
    assert(are_found(options, *measure, region, detections@));
    Ok(detections)
}

} // verus!
