//! Laws of detection: which pieces of text a detector output shows.
use vstd::prelude::*;
use crate::components::{
    component, explored, free, lemma_component_exact, lemma_explored, Cell,
    DetectorPostprocessOptions, Region,
};
use crate::detections::{
    all_places, are_detections, are_found, comes_before, covered, found, keys_of, kept_fits,
    Detection, Fitted,
};
use crate::laws::{not_number, number_place, total_place};

verus! {

/// Whether a place lies within the content and its value is not below the threshold.
pub open spec fn lit(region: Region, place: (int, int)) -> bool {
    &&& 0 <= place.0 < region.width
    &&& 0 <= place.1 < region.height
    &&& number_place(region.values@[place.1 * region.stride + place.0]) >= number_place(
        region.threshold,
    )
}

/// Whether two places are the same or touch, at a side or at a corner.
pub open spec fn touching(first: (int, int), second: (int, int)) -> bool {
    -1 <= first.0 - second.0 <= 1 && -1 <= first.1 - second.1 <= 1
}

/// Whether places are a whole connected set of lit ones, each once: each but the
/// first touches an earlier one, and no other lit place touches any.
pub open spec fn is_blob(region: Region, places: Seq<(int, int)>) -> bool {
    &&& places.len() > 0
    &&& places.no_duplicates()
    &&& forall|i: int| 0 <= i < places.len() ==> lit(region, #[trigger] places[i])
    &&& forall|i: int|
        1 <= i < places.len() ==> exists|j: int|
            0 <= j < i && touching(#[trigger] places[j], #[trigger] places[i])
    &&& forall|i: int, other: (int, int)|
        0 <= i < places.len() && lit(region, other) && #[trigger] touching(places[i], other)
            ==> places.contains(other)
}

/// Whether a place is one of a list of sets, or of a set of fewer than `least`.
pub open spec fn told(
    region: Region,
    least: int,
    list: Seq<Seq<(int, int)>>,
    place: (int, int),
) -> bool {
    ||| exists|i: int| 0 <= i < list.len() && (#[trigger] list[i]).contains(place)
    ||| exists|small: Seq<(int, int)>| #[trigger]
        is_blob(region, small) && small.len() < least && small.contains(place)
}

proof fn lemma_lit(region: Region, place: (int, int))
    ensures
        lit(region, place) == region.active(place),
{
}

proof fn lemma_blob(region: Region, seen: Seq<(int, int)>, start: (int, int))
    requires
        free(region, seen, start),
        forall|i: int, other: (int, int)|
            0 <= i < seen.len() && lit(region, other) && #[trigger] touching(seen[i], other)
                ==> seen.contains(other),
    ensures
        is_blob(region, component(region, seen, start)),
        forall|i: int|
            0 <= i < component(region, seen, start).len() ==> !seen.contains(
                #[trigger] component(region, seen, start)[i],
            ),
        component(region, seen, start).contains(start),
{
    let known = component(region, seen, start);
    lemma_component_exact(region, seen, start);
    let area = region.area();
    assert(area >= 0) by (nonlinear_arith)
        requires
            area == region.width * region.height,
    ;
    lemma_explored(region, seen, start, area);
    assert(known[0] == start);
    assert forall|i: int| 0 <= i < known.len() implies lit(region, #[trigger] known[i])
        && !seen.contains(known[i]) by {
        assert(free(region, seen, known[i]));
        lemma_lit(region, known[i]);
    }
    assert forall|i: int| 1 <= i < known.len() implies exists|j: int|
        0 <= j < i && touching(#[trigger] known[j], #[trigger] known[i]) by {
        let j = choose|j: int|
            0 <= j < i && crate::components::adjacent(#[trigger] known[j], known[i]);
        assert(touching(known[j], known[i]));
    }
    assert forall|i: int, other: (int, int)|
        0 <= i < known.len() && lit(region, other) && #[trigger] touching(
            known[i],
            other,
        ) implies known.contains(other) by {
        lemma_lit(region, other);
        if other == known[i] {
        } else {
            assert(crate::components::adjacent(known[i], other));
            if seen.contains(other) {
                let k = choose|k: int| 0 <= k < seen.len() && seen[k] == other;
                assert(touching(seen[k], known[i]));
                assert(lit(region, known[i]));
                assert(seen.contains(known[i]));
                assert(free(region, seen, known[i]));
            }
            assert(free(region, seen, other));
        }
    }
}

proof fn lemma_found(region: Region, least: int, count: int)
    requires
        0 <= count <= region.area(),
    ensures
        ({
            let seen = covered(region, count);
            let list = found(region, least, count);
            &&& forall|i: int|
                0 <= i < list.len() ==> is_blob(region, #[trigger] list[i]) && list[i].len()
                    >= least
            &&& forall|i: int, k: int|
                0 <= i < list.len() && 0 <= k < list[i].len() ==> seen.contains(
                    #[trigger] list[i][k],
                )
            &&& forall|i: int, j: int, k: int|
                0 <= i < j < list.len() && 0 <= k < list[j].len() ==> !#[trigger] list[i].contains(list[j][k])
            &&& forall|i: int, other: (int, int)|
                0 <= i < seen.len() && lit(region, other) && #[trigger] touching(seen[i], other)
                    ==> seen.contains(other)
            &&& forall|i: int| 0 <= i < seen.len() ==> told(region, least, list, #[trigger] seen[i])
            &&& list.len() <= count
        }),
    decreases count,
{
    if count > 0 {
        lemma_found(region, least, count - 1);
        let before = covered(region, count - 1);
        let earlier = found(region, least, count - 1);
        let place = region.place_at(count - 1);
        let seen = covered(region, count);
        let list = found(region, least, count);
        if free(region, before, place) {
            let more = component(region, before, place);
            lemma_blob(region, before, place);
            assert(seen == before + more);
            assert forall|other: (int, int)| before.contains(other) || more.contains(
                other,
            ) implies seen.contains(other) by {
                if before.contains(other) {
                    let i = choose|i: int| 0 <= i < before.len() && before[i] == other;
                    assert(seen[i] == other);
                } else {
                    let i = choose|i: int| 0 <= i < more.len() && more[i] == other;
                    assert(seen[before.len() + i] == other);
                }
            }
            assert forall|i: int, other: (int, int)|
                0 <= i < seen.len() && lit(region, other) && #[trigger] touching(
                    seen[i],
                    other,
                ) implies seen.contains(other) by {
                if i < before.len() {
                    assert(touching(before[i], other));
                } else {
                    assert(touching(more[i - before.len()], other));
                }
            }
            assert forall|i: int, k: int|
                0 <= i < list.len() && 0 <= k < list[i].len() implies seen.contains(
                #[trigger] list[i][k],
            ) by {
                if i < earlier.len() {
                    assert(list[i] == earlier[i]);
                    assert(before.contains(earlier[i][k]));
                } else {
                    assert(list[i] == more);
                    assert(more.contains(more[k]));
                }
            }
            assert forall|i: int, j: int, k: int|
                0 <= i < j < list.len() && 0 <= k < list[j].len() implies !#[trigger] list[i].contains(list[j][k]) by {
                assert(list[i] == earlier[i]);
                if j < earlier.len() {
                    assert(list[j] == earlier[j]);
                    assert(!earlier[i].contains(earlier[j][k]));
                } else {
                    assert(list[j] == more);
                    assert(!before.contains(more[k]));
                    if earlier[i].contains(more[k]) {
                        let m = choose|m: int|
                            0 <= m < earlier[i].len() && earlier[i][m] == more[k];
                        assert(before.contains(earlier[i][m]));
                    }
                }
            }
            assert forall|i: int| 0 <= i < list.len() implies is_blob(region, #[trigger] list[i])
                && list[i].len() >= least by {
                if i < earlier.len() {
                    assert(list[i] == earlier[i]);
                }
            }
            assert forall|i: int| 0 <= i < seen.len() implies told(
                region,
                least,
                list,
                #[trigger] seen[i],
            ) by {
                if i < before.len() {
                    assert(told(region, least, earlier, before[i]));
                    if exists|j: int|
                        0 <= j < earlier.len() && (#[trigger] earlier[j]).contains(before[i]) {
                        let j = choose|j: int|
                            0 <= j < earlier.len() && (#[trigger] earlier[j]).contains(before[i]);
                        assert(list[j] == earlier[j]);
                    }
                } else {
                    assert(more[i - before.len()] == seen[i]);
                    assert(more.contains(seen[i]));
                    if more.len() >= least {
                        assert(list[earlier.len() as int] == more);
                    } else {
                        assert(is_blob(region, more) && more.len() < least);
                    }
                }
            }
        }
    }
}

/// What the search for components is for: the sets that are listed are the whole
/// connected sets of at least `least` lit places, no two with a place in common,
/// and every lit place of the content is in one of them or in a smaller set.
pub proof fn lemma_components(region: Region, least: int)
    ensures
        ({
            let list = found(region, least, region.area());
            &&& forall|i: int|
                0 <= i < list.len() ==> is_blob(region, #[trigger] list[i]) && list[i].len()
                    >= least
            &&& forall|i: int, j: int, k: int|
                0 <= i < j < list.len() && 0 <= k < list[j].len() ==> !#[trigger] list[i].contains(list[j][k])
            &&& forall|place: (int, int)| #[trigger]
                lit(region, place) ==> told(region, least, list, place)
            &&& list.len() <= region.area()
        }),
{
    let area = region.area();
    assert(area >= 0) by (nonlinear_arith)
        requires
            area == region.width * region.height,
    ;
    lemma_found(region, least, area);
    crate::detections::lemma_components_partition(region, area);
    let list = found(region, least, area);
    let seen = covered(region, area);
    assert forall|place: (int, int)| #[trigger] lit(region, place) implies told(
        region,
        least,
        list,
        place,
    ) by {
        lemma_lit(region, place);
        let index = place.1 * region.width + place.0;
        crate::index::lemma_row_bound(
            place.1,
            region.height as int,
            place.0,
            region.width as int,
        );
        crate::index::lemma_decode(place.1, place.0, region.width as int);
        assert(region.height * region.width == region.width * region.height) by (nonlinear_arith);
        assert(region.place_at(index) == place);
        assert(seen.contains(place));
        let i = choose|i: int| 0 <= i < seen.len() && seen[i] == place;
        assert(told(region, least, list, seen[i]));
    }
}

/// The measures that are kept, by their places.
proof fn lemma_kept<P>(options: DetectorPostprocessOptions, fits: Seq<Fitted<P>>) -> (places: Seq<
    int,
>)
    ensures
        places.len() == kept_fits(options, fits).len(),
        places.len() <= fits.len(),
        forall|i: int|
            0 <= i < places.len() ==> 0 <= #[trigger] places[i] < fits.len() && kept_fits(
                options,
                fits,
            )[i] == fits[places[i]],
        forall|i: int, j: int| 0 <= i < j < places.len() ==> places[i] < places[j],
        forall|i: int|
            0 <= i < fits.len() ==> (#[trigger] places.contains(i) <==> not_number(
                fits[i].key.score,
            ) || number_place(fits[i].key.score) >= number_place(options.box_threshold)),
    decreases fits.len(),
{
    if fits.len() == 0 {
        Seq::empty()
    } else {
        let head = fits.drop_last();
        let before = lemma_kept(options, head);
        let last = fits.len() - 1;
        let stays = not_number(fits[last].key.score) || number_place(fits[last].key.score)
            >= number_place(options.box_threshold);
        let places = if stays {
            before.push(last)
        } else {
            before
        };
        assert forall|i: int| 0 <= i < places.len() implies 0 <= #[trigger] places[i] < fits.len()
            && kept_fits(options, fits)[i] == fits[places[i]] by {
            if i < before.len() {
                assert(places[i] == before[i]);
                assert(head[before[i]] == fits[before[i]]);
            }
        }
        assert forall|i: int| 0 <= i < fits.len() implies (#[trigger] places.contains(i)
            <==> not_number(fits[i].key.score) || number_place(fits[i].key.score) >= number_place(
            options.box_threshold,
        )) by {
            if i < last {
                assert(head[i] == fits[i]);
                assert(before.contains(i) <==> not_number(fits[i].key.score) || number_place(
                    fits[i].key.score,
                ) >= number_place(options.box_threshold));
                if before.contains(i) {
                    let j = choose|j: int| 0 <= j < before.len() && before[j] == i;
                    assert(places[j] == i);
                }
                if places.contains(i) {
                    let j = choose|j: int| 0 <= j < places.len() && places[j] == i;
                    assert(before[j] == i);
                }
            } else if stays {
                assert(places[before.len() as int] == i);
            } else if places.contains(i) {
                let j = choose|j: int| 0 <= j < places.len() && places[j] == i;
                assert(0 <= before[j] < head.len());
            }
        }
        places
    }
}

/// Which components the detections come from.
#[verifier::spinoff_prover]
#[verifier::rlimit(60)]
proof fn lemma_picked<P, M: Fn(Vec<Cell>) -> Fitted<P>>(
    options: DetectorPostprocessOptions,
    measure: M,
    components: Seq<Vec<Cell>>,
    fits: Seq<Fitted<P>>,
    order: Seq<usize>,
    detections: Seq<Detection<P>>,
) -> (from: Seq<int>)
    requires
        are_detections(options, measure, components, fits, order, detections),
        fits.len() <= usize::MAX,
    ensures
        ({
            &&& from.len() == detections.len()
            &&& detections.len() <= options.max_boxes
            &&& forall|i: int, j: int| 0 <= i < j < from.len() ==> from[i] != from[j]
            &&& forall|i: int|
                0 <= i < detections.len() ==> {
                    &&& 0 <= #[trigger] from[i] < fits.len()
                    &&& detections[i].polygon == fits[from[i]].polygon
                    &&& detections[i].score == fits[from[i]].key.score
                    &&& not_number(detections[i].score) || number_place(detections[i].score)
                        >= number_place(options.box_threshold)
                }
            &&& forall|c: int|
                0 <= c < fits.len() && !#[trigger] from.contains(c) ==> {
                    ||| !not_number(fits[c].key.score) && number_place(fits[c].key.score)
                        < number_place(options.box_threshold)
                    ||| detections.len() == options.max_boxes && forall|i: int|
                        0 <= i < detections.len() ==> total_place(
                            (#[trigger] detections[i]).score,
                        ) >= total_place(fits[c].key.score)
                }
            &&& forall|i: int, j: int|
                0 <= i < j < from.len() ==> {
                    let first = fits[#[trigger] from[i]].key;
                    let second = fits[#[trigger] from[j]].key;
                    &&& total_place(first.center_y) <= total_place(second.center_y)
                    &&& first.center_y == second.center_y ==> total_place(first.center_x)
                        <= total_place(second.center_x)
                    &&& first.center_y == second.center_y && first.center_x == second.center_x
                        ==> total_place(first.score) <= total_place(second.score)
                }
        }),
{
    let kept = kept_fits(options, fits);
    let keys = keys_of(kept);
    let places = lemma_kept(options, fits);
    let from = Seq::new(order.len(), |i: int| places[order[i] as int]);
    assert forall|i: int| 0 <= i < detections.len() implies {
        &&& 0 <= #[trigger] from[i] < fits.len()
        &&& detections[i].polygon == fits[from[i]].polygon
        &&& detections[i].score == fits[from[i]].key.score
        &&& not_number(detections[i].score) || number_place(detections[i].score) >= number_place(
            options.box_threshold,
        )
    } by {
        assert(order[i] < keys.len());
        let place = order[i] as int;
        assert(0 <= places[place] < fits.len());
        assert(places.contains(places[place]));
        assert(detections[i].polygon == kept[place].polygon);
    }
    assert forall|i: int, j: int| 0 <= i < j < from.len() implies from[i] != from[j] by {
        assert(order[i] < keys.len() && order[j] < keys.len());
        assert(comes_before(keys, false, order[i] as int, order[j] as int));
        if order[i] < order[j] {
            assert(places[order[i] as int] < places[order[j] as int]);
        } else if order[j] < order[i] {
            assert(places[order[j] as int] < places[order[i] as int]);
        }
    }
    assert forall|c: int| 0 <= c < fits.len() && !#[trigger] from.contains(c) implies {
        ||| !not_number(fits[c].key.score) && number_place(fits[c].key.score) < number_place(
            options.box_threshold,
        )
        ||| detections.len() == options.max_boxes && forall|i: int|
            0 <= i < detections.len() ==> total_place((#[trigger] detections[i]).score)
                >= total_place(fits[c].key.score)
    } by {
        if places.contains(c) {
            let p = choose|p: int| 0 <= p < places.len() && places[p] == c;
            if order.contains(p as usize) {
                let k = choose|k: int| 0 <= k < order.len() && order[k] == p as usize;
                assert(from[k] == c);
            }
            assert(keys[p] == kept[p].key);
            if kept.len() <= options.max_boxes {
                lemma_all_kept(order, kept.len() as int, p);
            }
            assert forall|i: int| 0 <= i < detections.len() implies total_place(
                (#[trigger] detections[i]).score,
            ) >= total_place(fits[c].key.score) by {
                assert(order[i] < keys.len());
                assert(comes_before(keys, true, order[i] as int, (p as usize) as int));
                assert(keys[order[i] as int] == kept[order[i] as int].key);
            }
        }
    }
    assert forall|i: int, j: int| 0 <= i < j < from.len() implies {
        let first = fits[#[trigger] from[i]].key;
        let second = fits[#[trigger] from[j]].key;
        &&& total_place(first.center_y) <= total_place(second.center_y)
        &&& first.center_y == second.center_y ==> total_place(first.center_x) <= total_place(
            second.center_x,
        )
        &&& first.center_y == second.center_y && first.center_x == second.center_x ==> total_place(
            first.score,
        ) <= total_place(second.score)
    } by {
        assert(order[i] < keys.len() && order[j] < keys.len());
        assert(comes_before(keys, false, order[i] as int, order[j] as int));
        assert(keys[order[i] as int] == fits[from[i]].key);
        assert(keys[order[j] as int] == fits[from[j]].key);
    }
    from
}

/// What finding text in a detector output is for. The components are the whole
/// connected sets of lit places of the content with at least `min_area` places, each
/// of them measured. A detection is returned for a component only where its score is
/// not below `box_threshold`; there are at most `max_boxes`, and one whose score is
/// not below the threshold is left out only where there are `max_boxes` others, none
/// of which has a lower score. The detections come from top to bottom by the middle
/// of their outlines, those at the same height from left to right.
///
/// Returned are the components, what they are measured as, and the component of each
/// detection.
#[verifier::spinoff_prover]
#[verifier::rlimit(60)]
pub proof fn lemma_detected<P, M: Fn(Vec<Cell>) -> Fitted<P>>(
    options: DetectorPostprocessOptions,
    measure: M,
    region: Region,
    detections: Seq<Detection<P>>,
) -> (witness: (Seq<Vec<Cell>>, Seq<Fitted<P>>, Seq<int>))
    requires
        region.valid(),
        are_found(options, measure, region, detections),
    ensures
        ({
            let (components, fits, from) = witness;
            let sets = components.map_values(
                |cells: Vec<Cell>|
                    cells@.map_values(|cell: Cell| (cell.x as int, cell.y as int)),
            );
            &&& forall|i: int|
                0 <= i < sets.len() ==> is_blob(region, #[trigger] sets[i]) && sets[i].len()
                    >= options.min_area
            &&& forall|i: int, j: int, k: int|
                0 <= i < j < sets.len() && 0 <= k < sets[j].len() ==> !#[trigger] sets[i].contains(sets[j][k])
            &&& forall|place: (int, int)| #[trigger]
                lit(region, place) ==> told(region, options.min_area as int, sets, place)
            &&& fits.len() == components.len()
            &&& forall|i: int|
                0 <= i < fits.len() ==> call_ensures(measure, (components[i],), #[trigger] fits[i])
            &&& from.len() == detections.len()
            &&& detections.len() <= options.max_boxes
            &&& forall|i: int, j: int| 0 <= i < j < from.len() ==> from[i] != from[j]
            &&& forall|i: int|
                0 <= i < detections.len() ==> {
                    &&& 0 <= #[trigger] from[i] < fits.len()
                    &&& detections[i].polygon == fits[from[i]].polygon
                    &&& detections[i].score == fits[from[i]].key.score
                    &&& not_number(detections[i].score) || number_place(detections[i].score)
                        >= number_place(options.box_threshold)
                }
            &&& forall|c: int|
                0 <= c < fits.len() && !#[trigger] from.contains(c) ==> {
                    ||| !not_number(fits[c].key.score) && number_place(fits[c].key.score)
                        < number_place(options.box_threshold)
                    ||| detections.len() == options.max_boxes && forall|i: int|
                        0 <= i < detections.len() ==> total_place(
                            (#[trigger] detections[i]).score,
                        ) >= total_place(fits[c].key.score)
                }
            &&& forall|i: int, j: int|
                0 <= i < j < from.len() ==> {
                    let first = fits[#[trigger] from[i]].key;
                    let second = fits[#[trigger] from[j]].key;
                    &&& total_place(first.center_y) <= total_place(second.center_y)
                    &&& first.center_y == second.center_y ==> total_place(first.center_x)
                        <= total_place(second.center_x)
                    &&& first.center_y == second.center_y && first.center_x == second.center_x
                        ==> total_place(first.score) <= total_place(second.score)
                }
        }),
{
    let (components, fits, order) = choose|
        components: Seq<Vec<Cell>>,
        fits: Seq<Fitted<P>>,
        order: Seq<usize>,
    |
        all_places(components) == found(region, options.min_area as int, region.area())
            && #[trigger] are_detections(options, measure, components, fits, order, detections);
    lemma_components(region, options.min_area as int);
    assert(fits.len() <= usize::MAX) by {
        assert(all_places(components).len() == components.len());
    }
    let from = lemma_picked(options, measure, components, fits, order, detections);
    let sets = components.map_values(
        |cells: Vec<Cell>| cells@.map_values(|cell: Cell| (cell.x as int, cell.y as int)),
    );
    assert forall|i: int| 0 <= i < sets.len() implies sets[i] == all_places(components)[i] by {
        assert(sets[i] =~= crate::components::places(components[i]@));
    }
    assert(sets =~= all_places(components));
    (components, fits, from)
}

/// As many different places as there are hold each of them.
proof fn lemma_all_kept(order: Seq<usize>, count: int, place: int)
    requires
        order.len() == count,
        0 <= place < count <= usize::MAX,
        forall|i: int| 0 <= i < order.len() ==> (#[trigger] order[i]) < count,
        forall|i: int, j: int| 0 <= i < j < order.len() ==> order[i] != order[j],
    ensures
        order.contains(place as usize),
{
    let at = crate::permutation::lemma_permutation_holds(order, count, place);
    assert(order[at] == place as usize);
}

} // verus!
