//! Laws of texts: how a line is decoded and how its parts are joined.
use vstd::prelude::*;
use crate::ctc::{
    decode_error, decoded_emissions, emissions, emitted_text, is_decoded, joined_parts, pairs,
    path_of, steps_of, weights_of, DecodedText,
};
use crate::laws::total_place;
use crate::single::{lemma_argmax, Single};

verus! {

/// The emitted steps of a path: those whose class is neither the blank nor that of
/// the step before.
proof fn lemma_emitted_steps(path: Seq<int>) -> (steps: Seq<int>)
    ensures
        steps == emissions(path).map_values(|pair: (int, int)| pair.0),
        forall|i: int|
            0 <= i < steps.len() ==> 0 <= #[trigger] steps[i] < path.len() && emissions(path)[i]
                == (steps[i], path[steps[i]]),
        forall|i: int, j: int| 0 <= i < j < steps.len() ==> steps[i] < steps[j],
        forall|t: int|
            0 <= t < path.len() ==> (#[trigger] steps.contains(t) <==> path[t] != 0 && (t == 0
                || path[t - 1] != path[t])),
    decreases path.len(),
{
    let first = |pair: (int, int)| pair.0;
    let all = emissions(path);
    let steps = all.map_values(first);
    if path.len() > 0 {
        let head = path.drop_last();
        let before = lemma_emitted_steps(head);
        let last = path.len() - 1;
        let earlier = emissions(head);
        let adds = path.last() != 0 && (last == 0 || path[last - 1] != path.last());
        if adds {
            assert(steps =~= before.push(last));
        } else {
            assert(steps =~= before);
        }
        assert forall|i: int| 0 <= i < steps.len() implies 0 <= #[trigger] steps[i] < path.len()
            && all[i] == (steps[i], path[steps[i]]) by {
            if i < before.len() {
                assert(steps[i] == before[i]);
                assert(all[i] == earlier[i]);
                assert(head[before[i]] == path[before[i]]);
            }
        }
        assert forall|i: int, j: int| 0 <= i < j < steps.len() implies steps[i] < steps[j] by {
            assert(0 <= before[i] < head.len());
        }
        assert forall|t: int| 0 <= t < path.len() implies (#[trigger] steps.contains(t)
            <==> path[t] != 0 && (t == 0 || path[t - 1] != path[t])) by {
            if t < last {
                assert(head[t] == path[t]);
                if t > 0 {
                    assert(head[t - 1] == path[t - 1]);
                }
                assert(before.contains(t) <==> path[t] != 0 && (t == 0 || path[t - 1]
                    != path[t]));
                if before.contains(t) {
                    let i = choose|i: int| 0 <= i < before.len() && before[i] == t;
                    assert(steps[i] == t);
                }
                if steps.contains(t) {
                    let i = choose|i: int| 0 <= i < steps.len() && steps[i] == t;
                    assert(i < before.len());
                    assert(before[i] == t);
                }
            } else {
                if adds {
                    assert(steps[before.len() as int] == last);
                } else if steps.contains(t) {
                    let i = choose|i: int| 0 <= i < steps.len() && steps[i] == t;
                    assert(0 <= before[i] < head.len());
                }
            }
        }
    } else {
        assert(steps =~= Seq::<int>::empty());
    }
    steps
}

/// The text of emitted classes is that of their pieces, one behind the other.
proof fn lemma_pieces(dictionary: Seq<Seq<char>>, emitted: Seq<(int, int)>) -> (pieces: Seq<
    Seq<char>,
>)
    requires
        forall|i: int| 0 <= i < emitted.len() ==> 1 <= (#[trigger] emitted[i]).1,
    ensures
        pieces.len() == emitted.len(),
        forall|i: int|
            0 <= i < pieces.len() ==> (1 <= emitted[i].1 <= dictionary.len()
                ==> #[trigger] pieces[i] == dictionary[emitted[i].1 - 1]) && (emitted[i].1
                == dictionary.len() + 1 ==> pieces[i] == seq![' ']),
        emitted_text(dictionary, emitted) == pieces.flatten(),
    decreases emitted.len(),
{
    if emitted.len() == 0 {
        let pieces = Seq::<Seq<char>>::empty();
        assert(pieces.flatten() =~= Seq::<char>::empty());
        pieces
    } else {
        let head = emitted.drop_last();
        assert forall|i: int| 0 <= i < head.len() implies 1 <= (#[trigger] head[i]).1 by {
            assert(head[i] == emitted[i]);
        }
        let before = lemma_pieces(dictionary, head);
        let class = emitted.last().1;
        let next: Seq<char> = if 1 <= class <= dictionary.len() {
            dictionary[class - 1]
        } else if class == dictionary.len() + 1 {
            seq![' ']
        } else {
            crate::ctc::class_text(dictionary, class)
        };
        let pieces = before.push(next);
        assert(pieces.drop_last() =~= before);
        pieces.lemma_flatten_and_flatten_alt_are_equivalent();
        before.lemma_flatten_and_flatten_alt_are_equivalent();
        assert(emitted_text(dictionary, emitted) =~= pieces.flatten());
        assert forall|i: int| 0 <= i < pieces.len() implies (1 <= emitted[i].1 <= dictionary.len()
            ==> #[trigger] pieces[i] == dictionary[emitted[i].1 - 1]) && (emitted[i].1
            == dictionary.len() + 1 ==> pieces[i] == seq![' ']) by {
            if i < before.len() {
                assert(pieces[i] == before[i]);
                assert(emitted[i] == head[i]);
            }
        }
        pieces
    }
}

/// What decoding a recognizer output is for. Only the steps that begin within the
/// content are read: as many as are needed to cover its share of the 320 columns.
/// The class of each is the one with the greatest value, the last of several. A
/// step adds a piece of text where its class is not the blank and not that of the
/// step before; the piece of class `c` is entry `c - 1` of the dictionary, and a
/// space for the class behind the last entry. The text is made of these pieces, in
/// order, and the score is told from these steps and classes.
pub proof fn lemma_decoded_line<S, F: Fn(Vec<(usize, usize)>) -> S>(
    values: Seq<Single>,
    shape: Seq<usize>,
    dictionary: Seq<Seq<char>>,
    content_width: usize,
    score_of: F,
    text: Seq<char>,
    score: S,
) -> (witness: (Seq<int>, Seq<int>, Seq<Seq<char>>, Vec<(usize, usize)>))
    requires
        decode_error(values, shape, dictionary.len() as int, content_width) is None,
        is_decoded(
            values,
            shape,
            dictionary,
            content_width as int,
            score_of,
            text,
            score,
        ),
    ensures
        ({
            let (classes, steps, pieces, list) = witness;
            let covered = classes.len() as int;
            let count = shape[2] as int;
            &&& shape.len() == 3 && shape[0] == 1 && values.len() == shape[1] * shape[2]
            &&& count == dictionary.len() + 1 || count == dictionary.len() + 2
            &&& 1 <= content_width <= 320
            &&& 1 <= covered <= shape[1]
            &&& (covered - 1) * 320 < content_width * shape[1] <= covered * 320
            &&& forall|t: int| 0 <= t < covered ==> 0 <= #[trigger] classes[t] < count
            &&& forall|t: int, c: int|
                0 <= t < covered && 0 <= c < count ==> total_place(
                    #[trigger] values[t * count + c],
                ) <= total_place(values[t * count + classes[t]])
            &&& forall|t: int, c: int|
                0 <= t < covered && classes[t] < c < count ==> total_place(
                    #[trigger] values[t * count + c],
                ) < total_place(values[t * count + classes[t]])
            &&& forall|i: int, j: int| 0 <= i < j < steps.len() ==> steps[i] < steps[j]
            &&& forall|i: int| 0 <= i < steps.len() ==> 0 <= #[trigger] steps[i] < covered
            &&& forall|t: int|
                0 <= t < covered ==> (#[trigger] steps.contains(t) <==> classes[t] != 0 && (t == 0
                    || classes[t - 1] != classes[t]))
            &&& pieces.len() == steps.len()
            &&& forall|i: int|
                0 <= i < pieces.len() ==> #[trigger] pieces[i] == if classes[steps[i]]
                    <= dictionary.len() {
                    dictionary[classes[steps[i]] - 1]
                } else {
                    seq![' ']
                }
            &&& text == pieces.flatten()
            &&& list@.len() == steps.len()
            &&& forall|i: int|
                0 <= i < steps.len() ==> (#[trigger] list@[i]).0 == steps[i] && list@[i].1
                    == classes[steps[i]]
            &&& call_ensures(score_of, (list,), score)
        }),
{
    let count = shape[2] as int;
    let total = shape[1] as int;
    let covered = steps_of(content_width as int, total);
    let classes = path_of(values, count, covered);
    let emitted = decoded_emissions(values, shape, content_width as int);
    let sum = content_width * total;
    assert(0 < sum <= 320 * total) by (nonlinear_arith)
        requires
            sum == content_width * total,
            1 <= content_width <= 320,
            total >= 1,
    ;
    assert((covered - 1) * 320 < sum <= covered * 320 && 1 <= covered <= total);
    assert forall|t: int| 0 <= t < covered implies {
        &&& 0 <= #[trigger] classes[t] < count
        &&& forall|c: int|
            0 <= c < count ==> total_place(#[trigger] values[t * count + c]) <= total_place(
                values[t * count + classes[t]],
            )
        &&& forall|c: int|
            classes[t] < c < count ==> total_place(#[trigger] values[t * count + c]) < total_place(
                values[t * count + classes[t]],
            )
    } by {
        crate::index::lemma_row_bound(t, total, count - 1, count);
        let row = values.subrange(t * count, t * count + count);
        lemma_argmax(row, count);
        assert(row[classes[t]] == values[t * count + classes[t]]);
        assert forall|c: int| 0 <= c < count implies {
            &&& total_place(#[trigger] values[t * count + c]) <= total_place(
                values[t * count + classes[t]],
            )
            &&& classes[t] < c ==> total_place(values[t * count + c]) < total_place(
                values[t * count + classes[t]],
            )
        } by {
            assert(row[c] == values[t * count + c]);
            assert(row[c].total_rank() <= row[classes[t]].total_rank());
        }
    }
    let steps = lemma_emitted_steps(classes);
    assert forall|i: int| 0 <= i < emitted.len() implies 1 <= (#[trigger] emitted[i]).1 by {
        assert(emitted[i] == (steps[i], classes[steps[i]]));
        assert(steps.contains(steps[i]));
        assert(0 <= classes[steps[i]]);
    }
    let pieces = lemma_pieces(dictionary, emitted);
    assert forall|i: int| 0 <= i < pieces.len() implies #[trigger] pieces[i] == if classes[steps[i]]
        <= dictionary.len() {
        dictionary[classes[steps[i]] - 1]
    } else {
        seq![' ']
    } by {
        assert(emitted[i] == (steps[i], classes[steps[i]]));
        assert(0 <= classes[steps[i]] < count);
        assert(1 <= emitted[i].1);
    }
    let list = choose|list: Vec<(usize, usize)>|
        pairs(list@) == emitted && #[trigger] call_ensures(score_of, (list,), score);
    assert forall|i: int| 0 <= i < steps.len() implies (#[trigger] list@[i]).0 == steps[i]
        && list@[i].1 == classes[steps[i]] by {
        assert(pairs(list@)[i] == emitted[i]);
        assert(emitted[i] == (steps[i], classes[steps[i]]));
    }
    (classes, steps, pieces, list)
}

/// A step whose greatest value is that of an entry of the dictionary is read as that
/// entry: for every class there is, the text of a single step is entry `c - 1`.
pub proof fn lemma_single_step<S, F: Fn(Vec<(usize, usize)>) -> S>(
    values: Seq<Single>,
    shape: Seq<usize>,
    dictionary: Seq<Seq<char>>,
    content_width: usize,
    score_of: F,
    text: Seq<char>,
    score: S,
    class: int,
)
    requires
        decode_error(values, shape, dictionary.len() as int, content_width) is None,
        is_decoded(
            values,
            shape,
            dictionary,
            content_width as int,
            score_of,
            text,
            score,
        ),
        shape[1] == 1,
        1 <= class <= dictionary.len(),
        forall|c: int|
            0 <= c < shape[2] && c != class ==> total_place(#[trigger] values[c]) < total_place(
                values[class],
            ),
    ensures
        text == dictionary[class - 1],
{
    let (classes, steps, pieces, list) = lemma_decoded_line(
        values,
        shape,
        dictionary,
        content_width,
        score_of,
        text,
        score,
    );
    let count = shape[2] as int;
    assert(classes.len() == 1);
    assert(0 * count == 0);
    if classes[0] != class {
        assert(total_place(values[0 * count + class]) <= total_place(
            values[0 * count + classes[0]],
        ));
        assert(total_place(values[classes[0]]) < total_place(values[class]));
    }
    assert(steps.contains(0));
    let i = choose|i: int| 0 <= i < steps.len() && steps[i] == 0;
    if steps.len() > 1 {
        assert(0 <= steps[0] < 1 && 0 <= steps[1] < 1);
        assert(steps[0] < steps[1]);
    }
    assert(i == 0);
    pieces.lemma_flatten_one_element();
    assert(pieces[0] == dictionary[class - 1]);
}

/// What joining the texts of the parts of a line is for, at every part. `stages` are
/// the texts so far, from none to the whole; `shared` tells of each part how many
/// characters it shares with the text before it: none, or from 2 to 32 with which
/// the text before ends and the part begins, and no longer run of up to 32 does so.
/// They are there once: what a part adds are its characters behind them. Parts that
/// add characters give their scores, weighted by how many they add.
pub proof fn lemma_joined_line<S>(parts: Seq<DecodedText<S>>) -> (witness: (
    Seq<Seq<char>>,
    Seq<int>,
    Seq<int>,
))
    ensures
        ({
            let (stages, shared, adding) = witness;
            let count = parts.len() as int;
            &&& stages.len() == count + 1 && shared.len() == count
            &&& stages[0].len() == 0
            &&& stages[count] == joined_parts(parts, count)
            &&& forall|n: int| 0 <= n <= count ==> #[trigger] stages[n] == joined_parts(parts, n)
            &&& forall|i: int|
                0 <= i < count ==> {
                    let before = stages[i];
                    let next = parts[i].text@;
                    let size = #[trigger] shared[i];
                    &&& size == 0 || 2 <= size <= 32
                    &&& size <= before.len() && size <= next.len()
                    &&& before.subrange(before.len() - size, before.len() as int)
                        == next.subrange(0, size)
                    &&& stages[i + 1] == before + next.subrange(size, next.len() as int)
                    &&& forall|longer: int|
                        size < longer <= 32 && 2 <= longer <= before.len() && longer <= next.len()
                            ==> before.subrange(before.len() - longer, before.len() as int)
                            != #[trigger] next.subrange(0, longer)
                }
            &&& forall|i: int, j: int| 0 <= i < j < adding.len() ==> adding[i] < adding[j]
            &&& forall|i: int| 0 <= i < adding.len() ==> 0 <= #[trigger] adding[i] < count
            &&& forall|i: int|
                0 <= i < count ==> (#[trigger] adding.contains(i) <==> shared[i]
                    < parts[i].text@.len())
            &&& weights_of(parts, count) == Seq::new(
                adding.len(),
                |i: int|
                    (
                        parts[adding[i]].score,
                        parts[adding[i]].text@.len() - shared[adding[i]],
                    ),
            )
        }),
{
    lemma_stages(parts, parts.len() as int)
}

proof fn lemma_stages<S>(parts: Seq<DecodedText<S>>, count: int) -> (witness: (
    Seq<Seq<char>>,
    Seq<int>,
    Seq<int>,
))
    requires
        0 <= count <= parts.len(),
    ensures
        ({
            let (stages, shared, adding) = witness;
            &&& stages.len() == count + 1 && shared.len() == count
            &&& stages[0].len() == 0
            &&& stages[count] == joined_parts(parts, count)
            &&& forall|n: int| 0 <= n <= count ==> #[trigger] stages[n] == joined_parts(parts, n)
            &&& forall|i: int|
                0 <= i < count ==> {
                    let before = stages[i];
                    let next = parts[i].text@;
                    let size = #[trigger] shared[i];
                    &&& size == 0 || 2 <= size <= 32
                    &&& size <= before.len() && size <= next.len()
                    &&& before.subrange(before.len() - size, before.len() as int)
                        == next.subrange(0, size)
                    &&& stages[i + 1] == before + next.subrange(size, next.len() as int)
                    &&& forall|longer: int|
                        size < longer <= 32 && 2 <= longer <= before.len() && longer <= next.len()
                            ==> before.subrange(before.len() - longer, before.len() as int)
                            != #[trigger] next.subrange(0, longer)
                }
            &&& forall|i: int, j: int| 0 <= i < j < adding.len() ==> adding[i] < adding[j]
            &&& forall|i: int| 0 <= i < adding.len() ==> 0 <= #[trigger] adding[i] < count
            &&& forall|i: int|
                0 <= i < count ==> (#[trigger] adding.contains(i) <==> shared[i]
                    < parts[i].text@.len())
            &&& weights_of(parts, count) == Seq::new(
                adding.len(),
                |i: int|
                    (
                        parts[adding[i]].score,
                        parts[adding[i]].text@.len() - shared[adding[i]],
                    ),
            )
        }),
    decreases count,
{
    if count == 0 {
        let stages = seq![Seq::<char>::empty()];
        let none = Seq::<int>::empty();
        assert(weights_of(parts, count) =~= Seq::new(
            none.len(),
            |i: int| (parts[none[i]].score, parts[none[i]].text@.len() - none[none[i]]),
        ));
        (stages, none, none)
    } else {
        let (stages, shared, adding) = lemma_stages(parts, count - 1);
        let before = stages[count - 1];
        let next = parts[count - 1].text@;
        crate::ctc::lemma_joined(before, next);
        let size = crate::ctc::overlap_of(before, next);
        let after = joined_parts(parts, count);
        assert(before == joined_parts(parts, count - 1));
        assert(before.skip(before.len() - size) =~= before.subrange(
            before.len() - size,
            before.len() as int,
        ));
        assert(next.take(size) =~= next.subrange(0, size));
        assert(next.skip(size) =~= next.subrange(size, next.len() as int));
        assert forall|longer: int|
            size < longer <= 32 && 2 <= longer <= before.len() && longer
                <= next.len() implies before.subrange(
            before.len() - longer,
            before.len() as int,
        ) != #[trigger] next.subrange(0, longer) by {
            assert(!crate::ctc::shares(before, next, longer));
            assert(before.skip(before.len() - longer) =~= before.subrange(
                before.len() - longer,
                before.len() as int,
            ));
            assert(next.take(longer) =~= next.subrange(0, longer));
        }
        let all_stages = stages.push(after);
        let all_shared = shared.push(size);
        let all_adding = if size < next.len() {
            adding.push(count - 1)
        } else {
            adding
        };
        assert forall|n: int| 0 <= n <= count implies #[trigger] all_stages[n] == joined_parts(
            parts,
            n,
        ) by {
            if n < count {
                assert(all_stages[n] == stages[n]);
            }
        }
        assert forall|i: int| 0 <= i < count implies {
            let before = all_stages[i];
            let next = parts[i].text@;
            let size = #[trigger] all_shared[i];
            &&& size == 0 || 2 <= size <= 32
            &&& size <= before.len() && size <= next.len()
            &&& before.subrange(before.len() - size, before.len() as int) == next.subrange(0, size)
            &&& all_stages[i + 1] == before + next.subrange(size, next.len() as int)
            &&& forall|longer: int|
                size < longer <= 32 && 2 <= longer <= before.len() && longer <= next.len()
                    ==> before.subrange(before.len() - longer, before.len() as int)
                    != #[trigger] next.subrange(0, longer)
        } by {
            if i < count - 1 {
                assert(all_shared[i] == shared[i]);
                assert(all_stages[i] == stages[i] && all_stages[i + 1] == stages[i + 1]);
            } else {
                assert(all_shared[i] == size);
                assert(all_stages[i] == before);
                assert(all_stages[i + 1] == after);
                assert(after == before + next.skip(size));
            }
        }
        assert forall|i: int| 0 <= i < count implies (#[trigger] all_adding.contains(i)
            <==> all_shared[i] < parts[i].text@.len()) by {
            if i < count - 1 {
                assert(adding.contains(i) <==> shared[i] < parts[i].text@.len());
                if adding.contains(i) {
                    let j = choose|j: int| 0 <= j < adding.len() && adding[j] == i;
                    assert(all_adding[j] == i);
                }
                if all_adding.contains(i) {
                    let j = choose|j: int| 0 <= j < all_adding.len() && all_adding[j] == i;
                    assert(j < adding.len());
                    assert(adding[j] == i);
                }
            } else if size < next.len() {
                assert(all_adding[adding.len() as int] == i);
            } else if adding.contains(i) {
                let j = choose|j: int| 0 <= j < adding.len() && adding[j] == i;
                assert(0 <= adding[j] < count - 1);
            }
        }
        assert(weights_of(parts, count) =~= Seq::new(
            all_adding.len(),
            |i: int|
                (
                    parts[all_adding[i]].score,
                    parts[all_adding[i]].text@.len() - all_shared[all_adding[i]],
                ),
        )) by {
            let earlier = weights_of(parts, count - 1);
            assert forall|i: int| 0 <= i < adding.len() implies earlier[i] == (
                parts[all_adding[i]].score,
                parts[all_adding[i]].text@.len() - all_shared[all_adding[i]],
            ) by {
                assert(all_adding[i] == adding[i]);
                assert(0 <= adding[i] < count - 1);
            }
        }
        (all_stages, all_shared, all_adding)
    }
}

} // verus!
