//! Greedy decoding of recognizer outputs, and joining of what the parts of a
//! line decode to.
use vstd::prelude::*;
use crate::single::{all_finite, are_finite, argmax, argmax_of, Single};
use crate::text::{chars_of, texts};

verus! {

/// The width of the recognizer's input.
pub const CONTENT_LIMIT: usize = 320;

/// The longest run of characters that two parts can share.
pub const OVERLAP_LIMIT: usize = 32;

/// Why a recognizer output was refused.
#[derive(Clone, Copy, Debug, PartialEq, Eq, Structural)]
pub enum DecodeError {
    /// The shape is not one batch of steps and at least two classes.
    Shape,
    /// The shape holds more values than can be counted.
    ShapeOverflow,
    /// The number of values is not what the shape says.
    Length { values: usize, expected: usize },
    /// The number of classes does not go with the dictionary.
    Classes { classes: usize, entries: usize },
    /// The content width is zero or too large.
    ContentWidth(usize),
    /// A value is infinite or not a number.
    NonFinite,
    /// The number of steps cannot be computed.
    TimeSteps,
}

/// A decoded text and how sure it is.
#[derive(Clone, Debug)]
pub struct DecodedText<S> {
    pub text: String,
    pub score: S,
}

/// What the shape of a recognizer output gives: steps and classes.
pub open spec fn recognizer_shape_of(shape: Seq<usize>, values: int) -> Result<
    (usize, usize),
    DecodeError,
> {
    if shape.len() != 3 || shape[0] != 1 || shape[1] == 0 || shape[2] < 2 {
        Err(DecodeError::Shape)
    } else if shape[1] * shape[2] > usize::MAX {
        Err(DecodeError::ShapeOverflow)
    } else if values != shape[1] * shape[2] {
        Err(
            DecodeError::Length {
                values: values as usize,
                expected: (shape[1] * shape[2]) as usize,
            },
        )
    } else {
        Ok((shape[1], shape[2]))
    }
}

/// The steps and classes of a recognizer output.
pub fn recognizer_output_shape(shape: &[usize], value_len: usize) -> (result: Result<
    (usize, usize),
    DecodeError,
>)
    ensures
        result == recognizer_shape_of(shape@, value_len as int),
{
    if shape.len() != 3 || shape[0] != 1 || shape[1] == 0 || shape[2] < 2 {
        return Err(DecodeError::Shape);
    }
    match shape[1].checked_mul(shape[2]) {
        None => Err(DecodeError::ShapeOverflow),
        Some(expected) => {
            if value_len != expected {
                return Err(DecodeError::Length { values: value_len, expected });
            }
            Ok((shape[1], shape[2]))
        },
    }
}

/// The number of steps that cover a content width.
pub open spec fn steps_of(content_width: int, steps: int) -> int {
    let covered = (content_width * steps + CONTENT_LIMIT - 1) / CONTENT_LIMIT as int;
    if covered < 1 {
        1
    } else if covered > steps {
        steps
    } else {
        covered
    }
}

/// The values of a step, one for each class.
pub open spec fn step_values(values: Seq<Single>, classes: int, step: int) -> Seq<Single> {
    values.subrange(step * classes, step * classes + classes)
}

/// The class of each of the first `steps` steps.
pub open spec fn path_of(values: Seq<Single>, classes: int, steps: int) -> Seq<int> {
    Seq::new(
        steps as nat,
        |time: int| argmax_of(step_values(values, classes, time), classes),
    )
}

/// The steps that add a character, with their class: those whose class is
/// neither the blank nor that of the step before.
pub open spec fn emissions(path: Seq<int>) -> Seq<(int, int)>
    decreases path.len(),
{
    if path.len() == 0 {
        Seq::empty()
    } else {
        let before = emissions(path.drop_last());
        let previous: int = if path.len() >= 2 {
            path[path.len() - 2]
        } else {
            0
        };
        if path.last() != 0 && path.last() != previous {
            before.push((path.len() - 1, path.last()))
        } else {
            before
        }
    }
}

/// What a class stands for: a dictionary entry, or the space that comes behind
/// them where there is one class more.
pub open spec fn class_text(dictionary: Seq<Seq<char>>, class: int) -> Seq<char> {
    if class == dictionary.len() + 1 {
        seq![' ']
    } else {
        dictionary[class - 1]
    }
}

/// The text of the emitted classes.
pub open spec fn emitted_text(dictionary: Seq<Seq<char>>, emitted: Seq<(int, int)>) -> Seq<char>
    decreases emitted.len(),
{
    if emitted.len() == 0 {
        Seq::empty()
    } else {
        emitted_text(dictionary, emitted.drop_last()) + class_text(dictionary, emitted.last().1)
    }
}

/// Steps and classes as plain numbers.
pub open spec fn pairs(emitted: Seq<(usize, usize)>) -> Seq<(int, int)> {
    emitted.map_values(|pair: (usize, usize)| (pair.0 as int, pair.1 as int))
}

/// Why an output cannot be decoded; `None` where it can.
pub open spec fn decode_error(
    values: Seq<Single>,
    shape: Seq<usize>,
    entries: int,
    content_width: usize,
) -> Option<DecodeError> {
    match recognizer_shape_of(shape, values.len() as int) {
        Err(error) => Some(error),
        Ok((steps, classes)) => if classes != entries + 1 && classes != entries + 2 {
            Some(DecodeError::Classes { classes, entries: entries as usize })
        } else if content_width == 0 || content_width > CONTENT_LIMIT {
            Some(DecodeError::ContentWidth(content_width))
        } else if !all_finite(values) {
            Some(DecodeError::NonFinite)
        } else if content_width * steps > usize::MAX {
            Some(DecodeError::TimeSteps)
        } else {
            None
        },
    }
}

/// The emitted steps and classes of an output.
pub open spec fn decoded_emissions(
    values: Seq<Single>,
    shape: Seq<usize>,
    content_width: int,
) -> Seq<(int, int)> {
    emissions(path_of(values, shape[2] as int, steps_of(content_width, shape[1] as int)))
}

/// Whether an output is decoded to a text and a score.
pub open spec fn is_decoded<S, F: Fn(Vec<(usize, usize)>) -> S>(
    values: Seq<Single>,
    shape: Seq<usize>,
    dictionary: Seq<Seq<char>>,
    content_width: int,
    score_of: F,
    text: Seq<char>,
    score: S,
) -> bool {
    let emitted = decoded_emissions(values, shape, content_width);
    &&& text == emitted_text(dictionary, emitted)
    &&& exists|list: Vec<(usize, usize)>|
        pairs(list@) == emitted && #[trigger] call_ensures(score_of, (list,), score)
}

proof fn lemma_text_push(dictionary: Seq<Seq<char>>, emitted: Seq<(int, int)>, pair: (int, int))
    ensures
        emitted_text(dictionary, emitted.push(pair)) == emitted_text(dictionary, emitted)
            + class_text(dictionary, pair.1),
{
    assert(emitted.push(pair).drop_last() =~= emitted);
}

fn push_text(target: &mut String, next: &str)
    ensures
        final(target)@ == old(target)@ + next@,
{
    let characters: Vec<char> = chars_of(next);
    let ghost start = target@;
    assert(start + characters@.take(0) =~= start);
    for index in 0..characters.len()
        invariant
            target@ == start + characters@.take(index as int),
    {
        target.push(characters[index]);
        assert(start + characters@.take(index + 1) =~= (start + characters@.take(
            index as int,
        )).push(characters@[index as int]));
    }
    assert(characters@.take(characters@.len() as int) =~= characters@);
}

/// Decodes a recognizer output: at each step within the content the last class
/// of the greatest value, repetitions taken once and blanks left out.
/// `score_of` tells from the emitted steps and classes how sure the text is.
#[verifier::spinoff_prover]
pub fn decode_ctc_greedy<S, F: Fn(Vec<(usize, usize)>) -> S>(
    values: &[Single],
    shape: &[usize],
    dictionary: &[String],
    content_width: usize,
    score_of: &F,
) -> (result: Result<DecodedText<S>, DecodeError>)
    requires
        forall|emitted: Vec<(usize, usize)>| call_requires(*score_of, (emitted,)),
    ensures
        match (decode_error(values@, shape@, dictionary@.len() as int, content_width), result) {
            (Some(wanted), Err(error)) => error == wanted,
            (None, Ok(decoded)) => is_decoded(
                values@,
                shape@,
                texts(dictionary@),
                content_width as int,
                *score_of,
                decoded.text@,
                decoded.score,
            ),
            _ => false,
        },
{
    let (steps, classes): (usize, usize) = match recognizer_output_shape(shape, values.len()) {
        Err(error) => {
            return Err(error);
        },
        Ok(sizes) => sizes,
    };
    let entries: usize = dictionary.len();
    if classes - 1 != entries && classes - 2 != entries {
        return Err(DecodeError::Classes { classes, entries });
    }
    let implicit_space: bool = classes - 2 == entries;
    if content_width == 0 || content_width > CONTENT_LIMIT {
        return Err(DecodeError::ContentWidth(content_width));
    }
    if !are_finite(values) {
        return Err(DecodeError::NonFinite);
    }
    let product: usize = match content_width.checked_mul(steps) {
        None => {
            return Err(DecodeError::TimeSteps);
        },
        Some(product) => product,
    };
    let covered: usize = product / CONTENT_LIMIT + if product % CONTENT_LIMIT == 0 {
        0
    } else {
        1
    };
    let valid_steps: usize = if covered < 1 {
        1
    } else if covered > steps {
        steps
    } else {
        covered
    };
    assert(valid_steps == steps_of(content_width as int, steps as int));
    let ghost path = path_of(values@, classes as int, valid_steps as int);
    let ghost names = texts(dictionary@);
    let mut text: String = String::new();
    let mut emitted: Vec<(usize, usize)> = Vec::new();
    let mut previous: usize = 0;
    let len: usize = values.len();
    proof {
        assert(path.take(0) =~= Seq::<int>::empty());
        assert(pairs(emitted@) =~= Seq::<(int, int)>::empty());
        vstd::arithmetic::mul::lemma_mul_basics(classes as int);
    }
    let mut start: usize = 0;
    for time in 0..valid_steps
        invariant
            len == values@.len(),
            len == steps * classes,
            valid_steps <= steps,
            classes >= 2,
            entries == dictionary@.len(),
            classes == entries + 1 || classes == entries + 2,
            implicit_space == (classes == entries + 2),
            start == time * classes,
            path == path_of(values@, classes as int, valid_steps as int),
            names == texts(dictionary@),
            pairs(emitted@) == emissions(path.take(time as int)),
            text@ == emitted_text(names, emissions(path.take(time as int))),
            previous == if time == 0 {
                0
            } else {
                path[time - 1]
            },
    {
        proof {
            crate::index::lemma_row_bound(
                time as int,
                steps as int,
                classes as int - 1,
                classes as int,
            );
            assert(time * classes + classes == (time + 1) * classes) by (nonlinear_arith);
        }
        let class: usize = argmax(values, start, classes);
        assert(path[time as int] == class);
        let ghost head = path.take(time + 1);
        proof {
            assert(head.drop_last() =~= path.take(time as int));
            assert(head.last() == class);
        }
        if class != 0 && class != previous {
            proof {
                lemma_text_push(names, emissions(path.take(time as int)), (
                    time as int,
                    class as int,
                ));
            }
            if implicit_space && class == classes - 1 {
                let ghost before = text@;
                text.push(' ');
                assert(text@ =~= before + seq![' ']);
            } else {
                assert(names[class - 1] == dictionary@[class - 1]@);
                push_text(&mut text, dictionary[class - 1].as_str());
            }
            let ghost before = pairs(emitted@);
            emitted.push((time, class));
            assert(pairs(emitted@) =~= before.push((time as int, class as int)));
        }
        previous = class;
        start = start + classes;
    }
    assert(path.take(valid_steps as int) =~= path);
    let ghost list = emitted;
    let score: S = score_of(emitted);
    assert(pairs(list@) == decoded_emissions(values@, shape@, content_width as int)
        && call_ensures(*score_of, (list,), score));
    Ok(DecodedText { text, score })
}

/// A path without the repetitions that directly follow.
pub open spec fn deduplicated(path: Seq<int>) -> Seq<int>
    decreases path.len(),
{
    if path.len() == 0 {
        Seq::empty()
    } else if path.len() >= 2 && path.last() == path[path.len() - 2] {
        deduplicated(path.drop_last())
    } else {
        deduplicated(path.drop_last()).push(path.last())
    }
}

/// The classes that are emitted are those of the path with repetitions taken
/// once and then the blanks left out.
pub proof fn lemma_collapse(path: Seq<int>)
    ensures
        emissions(path).map_values(|pair: (int, int)| pair.1) == deduplicated(path).filter(
            |class: int| class != 0,
        ),
    decreases path.len(),
{
    let kept = |class: int| class != 0;
    let second = |pair: (int, int)| pair.1;
    reveal(Seq::filter);
    if path.len() == 0 {
        assert(emissions(path).map_values(second) =~= Seq::<int>::empty());
        assert(deduplicated(path).filter(kept) =~= Seq::<int>::empty());
    } else {
        let head = path.drop_last();
        lemma_collapse(head);
        let last = path.last();
        let rest = deduplicated(head);
        if path.len() >= 2 && last == path[path.len() - 2] {
        } else {
            assert(rest.push(last).drop_last() =~= rest);
            if last != 0 {
                assert(emissions(head).push((path.len() - 1, last)).map_values(second)
                    =~= emissions(head).map_values(second).push(last));
            }
        }
    }
}

/// A step that repeats the class of the step before adds nothing.
pub proof fn lemma_repetition(path: Seq<int>)
    requires
        path.len() > 0,
    ensures
        emissions(path.push(path.last())) == emissions(path),
{
    let longer = path.push(path.last());
    assert(longer.drop_last() =~= path);
    assert(longer[longer.len() - 2] == path.last());
}

/// Values of the steps behind the content do not matter: an output that differs
/// from one that can be decoded only there is decoded too, to the same emissions,
/// the same text and the same score. The values of an emitted step, from which a
/// score can be found, are the same in both.
pub proof fn lemma_steps_behind_content<S, F: Fn(Vec<(usize, usize)>) -> S>(
    first: Seq<Single>,
    second: Seq<Single>,
    shape: Seq<usize>,
    dictionary: Seq<Seq<char>>,
    content_width: usize,
    score_of: F,
)
    requires
        decode_error(first, shape, dictionary.len() as int, content_width) is None,
        second.len() == first.len(),
        all_finite(second),
        ({
            let covered = steps_of(content_width as int, shape[1] as int) * shape[2];
            forall|i: int| 0 <= i < covered ==> #[trigger] second[i] == first[i]
        }),
    ensures
        decode_error(second, shape, dictionary.len() as int, content_width) is None,
        decoded_emissions(second, shape, content_width as int) == decoded_emissions(
            first,
            shape,
            content_width as int,
        ),
        forall|text: Seq<char>, score: S|
            #[trigger] is_decoded(
                second,
                shape,
                dictionary,
                content_width as int,
                score_of,
                text,
                score,
            ) <==> is_decoded(
                first,
                shape,
                dictionary,
                content_width as int,
                score_of,
                text,
                score,
            ),
        forall|i: int|
            0 <= i < decoded_emissions(first, shape, content_width as int).len() ==> {
                let step = (#[trigger] decoded_emissions(first, shape, content_width as int)[i]).0;
                step_values(second, shape[2] as int, step) == step_values(
                    first,
                    shape[2] as int,
                    step,
                )
            },
{
    let classes: int = shape[2] as int;
    let steps: int = steps_of(content_width as int, shape[1] as int);
    let one = path_of(first, classes, steps);
    let two = path_of(second, classes, steps);
    assert forall|time: int| 0 <= time < steps implies #[trigger] step_values(
        second,
        classes,
        time,
    ) == step_values(first, classes, time) by {
        assert(time * classes + classes == (time + 1) * classes) by (nonlinear_arith);
        assert((time + 1) * classes <= steps * classes) by (nonlinear_arith)
            requires
                time + 1 <= steps,
                classes >= 0,
        ;
        assert(steps * classes <= shape[1] * classes) by (nonlinear_arith)
            requires
                steps <= shape[1],
                classes >= 0,
        ;
        assert(0 <= time * classes) by (nonlinear_arith)
            requires
                time >= 0,
                classes >= 0,
        ;
        assert(second.subrange(time * classes, time * classes + classes) =~= first.subrange(
            time * classes,
            time * classes + classes,
        ));
    }
    assert forall|time: int| 0 <= time < steps implies #[trigger] two[time] == one[time] by {
        assert(step_values(second, classes, time) == step_values(first, classes, time));
    }
    assert(one =~= two);
    lemma_emissions(one);
}

/// The emitted steps rise, and each has the class of its step.
pub proof fn lemma_emissions(path: Seq<int>)
    ensures
        forall|i: int|
            0 <= i < emissions(path).len() ==> {
                let pair = #[trigger] emissions(path)[i];
                0 <= pair.0 < path.len() && path[pair.0] == pair.1 && pair.1 != 0
            },
        forall|i: int, j: int|
            0 <= i < j < emissions(path).len() ==> emissions(path)[i].0 < emissions(path)[j].0,
    decreases path.len(),
{
    if path.len() > 0 {
        lemma_emissions(path.drop_last());
        assert forall|i: int| 0 <= i < emissions(path).len() implies {
            let pair = #[trigger] emissions(path)[i];
            0 <= pair.0 < path.len() && path[pair.0] == pair.1 && pair.1 != 0
        } by {
            if i < emissions(path.drop_last()).len() {
                assert(emissions(path)[i] == emissions(path.drop_last())[i]);
            }
        }
        assert forall|i: int, j: int| 0 <= i < j < emissions(path).len() implies emissions(
            path,
        )[i].0 < emissions(path)[j].0 by {
            assert(emissions(path)[i] == emissions(path.drop_last())[i]);
            if j < emissions(path.drop_last()).len() {
                assert(emissions(path)[j] == emissions(path.drop_last())[j]);
            }
        }
    }
}

/// Whether the first text ends with the first `size` characters of the second.
pub open spec fn shares(first: Seq<char>, second: Seq<char>, size: int) -> bool {
    &&& size <= first.len()
    &&& size <= second.len()
    &&& first.skip(first.len() - size) == second.take(size)
}

/// The greatest number of characters from 2 to `limit` that the texts share, or 0.
pub open spec fn overlap_below(first: Seq<char>, second: Seq<char>, limit: int) -> int
    decreases limit,
{
    if limit < 2 {
        0
    } else if shares(first, second, limit) {
        limit
    } else {
        overlap_below(first, second, limit - 1)
    }
}

/// The number of characters that two texts share at their boundary.
pub open spec fn overlap_of(first: Seq<char>, second: Seq<char>) -> int {
    overlap_below(first, second, OVERLAP_LIMIT as int)
}

/// The two texts with what they share at their boundary taken once.
pub open spec fn joined_text(first: Seq<char>, second: Seq<char>) -> Seq<char> {
    first + second.skip(overlap_of(first, second))
}

/// What is shared is 0 or at least 2 characters, and no longer run up to the
/// limit is shared; the joined text begins with the first text and ends with
/// the second.
pub proof fn lemma_joined(first: Seq<char>, second: Seq<char>)
    ensures
        0 <= overlap_of(first, second) <= second.len(),
        overlap_of(first, second) == 0 || 2 <= overlap_of(first, second) <= OVERLAP_LIMIT,
        shares(first, second, overlap_of(first, second)),
        forall|size: int|
            overlap_of(first, second) < size <= OVERLAP_LIMIT && size >= 2 ==> !#[trigger] shares(
                first,
                second,
                size,
            ),
        joined_text(first, second).take(first.len() as int) == first,
        joined_text(first, second).skip(first.len() - overlap_of(first, second)) == second,
{
    lemma_overlap(first, second, OVERLAP_LIMIT as int);
    let size = overlap_of(first, second);
    let all = joined_text(first, second);
    assert(all.take(first.len() as int) =~= first);
    assert(first.skip(first.len() as int) =~= second.take(0));
    assert(all.skip(first.len() - size) =~= second) by {
        assert forall|i: int| 0 <= i < second.len() implies all.skip(first.len() - size)[i]
            == second[i] by {
            if i < size {
                assert(first.skip(first.len() - size)[i] == second.take(size)[i]);
            }
        }
    }
}

proof fn lemma_overlap(first: Seq<char>, second: Seq<char>, limit: int)
    requires
        limit <= OVERLAP_LIMIT,
    ensures
        0 <= overlap_below(first, second, limit) <= second.len(),
        overlap_below(first, second, limit) <= first.len(),
        overlap_below(first, second, limit) == 0 || 2 <= overlap_below(first, second, limit)
            <= limit,
        shares(first, second, overlap_below(first, second, limit)),
        forall|size: int|
            overlap_below(first, second, limit) < size <= limit && size >= 2 ==> !#[trigger] shares(
                first,
                second,
                size,
            ),
    decreases limit,
{
    if limit >= 2 && !shares(first, second, limit) {
        lemma_overlap(first, second, limit - 1);
    } else if limit < 2 {
        assert(first.skip(first.len() as int) =~= second.take(0));
    }
}

fn shares_exec(first: &Vec<char>, second: &Vec<char>, size: usize) -> (result: bool)
    requires
        size <= first@.len(),
        size <= second@.len(),
    ensures
        result == shares(first@, second@, size as int),
{
    let len: usize = first.len();
    let start: usize = len - size;
    let ghost tail = first@.skip(start as int);
    let ghost head = second@.take(size as int);
    for index in 0..size
        invariant
            len == first@.len(),
            start == len - size,
            size <= second@.len(),
            tail == first@.skip(start as int),
            head == second@.take(size as int),
            forall|i: int| 0 <= i < index ==> tail[i] == head[i],
    {
        assert(tail[index as int] == first@[start + index]);
        assert(head[index as int] == second@[index as int]);
        if first[start + index] != second[index] {
            return false;
        }
    }
    assert(tail =~= head);
    true
}

/// Appends a text, leaving out what it shares with the end of the target, and
/// returns how many characters were added.
pub fn append_with_overlap(target: &mut String, next: &str) -> (result: usize)
    ensures
        final(target)@ == joined_text(old(target)@, next@),
        result == next@.len() - overlap_of(old(target)@, next@),
{
    let ghost start = target@;
    let first: Vec<char> = chars_of(target.as_str());
    let second: Vec<char> = chars_of(next);
    let mut overlap: usize = OVERLAP_LIMIT;
    proof {
        lemma_overlap(start, next@, OVERLAP_LIMIT as int);
    }
    while overlap >= 2 && !(overlap <= first.len() && overlap <= second.len() && shares_exec(
        &first,
        &second,
        overlap,
    ))
        invariant
            first@ == start,
            second@ == next@,
            overlap <= OVERLAP_LIMIT,
            overlap_below(start, next@, overlap as int) == overlap_of(start, next@),
        decreases overlap,
    {
        overlap = overlap - 1;
    }
    if overlap < 2 {
        overlap = 0;
    }
    assert(overlap == overlap_of(start, next@));
    assert(start + next@.subrange(overlap as int, overlap as int) =~= start);
    for index in overlap..second.len()
        invariant
            second@ == next@,
            overlap <= next@.len(),
            target@ == start + next@.subrange(overlap as int, index as int),
    {
        target.push(second[index]);
        assert(start + next@.subrange(overlap as int, index + 1) =~= (start + next@.subrange(
            overlap as int,
            index as int,
        )).push(next@[index as int]));
    }
    assert(next@.subrange(overlap as int, next@.len() as int) =~= next@.skip(overlap as int));
    second.len() - overlap
}

/// The texts of the first `count` parts joined.
pub open spec fn joined_parts<S>(parts: Seq<DecodedText<S>>, count: int) -> Seq<char>
    decreases count,
{
    if count <= 0 {
        Seq::empty()
    } else {
        joined_text(joined_parts(parts, count - 1), parts[count - 1].text@)
    }
}

/// The scores of the parts that add characters, each with how many it adds.
pub open spec fn weights_of<S>(parts: Seq<DecodedText<S>>, count: int) -> Seq<(S, int)>
    decreases count,
{
    if count <= 0 {
        Seq::empty()
    } else {
        let text = parts[count - 1].text@;
        let added = text.len() - overlap_of(joined_parts(parts, count - 1), text);
        let before = weights_of(parts, count - 1);
        if added != 0 {
            before.push((parts[count - 1].score, added))
        } else {
            before
        }
    }
}

/// Scores and their weights as plain numbers.
pub open spec fn weighted<S>(list: Seq<(S, usize)>) -> Seq<(S, int)> {
    list.map_values(|pair: (S, usize)| (pair.0, pair.1 as int))
}

/// Joins the texts of the parts of a line. `mean` gives the score from the
/// scores of the parts and how many characters each adds.
pub fn join_decoded_texts<S: Copy, F: Fn(Vec<(S, usize)>) -> S>(
    parts: &[DecodedText<S>],
    mean: &F,
) -> (result: DecodedText<S>)
    requires
        forall|list: Vec<(S, usize)>| call_requires(*mean, (list,)),
    ensures
        result.text@ == joined_parts(parts@, parts@.len() as int),
        exists|list: Vec<(S, usize)>|
            weighted(list@) == weights_of(parts@, parts@.len() as int) && call_ensures(
                *mean,
                (list,),
                result.score,
            ),
{
    let mut text: String = String::new();
    let mut list: Vec<(S, usize)> = Vec::new();
    assert(weighted(list@) =~= Seq::<(S, int)>::empty());
    for index in 0..parts.len()
        invariant
            text@ == joined_parts(parts@, index as int),
            weighted(list@) == weights_of(parts@, index as int),
    {
        let part: &DecodedText<S> = &parts[index];
        let added: usize = append_with_overlap(&mut text, part.text.as_str());
        if added != 0 {
            let ghost before = weighted(list@);
            list.push((part.score, added));
            assert(weighted(list@) =~= before.push((part.score, added as int)));
        }
    }
    let ghost kept = list;
    let score: S = mean(list);
    assert(weighted(kept@) == weights_of(parts@, parts@.len() as int) && call_ensures(
        *mean,
        (kept,),
        score,
    ));
    DecodedText { text, score }
}

} // verus!
