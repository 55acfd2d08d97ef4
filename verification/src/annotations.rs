//! Annotations of pictures: one JSON record on each line.
use vstd::prelude::*;
use crate::paths::{file_name, file_name_of, PathStyle};
use crate::preprocess::{is_longest, longest_crop, Crop, Sides};
use crate::text::{chars_of, same_text};

verus! {

/// The error of the `serde_json` crate.
#[verifier::external_type_specification]
#[verifier::external_body]
pub struct ExJsonError(serde_json::Error);

/// The bits of the numbers of a list; what is no number is `None`.
pub type Numbers = Vec<Option<u64>>;

/// The lists of an outline; what is no list is `None`.
pub type Outline = Vec<Option<Numbers>>;

/// What is read of a record: a text and the outlines of a list of objects. What is
/// no text, no list or no outline is `None`.
pub struct Record {
    pub text: Option<String>,
    pub outlines: Option<Vec<Option<Outline>>>,
}

/// What a record holds.
pub struct RecordView {
    pub text: Option<Seq<char>>,
    pub outlines: Option<Seq<Option<Seq<Option<Seq<Option<u64>>>>>>>,
}

impl RecordView {
    /// The outlines; where there is no list, there are none.
    pub open spec fn list(self) -> Seq<Option<Seq<Option<Seq<Option<u64>>>>>> {
        match self.outlines {
            Some(list) => list,
            None => Seq::empty(),
        }
    }
}

/// The numbers of a list.
pub open spec fn numbers_view(numbers: Option<Numbers>) -> Option<Seq<Option<u64>>> {
    match numbers {
        Some(list) => Some(list@),
        None => None,
    }
}

/// The lists of an outline.
pub open spec fn outline_view(outline: Option<Outline>) -> Option<Seq<Option<Seq<Option<u64>>>>> {
    match outline {
        Some(list) => Some(list@.map_values(|numbers: Option<Numbers>| numbers_view(numbers))),
        None => None,
    }
}

/// What a record holds.
pub open spec fn record_view(record: Record) -> RecordView {
    RecordView {
        text: match record.text {
            Some(text) => Some(text@),
            None => None,
        },
        outlines: match record.outlines {
            Some(list) => Some(
                list@.map_values(|outline: Option<Outline>| outline_view(outline)),
            ),
            None => None,
        },
    }
}

/// What `serde_json::from_str` finds in a line: the text under a key, and for
/// each object of the list under another key the lists of numbers under a third;
/// `None` where the line is refused.
pub uninterp spec fn record_of(
    line: Seq<char>,
    text_key: Seq<char>,
    list_key: Seq<char>,
    outline_key: Seq<char>,
) -> Option<RecordView>;

/// `serde_json::from_str`: the record is `record_of` the line and the keys. What
/// is missing, or of another kind than is asked for, is `None`.
#[verifier::external_body]
fn parse_record(line: &str, text_key: &str, list_key: &str, outline_key: &str) -> (result: Result<
    Record,
    serde_json::Error,
>)
    ensures
        match result {
            Ok(record) => record_of(line@, text_key@, list_key@, outline_key@) == Some(
                record_view(record),
            ),
            Err(_) => record_of(line@, text_key@, list_key@, outline_key@) is None,
        },
{
    let value: serde_json::Value = serde_json::from_str(line)?;
    let numbers = |list: &Vec<serde_json::Value>| {
        list.iter().map(|item| item.as_f64().map(|number| number.to_bits())).collect()
    };
    let outline = |list: &Vec<serde_json::Value>| {
        list.iter().map(|item| item.as_array().map(numbers)).collect()
    };
    let outlines = |list: &Vec<serde_json::Value>| {
        list.iter().map(|item| item[outline_key].as_array().map(outline)).collect()
    };
    let text = value[text_key].as_str().map(str::to_owned);
    Ok(Record { text, outlines: value[list_key].as_array().map(outlines) })
}

/// The points of an outline: the first two numbers of each list that has them.
pub open spec fn points_of(outline: Seq<Option<Seq<Option<u64>>>>) -> Seq<(u64, u64)>
    decreases outline.len(),
{
    if outline.len() == 0 {
        Seq::empty()
    } else {
        let before = points_of(outline.drop_last());
        match outline.last() {
            None => before,
            Some(numbers) => if numbers.len() >= 2 && numbers[0] is Some && numbers[1] is Some {
                before.push((numbers[0]->Some_0, numbers[1]->Some_0))
            } else {
                before
            },
        }
    }
}

fn outline_points(outline: &Outline) -> (result: Vec<(u64, u64)>)
    ensures
        result@ == points_of(outline_view(Some(*outline))->Some_0),
{
    let ghost all = outline_view(Some(*outline))->Some_0;
    let mut points: Vec<(u64, u64)> = Vec::new();
    assert(all.take(0) =~= Seq::empty());
    for index in 0..outline.len()
        invariant
            all == outline@.map_values(|numbers: Option<Numbers>| numbers_view(numbers)),
            points@ == points_of(all.take(index as int)),
    {
        proof {
            assert(all.take(index + 1).drop_last() =~= all.take(index as int));
            assert(all.take(index + 1).last() == numbers_view(outline@[index as int]));
        }
        if let Some(numbers) = &outline[index] {
            if numbers.len() >= 2 {
                if let (Some(x), Some(y)) = (numbers[0], numbers[1]) {
                    points.push((x, y));
                }
            }
        }
    }
    assert(all.take(outline@.len() as int) =~= all);
    points
}

/// The sides that were found, in order.
pub open spec fn found_sides(answers: Seq<Option<Sides>>) -> Seq<Sides>
    decreases answers.len(),
{
    if answers.len() == 0 {
        Seq::empty()
    } else {
        let before = found_sides(answers.drop_last());
        match answers.last() {
            Some(sides) => before.push(sides),
            None => before,
        }
    }
}

/// Whether the sides of an outline may be the given answer; what is no outline
/// has none.
pub open spec fn answers<S: Fn(Vec<(u64, u64)>) -> Option<Sides>>(
    sides_of: S,
    outline: Option<Seq<Option<Seq<Option<u64>>>>>,
    answer: Option<Sides>,
) -> bool {
    match outline {
        None => answer is None,
        Some(list) => exists|points: Vec<(u64, u64)>|
            points@ == points_of(list) && #[trigger] call_ensures(sides_of, (points,), answer),
    }
}

/// Whether the sides are those of the outlines of a record.
pub open spec fn are_sides<S: Fn(Vec<(u64, u64)>) -> Option<Sides>>(
    sides_of: S,
    record: RecordView,
    found: Seq<Sides>,
) -> bool {
    exists|list: Seq<Option<Sides>>|
        {
            &&& list.len() == record.list().len()
            &&& forall|i: int|
                0 <= i < list.len() ==> answers(sides_of, record.list()[i], #[trigger] list[i])
            &&& found == #[trigger] found_sides(list)
        }
}

/// Whether a record is that of a picture: its text leads to a file of that name.
pub open spec fn is_about(record: RecordView, wanted: Seq<char>, style: PathStyle) -> bool {
    record.text is Some && file_name_of(style, record.text->Some_0) == Some(wanted)
}

/// The sides of the outlines of a record, if it is that of the wanted picture.
/// `sides_of` tells the sides of an outline from its points, whose numbers are
/// given by their bits.
pub fn record_sides<S: Fn(Vec<(u64, u64)>) -> Option<Sides>>(
    record: &Record,
    wanted: &str,
    sides_of: &S,
    style: PathStyle,
) -> (result: Option<Vec<Sides>>)
    requires
        forall|points: Vec<(u64, u64)>| #[trigger] call_requires(*sides_of, (points,)),
    ensures
        match result {
            Some(found) => is_about(record_view(*record), wanted@, style) && are_sides(
                *sides_of,
                record_view(*record),
                found@,
            ),
            None => !is_about(record_view(*record), wanted@, style),
        },
{
    let name: String = match &record.text {
        None => {
            return None;
        },
        Some(text) => match file_name(text.as_str(), style) {
            None => {
                return None;
            },
            Some(name) => name,
        },
    };
    let name_characters: Vec<char> = chars_of(name.as_str());
    let wanted_characters: Vec<char> = chars_of(wanted);
    if !same_text(name_characters.as_slice(), wanted_characters.as_slice()) {
        return None;
    }
    let ghost all = record_view(*record).list();
    let ghost mut list: Seq<Option<Sides>> = Seq::empty();
    let mut found: Vec<Sides> = Vec::new();
    let outlines: &Vec<Option<Outline>> = match &record.outlines {
        None => {
            assert(found@ == found_sides(list));
            return Some(found);
        },
        Some(outlines) => outlines,
    };
    for index in 0..outlines.len()
        invariant
            forall|points: Vec<(u64, u64)>| #[trigger] call_requires(*sides_of, (points,)),
            all == outlines@.map_values(|outline: Option<Outline>| outline_view(outline)),
            list.len() == index,
            forall|i: int|
                0 <= i < index ==> answers(*sides_of, all[i], #[trigger] list[i]),
            found@ == found_sides(list),
    {
        let answer: Option<Sides> = match &outlines[index] {
            None => None,
            Some(outline) => {
                let points: Vec<(u64, u64)> = outline_points(outline);
                let ghost given = points;
                let answer: Option<Sides> = sides_of(points);
                assert(call_ensures(*sides_of, (given,), answer));
                answer
            },
        };
        proof {
            assert(all[index as int] == outline_view(outlines@[index as int]));
            assert(answers(*sides_of, all[index as int], answer));
            assert(list.push(answer).drop_last() =~= list);
            list = list.push(answer);
        }
        if let Some(sides) = answer {
            found.push(sides);
        }
    }
    assert(are_sides(*sides_of, record_view(*record), found@)) by {
        assert(found@ == found_sides(list));
    }
    Some(found)
}

/// The sides of the outlines in a line of annotations, if it is about the wanted
/// picture; an error where the line is no record.
pub fn read_record<S: Fn(Vec<(u64, u64)>) -> Option<Sides>>(
    line: &str,
    wanted: &str,
    sides_of: &S,
    style: PathStyle,
) -> (result: Result<Option<Vec<Sides>>, AnnotationError>)
    requires
        forall|points: Vec<(u64, u64)>| #[trigger] call_requires(*sides_of, (points,)),
    ensures
        match (line_record(line@), result) {
            (None, Err(AnnotationError::NotJson)) => true,
            (Some(record), Ok(Some(found))) => is_about(record, wanted@, style) && are_sides(
                *sides_of,
                record,
                found@,
            ),
            (Some(record), Ok(None)) => !is_about(record, wanted@, style),
            _ => false,
        },
{
    match parse_record(line, "image", "detections", "polygon") {
        Err(_) => Err(AnnotationError::NotJson),
        Ok(record) => Ok(record_sides(&record, wanted, sides_of, style)),
    }
}

/// A box cut off at the right and the lower edge of a picture.
pub open spec fn cut_off(sides: Sides, width: u32, height: u32) -> Sides {
    Sides {
        left: sides.left,
        top: sides.top,
        right: if sides.right < width {
            sides.right
        } else {
            width
        },
        bottom: if sides.bottom < height {
            sides.bottom
        } else {
            height
        },
    }
}

/// Boxes cut off at the edges of a picture.
pub open spec fn cut_boxes(boxes: Seq<Sides>, width: u32, height: u32) -> Seq<Sides> {
    boxes.map_values(|sides: Sides| cut_off(sides, width, height))
}

/// Whether a part is the widest of the boxes within a picture, the first of those
/// of equal width; `None` where no box has pixels.
pub open spec fn is_widest(boxes: Seq<Sides>, width: u32, height: u32, part: Option<Crop>) -> bool {
    let cut = cut_boxes(boxes, width, height);
    match part {
        Some(part) => exists|index: int| #[trigger]
            is_longest(cut, index) && part == cut[index].part(),
        None => forall|i: int| 0 <= i < cut.len() ==> !(#[trigger] cut[i]).filled(),
    }
}

/// Whether a part has pixels and lies within a picture.
pub open spec fn lies_within(part: Crop, width: u32, height: u32) -> bool {
    &&& part.width > 0 && part.height > 0
    &&& part.x + part.width <= width
    &&& part.y + part.height <= height
}

/// The widest of the boxes within a picture.
pub fn widest_crop(boxes: &[Sides], width: u32, height: u32) -> (result: Option<Crop>)
    ensures
        is_widest(boxes@, width, height, result),
        result matches Some(part) ==> lies_within(part, width, height),
{
    let ghost wanted = cut_boxes(boxes@, width, height);
    let mut cut: Vec<Sides> = Vec::new();
    for index in 0..boxes.len()
        invariant
            wanted == cut_boxes(boxes@, width, height),
            cut@ == wanted.take(index as int),
    {
        let sides: Sides = boxes[index];
        let right: u32 = if sides.right < width {
            sides.right
        } else {
            width
        };
        let bottom: u32 = if sides.bottom < height {
            sides.bottom
        } else {
            height
        };
        cut.push(Sides { left: sides.left, top: sides.top, right, bottom });
        assert(wanted[index as int] == cut_off(boxes@[index as int], width, height));
        assert(cut@ =~= wanted.take(index + 1));
    }
    assert(cut@ =~= wanted);
    longest_crop(cut.as_slice())
}

/// What a line of annotations holds.
pub open spec fn line_record(line: Seq<char>) -> Option<RecordView> {
    record_of(line, "image"@, "detections"@, "polygon"@)
}

/// Whether the search ends at a line: it is no record, or that of the picture.
pub open spec fn settles(line: Seq<char>, wanted: Seq<char>, style: PathStyle) -> bool {
    match line_record(line) {
        None => true,
        Some(record) => is_about(record, wanted, style),
    }
}

/// Whether a line is the one at which the search ends.
pub open spec fn is_settled_at(
    lines: Seq<String>,
    wanted: Seq<char>,
    style: PathStyle,
    index: int,
) -> bool {
    &&& 0 <= index < lines.len()
    &&& settles(lines[index]@, wanted, style)
    &&& forall|i: int| 0 <= i < index ==> !settles((#[trigger] lines[i])@, wanted, style)
}

/// Whether a part may be the widest that the record in a line names.
pub open spec fn is_line_crop<S: Fn(Vec<(u64, u64)>) -> Option<Sides>>(
    sides_of: S,
    line: Seq<char>,
    width: u32,
    height: u32,
    part: Option<Crop>,
) -> bool {
    &&& line_record(line) is Some
    &&& exists|found: Seq<Sides>| #[trigger]
        are_sides(sides_of, line_record(line)->Some_0, found) && is_widest(
            found,
            width,
            height,
            part,
        )
}

/// The widest piece of text that annotations name for a picture: that of the
/// first record that is about the picture. Lines behind it are not read.
pub fn longest_annotation_crop<S: Fn(Vec<(u64, u64)>) -> Option<Sides>>(
    lines: &[String],
    wanted: &str,
    sides_of: &S,
    style: PathStyle,
    width: u32,
    height: u32,
) -> (result: Result<Crop, AnnotationError>)
    requires
        forall|points: Vec<(u64, u64)>| #[trigger] call_requires(*sides_of, (points,)),
    ensures
        match result {
            Ok(part) => {
                &&& lies_within(part, width, height)
                &&& exists|index: int| #[trigger]
                    is_settled_at(lines@, wanted@, style, index) && is_line_crop(
                        *sides_of,
                        lines@[index]@,
                        width,
                        height,
                        Some(part),
                    )
            },
            Err(AnnotationError::NotJson) => exists|index: int| #[trigger]
                is_settled_at(lines@, wanted@, style, index) && line_record(
                    lines@[index]@,
                ) is None,
            Err(AnnotationError::NoBox) => exists|index: int| #[trigger]
                is_settled_at(lines@, wanted@, style, index) && is_line_crop(
                    *sides_of,
                    lines@[index]@,
                    width,
                    height,
                    None,
                ),
            Err(AnnotationError::NoRecord) => forall|i: int|
                0 <= i < lines@.len() ==> !settles((#[trigger] lines@[i])@, wanted@, style),
        },
{
    for index in 0..lines.len()
        invariant
            forall|points: Vec<(u64, u64)>| #[trigger] call_requires(*sides_of, (points,)),
            forall|i: int|
                0 <= i < index ==> !settles((#[trigger] lines@[i])@, wanted@, style),
    {
        match read_record(lines[index].as_str(), wanted, sides_of, style) {
            Err(error) => {
                assert(is_settled_at(lines@, wanted@, style, index as int));
                return Err(error);
            },
            Ok(Some(found)) => {
                assert(is_settled_at(lines@, wanted@, style, index as int));
                return match widest_crop(found.as_slice(), width, height) {
                    Some(part) => {
                        assert(is_widest(found@, width, height, Some(part)));
                        Ok(part)
                    },
                    None => {
                        assert(is_widest(found@, width, height, None));
                        Err(AnnotationError::NoBox)
                    },
                };
            },
            Ok(None) => {},
        }
    }
    Err(AnnotationError::NoRecord)
}

/// Why annotations give no part of a picture.
#[derive(Clone, Copy, Debug, PartialEq, Eq, Structural)]
pub enum AnnotationError {
    /// A line is not JSON.
    NotJson,
    /// No line is about the picture.
    NoRecord,
    /// The record of the picture names no box with pixels within it.
    NoBox,
}

} // verus!
