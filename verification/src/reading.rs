//! Reading the text of a line: its picture is split, each part is recognized and
//! decoded, and the texts are joined.
use vstd::prelude::*;
use crate::chunks::{
    chunk_count, chunk_start, chunk_width, split_error, split_recognition_crop, widest, SplitError,
};
use crate::ctc::{
    decode_ctc_greedy, decode_error, decoded_emissions, emitted_text, join_decoded_texts,
    joined_parts, pairs, weighted, weights_of, DecodeError, DecodedText,
};
use crate::images::{is_crop, is_resizable, resizable, Image};
use crate::preprocess::{
    is_recognizer_input, prepare_recognizer, scaled_width, Crop, PreparedInput, PreprocessError,
    RECOGNIZER_HEIGHT,
};
use crate::single::Single;
use crate::text::texts;

verus! {

/// What a recognizer gives.
pub struct Output {
    pub shape: Vec<usize>,
    pub values: Vec<Single>,
}

/// Why a line could not be read.
pub enum ReadError<E> {
    /// The picture could not be split.
    Split(SplitError),
    /// A part cannot be scaled to the recognizer's height.
    Unresizable,
    /// A part has no pixels.
    Prepare(PreprocessError),
    /// The recognizer failed.
    Recognize(E),
    /// What the recognizer gave could not be decoded.
    Decode(DecodeError),
}

/// What a line is read with.
pub struct Reader<'a, N, V, R, K, J> {
    pub dictionary: &'a Vec<String>,
    pub zero: Single,
    /// The width that keeps the proportions of a part of the given size.
    pub natural: N,
    /// The value of a byte of a channel.
    pub value: V,
    /// The recognizer.
    pub recognize: R,
    /// The score of what was emitted, from the values and the number of classes.
    pub score: K,
    /// The mean of weighted scores.
    pub mean: J,
}

/// The width of the canvas that a part is put on.
pub const CANVAS_WIDTH: u32 = 320;

/// The whole of a picture.
pub open spec fn whole(image: Image) -> Crop {
    Crop { x: 0, y: 0, width: image.width, height: image.height }
}

/// The number of classes of an output: its last dimension.
pub open spec fn classes_of(shape: Seq<usize>) -> usize {
    if shape.len() == 0 {
        0
    } else {
        shape.last()
    }
}

/// Whether pictures are the parts of the picture of a line.
pub open spec fn are_chunks(crop: Image, parts: Seq<Image>) -> bool {
    let most = widest(crop.height as int);
    &&& parts.len() == chunk_count(crop.width as int, most)
    &&& forall|i: int|
        0 <= i < parts.len() ==> is_crop(
            crop,
            chunk_start(most, i) as u32,
            0,
            chunk_width(crop.width as int, most, i) as u32,
            crop.height,
            #[trigger] parts[i],
        )
}

impl<
    'a,
    S: Copy,
    E,
    N: Fn(u32, u32) -> u32,
    V: Fn(usize, u8) -> Single,
    R: Fn(PreparedInput<Single>) -> Result<Output, E>,
    K: Fn(Vec<Single>, usize, Vec<(usize, usize)>) -> S,
    J: Fn(Vec<(S, usize)>) -> S,
> Reader<'a, N, V, R, K, J> {
    /// The functions take all values.
    pub open spec fn valid(&self) -> bool {
        &&& forall|width: u32, height: u32| #[trigger] call_requires(self.natural, (width, height))
        &&& forall|channel: usize, byte: u8| #[trigger] call_requires(self.value, (channel, byte))
        &&& forall|input: PreparedInput<Single>| #[trigger]
            call_requires(self.recognize, (input,))
        &&& forall|values: Vec<Single>, classes: usize, emitted: Vec<(usize, usize)>| #[trigger]
            call_requires(self.score, (values, classes, emitted))
        &&& forall|list: Vec<(S, usize)>| #[trigger] call_requires(self.mean, (list,))
    }

    /// Whether a score may be that of what was emitted.
    pub open spec fn scores(
        &self,
        values: Seq<Single>,
        classes: usize,
        emitted: Seq<(int, int)>,
        score: S,
    ) -> bool {
        exists|list: Vec<Single>, steps: Vec<(usize, usize)>|
            list@ == values && pairs(steps@) == emitted && #[trigger] call_ensures(
                self.score,
                (list, classes, steps),
                score,
            )
    }

    /// What may be decoded from an output that shows a picture of a width.
    pub open spec fn decodes(
        &self,
        output: Output,
        content: usize,
        result: Result<DecodedText<S>, ReadError<E>>,
    ) -> bool {
        let error = decode_error(
            output.values@,
            output.shape@,
            self.dictionary@.len() as int,
            content,
        );
        match (error, result) {
            (Some(wanted), Err(ReadError::Decode(found))) => found == wanted,
            (None, Ok(decoded)) => {
                let emitted = decoded_emissions(output.values@, output.shape@, content as int);
                &&& decoded.text@ == emitted_text(texts(self.dictionary@), emitted)
                &&& self.scores(output.values@, classes_of(output.shape@), emitted, decoded.score)
            },
            _ => false,
        }
    }

    /// Decodes an output that shows a picture of a width.
    pub fn decode(&self, output: &Output, content: usize) -> (result: Result<
        DecodedText<S>,
        ReadError<E>,
    >)
        requires
            self.valid(),
        ensures
            self.decodes(*output, content, result),
    {
        let dimensions: usize = output.shape.len();
        let classes: usize = if dimensions == 0 {
            0
        } else {
            output.shape[dimensions - 1]
        };
        let score = |steps: Vec<(usize, usize)>| -> (found: S)
            ensures
                exists|list: Vec<Single>|
                    list@ == output.values@ && #[trigger] call_ensures(
                        self.score,
                        (list, classes, steps),
                        found,
                    ),
            {
                let list: Vec<Single> = vstd::slice::slice_to_vec(output.values.as_slice());
                let ghost given = list;
                let found: S = (self.score)(list, classes, steps);
                assert(given@ =~= output.values@);
                found
            };
        let decoded: Result<DecodedText<S>, DecodeError> = decode_ctc_greedy(
            output.values.as_slice(),
            output.shape.as_slice(),
            self.dictionary.as_slice(),
            content,
            &score,
        );
        match decoded {
            Err(error) => Err(ReadError::Decode(error)),
            Ok(decoded) => {
                proof {
                    let emitted = decoded_emissions(
                        output.values@,
                        output.shape@,
                        content as int,
                    );
                    let steps = choose|steps: Vec<(usize, usize)>|
                        pairs(steps@) == emitted && call_ensures(score, (steps,), decoded.score);
                    let list = choose|list: Vec<Single>|
                        list@ == output.values@ && #[trigger] call_ensures(
                            self.score,
                            (list, classes, steps),
                            decoded.score,
                        );
                    assert(call_ensures(self.score, (list, classes, steps), decoded.score));
                    assert(self.scores(output.values@, classes, emitted, decoded.score));
                }
                Ok(decoded)
            },
        }
    }

    /// What may be read from a part of which the width that keeps its
    /// proportions is known.
    pub open spec fn reads_scaled(
        &self,
        chunk: Image,
        natural: u32,
        result: Result<DecodedText<S>, ReadError<E>>,
    ) -> bool {
        let content = scaled_width(natural, CANVAS_WIDTH);
        if !resizable(chunk.width, chunk.height, content, RECOGNIZER_HEIGHT) {
            result matches Err(ReadError::Unresizable)
        } else if chunk.width == 0 || chunk.height == 0 {
            result matches Err(ReadError::Prepare(PreprocessError::EmptyCrop))
        } else {
            exists|input: PreparedInput<Single>, outcome: Result<Output, E>|
                {
                    &&& is_recognizer_input(
                        chunk,
                        whole(chunk),
                        natural,
                        CANVAS_WIDTH,
                        self.zero,
                        self.value,
                        input,
                    )
                    &&& #[trigger] call_ensures(self.recognize, (input,), outcome)
                    &&& match outcome {
                        Err(error) => result matches Err(ReadError::Recognize(found)) && found
                            == error,
                        Ok(output) => self.decodes(output, content as usize, result),
                    }
                }
        }
    }

    /// What may be read from a part.
    pub open spec fn reads_chunk(
        &self,
        chunk: Image,
        result: Result<DecodedText<S>, ReadError<E>>,
    ) -> bool {
        exists|natural: u32| #[trigger]
            call_ensures(self.natural, (chunk.width, chunk.height), natural) && self.reads_scaled(
                chunk,
                natural,
                result,
            )
    }

    /// Reads a part.
    pub fn read_chunk(&self, chunk: &Image) -> (result: Result<DecodedText<S>, ReadError<E>>)
        requires
            self.valid(),
            chunk.wf(),
        ensures
            self.reads_chunk(*chunk, result),
    {
        let natural: u32 = (self.natural)(chunk.width, chunk.height);
        assert(call_ensures(self.natural, (chunk.width, chunk.height), natural));
        let content: u32 = if natural < CANVAS_WIDTH {
            natural
        } else {
            CANVAS_WIDTH
        };
        if !is_resizable(chunk.width, chunk.height, content, RECOGNIZER_HEIGHT) {
            return Err(ReadError::Unresizable);
        }
        let part: Crop = Crop { x: 0, y: 0, width: chunk.width, height: chunk.height };
        let input: PreparedInput<Single> = match prepare_recognizer(
            chunk,
            part,
            natural,
            CANVAS_WIDTH,
            self.zero,
            &self.value,
        ) {
            Err(error) => {
                assert(self.reads_scaled(*chunk, natural, Err(ReadError::Prepare(error))));
                return Err(ReadError::Prepare(error));
            },
            Ok(input) => input,
        };
        let ghost given = input;
        let outcome: Result<Output, E> = (self.recognize)(input);
        assert(call_ensures(self.recognize, (given,), outcome));
        let ghost seen = outcome;
        match outcome {
            Err(error) => {
                assert(self.reads_scaled(*chunk, natural, Err(ReadError::Recognize(error))));
                Err(ReadError::Recognize(error))
            },
            Ok(output) => {
                let result: Result<DecodedText<S>, ReadError<E>> = self.decode(
                    &output,
                    content as usize,
                );
                assert(self.reads_scaled(*chunk, natural, result));
                result
            },
        }
    }

    /// Whether a text is what the texts of parts are joined to.
    pub open spec fn joins(&self, parts: Seq<DecodedText<S>>, line: DecodedText<S>) -> bool {
        &&& line.text@ == joined_parts(parts, parts.len() as int)
        &&& exists|list: Vec<(S, usize)>|
            weighted(list@) == weights_of(parts, parts.len() as int) && #[trigger] call_ensures(
                self.mean,
                (list,),
                line.score,
            )
    }

    /// What may be read of the parts of a line: the texts of the first parts, and
    /// their joint text or why the next could not be read.
    pub open spec fn reads_parts(
        &self,
        chunks: Seq<Image>,
        parts: Seq<DecodedText<S>>,
        result: Result<DecodedText<S>, ReadError<E>>,
    ) -> bool {
        &&& parts.len() <= chunks.len()
        &&& forall|i: int|
            0 <= i < parts.len() ==> self.reads_chunk(chunks[i], Ok(#[trigger] parts[i]))
        &&& match result {
            Ok(line) => parts.len() == chunks.len() && self.joins(parts, line),
            Err(error) => parts.len() < chunks.len() && self.reads_chunk(
                chunks[parts.len() as int],
                Err(error),
            ),
        }
    }

    /// What may be read from the picture of a line.
    pub open spec fn reads_line(
        &self,
        crop: Image,
        result: Result<DecodedText<S>, ReadError<E>>,
    ) -> bool {
        match split_error(crop.width as int, crop.height as int) {
            Some(wanted) => result matches Err(ReadError::Split(error)) && error == wanted,
            None => exists|chunks: Seq<Image>, parts: Seq<DecodedText<S>>|
                are_chunks(crop, chunks) && #[trigger] self.reads_parts(chunks, parts, result),
        }
    }

    /// Reads the picture of a line.
    pub fn read_line(&self, crop: &Image) -> (result: Result<DecodedText<S>, ReadError<E>>)
        requires
            self.valid(),
            crop.wf(),
        ensures
            self.reads_line(*crop, result),
    {
        let chunks: Vec<Image> = match split_recognition_crop(crop) {
            Err(error) => {
                return Err(ReadError::Split(error));
            },
            Ok(chunks) => chunks,
        };
        assert(are_chunks(*crop, chunks@));
        let mut parts: Vec<DecodedText<S>> = Vec::new();
        for index in 0..chunks.len()
            invariant
                self.valid(),
                split_error(crop.width as int, crop.height as int) is None,
                are_chunks(*crop, chunks@),
                parts@.len() == index,
                forall|i: int|
                    0 <= i < index ==> self.reads_chunk(chunks@[i], Ok(#[trigger] parts@[i])),
        {
            match self.read_chunk(&chunks[index]) {
                Err(error) => {
                    assert(self.reads_parts(chunks@, parts@, Err(error)));
                    return Err(error);
                },
                Ok(part) => {
                    parts.push(part);
                },
            }
        }
        let line: DecodedText<S> = join_decoded_texts(parts.as_slice(), &self.mean);
        assert(self.joins(parts@, line));
        assert(self.reads_parts(chunks@, parts@, Ok(line)));
        Ok(line)
    }
}

} // verus!
