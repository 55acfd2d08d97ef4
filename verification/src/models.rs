//! The released models: their sizes, the blocks they are made of, and the
//! inputs they accept.
use vstd::prelude::*;
use crate::tensor::{Tensor, TensorError, TensorView};
use crate::text::{chars_of, same_text};

verus! {

/// The size of a released model.
#[derive(Clone, Copy, Debug, PartialEq, Eq, Structural)]
pub enum ModelSize {
    Medium,
    Small,
    Tiny,
}

impl ModelSize {
    /// The name of the size.
    pub open spec fn name(self) -> Seq<char> {
        match self {
            ModelSize::Medium => "medium"@,
            ModelSize::Small => "small"@,
            ModelSize::Tiny => "tiny"@,
        }
    }

    /// The name of the size.
    pub fn as_str(self) -> (result: &'static str)
        ensures
            result@ == self.name(),
    {
        match self {
            ModelSize::Medium => "medium",
            ModelSize::Small => "small",
            ModelSize::Tiny => "tiny",
        }
    }

    /// The number of classes of the recognizer.
    pub open spec fn classes(self) -> usize {
        match self {
            ModelSize::Medium => 18_710,
            ModelSize::Small => 18_710,
            ModelSize::Tiny => 6_906,
        }
    }

    /// The number of classes of the recognizer.
    pub fn recognizer_classes(self) -> (result: usize)
        ensures
            result == self.classes(),
    {
        match self {
            ModelSize::Medium => 18_710,
            ModelSize::Small => 18_710,
            ModelSize::Tiny => 6_906,
        }
    }

    /// The size of a name; `None` where it names none.
    pub fn parse(value: &str) -> (result: Option<ModelSize>)
        ensures
            match result {
                Some(size) => value@ == size.name(),
                None => value@ != "medium"@ && value@ != "small"@ && value@ != "tiny"@,
            },
    {
        let text: Vec<char> = chars_of(value);
        if same_text(text.as_slice(), chars_of("medium").as_slice()) {
            Some(ModelSize::Medium)
        } else if same_text(text.as_slice(), chars_of("small").as_slice()) {
            Some(ModelSize::Small)
        } else if same_text(text.as_slice(), chars_of("tiny").as_slice()) {
            Some(ModelSize::Tiny)
        } else {
            None
        }
    }
}

/// Reading the name of a size gives the size: the names are different.
pub proof fn lemma_names_differ(first: ModelSize, second: ModelSize)
    requires
        first.name() == second.name(),
    ensures
        first == second,
{
    reveal_strlit("medium");
    reveal_strlit("small");
    reveal_strlit("tiny");
    assert("medium"@.len() == 6 && "small"@.len() == 5 && "tiny"@.len() == 4);
}

/// How the processor is used.
#[derive(Clone, Copy, Debug, PartialEq, Eq, Structural)]
pub struct CpuOptions {
    pub threads: usize,
}

impl CpuOptions {
    /// The options for a machine that runs `available` threads at once, where
    /// that is known: at most four threads.
    pub fn for_machine(available: Option<usize>) -> (result: CpuOptions)
        ensures
            result.threads == match available {
                Some(count) => if count < 4 {
                    count as int
                } else {
                    4
                },
                None => 1,
            },
    {
        let count: usize = match available {
            Some(count) => count,
            None => 1,
        };
        CpuOptions {
            threads: if count < 4 {
                count
            } else {
                4
            },
        }
    }

    /// Whether there is a thread to run on.
    pub fn is_valid(self) -> (result: bool)
        ensures
            result == (self.threads > 0),
    {
        self.threads > 0
    }
}

/// One block of a backbone.
#[derive(Clone, Copy, Debug, PartialEq, Eq)]
pub struct BlockSpec {
    pub kernel: usize,
    pub in_channels: usize,
    pub out_channels: usize,
    pub stride: [usize; 2],
    pub use_se: bool,
}

impl BlockSpec {
    /// Whether the block adds its input to its output.
    pub open spec fn residual(self) -> bool {
        self.in_channels == self.out_channels && self.stride@[0] == 1 && self.stride@[1] == 1
    }

    /// The block of these dimensions.
    pub open spec fn is_block(
        self,
        in_channels: int,
        out_channels: int,
        vertical: int,
        horizontal: int,
        use_se: bool,
    ) -> bool {
        &&& self.kernel == 3
        &&& self.in_channels == in_channels
        &&& self.out_channels == out_channels
        &&& self.stride@[0] == vertical && self.stride@[1] == horizontal
        &&& self.use_se == use_se
    }

    /// Whether the block adds its input to its output.
    pub fn is_residual(&self) -> (result: bool)
        ensures
            result == self.residual(),
    {
        self.in_channels == self.out_channels && self.stride[0] == 1 && self.stride[1] == 1
    }

    /// The padding that keeps the size of the planes.
    pub fn padding(&self) -> (result: usize)
        ensures
            result == self.kernel / 2,
    {
        self.kernel / 2
    }
}

/// A block with a kernel of three.
pub fn rec_block(
    in_channels: usize,
    out_channels: usize,
    stride: [usize; 2],
    use_se: bool,
) -> (result: BlockSpec)
    ensures
        result.kernel == 3,
        result.in_channels == in_channels,
        result.out_channels == out_channels,
        result.stride == stride,
        result.use_se == use_se,
{
    BlockSpec { kernel: 3, in_channels, out_channels, stride, use_se }
}

/// Whether each block of a stage takes the channels that the block before gives,
/// the first those that come in and the last giving those that go out.
pub open spec fn chains(stage: Seq<BlockSpec>, incoming: int, outgoing: int) -> bool {
    &&& stage.len() > 0
    &&& stage[0].in_channels == incoming
    &&& stage.last().out_channels == outgoing
    &&& forall|i: int|
        0 < i < stage.len() ==> (#[trigger] stage[i]).in_channels == stage[i - 1].out_channels
}

/// A stage: a first block that may change channels and size, and blocks that
/// keep them; `gated` tells which of them scale their channels.
pub open spec fn is_stage(
    stage: Seq<BlockSpec>,
    incoming: int,
    outgoing: int,
    vertical: int,
    horizontal: int,
    gated: Seq<bool>,
) -> bool {
    &&& stage.len() == gated.len()
    &&& stage.len() > 0
    &&& stage[0].is_block(incoming, outgoing, vertical, horizontal, gated[0])
    &&& forall|i: int|
        1 <= i < stage.len() ==> (#[trigger] stage[i]).is_block(
            outgoing,
            outgoing,
            1,
            1,
            gated[i],
        )
}

/// The blocks of a stage.
fn make_stage(
    incoming: usize,
    outgoing: usize,
    stride: [usize; 2],
    gated: &[bool],
) -> (result: Vec<BlockSpec>)
    requires
        gated@.len() > 0,
    ensures
        is_stage(
            result@,
            incoming as int,
            outgoing as int,
            stride@[0] as int,
            stride@[1] as int,
            gated@,
        ),
{
    let mut stage: Vec<BlockSpec> = Vec::new();
    stage.push(rec_block(incoming, outgoing, stride, gated[0]));
    for index in 1..gated.len()
        invariant
            stage@.len() == index,
            stage@[0].is_block(
                incoming as int,
                outgoing as int,
                stride@[0] as int,
                stride@[1] as int,
                gated@[0],
            ),
            forall|i: int|
                1 <= i < index ==> (#[trigger] stage@[i]).is_block(
                    outgoing as int,
                    outgoing as int,
                    1,
                    1,
                    gated@[i],
                ),
    {
        stage.push(rec_block(outgoing, outgoing, [1, 1], gated[index]));
    }
    stage
}

/// The stages of a detector with these channels.
pub open spec fn is_detector_stages(stages: Seq<Vec<BlockSpec>>, channels: Seq<usize>) -> bool {
    &&& stages.len() == 4
    &&& is_stage(
        stages[0]@,
        channels[0] as int,
        channels[0] as int,
        1,
        1,
        seq![true, false],
    )
    &&& is_stage(
        stages[1]@,
        channels[0] as int,
        channels[1] as int,
        2,
        2,
        seq![false, true, false],
    )
    &&& is_stage(
        stages[2]@,
        channels[1] as int,
        channels[2] as int,
        2,
        2,
        seq![false, true, false, true, false],
    )
    &&& is_stage(
        stages[3]@,
        channels[2] as int,
        channels[3] as int,
        2,
        2,
        seq![false, true, false],
    )
}

/// The stages of a recognizer: the channels of each stage, and which blocks
/// scale their channels. The last two stages halve the height.
pub open spec fn is_recognizer_stages(
    stages: Seq<Vec<BlockSpec>>,
    channels: Seq<int>,
    second: Seq<bool>,
    third: Seq<bool>,
    fourth: Seq<bool>,
) -> bool {
    &&& stages.len() == 4
    &&& is_stage(stages[0]@, channels[0], channels[0], 1, 1, seq![true])
    &&& is_stage(stages[1]@, channels[0], channels[1], 1, 1, second)
    &&& is_stage(stages[2]@, channels[1], channels[2], 2, 1, third)
    &&& is_stage(stages[3]@, channels[2], channels[3], 2, 1, fourth)
}

/// The stages of a detector.
pub fn detector_stages_for_channels(channels: [usize; 4]) -> (result: Vec<Vec<BlockSpec>>)
    ensures
        is_detector_stages(result@, channels@),
{
    let short: [bool; 2] = [true, false];
    let middle: [bool; 3] = [false, true, false];
    let long: [bool; 5] = [false, true, false, true, false];
    assert(short@ =~= seq![true, false]);
    assert(middle@ =~= seq![false, true, false]);
    assert(long@ =~= seq![false, true, false, true, false]);
    let mut stages: Vec<Vec<BlockSpec>> = Vec::new();
    stages.push(
        make_stage(channels[0], channels[0], [1, 1], vstd::array::array_as_slice(&short)),
    );
    stages.push(
        make_stage(channels[0], channels[1], [2, 2], vstd::array::array_as_slice(&middle)),
    );
    stages.push(
        make_stage(channels[1], channels[2], [2, 2], vstd::array::array_as_slice(&long)),
    );
    stages.push(
        make_stage(channels[2], channels[3], [2, 2], vstd::array::array_as_slice(&middle)),
    );
    stages
}

/// The stages of the medium recognizer.
pub fn recognizer_stages() -> (result: Vec<Vec<BlockSpec>>)
    ensures
        is_recognizer_stages(
            result@,
            seq![128, 256, 512, 768],
            seq![false, false, true],
            seq![false, true, false, true, false, true, false],
            seq![false, true, false],
        ),
{
    let first: [bool; 1] = [true];
    let second: [bool; 3] = [false, false, true];
    let third: [bool; 7] = [false, true, false, true, false, true, false];
    let fourth: [bool; 3] = [false, true, false];
    assert(first@ =~= seq![true]);
    assert(second@ =~= seq![false, false, true]);
    assert(third@ =~= seq![false, true, false, true, false, true, false]);
    assert(fourth@ =~= seq![false, true, false]);
    let mut stages: Vec<Vec<BlockSpec>> = Vec::new();
    stages.push(make_stage(128, 128, [1, 1], vstd::array::array_as_slice(&first)));
    stages.push(make_stage(128, 256, [1, 1], vstd::array::array_as_slice(&second)));
    stages.push(make_stage(256, 512, [2, 1], vstd::array::array_as_slice(&third)));
    stages.push(make_stage(512, 768, [2, 1], vstd::array::array_as_slice(&fourth)));
    stages
}

/// The stages of the small recognizer.
pub fn small_recognizer_stages() -> (result: Vec<Vec<BlockSpec>>)
    ensures
        is_recognizer_stages(
            result@,
            seq![96, 96, 192, 384],
            seq![false, false],
            seq![false, true, false, true, false, true, false],
            seq![false, true, false],
        ),
{
    let first: [bool; 1] = [true];
    let second: [bool; 2] = [false, false];
    let third: [bool; 7] = [false, true, false, true, false, true, false];
    let fourth: [bool; 3] = [false, true, false];
    assert(first@ =~= seq![true]);
    assert(second@ =~= seq![false, false]);
    assert(third@ =~= seq![false, true, false, true, false, true, false]);
    assert(fourth@ =~= seq![false, true, false]);
    let mut stages: Vec<Vec<BlockSpec>> = Vec::new();
    stages.push(make_stage(96, 96, [1, 1], vstd::array::array_as_slice(&first)));
    stages.push(make_stage(96, 96, [1, 1], vstd::array::array_as_slice(&second)));
    stages.push(make_stage(96, 192, [2, 1], vstd::array::array_as_slice(&third)));
    stages.push(make_stage(192, 384, [2, 1], vstd::array::array_as_slice(&fourth)));
    stages
}

/// The stages of the tiny recognizer.
pub fn tiny_recognizer_stages() -> (result: Vec<Vec<BlockSpec>>)
    ensures
        is_recognizer_stages(
            result@,
            seq![48, 48, 96, 160],
            seq![false],
            seq![false, true, false],
            seq![false, true, false, false],
        ),
{
    let first: [bool; 1] = [true];
    let second: [bool; 1] = [false];
    let third: [bool; 3] = [false, true, false];
    let fourth: [bool; 4] = [false, true, false, false];
    assert(first@ =~= seq![true]);
    assert(second@ =~= seq![false]);
    assert(third@ =~= seq![false, true, false]);
    assert(fourth@ =~= seq![false, true, false, false]);
    let mut stages: Vec<Vec<BlockSpec>> = Vec::new();
    stages.push(make_stage(48, 48, [1, 1], vstd::array::array_as_slice(&first)));
    stages.push(make_stage(48, 48, [1, 1], vstd::array::array_as_slice(&second)));
    stages.push(make_stage(48, 96, [2, 1], vstd::array::array_as_slice(&third)));
    stages.push(make_stage(96, 160, [2, 1], vstd::array::array_as_slice(&fourth)));
    stages
}

/// The blocks of a stage pass their channels on, and every block but the first
/// adds its input to its output.
pub proof fn lemma_stage_chains(
    stage: Seq<BlockSpec>,
    incoming: int,
    outgoing: int,
    vertical: int,
    horizontal: int,
    gated: Seq<bool>,
)
    requires
        is_stage(stage, incoming, outgoing, vertical, horizontal, gated),
    ensures
        chains(stage, incoming, outgoing),
        forall|i: int| 1 <= i < stage.len() ==> (#[trigger] stage[i]).residual(),
{
    assert forall|i: int| 0 < i < stage.len() implies (#[trigger] stage[i]).in_channels == stage[i
        - 1].out_channels by {
        assert(stage[i].is_block(outgoing, outgoing, 1, 1, gated[i]));
        if i > 1 {
            assert(stage[i - 1].is_block(outgoing, outgoing, 1, 1, gated[i - 1]));
        }
    }
    if stage.len() > 1 {
        assert(stage[stage.len() - 1].is_block(
            outgoing,
            outgoing,
            1,
            1,
            gated[stage.len() - 1],
        ));
    }
    assert forall|i: int| 1 <= i < stage.len() implies (#[trigger] stage[i]).residual() by {
        assert(stage[i].is_block(outgoing, outgoing, 1, 1, gated[i]));
    }
}

/// The channels that a detector's stages pass on.
pub proof fn lemma_detector_chains(stages: Seq<Vec<BlockSpec>>, channels: Seq<usize>)
    requires
        is_detector_stages(stages, channels),
    ensures
        chains(stages[0]@, channels[0] as int, channels[0] as int),
        chains(stages[1]@, channels[0] as int, channels[1] as int),
        chains(stages[2]@, channels[1] as int, channels[2] as int),
        chains(stages[3]@, channels[2] as int, channels[3] as int),
{
    lemma_stage_chains(
        stages[0]@,
        channels[0] as int,
        channels[0] as int,
        1,
        1,
        seq![true, false],
    );
    lemma_stage_chains(
        stages[1]@,
        channels[0] as int,
        channels[1] as int,
        2,
        2,
        seq![false, true, false],
    );
    lemma_stage_chains(
        stages[2]@,
        channels[1] as int,
        channels[2] as int,
        2,
        2,
        seq![false, true, false, true, false],
    );
    lemma_stage_chains(
        stages[3]@,
        channels[2] as int,
        channels[3] as int,
        2,
        2,
        seq![false, true, false],
    );
}

/// Why an input is refused.
#[derive(Clone, Copy, Debug, PartialEq, Eq, Structural)]
pub enum ModelInputError {
    /// The input is no tensor of numbers with four dimensions.
    Tensor(TensorError),
    /// There is no batch.
    Batch,
    /// There are not three channels.
    Channels,
    /// A plane has no cells.
    Plane,
    /// The detector's input is not a multiple of 32 on each side.
    Multiple,
    /// The recognizer's input is not 48 high.
    Height,
    /// The recognizer's input is less than 5 wide.
    Width,
}

/// Why an input is refused; `None` where it is not.
pub open spec fn input_error<F>(input: TensorView<F>, detector: bool) -> Option<ModelInputError> {
    let shape = input.shape;
    if input.data is I64 {
        Some(ModelInputError::Tensor(TensorError::ExpectedF32))
    } else if shape.len() != 4 {
        Some(ModelInputError::Tensor(TensorError::Rank))
    } else if shape[0] == 0 {
        Some(ModelInputError::Batch)
    } else if shape[1] != 3 {
        Some(ModelInputError::Channels)
    } else if shape[2] == 0 || shape[3] == 0 {
        Some(ModelInputError::Plane)
    } else if detector {
        if shape[2] % 32 != 0 || shape[3] % 32 != 0 {
            Some(ModelInputError::Multiple)
        } else {
            None
        }
    } else if shape[2] != 48 {
        Some(ModelInputError::Height)
    } else if shape[3] < 5 {
        Some(ModelInputError::Width)
    } else {
        None
    }
}

/// Checks the input of a model.
pub fn validate_input<F: Copy>(input: &Tensor<F>, detector: bool) -> (result: Result<
    (),
    ModelInputError,
>)
    requires
        input@.wf(),
    ensures
        result == match input_error(input@, detector) {
            Some(error) => Err::<(), ModelInputError>(error),
            None => Ok(()),
        },
{
    match input.as_f32() {
        Err(error) => {
            return Err(ModelInputError::Tensor(error));
        },
        Ok(_) => {},
    }
    let (batch, channels, height, width): (usize, usize, usize, usize) = match input.dims4() {
        Err(error) => {
            return Err(ModelInputError::Tensor(error));
        },
        Ok(sizes) => sizes,
    };
    if batch == 0 {
        return Err(ModelInputError::Batch);
    }
    if channels != 3 {
        return Err(ModelInputError::Channels);
    }
    if height == 0 || width == 0 {
        return Err(ModelInputError::Plane);
    }
    if detector {
        if height % 32 != 0 || width % 32 != 0 {
            return Err(ModelInputError::Multiple);
        }
    } else {
        if height != 48 {
            return Err(ModelInputError::Height);
        }
        if width < 5 {
            return Err(ModelInputError::Width);
        }
    }
    Ok(())
}

} // verus!
