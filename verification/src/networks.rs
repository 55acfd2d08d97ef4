//! The detector and the recognizer networks.
use vstd::prelude::*;
use crate::functions::{sound, upsample, upsampled, Functions, Outcome, Seen};
use crate::joining::{concat, concat_result};
use crate::layout::{all_wf, views};
use crate::models::{input_error, validate_input, ModelInputError};
use crate::network::{after, modules_wf, Module};
use crate::pooling::{view_of, PoolOptions};
use crate::single::Single;
use crate::tensor::{Tensor, TensorError, TensorView};

verus! {

/// Tensors or why there are none.
pub type Outcomes = Result<Vec<Tensor<Single>>, TensorError>;

/// What outcomes hold.
pub type SeenList = Result<Seq<TensorView<Single>>, TensorError>;

/// What is seen of outcomes.
pub open spec fn list_of(outcomes: Outcomes) -> SeenList {
    match outcomes {
        Ok(tensors) => Ok(views(tensors@)),
        Err(error) => Err(error),
    }
}

/// All tensors of outcomes are well formed.
pub open spec fn list_sound(outcomes: Outcomes) -> bool {
    outcomes matches Ok(tensors) ==> all_wf(tensors@)
}

/// A stem and the stages behind it.
pub struct Backbone {
    pub stem: Module,
    pub stages: Vec<Module>,
}

/// What makes one tensor of the tensors of all stages.
pub enum Neck {
    /// Features are passed from the last stage to the first and back.
    Medium {
        adjust: Vec<Module>,
        project: Vec<Module>,
        pan_head: Vec<Module>,
        pan_lateral: Vec<Module>,
        refine: Vec<Module>,
    },
    /// Features are passed from the last stage to the first.
    Fpn { insert: Vec<Module>, input: Vec<Module> },
}

/// The network that tells where text is.
pub struct Detector {
    pub backbone: Backbone,
    pub neck: Neck,
    pub head: Module,
}

/// The network that reads a line of text.
pub struct Recognizer {
    pub backbone: Backbone,
    pub head: Module,
}

impl Backbone {
    /// All modules are well formed.
    pub open spec fn wf(self) -> bool {
        self.stem.wf() && modules_wf(self.stages@)
    }
}

impl Neck {
    /// All modules are well formed, and each list has one for each stage.
    pub open spec fn wf(self) -> bool {
        match self {
            Neck::Medium { adjust, project, pan_head, pan_lateral, refine } => {
                &&& modules_wf(adjust@) && modules_wf(project@) && modules_wf(pan_head@)
                &&& modules_wf(pan_lateral@) && modules_wf(refine@)
                &&& adjust@.len() == 4 && project@.len() == 4 && pan_head@.len() == 3
                &&& pan_lateral@.len() == 4 && refine@.len() == 4
            },
            Neck::Fpn { insert, input } => {
                &&& modules_wf(insert@) && modules_wf(input@)
                &&& insert@.len() == 4 && input@.len() == 4
            },
        }
    }
}

impl Detector {
    /// All modules are well formed, and there is a stage for each module of the
    /// neck.
    pub open spec fn wf(self) -> bool {
        self.backbone.wf() && self.neck.wf() && self.head.wf() && self.backbone.stages@.len() == 4
    }
}

impl Recognizer {
    /// All modules are well formed, and there are stages.
    pub open spec fn wf(self) -> bool {
        self.backbone.wf() && self.head.wf() && self.backbone.stages@.len() > 0
    }
}

/// The windows by which the recognizer pools the last stage.
pub open spec fn line_windows() -> PoolOptions {
    PoolOptions {
        kernel: [3, 2],
        strides: [3, 2],
        pads: [0, 0, 0, 0],
        ceil_mode: false,
        count_include_pad: false,
    }
}

/// The factor by which the tensor of a stage is enlarged.
pub open spec fn stage_scale(stage: int) -> usize {
    if stage == 0 {
        1
    } else if stage == 1 {
        2
    } else if stage == 2 {
        4
    } else {
        8
    }
}

/// The tensors of the stages, enlarged to the size of the first; the first
/// refusal if there is one.
pub open spec fn enlarged(list: Seq<TensorView<Single>>) -> SeenList
    decreases list.len(),
{
    if list.len() == 0 {
        Ok(Seq::empty())
    } else {
        match enlarged(list.drop_last()) {
            Err(error) => Err(error),
            Ok(before) => match upsampled(Ok(list.last()), stage_scale(list.len() - 1)) {
                Err(error) => Err(error),
                Ok(tensor) => Ok(before.push(tensor)),
            },
        }
    }
}

/// The tensors of the stages, enlarged to the size of the first and joined by
/// channel from the last to the first.
pub open spec fn stacked(list: Seq<TensorView<Single>>) -> Seen {
    match enlarged(list) {
        Err(error) => Err(error),
        Ok(tensors) => concat_result(tensors.reverse(), 1i64),
    }
}

fn scale_of(stage: usize) -> (result: usize)
    ensures
        result == stage_scale(stage as int),
{
    if stage == 0 {
        1
    } else if stage == 1 {
        2
    } else if stage == 2 {
        4
    } else {
        8
    }
}

proof fn lemma_enlarged_error(list: Seq<TensorView<Single>>, count: int, error: TensorError)
    requires
        0 <= count <= list.len(),
        enlarged(list.take(count)) == Err::<Seq<TensorView<Single>>, TensorError>(error),
    ensures
        enlarged(list) == Err::<Seq<TensorView<Single>>, TensorError>(error),
    decreases list.len() - count,
{
    if count < list.len() {
        assert(list.take(count + 1).drop_last() =~= list.take(count));
        lemma_enlarged_error(list, count + 1, error);
    } else {
        assert(list.take(count) =~= list);
    }
}

/// Enlarges the tensors of the stages to the size of the first and joins them.
pub fn stack(list: &Vec<Tensor<Single>>) -> (result: Outcome)
    requires
        all_wf(list@),
    ensures
        view_of(result) == stacked(views(list@)),
        sound(view_of(result)),
{
    let ghost all = views(list@);
    let mut tensors: Vec<Tensor<Single>> = Vec::new();
    assert(all.take(0) =~= Seq::empty());
    assert(views(tensors@) =~= Seq::empty());
    for index in 0..list.len()
        invariant
            all_wf(list@),
            all == views(list@),
            all_wf(tensors@),
            enlarged(all.take(index as int)) == Ok::<Seq<TensorView<Single>>, TensorError>(
                views(tensors@),
            ),
    {
        proof {
            assert(all.take(index + 1).drop_last() =~= all.take(index as int));
            assert(all.take(index + 1).last() == list@[index as int]@);
        }
        match upsample(&list[index], scale_of(index)) {
            Err(error) => {
                proof {
                    lemma_enlarged_error(all, index + 1, error);
                }
                return Err(error);
            },
            Ok(tensor) => {
                let ghost before = tensors@;
                tensors.push(tensor);
                assert(views(tensors@) =~= views(before).push(tensor@));
            },
        }
    }
    assert(all.take(list@.len() as int) =~= all);
    let mut reversed: Vec<Tensor<Single>> = Vec::new();
    let count: usize = tensors.len();
    let ghost given = tensors@;
    for index in 0..count
        invariant
            given.len() == count,
            tensors@ == given.take(count - index),
            reversed@ == given.skip(count - index).reverse(),
    {
        let tensor: Option<Tensor<Single>> = tensors.pop();
        if let Some(tensor) = tensor {
            reversed.push(tensor);
        }
        assert(tensors@ =~= given.take(count - (index + 1)));
        assert(reversed@ =~= given.skip(count - (index + 1)).reverse());
    }
    assert(given.skip(0) =~= given);
    assert(views(reversed@) =~= views(given).reverse());
    concat(reversed.as_slice(), 1)
}

/// The outcomes of the stages, enlarged and joined.
pub open spec fn stacked_step(input: SeenList) -> Seen {
    match input {
        Err(error) => Err(error),
        Ok(list) => stacked(list),
    }
}

fn stack_step(input: &Outcomes) -> (result: Outcome)
    requires
        list_sound(*input),
    ensures
        view_of(result) == stacked_step(list_of(*input)),
        sound(view_of(result)),
{
    match input {
        Err(error) => Err(*error),
        Ok(list) => stack(list),
    }
}

/// Where a stage of a backbone starts from: what the stem gave, or the stage
/// before.
pub open spec fn entry_of(
    start: TensorView<Single>,
    list: Seq<TensorView<Single>>,
    stage: int,
) -> TensorView<Single> {
    if stage <= 0 {
        start
    } else {
        list[stage - 1]
    }
}

impl<
    M: Fn(Single, Single, Single) -> Single,
    U: Fn(Single) -> Single,
    B: Fn(Single, Single) -> Single,
    R: Fn(Vec<Single>) -> Vec<Single>,
    N: Fn(Vec<Single>, Vec<Single>, Vec<Single>, Single) -> Vec<Single>,
    D: Fn(Vec<Single>) -> Single,
    P: Fn(Vec<Single>, usize) -> Single,
    H: Fn(usize) -> Single,
> Functions<M, U, B, R, N, D, P, H> {
    /// The first stages of a backbone may give these tensors, one from the other.
    pub open spec fn stages_give(
        &self,
        stages: Seq<Module>,
        start: TensorView<Single>,
        list: Seq<TensorView<Single>>,
    ) -> bool {
        &&& list.len() <= stages.len()
        &&& forall|stage: int|
            0 <= stage < list.len() ==> self.gives(
                stages[stage],
                entry_of(start, list, stage),
                Ok(#[trigger] list[stage]),
            )
    }

    /// What a backbone may give for an image: the tensors of all stages.
    pub open spec fn features_of(
        &self,
        backbone: Backbone,
        input: TensorView<Single>,
        output: SeenList,
    ) -> bool {
        ||| output matches Err(error) && self.gives(backbone.stem, input, Err(error))
        ||| exists|start: TensorView<Single>, list: Seq<TensorView<Single>>|
            {
                &&& self.gives(backbone.stem, input, Ok(start))
                &&& #[trigger] self.stages_give(backbone.stages@, start, list)
                &&& match output {
                    Ok(tensors) => tensors == list && list.len() == backbone.stages@.len(),
                    Err(error) => list.len() < backbone.stages@.len() && self.gives(
                        backbone.stages@[list.len() as int],
                        entry_of(start, list, list.len() as int),
                        Err(error),
                    ),
                }
            }
    }

    /// Runs a backbone.
    pub fn features(&self, backbone: &Backbone, input: &Tensor<Single>) -> (result: Outcomes)
        requires
            self.valid(),
            backbone.wf(),
            input@.wf(),
        ensures
            self.features_of(*backbone, input@, list_of(result)),
            list_sound(result),
    {
        let start: Tensor<Single> = match self.forward(&backbone.stem, input) {
            Err(error) => {
                return Err(error);
            },
            Ok(tensor) => tensor,
        };
        let mut outputs: Vec<Tensor<Single>> = Vec::new();
        let count: usize = backbone.stages.len();
        for index in 0..count
            invariant
                self.valid(),
                backbone.wf(),
                count == backbone.stages@.len(),
                self.gives(backbone.stem, input@, Ok(start@)),
                start@.wf(),
                all_wf(outputs@),
                outputs@.len() == index,
                self.stages_give(backbone.stages@, start@, views(outputs@)),
        {
            let ghost before = views(outputs@);
            let outcome: Outcome = if index == 0 {
                self.forward(&backbone.stages[index], &start)
            } else {
                self.forward(&backbone.stages[index], &outputs[index - 1])
            };
            match outcome {
                Err(error) => {
                    assert(self.stages_give(backbone.stages@, start@, before));
                    return Err(error);
                },
                Ok(tensor) => {
                    outputs.push(tensor);
                    assert(views(outputs@) =~= before.push(tensor@));
                    assert forall|stage: int| 0 <= stage < views(outputs@).len() implies self.gives(
                        backbone.stages@[stage],
                        entry_of(start@, views(outputs@), stage),
                        Ok(#[trigger] views(outputs@)[stage]),
                    ) by {
                        if stage < index {
                            assert(views(outputs@)[stage] == before[stage]);
                        }
                        assert(entry_of(start@, views(outputs@), stage) == entry_of(
                            start@,
                            before,
                            stage,
                        ));
                    }
                },
            }
        }
        Ok(outputs)
    }

    /// Whether a module may give a tensor.
    pub open spec fn can_give(&self, module: Module, input: TensorView<Single>) -> bool {
        exists|tensor: TensorView<Single>| #[trigger] self.gives(module, input, Ok(tensor))
    }

    /// What modules may give, each for the tensor at its place.
    pub open spec fn each_gives(
        &self,
        modules: Seq<Module>,
        inputs: Seq<TensorView<Single>>,
        output: SeenList,
    ) -> bool {
        match output {
            Ok(list) => {
                &&& list.len() == modules.len()
                &&& forall|i: int|
                    0 <= i < list.len() ==> self.gives(
                        modules[i],
                        inputs[i],
                        Ok(#[trigger] list[i]),
                    )
            },
            Err(error) => exists|i: int|
                {
                    &&& 0 <= i < modules.len()
                    &&& #[trigger] self.gives(modules[i], inputs[i], Err(error))
                    &&& forall|j: int|
                        0 <= j < i ==> #[trigger] self.can_give(modules[j], inputs[j])
                },
        }
    }

    /// Runs modules, each on the tensor at its place.
    fn run_each(&self, modules: &Vec<Module>, inputs: &Vec<Tensor<Single>>) -> (result: Outcomes)
        requires
            self.valid(),
            modules_wf(modules@),
            all_wf(inputs@),
            inputs@.len() == modules@.len(),
        ensures
            self.each_gives(modules@, views(inputs@), list_of(result)),
            list_sound(result),
            result matches Ok(list) ==> list@.len() == modules@.len(),
    {
        let mut outputs: Vec<Tensor<Single>> = Vec::new();
        for index in 0..modules.len()
            invariant
                self.valid(),
                modules_wf(modules@),
                all_wf(inputs@),
                inputs@.len() == modules@.len(),
                all_wf(outputs@),
                outputs@.len() == index,
                forall|i: int|
                    0 <= i < index ==> self.gives(
                        modules@[i],
                        views(inputs@)[i],
                        Ok((#[trigger] outputs@[i])@),
                    ),
        {
            match self.forward(&modules[index], &inputs[index]) {
                Err(error) => {
                    proof {
                        assert(self.gives(
                            modules@[index as int],
                            views(inputs@)[index as int],
                            Err(error),
                        ));
                        assert forall|j: int| 0 <= j < index implies #[trigger] self.can_give(
                            modules@[j],
                            views(inputs@)[j],
                        ) by {
                            assert(self.gives(
                                modules@[j],
                                views(inputs@)[j],
                                Ok(outputs@[j]@),
                            ));
                        }
                    }
                    return Err(error);
                },
                Ok(tensor) => {
                    outputs.push(tensor);
                },
            }
        }
        proof {
            assert forall|i: int| 0 <= i < views(outputs@).len() implies self.gives(
                modules@[i],
                views(inputs@)[i],
                Ok(#[trigger] views(outputs@)[i]),
            ) by {
                assert(views(outputs@)[i] == outputs@[i]@);
            }
        }
        Ok(outputs)
    }

    /// The tensor at a place may be the sum of the one in `inputs` and the next,
    /// enlarged.
    pub open spec fn descends_at(
        &self,
        inputs: Seq<TensorView<Single>>,
        list: Seq<TensorView<Single>>,
        place: int,
    ) -> bool {
        if place == list.len() - 1 {
            list[place] == inputs[place]
        } else {
            self.merges(
                self.addition,
                Ok(inputs[place]),
                upsampled(Ok(list[place + 1]), 2),
                Ok(list[place]),
            )
        }
    }

    /// From a place on, each tensor may be the sum of the one in `inputs` and
    /// the next, enlarged.
    pub open spec fn descends(
        &self,
        inputs: Seq<TensorView<Single>>,
        list: Seq<TensorView<Single>>,
        from: int,
    ) -> bool {
        &&& list.len() == inputs.len()
        &&& forall|i: int|
            from <= i < list.len() ==> #[trigger] self.descends_at(inputs, list, i)
    }

    /// What passing features from the last to the first may give.
    pub open spec fn top_down_gives(
        &self,
        inputs: Seq<TensorView<Single>>,
        output: SeenList,
    ) -> bool {
        match output {
            Ok(list) => self.descends(inputs, list, 0),
            Err(error) => exists|list: Seq<TensorView<Single>>, place: int|
                {
                    &&& 0 < place < inputs.len()
                    &&& #[trigger] self.descends(inputs, list, place)
                    &&& self.merges(
                        self.addition,
                        Ok(inputs[place - 1]),
                        upsampled(Ok(list[place]), 2),
                        Err(error),
                    )
                },
        }
    }

    /// Passes features from the last to the first.
    fn top_down(&self, inputs: Vec<Tensor<Single>>) -> (result: Outcomes)
        requires
            self.valid(),
            all_wf(inputs@),
        ensures
            self.top_down_gives(views(inputs@), list_of(result)),
            list_sound(result),
            result matches Ok(list) ==> list@.len() == inputs@.len(),
    {
        let ghost given = views(inputs@);
        let mut list: Vec<Tensor<Single>> = inputs;
        let mut rest: usize = if list.len() == 0 {
            0
        } else {
            list.len() - 1
        };
        while rest > 0
            invariant
                self.valid(),
                given == views(inputs@),
                all_wf(list@),
                list@.len() == given.len(),
                list@.len() == 0 ==> rest == 0,
                list@.len() > 0 ==> rest < list@.len(),
                forall|j: int| 0 <= j < rest ==> (#[trigger] list@[j])@ == given[j],
                self.descends(given, views(list@), rest as int),
            decreases rest,
        {
            let index: usize = rest - 1;
            let upper: Outcome = upsample(&list[rest], 2);
            let ghost before = views(list@);
            let outcome: Outcome = self.merge(&self.addition, Ok(list[index].duplicate()), upper);
            match outcome {
                Err(error) => {
                    assert(self.descends(given, before, rest as int));
                    return Err(error);
                },
                Ok(tensor) => {
                    list.set(index, tensor);
                    assert(views(list@) =~= before.update(index as int, tensor@));
                },
            }
            rest = index;
            proof {
                let now = views(list@);
                assert forall|i: int| rest <= i < now.len() implies #[trigger] self.descends_at(
                    given,
                    now,
                    i,
                ) by {
                    if i > rest {
                        assert(self.descends_at(given, before, i));
                    }
                }
            }
        }
        Ok(list)
    }

    /// What one step of passing features on may give: the tensor at a place
    /// plus what a module gives for the tensor before.
    pub open spec fn climbs(
        &self,
        head: Module,
        input: TensorView<Single>,
        lower: TensorView<Single>,
        output: Seen,
    ) -> bool {
        exists|lead: Seen|
            self.gives(head, lower, lead) && #[trigger] self.merges(
                self.addition,
                Ok(input),
                lead,
                output,
            )
    }

    /// Each tensor may be the sum of the one in `inputs` and what a module gives
    /// for the one before.
    pub open spec fn ascends(
        &self,
        heads: Seq<Module>,
        inputs: Seq<TensorView<Single>>,
        list: Seq<TensorView<Single>>,
    ) -> bool {
        &&& list.len() <= inputs.len()
        &&& forall|i: int|
            0 <= i < list.len() ==> if i == 0 {
                #[trigger] list[i] == inputs[i]
            } else {
                self.climbs(heads[i - 1], inputs[i], list[i - 1], Ok(list[i]))
            }
    }

    /// What passing features from the first to the last may give.
    pub open spec fn bottom_up_gives(
        &self,
        heads: Seq<Module>,
        inputs: Seq<TensorView<Single>>,
        output: SeenList,
    ) -> bool {
        exists|list: Seq<TensorView<Single>>| #[trigger]
            self.ascends(heads, inputs, list) && match output {
                Ok(tensors) => tensors == list && list.len() == inputs.len(),
                Err(error) => 0 < list.len() < inputs.len() && self.climbs(
                    heads[list.len() - 1],
                    inputs[list.len() as int],
                    list.last(),
                    Err(error),
                ),
            }
    }

    /// Passes features from the first to the last.
    fn bottom_up(&self, heads: &Vec<Module>, inputs: Vec<Tensor<Single>>) -> (result: Outcomes)
        requires
            self.valid(),
            modules_wf(heads@),
            all_wf(inputs@),
            inputs@.len() <= heads@.len() + 1,
        ensures
            self.bottom_up_gives(heads@, views(inputs@), list_of(result)),
            list_sound(result),
            result matches Ok(list) ==> list@.len() == inputs@.len(),
    {
        let ghost given = views(inputs@);
        let mut list: Vec<Tensor<Single>> = Vec::new();
        for index in 0..inputs.len()
            invariant
                self.valid(),
                modules_wf(heads@),
                all_wf(inputs@),
                all_wf(list@),
                given == views(inputs@),
                inputs@.len() <= heads@.len() + 1,
                list@.len() == index,
                self.ascends(heads@, given, views(list@)),
        {
            let ghost before = views(list@);
            let outcome: Outcome = if index == 0 {
                Ok(inputs[index].duplicate())
            } else {
                let lead: Outcome = self.forward(&heads[index - 1], &list[index - 1]);
                self.merge(&self.addition, Ok(inputs[index].duplicate()), lead)
            };
            proof {
                if index > 0 {
                    assert(self.climbs(
                        heads@[index - 1],
                        given[index as int],
                        before[index - 1],
                        view_of(outcome),
                    ));
                }
            }
            match outcome {
                Err(error) => {
                    assert(self.ascends(heads@, given, before));
                    return Err(error);
                },
                Ok(tensor) => {
                    list.push(tensor);
                    assert(views(list@) =~= before.push(tensor@));
                    assert(self.ascends(heads@, given, views(list@)));
                },
            }
        }
        Ok(list)
    }

    /// What modules may give for outcomes.
    pub open spec fn each_step_gives(
        &self,
        modules: Seq<Module>,
        input: SeenList,
        output: SeenList,
    ) -> bool {
        match input {
            Err(error) => output == Err::<Seq<TensorView<Single>>, TensorError>(error),
            Ok(list) => self.each_gives(modules, list, output),
        }
    }

    fn each_step(&self, modules: &Vec<Module>, input: &Outcomes) -> (result: Outcomes)
        requires
            self.valid(),
            modules_wf(modules@),
            list_sound(*input),
            input matches Ok(list) ==> list@.len() == modules@.len(),
        ensures
            self.each_step_gives(modules@, list_of(*input), list_of(result)),
            list_sound(result),
            result matches Ok(list) ==> list@.len() == modules@.len(),
    {
        match input {
            Err(error) => Err(*error),
            Ok(list) => self.run_each(modules, list),
        }
    }

    /// What passing features from the last to the first may give for outcomes.
    pub open spec fn top_down_step_gives(&self, input: SeenList, output: SeenList) -> bool {
        match input {
            Err(error) => output == Err::<Seq<TensorView<Single>>, TensorError>(error),
            Ok(list) => self.top_down_gives(list, output),
        }
    }

    fn top_down_step(&self, input: Outcomes) -> (result: Outcomes)
        requires
            self.valid(),
            list_sound(input),
        ensures
            self.top_down_step_gives(list_of(input), list_of(result)),
            list_sound(result),
            result matches Ok(list) ==> (input matches Ok(inputs) && list@.len() == inputs@.len()),
    {
        match input {
            Err(error) => Err(error),
            Ok(list) => self.top_down(list),
        }
    }

    /// What passing features from the first to the last may give for outcomes.
    pub open spec fn bottom_up_step_gives(
        &self,
        heads: Seq<Module>,
        input: SeenList,
        output: SeenList,
    ) -> bool {
        match input {
            Err(error) => output == Err::<Seq<TensorView<Single>>, TensorError>(error),
            Ok(list) => self.bottom_up_gives(heads, list, output),
        }
    }

    fn bottom_up_step(&self, heads: &Vec<Module>, input: Outcomes) -> (result: Outcomes)
        requires
            self.valid(),
            modules_wf(heads@),
            list_sound(input),
            input matches Ok(list) ==> list@.len() <= heads@.len() + 1,
        ensures
            self.bottom_up_step_gives(heads@, list_of(input), list_of(result)),
            list_sound(result),
            result matches Ok(list) ==> (input matches Ok(inputs) && list@.len() == inputs@.len()),
    {
        match input {
            Err(error) => Err(error),
            Ok(list) => self.bottom_up(heads, list),
        }
    }

    /// What a neck may give for the tensors of the stages.
    pub open spec fn neck_gives(
        &self,
        neck: Neck,
        stages: Seq<TensorView<Single>>,
        output: Seen,
    ) -> bool {
        match neck {
            Neck::Medium { adjust, project, pan_head, pan_lateral, refine } => exists|
                adjusted: SeenList,
                top: SeenList,
                projected: SeenList,
                bottom: SeenList,
                lateral: SeenList,
                refined: SeenList,
            |
                {
                    &&& self.each_gives(adjust@, stages, adjusted)
                    &&& #[trigger] self.top_down_step_gives(adjusted, top)
                    &&& #[trigger] self.each_step_gives(project@, top, projected)
                    &&& #[trigger] self.bottom_up_step_gives(pan_head@, projected, bottom)
                    &&& #[trigger] self.each_step_gives(pan_lateral@, bottom, lateral)
                    &&& #[trigger] self.each_step_gives(refine@, lateral, refined)
                    &&& output == stacked_step(refined)
                },
            Neck::Fpn { insert, input } => exists|
                inserted: SeenList,
                fused: SeenList,
                features: SeenList,
            |
                {
                    &&& self.each_gives(insert@, stages, inserted)
                    &&& #[trigger] self.top_down_step_gives(inserted, fused)
                    &&& #[trigger] self.each_step_gives(input@, fused, features)
                    &&& output == stacked_step(features)
                },
        }
    }

    /// Runs a neck.
    pub fn run_neck(&self, neck: &Neck, stages: &Vec<Tensor<Single>>) -> (result: Outcome)
        requires
            self.valid(),
            neck.wf(),
            all_wf(stages@),
            stages@.len() == 4,
        ensures
            self.neck_gives(*neck, views(stages@), view_of(result)),
            sound(view_of(result)),
    {
        match neck {
            Neck::Medium { adjust, project, pan_head, pan_lateral, refine } => {
                let adjusted: Outcomes = self.run_each(adjust, stages);
                let ghost adjusted_seen = list_of(adjusted);
                let top: Outcomes = self.top_down_step(adjusted);
                let projected: Outcomes = self.each_step(project, &top);
                let ghost projected_seen = list_of(projected);
                let bottom: Outcomes = self.bottom_up_step(pan_head, projected);
                let lateral: Outcomes = self.each_step(pan_lateral, &bottom);
                let refined: Outcomes = self.each_step(refine, &lateral);
                assert(self.top_down_step_gives(adjusted_seen, list_of(top)));
                assert(self.bottom_up_step_gives(pan_head@, projected_seen, list_of(bottom)));
                stack_step(&refined)
            },
            Neck::Fpn { insert, input } => {
                let inserted: Outcomes = self.run_each(insert, stages);
                let ghost inserted_seen = list_of(inserted);
                let fused: Outcomes = self.top_down_step(inserted);
                let features: Outcomes = self.each_step(input, &fused);
                assert(self.top_down_step_gives(inserted_seen, list_of(fused)));
                stack_step(&features)
            },
        }
    }

    /// What the detector may give for an input that is not refused at once.
    pub open spec fn detector_gives(
        &self,
        detector: Detector,
        input: TensorView<Single>,
        output: Seen,
    ) -> bool {
        exists|features: SeenList, joined: Seen|
            {
                &&& #[trigger] self.features_of(detector.backbone, input, features)
                &&& match features {
                    Err(error) => joined == Err::<TensorView<Single>, TensorError>(error),
                    Ok(list) => self.neck_gives(detector.neck, list, joined),
                }
                &&& output == #[trigger] after(joined, output)
                &&& joined matches Ok(tensor) ==> self.gives(detector.head, tensor, output)
            }
    }

    /// What the recognizer may give for an input that is not refused at once.
    pub open spec fn recognizer_gives(
        &self,
        recognizer: Recognizer,
        input: TensorView<Single>,
        output: Seen,
    ) -> bool {
        exists|features: SeenList, pooled: Seen|
            {
                &&& #[trigger] self.features_of(recognizer.backbone, input, features)
                &&& self.pools(
                    line_windows(),
                    true,
                    match features {
                        Err(error) => Err(error),
                        Ok(list) => Ok(list.last()),
                    },
                    pooled,
                )
                &&& output == #[trigger] after(pooled, output)
                &&& pooled matches Ok(tensor) ==> self.gives(recognizer.head, tensor, output)
            }
    }
}

impl Detector {
    /// Runs the detector: a map that tells for each point how likely it shows text.
    pub fn run<
        M: Fn(Single, Single, Single) -> Single,
        U: Fn(Single) -> Single,
        B: Fn(Single, Single) -> Single,
        R: Fn(Vec<Single>) -> Vec<Single>,
        N: Fn(Vec<Single>, Vec<Single>, Vec<Single>, Single) -> Vec<Single>,
        D: Fn(Vec<Single>) -> Single,
        P: Fn(Vec<Single>, usize) -> Single,
        H: Fn(usize) -> Single,
    >(
        &self,
        functions: &Functions<M, U, B, R, N, D, P, H>,
        input: &Tensor<Single>,
    ) -> (result: Result<Tensor<Single>, ModelInputError>)
        requires
            functions.valid(),
            self.wf(),
            input@.wf(),
        ensures
            match input_error(input@, true) {
                Some(error) => result is Err && result->Err_0 == error,
                None => match result {
                    Ok(tensor) => functions.detector_gives(*self, input@, Ok(tensor@)),
                    Err(ModelInputError::Tensor(error)) => functions.detector_gives(
                        *self,
                        input@,
                        Err(error),
                    ),
                    _ => false,
                },
            },
            result matches Ok(tensor) ==> tensor@.wf(),
    {
        match validate_input(input, true) {
            Err(error) => {
                return Err(error);
            },
            Ok(_) => {},
        }
        let features: Outcomes = functions.features(&self.backbone, input);
        let joined: Outcome = match &features {
            Err(error) => Err(*error),
            Ok(list) => functions.run_neck(&self.neck, list),
        };
        let output: Outcome = match &joined {
            Err(error) => Err(*error),
            Ok(tensor) => functions.forward(&self.head, tensor),
        };
        proof {
            assert(functions.features_of(self.backbone, input@, list_of(features)));
            assert(view_of(output) == after(view_of(joined), view_of(output)));
            assert(functions.detector_gives(*self, input@, view_of(output)));
        }
        match output {
            Ok(tensor) => Ok(tensor),
            Err(error) => Err(ModelInputError::Tensor(error)),
        }
    }
}

impl Recognizer {
    /// Runs the recognizer: for each column the likelihood of each character.
    pub fn run<
        M: Fn(Single, Single, Single) -> Single,
        U: Fn(Single) -> Single,
        B: Fn(Single, Single) -> Single,
        R: Fn(Vec<Single>) -> Vec<Single>,
        N: Fn(Vec<Single>, Vec<Single>, Vec<Single>, Single) -> Vec<Single>,
        D: Fn(Vec<Single>) -> Single,
        P: Fn(Vec<Single>, usize) -> Single,
        H: Fn(usize) -> Single,
    >(
        &self,
        functions: &Functions<M, U, B, R, N, D, P, H>,
        input: &Tensor<Single>,
    ) -> (result: Result<Tensor<Single>, ModelInputError>)
        requires
            functions.valid(),
            self.wf(),
            input@.wf(),
        ensures
            match input_error(input@, false) {
                Some(error) => result is Err && result->Err_0 == error,
                None => match result {
                    Ok(tensor) => functions.recognizer_gives(*self, input@, Ok(tensor@)),
                    Err(ModelInputError::Tensor(error)) => functions.recognizer_gives(
                        *self,
                        input@,
                        Err(error),
                    ),
                    _ => false,
                },
            },
            result matches Ok(tensor) ==> tensor@.wf(),
    {
        match validate_input(input, false) {
            Err(error) => {
                return Err(error);
            },
            Ok(_) => {},
        }
        let features: Outcomes = functions.features(&self.backbone, input);
        let ghost features_seen = list_of(features);
        let last: Outcome = match features {
            Err(error) => Err(error),
            Ok(list) => {
                let mut tensors: Vec<Tensor<Single>> = list;
                assert(tensors@.len() == self.backbone.stages@.len());
                match tensors.pop() {
                    Some(tensor) => Ok(tensor),
                    None => Err(TensorError::InputCount),
                }
            },
        };
        let options: PoolOptions = PoolOptions {
            kernel: [3, 2],
            strides: [3, 2],
            pads: [0, 0, 0, 0],
            ceil_mode: false,
            count_include_pad: false,
        };
        let ghost last_seen = view_of(last);
        let pooled: Outcome = functions.pool_planes(&options, true, last);
        let output: Outcome = match &pooled {
            Err(error) => Err(*error),
            Ok(tensor) => functions.forward(&self.head, tensor),
        };
        proof {
            assert(functions.features_of(self.backbone, input@, features_seen));
            assert(last_seen == match features_seen {
                Err(error) => Err(error),
                Ok(list) => Ok(list.last()),
            });
            assert(functions.pools(line_windows(), true, last_seen, view_of(pooled)));
            assert(view_of(output) == after(view_of(pooled), view_of(output)));
            assert(functions.recognizer_gives(*self, input@, view_of(output)));
        }
        match output {
            Ok(tensor) => Ok(tensor),
            Err(error) => Err(ModelInputError::Tensor(error)),
        }
    }
}

} // verus!
