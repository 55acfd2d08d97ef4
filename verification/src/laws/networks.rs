//! What the neck of the detector is for.
use vstd::prelude::*;
use crate::functions::{upsampled, Functions, Seen};
use crate::joining::concat_result;
use crate::network::Module;
use crate::networks::{enlarged, Neck};
use crate::single::Single;
use crate::tensor::{TensorError, TensorView};

verus! {

/// Whether `result` joins four tensors by channel: the last of them first, and each of
/// them enlarged, the second twice, the third four times and the last eight times.
pub open spec fn joins_stages(list: Seq<TensorView<Single>>, result: Seen) -> bool {
    let second = upsampled(Ok(list[1]), 2);
    let third = upsampled(Ok(list[2]), 4);
    let fourth = upsampled(Ok(list[3]), 8);
    &&& second is Ok && third is Ok && fourth is Ok
    &&& result == concat_result(
        seq![fourth->Ok_0, third->Ok_0, second->Ok_0, list[0]],
        1i64,
    )
}

/// Four tensors that were enlarged.
proof fn lemma_enlarged(list: Seq<TensorView<Single>>) -> (tensors: Seq<TensorView<Single>>)
    requires
        list.len() == 4,
        enlarged(list) is Ok,
    ensures
        enlarged(list) == Ok::<Seq<TensorView<Single>>, TensorError>(tensors),
        tensors.len() == 4,
        tensors[0] == list[0],
        upsampled(Ok(list[1]), 2) == Ok::<TensorView<Single>, TensorError>(tensors[1]),
        upsampled(Ok(list[2]), 4) == Ok::<TensorView<Single>, TensorError>(tensors[2]),
        upsampled(Ok(list[3]), 8) == Ok::<TensorView<Single>, TensorError>(tensors[3]),
{
    let three = list.drop_last();
    let two = three.drop_last();
    let one = two.drop_last();
    let none = one.drop_last();
    assert(none.len() == 0);
    assert(enlarged(none) == Ok::<Seq<TensorView<Single>>, TensorError>(Seq::empty()));
    assert(one.last() == list[0] && two.last() == list[1] && three.last() == list[2]);
    assert(enlarged(three) is Ok);
    assert(enlarged(two) is Ok);
    assert(enlarged(one) is Ok);
    enlarged(list)->Ok_0
}

/// Whether each module may give the tensor at its place for the one in `before`.
pub open spec fn steps<
    M: Fn(Single, Single, Single) -> Single,
    U: Fn(Single) -> Single,
    B: Fn(Single, Single) -> Single,
    R: Fn(Vec<Single>) -> Vec<Single>,
    N: Fn(Vec<Single>, Vec<Single>, Vec<Single>, Single) -> Vec<Single>,
    D: Fn(Vec<Single>) -> Single,
    P: Fn(Vec<Single>, usize) -> Single,
    H: Fn(usize) -> Single,
>(
    functions: &Functions<M, U, B, R, N, D, P, H>,
    modules: Seq<Module>,
    before: Seq<TensorView<Single>>,
    after: Seq<TensorView<Single>>,
) -> bool {
    &&& after.len() == 4
    &&& functions.gives(modules[0], before[0], Ok(after[0]))
    &&& functions.gives(modules[1], before[1], Ok(after[1]))
    &&& functions.gives(modules[2], before[2], Ok(after[2]))
    &&& functions.gives(modules[3], before[3], Ok(after[3]))
}

/// Whether each tensor but the last is the sum of the one in `before` and the next,
/// enlarged twice; the last is as it was.
pub open spec fn sinks<
    M: Fn(Single, Single, Single) -> Single,
    U: Fn(Single) -> Single,
    B: Fn(Single, Single) -> Single,
    R: Fn(Vec<Single>) -> Vec<Single>,
    N: Fn(Vec<Single>, Vec<Single>, Vec<Single>, Single) -> Vec<Single>,
    D: Fn(Vec<Single>) -> Single,
    P: Fn(Vec<Single>, usize) -> Single,
    H: Fn(usize) -> Single,
>(
    functions: &Functions<M, U, B, R, N, D, P, H>,
    before: Seq<TensorView<Single>>,
    after: Seq<TensorView<Single>>,
) -> bool {
    let add = functions.addition;
    &&& after.len() == 4
    &&& after[3] == before[3]
    &&& functions.merges(add, Ok(before[2]), upsampled(Ok(after[3]), 2), Ok(after[2]))
    &&& functions.merges(add, Ok(before[1]), upsampled(Ok(after[2]), 2), Ok(after[1]))
    &&& functions.merges(add, Ok(before[0]), upsampled(Ok(after[1]), 2), Ok(after[0]))
}

/// What the smaller neck is for: the tensor of each stage is converted, the later ones
/// are added to the earlier ones from the last to the first, each sum is converted by
/// the module of its own stage, and all are joined.
///
/// Returned are the converted tensors, the sums, and the converted sums.
pub proof fn lemma_fpn<
    M: Fn(Single, Single, Single) -> Single,
    U: Fn(Single) -> Single,
    B: Fn(Single, Single) -> Single,
    R: Fn(Vec<Single>) -> Vec<Single>,
    N: Fn(Vec<Single>, Vec<Single>, Vec<Single>, Single) -> Vec<Single>,
    D: Fn(Vec<Single>) -> Single,
    P: Fn(Vec<Single>, usize) -> Single,
    H: Fn(usize) -> Single,
>(
    functions: &Functions<M, U, B, R, N, D, P, H>,
    insert: Vec<Module>,
    input: Vec<Module>,
    stages: Seq<TensorView<Single>>,
    output: TensorView<Single>,
) -> (witness: (Seq<TensorView<Single>>, Seq<TensorView<Single>>, Seq<TensorView<Single>>))
    requires
        insert@.len() == 4,
        input@.len() == 4,
        stages.len() == 4,
        functions.neck_gives(Neck::Fpn { insert, input }, stages, Ok(output)),
    ensures
        ({
            let (inserted, fused, features) = witness;
            &&& steps(functions, insert@, stages, inserted)
            &&& sinks(functions, inserted, fused)
            &&& steps(functions, input@, fused, features)
            &&& joins_stages(features, Ok(output))
        }),
{
    let (inserted_seen, fused_seen, features_seen) = choose|
        inserted: crate::networks::SeenList,
        fused: crate::networks::SeenList,
        features: crate::networks::SeenList,
    |
        {
            &&& functions.each_gives(insert@, stages, inserted)
            &&& #[trigger] functions.top_down_step_gives(inserted, fused)
            &&& #[trigger] functions.each_step_gives(input@, fused, features)
            &&& Ok::<TensorView<Single>, TensorError>(output) == crate::networks::stacked_step(
                features,
            )
        };
    let features = features_seen->Ok_0;
    let fused = fused_seen->Ok_0;
    let inserted = inserted_seen->Ok_0;
    lemma_steps(functions, insert@, stages, inserted);
    lemma_sinks(functions, inserted, fused);
    lemma_steps(functions, input@, fused, features);
    lemma_stacked(features, Ok(output));
    (inserted, fused, features)
}

/// Four tensors that were enlarged and joined.
proof fn lemma_stacked(features: Seq<TensorView<Single>>, result: Seen)
    requires
        features.len() == 4,
        result is Ok,
        result == crate::networks::stacked(features),
    ensures
        joins_stages(features, result),
{
    let tensors = lemma_enlarged(features);
    assert(tensors.reverse() =~= seq![tensors[3], tensors[2], tensors[1], features[0]]);
    assert(result == concat_result(seq![tensors[3], tensors[2], tensors[1], features[0]], 1i64));
}

proof fn lemma_steps<
    M: Fn(Single, Single, Single) -> Single,
    U: Fn(Single) -> Single,
    B: Fn(Single, Single) -> Single,
    R: Fn(Vec<Single>) -> Vec<Single>,
    N: Fn(Vec<Single>, Vec<Single>, Vec<Single>, Single) -> Vec<Single>,
    D: Fn(Vec<Single>) -> Single,
    P: Fn(Vec<Single>, usize) -> Single,
    H: Fn(usize) -> Single,
>(
    functions: &Functions<M, U, B, R, N, D, P, H>,
    modules: Seq<Module>,
    before: Seq<TensorView<Single>>,
    after: Seq<TensorView<Single>>,
)
    requires
        modules.len() == 4,
        functions.each_gives(modules, before, Ok(after)),
    ensures
        steps(functions, modules, before, after),
{
    assert(after[0] == after[0] && after[1] == after[1] && after[2] == after[2] && after[3]
        == after[3]);
}

proof fn lemma_sinks<
    M: Fn(Single, Single, Single) -> Single,
    U: Fn(Single) -> Single,
    B: Fn(Single, Single) -> Single,
    R: Fn(Vec<Single>) -> Vec<Single>,
    N: Fn(Vec<Single>, Vec<Single>, Vec<Single>, Single) -> Vec<Single>,
    D: Fn(Vec<Single>) -> Single,
    P: Fn(Vec<Single>, usize) -> Single,
    H: Fn(usize) -> Single,
>(
    functions: &Functions<M, U, B, R, N, D, P, H>,
    before: Seq<TensorView<Single>>,
    after: Seq<TensorView<Single>>,
)
    requires
        before.len() == 4,
        functions.top_down_gives(before, Ok(after)),
    ensures
        sinks(functions, before, after),
{
    assert(functions.descends_at(before, after, 0));
    assert(functions.descends_at(before, after, 1));
    assert(functions.descends_at(before, after, 2));
    assert(functions.descends_at(before, after, 3));
}

/// Whether each tensor but the first is the sum of the one in `before` and what a module
/// may give for the tensor before it; the first is as it was. `leads` are what the
/// modules gave.
pub open spec fn rises<
    M: Fn(Single, Single, Single) -> Single,
    U: Fn(Single) -> Single,
    B: Fn(Single, Single) -> Single,
    R: Fn(Vec<Single>) -> Vec<Single>,
    N: Fn(Vec<Single>, Vec<Single>, Vec<Single>, Single) -> Vec<Single>,
    D: Fn(Vec<Single>) -> Single,
    P: Fn(Vec<Single>, usize) -> Single,
    H: Fn(usize) -> Single,
>(
    functions: &Functions<M, U, B, R, N, D, P, H>,
    heads: Seq<Module>,
    before: Seq<TensorView<Single>>,
    leads: Seq<Seen>,
    after: Seq<TensorView<Single>>,
) -> bool {
    let add = functions.addition;
    &&& after.len() == 4 && leads.len() == 3
    &&& after[0] == before[0]
    &&& functions.gives(heads[0], after[0], leads[0])
    &&& functions.merges(add, Ok(before[1]), leads[0], Ok(after[1]))
    &&& functions.gives(heads[1], after[1], leads[1])
    &&& functions.merges(add, Ok(before[2]), leads[1], Ok(after[2]))
    &&& functions.gives(heads[2], after[2], leads[2])
    &&& functions.merges(add, Ok(before[3]), leads[2], Ok(after[3]))
}

/// What one climb was led by.
proof fn lemma_lead<
    M: Fn(Single, Single, Single) -> Single,
    U: Fn(Single) -> Single,
    B: Fn(Single, Single) -> Single,
    R: Fn(Vec<Single>) -> Vec<Single>,
    N: Fn(Vec<Single>, Vec<Single>, Vec<Single>, Single) -> Vec<Single>,
    D: Fn(Vec<Single>) -> Single,
    P: Fn(Vec<Single>, usize) -> Single,
    H: Fn(usize) -> Single,
>(
    functions: &Functions<M, U, B, R, N, D, P, H>,
    head: Module,
    input: TensorView<Single>,
    lower: TensorView<Single>,
    output: TensorView<Single>,
) -> (lead: Seen)
    requires
        functions.climbs(head, input, lower, Ok(output)),
    ensures
        functions.gives(head, lower, lead),
        functions.merges(functions.addition, Ok(input), lead, Ok(output)),
{
    choose|lead: Seen|
        functions.gives(head, lower, lead) && #[trigger] functions.merges(
            functions.addition,
            Ok(input),
            lead,
            Ok(output),
        )
}

proof fn lemma_rises<
    M: Fn(Single, Single, Single) -> Single,
    U: Fn(Single) -> Single,
    B: Fn(Single, Single) -> Single,
    R: Fn(Vec<Single>) -> Vec<Single>,
    N: Fn(Vec<Single>, Vec<Single>, Vec<Single>, Single) -> Vec<Single>,
    D: Fn(Vec<Single>) -> Single,
    P: Fn(Vec<Single>, usize) -> Single,
    H: Fn(usize) -> Single,
>(
    functions: &Functions<M, U, B, R, N, D, P, H>,
    heads: Seq<Module>,
    before: Seq<TensorView<Single>>,
    after: Seq<TensorView<Single>>,
) -> (leads: Seq<Seen>)
    requires
        before.len() == 4,
        heads.len() == 3,
        functions.bottom_up_gives(heads, before, Ok(after)),
    ensures
        rises(functions, heads, before, leads, after),
{
    assert(functions.ascends(heads, before, after));
    let (zero, one, two, three) = (after[0], after[1], after[2], after[3]);
    let first = lemma_lead(functions, heads[0], before[1], zero, one);
    let second = lemma_lead(functions, heads[1], before[2], one, two);
    let third = lemma_lead(functions, heads[2], before[3], two, three);
    seq![first, second, third]
}

/// The tensors of the steps of the larger neck.
#[verifier::spinoff_prover]
#[verifier::rlimit(60)]
proof fn lemma_medium_lists<
    M: Fn(Single, Single, Single) -> Single,
    U: Fn(Single) -> Single,
    B: Fn(Single, Single) -> Single,
    R: Fn(Vec<Single>) -> Vec<Single>,
    N: Fn(Vec<Single>, Vec<Single>, Vec<Single>, Single) -> Vec<Single>,
    D: Fn(Vec<Single>) -> Single,
    P: Fn(Vec<Single>, usize) -> Single,
    H: Fn(usize) -> Single,
>(
    functions: &Functions<M, U, B, R, N, D, P, H>,
    adjust: Vec<Module>,
    project: Vec<Module>,
    pan_head: Vec<Module>,
    pan_lateral: Vec<Module>,
    refine: Vec<Module>,
    stages: Seq<TensorView<Single>>,
    output: TensorView<Single>,
) -> (lists: Seq<Seq<TensorView<Single>>>)
    requires
        functions.neck_gives(
            Neck::Medium { adjust, project, pan_head, pan_lateral, refine },
            stages,
            Ok(output),
        ),
    ensures
        lists.len() == 6,
        functions.each_gives(adjust@, stages, Ok(lists[0])),
        functions.top_down_gives(lists[0], Ok(lists[1])),
        functions.each_gives(project@, lists[1], Ok(lists[2])),
        functions.bottom_up_gives(pan_head@, lists[2], Ok(lists[3])),
        functions.each_gives(pan_lateral@, lists[3], Ok(lists[4])),
        functions.each_gives(refine@, lists[4], Ok(lists[5])),
        Ok::<TensorView<Single>, TensorError>(output) == crate::networks::stacked(lists[5]),
{
    let (adjusted, top, projected, bottom, lateral, refined) = choose|
        adjusted: crate::networks::SeenList,
        top: crate::networks::SeenList,
        projected: crate::networks::SeenList,
        bottom: crate::networks::SeenList,
        lateral: crate::networks::SeenList,
        refined: crate::networks::SeenList,
    |
        {
            &&& functions.each_gives(adjust@, stages, adjusted)
            &&& #[trigger] functions.top_down_step_gives(adjusted, top)
            &&& #[trigger] functions.each_step_gives(project@, top, projected)
            &&& #[trigger] functions.bottom_up_step_gives(pan_head@, projected, bottom)
            &&& #[trigger] functions.each_step_gives(pan_lateral@, bottom, lateral)
            &&& #[trigger] functions.each_step_gives(refine@, lateral, refined)
            &&& Ok::<TensorView<Single>, TensorError>(output) == crate::networks::stacked_step(
                refined,
            )
        };
    assert(refined is Ok);
    assert(lateral is Ok);
    assert(bottom is Ok);
    assert(projected is Ok);
    assert(top is Ok);
    assert(adjusted is Ok);
    seq![
        adjusted->Ok_0,
        top->Ok_0,
        projected->Ok_0,
        bottom->Ok_0,
        lateral->Ok_0,
        refined->Ok_0,
    ]
}

/// What the larger neck is for: the tensor of each stage is adjusted, the later ones are
/// added to the earlier ones, each sum is projected, the earlier ones are led to the
/// later ones, each is converted and refined by the modules of its own stage, and all are
/// joined.
///
/// Returned are the tensors of the steps in this order.
#[verifier::spinoff_prover]
#[verifier::rlimit(60)]
pub proof fn lemma_medium<
    M: Fn(Single, Single, Single) -> Single,
    U: Fn(Single) -> Single,
    B: Fn(Single, Single) -> Single,
    R: Fn(Vec<Single>) -> Vec<Single>,
    N: Fn(Vec<Single>, Vec<Single>, Vec<Single>, Single) -> Vec<Single>,
    D: Fn(Vec<Single>) -> Single,
    P: Fn(Vec<Single>, usize) -> Single,
    H: Fn(usize) -> Single,
>(
    functions: &Functions<M, U, B, R, N, D, P, H>,
    adjust: Vec<Module>,
    project: Vec<Module>,
    pan_head: Vec<Module>,
    pan_lateral: Vec<Module>,
    refine: Vec<Module>,
    stages: Seq<TensorView<Single>>,
    output: TensorView<Single>,
) -> (witness: (Seq<Seq<TensorView<Single>>>, Seq<Seen>))
    requires
        adjust@.len() == 4,
        project@.len() == 4,
        pan_head@.len() == 3,
        pan_lateral@.len() == 4,
        refine@.len() == 4,
        stages.len() == 4,
        functions.neck_gives(
            Neck::Medium { adjust, project, pan_head, pan_lateral, refine },
            stages,
            Ok(output),
        ),
    ensures
        ({
            let (lists, leads) = witness;
            &&& lists.len() == 6
            &&& steps(functions, adjust@, stages, lists[0])
            &&& sinks(functions, lists[0], lists[1])
            &&& steps(functions, project@, lists[1], lists[2])
            &&& rises(functions, pan_head@, lists[2], leads, lists[3])
            &&& steps(functions, pan_lateral@, lists[3], lists[4])
            &&& steps(functions, refine@, lists[4], lists[5])
            &&& joins_stages(lists[5], Ok(output))
        }),
{
    let lists = lemma_medium_lists(
        functions,
        adjust,
        project,
        pan_head,
        pan_lateral,
        refine,
        stages,
        output,
    );
    lemma_steps(functions, adjust@, stages, lists[0]);
    lemma_sinks(functions, lists[0], lists[1]);
    lemma_steps(functions, project@, lists[1], lists[2]);
    let leads = lemma_rises(functions, pan_head@, lists[2], lists[3]);
    lemma_steps(functions, pan_lateral@, lists[3], lists[4]);
    lemma_steps(functions, refine@, lists[4], lists[5]);
    lemma_stacked(lists[5], Ok(output));
    (lists, leads)
}

} // verus!
