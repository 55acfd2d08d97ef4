//! The modules that networks are made of, and how they are run.
use vstd::prelude::*;
use crate::conv_layer::Conv2d;
use crate::conv_transpose_layer::ConvTranspose2d;
use crate::functions::{
    exchange_step, exchanged, flatten_step, narrowed_by, part_at, part_step, permute_step, permuted,
    reshape_step, reshaped, rows_joined, sound, squeeze_step, Activation, Functions, Outcome, Seen,
};
use crate::joining::{concat, concat_result};
use crate::layout::views;
use crate::linear::{LayerNorm, Linear};
use crate::pooling::{view_of, PoolOptions};
use crate::single::Single;
use crate::tensor::{Tensor, TensorError, TensorView};

verus! {

/// Attention of the columns of a line to each other, by several heads.
pub struct RecAttention {
    pub qkv: Linear<Single>,
    pub projection: Linear<Single>,
    pub hidden_size: usize,
    pub num_heads: usize,
}

/// A part of a network that takes one tensor and gives one.
pub enum Module {
    /// A convolution with an activation.
    Convolution(Conv2d<Single>, Activation),
    /// A transposed convolution with an activation.
    Spread(ConvTranspose2d<Single>, Activation),
    /// A linear layer with an activation; its rows become shares of one where
    /// the flag says so.
    Projection(Linear<Single>, Activation, bool),
    /// Layer normalisation.
    Level(LayerNorm<Single>),
    /// Attention of the columns to each other.
    Attention(RecAttention),
    /// The mean of each plane.
    Mean,
    /// Pooling, by means where the flag says so and else by greatest values.
    Pool(PoolOptions, bool),
    /// The columns of planes of height one.
    Columns,
    /// One module behind the other.
    Chain(Vec<Module>),
    /// The sum of the input and what a module gives for it.
    Sum(Box<Module>),
    /// The product of the input and what a module gives for it.
    Product(Box<Module>),
    /// The input with its product with what a module gives for it added.
    Gate(Box<Module>),
    /// What two modules give, one behind the other by channel.
    Join(Box<Module>, Box<Module>),
    /// What the first gives, and what the third gives for the columns of what
    /// the second gives, added and taken by column.
    Encoder(Box<Module>, Box<Module>, Box<Module>),
}

impl RecAttention {
    /// The layers are well formed and there are heads.
    pub open spec fn wf(self) -> bool {
        self.qkv.wf() && self.projection.wf() && self.num_heads > 0
    }

    /// The number of features of a head.
    pub open spec fn head_size(self) -> int {
        self.hidden_size as int / self.num_heads as int
    }
}

impl Module {
    /// All layers are well formed.
    pub open spec fn wf(self) -> bool
        decreases self,
    {
        match self {
            Module::Convolution(layer, _) => layer.wf(),
            Module::Spread(layer, _) => layer.wf(),
            Module::Projection(layer, _, _) => layer.wf(),
            Module::Level(layer) => layer.wf(),
            Module::Attention(layer) => layer.wf(),
            Module::Mean => true,
            Module::Pool(_, _) => true,
            Module::Columns => true,
            Module::Chain(parts) => forall|i: int|
                0 <= i < parts@.len() ==> (#[trigger] parts@[i]).wf(),
            Module::Sum(inner) => inner.wf(),
            Module::Product(inner) => inner.wf(),
            Module::Gate(inner) => inner.wf(),
            Module::Join(first, second) => first.wf() && second.wf(),
            Module::Encoder(skip, lead, body) => skip.wf() && lead.wf() && body.wf(),
        }
    }
}

/// All modules of a list are well formed.
pub open spec fn modules_wf(modules: Seq<Module>) -> bool {
    forall|i: int| 0 <= i < modules.len() ==> (#[trigger] modules[i]).wf()
}

/// The second outcome unless the first is a refusal.
pub open spec fn after(first: Seen, second: Seen) -> Seen {
    if first is Err {
        first
    } else {
        second
    }
}

/// Two tensors one behind the other by channel; a refusal of the second comes
/// before one of the first.
pub open spec fn joined_pair(first: Seen, second: Seen) -> Seen {
    match (first, second) {
        (_, Err(error)) => Err(error),
        (Err(error), _) => Err(error),
        (Ok(one), Ok(other)) => concat_result(seq![one, other], 1i64),
    }
}

/// The columns of a tensor of planes.
pub open spec fn tokens_of(planes: Seen) -> Seen {
    match planes {
        Err(error) => Err(error),
        Ok(tensor) => if tensor.shape.len() != 4 {
            Err(TensorError::Rank)
        } else {
            exchanged(rows_joined(planes), 1, 2)
        },
    }
}

/// The planes that the given columns make up, in the shape of `planes`.
pub open spec fn planes_of(planes: Seen, tokens: Seen) -> Seen {
    match planes {
        Err(error) => Err(error),
        Ok(tensor) => if tensor.shape.len() != 4 {
            Err(TensorError::Rank)
        } else {
            permuted(
                reshaped(
                    tokens,
                    seq![tensor.shape[0], tensor.shape[2], tensor.shape[3], tensor.shape[1]],
                ),
                seq![0usize, 3usize, 1usize, 2usize],
            )
        },
    }
}

fn columns_step(planes: &Outcome) -> (result: Outcome)
    requires
        sound(view_of(*planes)),
    ensures
        view_of(result) == tokens_of(view_of(*planes)),
        sound(view_of(result)),
{
    match planes {
        Err(error) => Err(*error),
        Ok(tensor) => {
            if tensor.rank() != 4 {
                return Err(TensorError::Rank);
            }
            exchange_step(flatten_step(Ok(tensor.duplicate())), 1, 2)
        },
    }
}

fn planes_step(planes: &Outcome, tokens: Outcome) -> (result: Outcome)
    requires
        sound(view_of(*planes)),
        sound(view_of(tokens)),
    ensures
        view_of(result) == planes_of(view_of(*planes), view_of(tokens)),
        sound(view_of(result)),
{
    match planes {
        Err(error) => Err(*error),
        Ok(tensor) => {
            let (batch, channels, height, width): (usize, usize, usize, usize) =
                match tensor.dims4() {
                Err(error) => {
                    return Err(error);
                },
                Ok(dimensions) => dimensions,
            };
            let shape: [usize; 4] = [batch, height, width, channels];
            let order: [usize; 4] = [0, 3, 1, 2];
            assert(shape@ =~= seq![batch, height, width, channels]);
            assert(order@ =~= seq![0usize, 3usize, 1usize, 2usize]);
            permute_step(reshape_step(tokens, shape), order)
        },
    }
}

fn join_pair(first: Outcome, second: Outcome) -> (result: Outcome)
    requires
        sound(view_of(first)),
        sound(view_of(second)),
    ensures
        view_of(result) == joined_pair(view_of(first), view_of(second)),
        sound(view_of(result)),
{
    match (first, second) {
        (_, Err(error)) => Err(error),
        (Err(error), _) => Err(error),
        (Ok(one), Ok(other)) => {
            let inputs: Vec<Tensor<Single>> = vec![one, other];
            assert(inputs@[0] == one && inputs@[1] == other);
            assert(views(inputs@) =~= seq![one@, other@]);
            concat(inputs.as_slice(), 1)
        },
    }
}

impl<
    M: Fn(Single, Single, Single) -> Single,
    U: Fn(Single) -> Single,
    B: Fn(Single, Single) -> Single,
    R: Fn(Vec<Single>) -> Vec<Single>,
    N: Fn(Vec<Single>, Vec<Single>, Vec<Single>, Single) -> Vec<Single>,
    D: Fn(Vec<Single>) -> Single,
    P: Fn(Vec<Single>, usize) -> Single,
    H: Fn(usize) -> Single,
> Functions<M, U, B, R, N, D, P, H> {
    /// The queries, keys and values by head that a mixed projection holds.
    pub open spec fn heads_of(
        &self,
        layer: RecAttention,
        input: TensorView<Single>,
        mixed: Seen,
    ) -> Seen {
        permuted(
            reshaped(
                mixed,
                seq![
                    input.shape[0],
                    input.shape[1],
                    3usize,
                    layer.num_heads,
                    layer.head_size() as usize,
                ],
            ),
            seq![2usize, 0usize, 3usize, 1usize, 4usize],
        )
    }

    /// What attention may give: each column is a mean of the values of all
    /// columns, weighted by how its query agrees with their keys.
    pub open spec fn attends(
        &self,
        layer: RecAttention,
        input: TensorView<Single>,
        output: Seen,
    ) -> bool {
        if input.shape.len() != 3 {
            output == Err::<TensorView<Single>, TensorError>(TensorError::Rank)
        } else {
            exists|
                mixed: Seen,
                factor: Single,
                scores: Seen,
                scaled: Seen,
                weights: Seen,
                context: Seen,
            |
                {
                    &&& #[trigger] self.projects(
                        layer.qkv,
                        Activation::Identity,
                        false,
                        Ok(input),
                        mixed,
                    )
                    &&& call_ensures(self.head_scale, (layer.head_size() as usize,), factor)
                    &&& self.multiplies(
                        part_at(self.heads_of(layer, input, mixed), 0),
                        exchanged(part_at(self.heads_of(layer, input, mixed), 1), 2, 3),
                        scores,
                    )
                    &&& #[trigger] self.scales(factor, scores, scaled)
                    &&& #[trigger] self.shares(scaled, weights)
                    &&& #[trigger] self.multiplies(
                        weights,
                        part_at(self.heads_of(layer, input, mixed), 2),
                        context,
                    )
                    &&& self.projects(
                        layer.projection,
                        Activation::Identity,
                        false,
                        reshaped(
                            exchanged(context, 1, 2),
                            seq![input.shape[0], input.shape[1], layer.hidden_size],
                        ),
                        output,
                    )
                }
        }
    }

    /// Lets the columns of a line attend to each other.
    pub fn attend(&self, layer: &RecAttention, input: &Tensor<Single>) -> (result: Outcome)
        requires
            self.valid(),
            layer.wf(),
            input@.wf(),
        ensures
            self.attends(*layer, input@, view_of(result)),
            sound(view_of(result)),
    {
        let (batch, sequence, _): (usize, usize, usize) = match input.dims3() {
            Err(error) => {
                return Err(error);
            },
            Ok(dimensions) => dimensions,
        };
        let head_size: usize = layer.hidden_size / layer.num_heads;
        let mixed: Outcome = layer.qkv.forward(
            &self.arithmetic,
            self.function(Activation::Identity),
            None::<&R>,
            input,
        );
        let ghost mixed_seen = view_of(mixed);
        let shape: [usize; 5] = [batch, sequence, 3, layer.num_heads, head_size];
        let order: [usize; 5] = [2, 0, 3, 1, 4];
        assert(shape@ =~= seq![
            input@.shape[0],
            input@.shape[1],
            3usize,
            layer.num_heads,
            layer.head_size() as usize,
        ]);
        assert(order@ =~= seq![2usize, 0usize, 3usize, 1usize, 4usize]);
        let heads: Outcome = permute_step(reshape_step(mixed, shape), order);
        assert(view_of(heads) == self.heads_of(*layer, input@, mixed_seen));
        let query: Outcome = part_step(&heads, 0);
        let key: Outcome = part_step(&heads, 1);
        let value: Outcome = part_step(&heads, 2);
        let factor: Single = (self.head_scale)(head_size);
        let scores: Outcome = self.multiply(query, exchange_step(key, 2, 3));
        let ghost scores_seen = view_of(scores);
        let scaled: Outcome = self.scale(factor, scores);
        let ghost scaled_seen = view_of(scaled);
        let weights: Outcome = self.share(scaled);
        let ghost weights_seen = view_of(weights);
        let context: Outcome = self.multiply(weights, value);
        let ghost context_seen = view_of(context);
        let rows: [usize; 3] = [batch, sequence, layer.hidden_size];
        assert(rows@ =~= seq![input@.shape[0], input@.shape[1], layer.hidden_size]);
        let lines: Outcome = reshape_step(exchange_step(context, 1, 2), rows);
        let result: Outcome = self.project(&layer.projection, Activation::Identity, false, &lines);
        proof {
            assert(self.projects(
                layer.qkv,
                Activation::Identity,
                false,
                Ok(input@),
                mixed_seen,
            ));
            assert(self.scales(factor, scores_seen, scaled_seen));
            assert(self.shares(scaled_seen, weights_seen));
            assert(self.multiplies(
                weights_seen,
                part_at(self.heads_of(*layer, input@, mixed_seen), 2),
                context_seen,
            ));
        }
        result
    }

    /// What a module may give for a tensor.
    pub open spec fn gives(&self, module: Module, input: TensorView<Single>, output: Seen) -> bool
        decreases module, 0int,
    {
        match module {
            Module::Convolution(layer, activation) => self.convolves(
                layer,
                activation,
                Ok(input),
                output,
            ),
            Module::Spread(layer, activation) => self.spreads(
                layer,
                activation,
                Ok(input),
                output,
            ),
            Module::Projection(layer, activation, shares) => self.projects(
                layer,
                activation,
                shares,
                Ok(input),
                output,
            ),
            Module::Level(layer) => self.levels(layer, Ok(input), output),
            Module::Attention(layer) => self.attends(layer, input, output),
            Module::Mean => self.averages(Ok(input), output),
            Module::Pool(options, average) => self.pools(options, average, Ok(input), output),
            Module::Columns => output == exchanged(narrowed_by(Ok(input), 2), 1, 2),
            Module::Chain(parts) => self.chain_gives(
                parts,
                parts@.len() as int,
                input,
                output,
            ),
            Module::Sum(inner) => exists|inside: Seen|
                self.gives(*inner, input, inside) && #[trigger] self.merges(
                    self.addition,
                    Ok(input),
                    inside,
                    output,
                ),
            Module::Product(inner) => exists|inside: Seen|
                self.gives(*inner, input, inside) && #[trigger] self.merges(
                    self.product,
                    Ok(input),
                    inside,
                    output,
                ),
            Module::Gate(inner) => exists|inside: Seen|
                self.gives(*inner, input, inside) && #[trigger] self.gates(
                    Ok(input),
                    inside,
                    output,
                ),
            Module::Join(first, second) => exists|one: Seen, other: Seen|
                self.gives(*first, input, one) && self.gives(*second, input, other) && output
                    == #[trigger] joined_pair(one, other),
            Module::Encoder(skip, lead, body) => exists|
                residual: Seen,
                hidden: Seen,
                tokens: Seen,
                sum: Seen,
            |
                {
                    &&& self.gives(*skip, input, residual)
                    &&& self.gives(*lead, input, hidden)
                    &&& match tokens_of(hidden) {
                        Err(error) => tokens == Err::<TensorView<Single>, TensorError>(error),
                        Ok(columns) => self.gives(*body, columns, tokens),
                    }
                    &&& #[trigger] self.merges(
                        self.addition,
                        planes_of(hidden, tokens),
                        residual,
                        sum,
                    )
                    &&& output == after(residual, exchanged(narrowed_by(sum, 2), 1, 2))
                },
        }
    }

    /// What the first modules of a list may give, one behind the other.
    pub open spec fn chain_gives(
        &self,
        parts: Vec<Module>,
        count: int,
        input: TensorView<Single>,
        output: Seen,
    ) -> bool
        decreases parts, count,
    {
        if count <= 0 || count > parts@.len() {
            output == Ok::<TensorView<Single>, TensorError>(input)
        } else {
            exists|middle: Seen|
                {
                    &&& self.chain_gives(parts, count - 1, input, middle)
                    &&& output == #[trigger] after(middle, output)
                    &&& middle matches Ok(tensor) ==> self.gives(
                        parts@[count - 1],
                        tensor,
                        output,
                    )
                }
        }
    }

    /// Runs a module.
    #[verifier::spinoff_prover]
    #[verifier::rlimit(40)]
    pub fn forward(&self, module: &Module, input: &Tensor<Single>) -> (result: Outcome)
        requires
            self.valid(),
            module.wf(),
            input@.wf(),
        ensures
            self.gives(*module, input@, view_of(result)),
            sound(view_of(result)),
        decreases *module, 0int,
    {
        match module {
            Module::Convolution(layer, activation) => layer.forward(
                &self.arithmetic,
                self.function(*activation),
                self.single_thread,
                input,
            ),
            Module::Spread(layer, activation) => self.spread(
                layer,
                *activation,
                &Ok(input.duplicate()),
            ),
            Module::Projection(layer, activation, shares) => self.project(
                layer,
                *activation,
                *shares,
                &Ok(input.duplicate()),
            ),
            Module::Level(layer) => layer.forward(&self.normalize, input),
            Module::Attention(layer) => self.attend(layer, input),
            Module::Mean => self.average_planes(Ok(input.duplicate())),
            Module::Pool(options, average) => self.pool_planes(
                options,
                *average,
                Ok(input.duplicate()),
            ),
            Module::Columns => exchange_step(squeeze_step(Ok(input.duplicate()), 2), 1, 2),
            Module::Chain(parts) => self.run_chain(parts, input),
            Module::Sum(inner) => {
                let inside: Outcome = self.forward(inner, input);
                self.merge(&self.addition, Ok(input.duplicate()), inside)
            },
            Module::Product(inner) => {
                let inside: Outcome = self.forward(inner, input);
                self.merge(&self.product, Ok(input.duplicate()), inside)
            },
            Module::Gate(inner) => {
                let inside: Outcome = self.forward(inner, input);
                self.gate(Ok(input.duplicate()), inside)
            },
            Module::Join(first, second) => {
                let one: Outcome = self.forward(first, input);
                let other: Outcome = self.forward(second, input);
                join_pair(one, other)
            },
            Module::Encoder(skip, lead, body) => {
                let residual: Outcome = self.forward(skip, input);
                let hidden: Outcome = self.forward(lead, input);
                let tokens: Outcome = match columns_step(&hidden) {
                    Err(error) => Err(error),
                    Ok(columns) => self.forward(body, &columns),
                };
                let planes: Outcome = planes_step(&hidden, tokens);
                let refusal: Option<TensorError> = match residual {
                    Err(error) => Some(error),
                    Ok(_) => None,
                };
                let ghost seen = view_of(residual);
                let sum: Outcome = self.merge(&self.addition, planes, residual);
                assert(self.merges(
                    self.addition,
                    planes_of(view_of(hidden), view_of(tokens)),
                    seen,
                    view_of(sum),
                ));
                match refusal {
                    Some(error) => Err(error),
                    None => exchange_step(squeeze_step(sum, 2), 1, 2),
                }
            },
        }
    }

    /// Runs modules one behind the other.
    fn run_chain(&self, parts: &Vec<Module>, input: &Tensor<Single>) -> (result: Outcome)
        requires
            self.valid(),
            modules_wf(parts@),
            input@.wf(),
        ensures
            self.chain_gives(*parts, parts@.len() as int, input@, view_of(result)),
            sound(view_of(result)),
        decreases *parts, 0int,
    {
        let mut current: Outcome = Ok(input.duplicate());
        for index in 0..parts.len()
            invariant
                self.valid(),
                modules_wf(parts@),
                self.chain_gives(*parts, index as int, input@, view_of(current)),
                sound(view_of(current)),
        {
            let ghost middle = view_of(current);
            let next: Outcome = match current {
                Err(error) => Err(error),
                Ok(tensor) => self.forward(&parts[index], &tensor),
            };
            proof {
                let count: int = index + 1;
                assert(view_of(next) == after(middle, view_of(next)));
                assert(self.chain_gives(*parts, count, input@, view_of(next)));
            }
            current = next;
        }
        current
    }
}

} // verus!
