//! How the detector and the recognizer are put together from stored weights.
use vstd::prelude::*;
use crate::functions::Activation;
use crate::loading::{
    all_loaded_wf, chain, chains, gate, gated, gather, gathers, loaded_wf, place_of, pointwise,
    pointwise_spec, product, products, square, square_spec, succeeds, sum, sums, ConvSpec,
    LoadError, Loaded, Loader, Place,
};
use crate::models::{
    detector_stages_for_channels, is_detector_stages, is_recognizer_stages, is_stage,
    lemma_detector_chains, lemma_stage_chains,
    recognizer_stages, small_recognizer_stages, tiny_recognizer_stages, BlockSpec, ModelSize,
};
use crate::network::Module;
use crate::networks::{Backbone, Detector, Neck, Recognizer};
use crate::pooling::PoolOptions;
use crate::single::Single;
use crate::weights::{reads_archive, VarBuilder, Weights, WeightsError};

verus! {

/// The stem of a backbone: its channels before and behind its last module.
#[derive(Clone, Copy)]
pub enum StemSpec {
    Large { mid_channels: usize, out_channels: usize },
    Small { mid_channels: usize, out_channels: usize },
}

impl<
    B: Fn(Single, Single) -> Single,
    S: Fn(Single, Single, Single, Single) -> Single,
    Q: Fn(Single) -> bool,
    C: Fn(Vec<Single>, usize) -> Option<(Vec<Single>, Vec<Single>)>,
    A: Fn(Vec<Single>, Vec<Single>, Vec<Single>, usize) -> bool,
> Loader<B, S, Q, C, A> {
    /// Factors of the channels, from the means of their planes: two
    /// convolutions of single cells behind each other.
    pub open spec fn loads_factors(
        &self,
        first: Place,
        second: Place,
        channels: usize,
        hidden: usize,
        activation: Activation,
        result: Loaded,
    ) -> bool {
        exists|reduce: Loaded, expand: Loaded|
            {
                &&& #[trigger] self.loads_conv(
                    first,
                    pointwise_spec(channels, hidden, true),
                    Activation::Relu,
                    reduce,
                )
                &&& #[trigger] self.loads_conv(
                    second,
                    pointwise_spec(hidden, channels, true),
                    activation,
                    expand,
                )
                &&& chains(seq![Ok(Module::Mean), reduce, expand], result)
            }
    }

    fn load_factors(
        &self,
        first: &VarBuilder,
        second: &VarBuilder,
        channels: usize,
        hidden: usize,
        activation: Activation,
    ) -> (result: Loaded)
        requires
            first.weights.wf(),
            second.weights.wf(),
        ensures
            self.loads_factors(
                place_of(*first),
                place_of(*second),
                channels,
                hidden,
                activation,
                result,
            ),
            loaded_wf(result),
    {
        let reduce: Loaded = self.load_conv(
            first,
            &pointwise(channels, hidden, true),
            Activation::Relu,
        );
        let expand: Loaded = self.load_conv(second, &pointwise(hidden, channels, true), activation);
        let ghost parts = seq![Ok(Module::Mean), reduce, expand];
        let list: Vec<Loaded> = vec![Ok(Module::Mean), reduce, expand];
        assert(list@ =~= parts);
        chain(list)
    }

    /// Squeeze and excitation: the input times a factor of each channel.
    pub open spec fn loads_squeeze(&self, place: Place, channels: usize, result: Loaded) -> bool {
        exists|inner: Loaded|
            self.loads_factors(
                place.at("convolutions").at("0"),
                place.at("convolutions").at("2"),
                channels,
                channels / 4,
                Activation::HardSigmoid,
                inner,
            ) && #[trigger] products(inner, result)
    }

    fn load_squeeze(&self, builder: &VarBuilder, channels: usize) -> (result: Loaded)
        requires
            builder.weights.wf(),
        ensures
            self.loads_squeeze(place_of(*builder), channels, result),
            loaded_wf(result),
    {
        product(
            self.load_factors(
                &builder.pp("convolutions").pp("0"),
                &builder.pp("convolutions").pp("2"),
                channels,
                channels / 4,
                Activation::HardSigmoid,
            ),
        )
    }

    /// The convolution of each channel at the head of a block.
    pub open spec fn loads_token(&self, place: Place, spec: BlockSpec, result: Loaded) -> bool {
        if spec.residual() {
            self.loads_conv(
                place.at("token_conv"),
                square_spec(
                    spec.in_channels,
                    spec.out_channels,
                    spec.kernel,
                    spec.stride,
                    true,
                    spec.in_channels,
                ),
                Activation::Identity,
                result,
            )
        } else {
            self.loads_conv_bn(
                place.at("token_conv"),
                square_spec(
                    spec.in_channels,
                    spec.in_channels,
                    spec.kernel,
                    spec.stride,
                    false,
                    spec.in_channels,
                ),
                "normalization",
                Activation::Identity,
                result,
            )
        }
    }

    /// The factors of the channels in a block that has them.
    pub open spec fn loads_gate(&self, place: Place, spec: BlockSpec, result: Loaded) -> bool {
        spec.use_se ==> self.loads_squeeze(
            place.at("token_squeeze_excitation"),
            spec.in_channels,
            result,
        )
    }

    /// The two convolutions of single cells at the end of a block, with what
    /// they take added where the block is residual.
    pub open spec fn loads_tail(&self, place: Place, spec: BlockSpec, result: Loaded) -> bool {
        let wide = (spec.in_channels * 2) as usize;
        exists|first: Loaded, second: Loaded, inner: Loaded|
            {
                &&& self.loads_conv_bn(
                    place.at("channel_conv1"),
                    pointwise_spec(spec.in_channels, wide, false),
                    "normalization",
                    Activation::Gelu,
                    first,
                )
                &&& self.loads_conv_bn(
                    place.at("channel_conv2"),
                    pointwise_spec(wide, spec.out_channels, false),
                    "normalization",
                    Activation::Identity,
                    second,
                )
                &&& #[trigger] chains(pair_of(first, second), inner)
                &&& if spec.residual() {
                    sums(inner, result)
                } else {
                    result == inner
                }
            }
    }

    /// A block of a stage.
    pub open spec fn loads_block(&self, place: Place, spec: BlockSpec, result: Loaded) -> bool {
        exists|token: Loaded, factors: Loaded, tail: Loaded|
            {
                &&& #[trigger] self.loads_token(place, spec, token)
                &&& #[trigger] self.loads_gate(place, spec, factors)
                &&& #[trigger] self.loads_tail(place, spec, tail)
                &&& chains(
                    if spec.use_se {
                        seq![token, factors, tail]
                    } else {
                        seq![token, tail]
                    },
                    result,
                )
            }
    }

    /// Loads a block of a stage.
    pub fn load_block(&self, builder: &VarBuilder, spec: &BlockSpec) -> (result: Loaded)
        requires
            self.valid(),
            builder.weights.wf(),
            spec.in_channels > 0,
            spec.in_channels * 2 <= usize::MAX,
        ensures
            self.loads_block(place_of(*builder), *spec, result),
            loaded_wf(result),
    {
        let ghost place = place_of(*builder);
        let residual: bool = spec.is_residual();
        let token: Loaded = if residual {
            self.load_conv(
                &builder.pp("token_conv"),
                &square(
                    spec.in_channels,
                    spec.out_channels,
                    spec.kernel,
                    spec.stride,
                    true,
                    spec.in_channels,
                ),
                Activation::Identity,
            )
        } else {
            self.load_conv_bn(
                &builder.pp("token_conv"),
                &square(
                    spec.in_channels,
                    spec.in_channels,
                    spec.kernel,
                    spec.stride,
                    false,
                    spec.in_channels,
                ),
                "normalization",
                Activation::Identity,
            )
        };
        assert(self.loads_token(place, *spec, token));
        let factors: Loaded = if spec.use_se {
            self.load_squeeze(&builder.pp("token_squeeze_excitation"), spec.in_channels)
        } else {
            Ok(Module::Mean)
        };
        assert(self.loads_gate(place, *spec, factors));
        let wide: usize = spec.in_channels * 2;
        let first: Loaded = self.load_conv_bn(
            &builder.pp("channel_conv1"),
            &pointwise(spec.in_channels, wide, false),
            "normalization",
            Activation::Gelu,
        );
        let second: Loaded = self.load_conv_bn(
            &builder.pp("channel_conv2"),
            &pointwise(wide, spec.out_channels, false),
            "normalization",
            Activation::Identity,
        );
        let ghost both = pair_of(first, second);
        let list: Vec<Loaded> = vec![first, second];
        assert(list@ =~= both);
        let inner: Loaded = chain(list);
        let ghost inner_seen = inner;
        assert(chains(both, inner_seen));
        let tail: Loaded = if residual {
            sum(inner)
        } else {
            inner
        };
        assert(self.loads_tail(place, *spec, tail));
        let ghost parts = if spec.use_se {
            seq![token, factors, tail]
        } else {
            seq![token, tail]
        };
        let list: Vec<Loaded> = if spec.use_se {
            vec![token, factors, tail]
        } else {
            vec![token, tail]
        };
        assert(list@ =~= parts);
        chain(list)
    }

    /// A stage: blocks behind each other.
    pub open spec fn loads_stage(
        &self,
        place: Place,
        specs: Seq<BlockSpec>,
        result: Loaded,
    ) -> bool {
        exists|parts: Seq<Loaded>|
            {
                &&& parts.len() == specs.len()
                &&& forall|i: int|
                    0 <= i < specs.len() ==> self.loads_block(
                        place.at("blocks").at_index(i),
                        specs[i],
                        #[trigger] parts[i],
                    )
                &&& #[trigger] chains(parts, result)
            }
    }

    /// Loads a stage.
    pub fn load_stage(&self, builder: &VarBuilder, specs: &Vec<BlockSpec>) -> (result: Loaded)
        requires
            self.valid(),
            builder.weights.wf(),
            stage_loadable(specs@),
        ensures
            self.loads_stage(place_of(*builder), specs@, result),
            loaded_wf(result),
    {
        let blocks: VarBuilder = builder.pp("blocks");
        let mut parts: Vec<Loaded> = Vec::new();
        for index in 0..specs.len()
            invariant
                self.valid(),
                blocks.weights.wf(),
                place_of(blocks) == place_of(*builder).at("blocks"),
                stage_loadable(specs@),
                parts@.len() == index,
                all_loaded_wf(parts@),
                forall|i: int|
                    0 <= i < index ==> self.loads_block(
                        place_of(*builder).at("blocks").at_index(i),
                        specs@[i],
                        #[trigger] parts@[i],
                    ),
        {
            let part: Loaded = self.load_block(&blocks.pp_index(index), &specs[index]);
            parts.push(part);
        }
        chain(parts)
    }

    /// The branches at the middle of the large stem: a pooled copy and two
    /// convolutions, joined by channel.
    pub open spec fn loads_branches(&self, place: Place, channels: usize, result: Loaded) -> bool {
        exists|first: Loaded, second: Loaded, inner: Loaded|
            {
                &&& self.loads_conv_bn(
                    place.at("stem2a"),
                    corner_spec(channels, channels / 2),
                    "normalization",
                    Activation::Relu,
                    first,
                )
                &&& self.loads_conv_bn(
                    place.at("stem2b"),
                    corner_spec(channels / 2, channels),
                    "normalization",
                    Activation::Relu,
                    second,
                )
                &&& #[trigger] chains(pair_of(first, second), inner)
                &&& match (inner, result) {
                    (Ok(module), Ok(Module::Join(pool, branch))) => *branch == module && *pool
                        == Module::Pool(corner_windows(), false),
                    (Err(error), Err(refusal)) => refusal == error,
                    _ => false,
                }
            }
    }

    fn load_branches(&self, builder: &VarBuilder, channels: usize) -> (result: Loaded)
        requires
            self.valid(),
            builder.weights.wf(),
        ensures
            self.loads_branches(place_of(*builder), channels, result),
            loaded_wf(result),
    {
        let first: Loaded = self.load_conv_bn(
            &builder.pp("stem2a"),
            &corner(channels, channels / 2),
            "normalization",
            Activation::Relu,
        );
        let second: Loaded = self.load_conv_bn(
            &builder.pp("stem2b"),
            &corner(channels / 2, channels),
            "normalization",
            Activation::Relu,
        );
        let ghost both = pair_of(first, second);
        let list: Vec<Loaded> = vec![first, second];
        assert(list@ =~= both);
        let inner: Loaded = chain(list);
        assert(chains(both, inner));
        match inner {
            Err(error) => Err(error),
            Ok(module) => {
                let options: PoolOptions = PoolOptions {
                    kernel: [2, 2],
                    strides: [1, 1],
                    pads: [0, 0, 1, 1],
                    ceil_mode: false,
                    count_include_pad: false,
                };
                assert(options == corner_windows());
                let pool: Module = Module::Pool(options, false);
                assert(pool.wf());
                Ok(Module::Join(Box::new(pool), Box::new(module)))
            },
        }
    }

    /// The large stem.
    pub open spec fn loads_large_stem(
        &self,
        place: Place,
        mid_channels: usize,
        out_channels: usize,
        result: Loaded,
    ) -> bool {
        exists|first: Loaded, branches: Loaded, third: Loaded, fourth: Loaded|
            {
                &&& self.loads_conv_bn(
                    place.at("stem1"),
                    halving_spec(3, mid_channels),
                    "normalization",
                    Activation::Relu,
                    first,
                )
                &&& self.loads_branches(place, mid_channels, branches)
                &&& self.loads_conv_bn(
                    place.at("stem3"),
                    halving_spec((mid_channels * 2) as usize, mid_channels),
                    "normalization",
                    Activation::Relu,
                    third,
                )
                &&& self.loads_conv_bn(
                    place.at("stem4"),
                    pointwise_spec(mid_channels, out_channels, false),
                    "normalization",
                    Activation::Relu,
                    fourth,
                )
                &&& #[trigger] chains(four_of(first, branches, third, fourth), result)
            }
    }

    fn load_large_stem(
        &self,
        builder: &VarBuilder,
        mid_channels: usize,
        out_channels: usize,
    ) -> (result: Loaded)
        requires
            self.valid(),
            builder.weights.wf(),
            mid_channels * 2 <= usize::MAX,
        ensures
            self.loads_large_stem(place_of(*builder), mid_channels, out_channels, result),
            loaded_wf(result),
    {
        let first: Loaded = self.load_conv_bn(
            &builder.pp("stem1"),
            &halving(3, mid_channels),
            "normalization",
            Activation::Relu,
        );
        let branches: Loaded = self.load_branches(builder, mid_channels);
        let third: Loaded = self.load_conv_bn(
            &builder.pp("stem3"),
            &halving(mid_channels * 2, mid_channels),
            "normalization",
            Activation::Relu,
        );
        let fourth: Loaded = self.load_conv_bn(
            &builder.pp("stem4"),
            &pointwise(mid_channels, out_channels, false),
            "normalization",
            Activation::Relu,
        );
        let ghost parts = four_of(first, branches, third, fourth);
        let list: Vec<Loaded> = vec![first, branches, third, fourth];
        assert(list@ =~= parts);
        chain(list)
    }

    /// The small stem.
    pub open spec fn loads_small_stem(
        &self,
        place: Place,
        mid_channels: usize,
        out_channels: usize,
        result: Loaded,
    ) -> bool {
        exists|first: Loaded, second: Loaded|
            {
                &&& self.loads_conv_bn(
                    place.at("conv1"),
                    halving_spec(3, mid_channels),
                    "normalization",
                    Activation::Gelu,
                    first,
                )
                &&& self.loads_conv_bn(
                    place.at("conv2"),
                    halving_spec(mid_channels, out_channels),
                    "normalization",
                    Activation::Identity,
                    second,
                )
                &&& #[trigger] chains(pair_of(first, second), result)
            }
    }

    fn load_small_stem(
        &self,
        builder: &VarBuilder,
        mid_channels: usize,
        out_channels: usize,
    ) -> (result: Loaded)
        requires
            self.valid(),
            builder.weights.wf(),
        ensures
            self.loads_small_stem(place_of(*builder), mid_channels, out_channels, result),
            loaded_wf(result),
    {
        let first: Loaded = self.load_conv_bn(
            &builder.pp("conv1"),
            &halving(3, mid_channels),
            "normalization",
            Activation::Gelu,
        );
        let second: Loaded = self.load_conv_bn(
            &builder.pp("conv2"),
            &halving(mid_channels, out_channels),
            "normalization",
            Activation::Identity,
        );
        let ghost both = pair_of(first, second);
        let list: Vec<Loaded> = vec![first, second];
        assert(list@ =~= both);
        chain(list)
    }

    /// A stem.
    pub open spec fn loads_stem(&self, place: Place, stem: StemSpec, result: Loaded) -> bool {
        match stem {
            StemSpec::Large { mid_channels, out_channels } => self.loads_large_stem(
                place,
                mid_channels,
                out_channels,
                result,
            ),
            StemSpec::Small { mid_channels, out_channels } => self.loads_small_stem(
                place,
                mid_channels,
                out_channels,
                result,
            ),
        }
    }

    /// The stages of a place, in a list.
    pub open spec fn loads_stages(
        &self,
        place: Place,
        specs: Seq<Vec<BlockSpec>>,
        result: Result<Seq<Module>, LoadError>,
    ) -> bool {
        exists|parts: Seq<Loaded>|
            {
                &&& parts.len() == specs.len()
                &&& forall|i: int|
                    0 <= i < specs.len() ==> self.loads_stage(
                        place.at("blocks").at_index(i),
                        specs[i]@,
                        #[trigger] parts[i],
                    )
                &&& #[trigger] gathers(parts, result)
            }
    }

    /// A backbone.
    pub open spec fn loads_backbone(
        &self,
        place: Place,
        specs: Seq<Vec<BlockSpec>>,
        stem: StemSpec,
        result: Result<Backbone, LoadError>,
    ) -> bool {
        match result {
            Ok(backbone) => {
                &&& self.loads_stem(place.at("convolution"), stem, Ok(backbone.stem))
                &&& self.loads_stages(place, specs, Ok(backbone.stages@))
            },
            Err(error) => {
                ||| self.loads_stem(place.at("convolution"), stem, Err(error))
                ||| self.loads_stages(place, specs, Err(error)) && exists|module: Module| #[trigger]
                    self.loads_stem(place.at("convolution"), stem, Ok(module))
            },
        }
    }

    /// Loads a backbone.
    pub fn load_backbone(
        &self,
        builder: &VarBuilder,
        specs: &Vec<Vec<BlockSpec>>,
        stem: StemSpec,
    ) -> (result: Result<Backbone, LoadError>)
        requires
            self.valid(),
            builder.weights.wf(),
            stages_loadable(specs@),
            stem matches StemSpec::Large { mid_channels, .. } ==> mid_channels * 2 <= usize::MAX,
        ensures
            self.loads_backbone(place_of(*builder), specs@, stem, result),
            result matches Ok(backbone) ==> backbone.wf() && backbone.stages@.len() == specs@.len(),
    {
        let root: VarBuilder = builder.pp("convolution");
        let head: Module = match match stem {
            StemSpec::Large { mid_channels, out_channels } => self.load_large_stem(
                &root,
                mid_channels,
                out_channels,
            ),
            StemSpec::Small { mid_channels, out_channels } => self.load_small_stem(
                &root,
                mid_channels,
                out_channels,
            ),
        } {
            Err(error) => {
                return Err(error);
            },
            Ok(module) => module,
        };
        assert(self.loads_stem(place_of(*builder).at("convolution"), stem, Ok(head)));
        let blocks: VarBuilder = builder.pp("blocks");
        let mut parts: Vec<Loaded> = Vec::new();
        for index in 0..specs.len()
            invariant
                self.valid(),
                blocks.weights.wf(),
                place_of(blocks) == place_of(*builder).at("blocks"),
                stages_loadable(specs@),
                parts@.len() == index,
                all_loaded_wf(parts@),
                forall|i: int|
                    0 <= i < index ==> self.loads_stage(
                        place_of(*builder).at("blocks").at_index(i),
                        specs@[i]@,
                        #[trigger] parts@[i],
                    ),
        {
            assert(stage_loadable(specs@[index as int]@));
            let part: Loaded = self.load_stage(&blocks.pp_index(index), &specs[index]);
            parts.push(part);
        }
        match gather(parts) {
            Err(error) => Err(error),
            Ok(stages) => Ok(Backbone { stem: head, stages }),
        }
    }

    /// The refinement of the features of a stage: fused branches of falling
    /// size, added to what they take.
    pub open spec fn loads_intraclass(&self, place: Place, result: Loaded) -> bool {
        exists|
            reduce: Loaded,
            long: Loaded,
            mid: Loaded,
            short: Loaded,
            last: Loaded,
            inner: Loaded,
        |
            {
                &&& self.loads_conv(
                    place.at("conv_reduce_channel"),
                    pointwise_spec(64, 32, true),
                    Activation::Identity,
                    reduce,
                )
                &&& self.loads_fused(
                    place,
                    "symmetric_conv_long_longratio",
                    "vertical_long_to_small_conv_longratio",
                    "horizontal_small_to_long_conv_longratio",
                    7,
                    long,
                )
                &&& self.loads_fused(
                    place,
                    "symmetric_conv_long_midratio",
                    "vertical_long_to_small_conv_midratio",
                    "horizontal_small_to_long_conv_midratio",
                    5,
                    mid,
                )
                &&& self.loads_fused(
                    place,
                    "symmetric_conv_long_shortratio",
                    "vertical_long_to_small_conv_shortratio",
                    "horizontal_small_to_long_conv_shortratio",
                    3,
                    short,
                )
                &&& self.loads_conv_bn(
                    place.at("conv_final"),
                    pointwise_spec(32, 64, true),
                    "norm",
                    Activation::Relu,
                    last,
                )
                &&& #[trigger] chains(five_of(reduce, long, mid, short, last), inner)
                &&& sums(inner, result)
            }
    }

    fn load_intraclass(&self, builder: &VarBuilder) -> (result: Loaded)
        requires
            self.valid(),
            builder.weights.wf(),
        ensures
            self.loads_intraclass(place_of(*builder), result),
            loaded_wf(result),
    {
        let reduce: Loaded = self.load_conv(
            &builder.pp("conv_reduce_channel"),
            &pointwise(64, 32, true),
            Activation::Identity,
        );
        let long: Loaded = self.load_fused(
            builder,
            "symmetric_conv_long_longratio",
            "vertical_long_to_small_conv_longratio",
            "horizontal_small_to_long_conv_longratio",
            7,
        );
        let mid: Loaded = self.load_fused(
            builder,
            "symmetric_conv_long_midratio",
            "vertical_long_to_small_conv_midratio",
            "horizontal_small_to_long_conv_midratio",
            5,
        );
        let short: Loaded = self.load_fused(
            builder,
            "symmetric_conv_long_shortratio",
            "vertical_long_to_small_conv_shortratio",
            "horizontal_small_to_long_conv_shortratio",
            3,
        );
        let last: Loaded = self.load_conv_bn(
            &builder.pp("conv_final"),
            &pointwise(32, 64, true),
            "norm",
            Activation::Relu,
        );
        let ghost parts = five_of(reduce, long, mid, short, last);
        let list: Vec<Loaded> = vec![reduce, long, mid, short, last];
        assert(list@ =~= parts);
        let inner: Loaded = chain(list);
        assert(chains(parts, inner));
        sum(inner)
    }

    /// The convolutions that bring the stages to the same channels.
    pub open spec fn are_adjustments(&self, place: Place, parts: Seq<Loaded>) -> bool {
        &&& parts.len() == 4
        &&& forall|i: int|
            0 <= i < 4 ==> self.loads_conv(
                place.at("input_channel_adjustment_convolution").at_index(i),
                pointwise_spec(medium_channels(i), 256, false),
                Activation::Identity,
                #[trigger] parts[i],
            )
    }

    fn load_adjustments(&self, builder: &VarBuilder) -> (result: Vec<Loaded>)
        requires
            self.valid(),
            builder.weights.wf(),
        ensures
            self.are_adjustments(place_of(*builder), result@),
            all_loaded_wf(result@),
    {
        let mut parts: Vec<Loaded> = Vec::new();
        for index in 0..4usize
            invariant
                self.valid(),
                builder.weights.wf(),
                parts@.len() == index,
                all_loaded_wf(parts@),
                forall|i: int|
                    0 <= i < index ==> self.loads_conv(
                        place_of(*builder).at("input_channel_adjustment_convolution").at_index(i),
                        pointwise_spec(medium_channels(i), 256, false),
                        Activation::Identity,
                        #[trigger] parts@[i],
                    ),
        {
            let part: Loaded = self.load_conv(
                &builder.pp("input_channel_adjustment_convolution").pp_index(index),
                &pointwise(medium_channel(index), 256, false),
                Activation::Identity,
            );
            parts.push(part);
        }
        parts
    }

    /// Dense convolutions, taken apart.
    pub open spec fn are_projections(
        &self,
        place: Place,
        name: &str,
        in_channels: usize,
        parts: Seq<Loaded>,
    ) -> bool {
        &&& parts.len() == 4
        &&& forall|i: int|
            0 <= i < 4 ==> self.loads_rank_one(
                place.at(name).at_index(i),
                in_channels,
                64,
                9,
                #[trigger] parts[i],
            )
    }

    fn load_projections(
        &self,
        builder: &VarBuilder,
        name: &str,
        in_channels: usize,
    ) -> (result: Vec<Loaded>)
        requires
            self.valid(),
            builder.weights.wf(),
            in_channels <= 256,
        ensures
            self.are_projections(place_of(*builder), name, in_channels, result@),
            all_loaded_wf(result@),
    {
        let mut parts: Vec<Loaded> = Vec::new();
        for index in 0..4usize
            invariant
                self.valid(),
                builder.weights.wf(),
                in_channels <= 256,
                parts@.len() == index,
                all_loaded_wf(parts@),
                forall|i: int|
                    0 <= i < index ==> self.loads_rank_one(
                        place_of(*builder).at(name).at_index(i),
                        in_channels,
                        64,
                        9,
                        #[trigger] parts@[i],
                    ),
        {
            let part: Loaded = self.load_rank_one(
                &builder.pp(name).pp_index(index),
                in_channels,
                64,
                9,
            );
            parts.push(part);
        }
        parts
    }

    /// The convolutions by which features are passed to the next stage.
    pub open spec fn are_heads(&self, place: Place, parts: Seq<Loaded>) -> bool {
        &&& parts.len() == 3
        &&& forall|i: int|
            0 <= i < 3 ==> self.loads_conv(
                place.at("path_aggregation_head_convolution").at_index(i),
                halving_spec(64, 64),
                Activation::Identity,
                #[trigger] parts[i],
            )
    }

    fn load_heads(&self, builder: &VarBuilder) -> (result: Vec<Loaded>)
        requires
            self.valid(),
            builder.weights.wf(),
        ensures
            self.are_heads(place_of(*builder), result@),
            all_loaded_wf(result@),
    {
        let mut parts: Vec<Loaded> = Vec::new();
        for index in 0..3usize
            invariant
                self.valid(),
                builder.weights.wf(),
                parts@.len() == index,
                all_loaded_wf(parts@),
                forall|i: int|
                    0 <= i < index ==> self.loads_conv(
                        place_of(*builder).at("path_aggregation_head_convolution").at_index(i),
                        halving_spec(64, 64),
                        Activation::Identity,
                        #[trigger] parts@[i],
                    ),
        {
            let part: Loaded = self.load_conv(
                &builder.pp("path_aggregation_head_convolution").pp_index(index),
                &halving(64, 64),
                Activation::Identity,
            );
            parts.push(part);
        }
        parts
    }

    /// The refinements of the stages.
    pub open spec fn are_refinements(&self, place: Place, parts: Seq<Loaded>) -> bool {
        &&& parts.len() == 4
        &&& forall|i: int|
            0 <= i < 4 ==> self.loads_intraclass(
                place.at("intraclass_blocks").at_index(i),
                #[trigger] parts[i],
            )
    }

    fn load_refinements(&self, builder: &VarBuilder) -> (result: Vec<Loaded>)
        requires
            self.valid(),
            builder.weights.wf(),
        ensures
            self.are_refinements(place_of(*builder), result@),
            all_loaded_wf(result@),
    {
        let mut parts: Vec<Loaded> = Vec::new();
        for index in 0..4usize
            invariant
                self.valid(),
                builder.weights.wf(),
                parts@.len() == index,
                all_loaded_wf(parts@),
                forall|i: int|
                    0 <= i < index ==> self.loads_intraclass(
                        place_of(*builder).at("intraclass_blocks").at_index(i),
                        #[trigger] parts@[i],
                    ),
        {
            let part: Loaded = self.load_intraclass(
                &builder.pp("intraclass_blocks").pp_index(index),
            );
            parts.push(part);
        }
        parts
    }

    /// The neck of the medium detector.
    pub open spec fn loads_medium_neck(
        &self,
        place: Place,
        result: Result<Neck, LoadError>,
    ) -> bool {
        exists|
            adjust: Seq<Loaded>,
            project: Seq<Loaded>,
            pan_head: Seq<Loaded>,
            pan_lateral: Seq<Loaded>,
            refine: Seq<Loaded>,
        |
            {
                &&& #[trigger] self.are_adjustments(place, adjust)
                &&& #[trigger] self.are_projections(
                    place,
                    "input_feature_projection_convolution",
                    256,
                    project,
                )
                &&& #[trigger] self.are_heads(place, pan_head)
                &&& #[trigger] self.are_projections(
                    place,
                    "path_aggregation_lateral_convolution",
                    64,
                    pan_lateral,
                )
                &&& #[trigger] self.are_refinements(place, refine)
                &&& is_medium_neck(adjust, project, pan_head, pan_lateral, refine, result)
            }
    }

    /// Loads the neck of the medium detector.
    pub fn load_medium_neck(&self, builder: &VarBuilder) -> (result: Result<Neck, LoadError>)
        requires
            self.valid(),
            builder.weights.wf(),
        ensures
            self.loads_medium_neck(place_of(*builder), result),
            result matches Ok(neck) ==> neck.wf(),
    {
        let adjust: Vec<Loaded> = self.load_adjustments(builder);
        let project: Vec<Loaded> = self.load_projections(
            builder,
            "input_feature_projection_convolution",
            256,
        );
        let pan_head: Vec<Loaded> = self.load_heads(builder);
        let pan_lateral: Vec<Loaded> = self.load_projections(
            builder,
            "path_aggregation_lateral_convolution",
            64,
        );
        let refine: Vec<Loaded> = self.load_refinements(builder);
        let ghost place = place_of(*builder);
        let result: Result<Neck, LoadError> = medium_neck(
            adjust,
            project,
            pan_head,
            pan_lateral,
            refine,
        );
        assert(is_medium_neck(adjust@, project@, pan_head@, pan_lateral@, refine@, result));
        assert(self.are_adjustments(place, adjust@));
        assert(self.are_heads(place, pan_head@));
        assert(self.are_refinements(place, refine@));
        result
    }

    /// The factors of the channels as the small necks have them.
    pub open spec fn loads_fifths(&self, place: Place, channels: usize, result: Loaded) -> bool {
        exists|inner: Loaded|
            self.loads_factors(
                place.at("conv1"),
                place.at("conv2"),
                channels,
                channels / 4,
                Activation::HardSigmoidFive,
                inner,
            ) && #[trigger] gated(inner, result)
    }

    fn load_fifths(&self, builder: &VarBuilder, channels: usize) -> (result: Loaded)
        requires
            builder.weights.wf(),
        ensures
            self.loads_fifths(place_of(*builder), channels, result),
            loaded_wf(result),
    {
        gate(
            self.load_factors(
                &builder.pp("conv1"),
                &builder.pp("conv2"),
                channels,
                channels / 4,
                Activation::HardSigmoidFive,
            ),
        )
    }

    /// A convolution of single cells and factors of its channels.
    pub open spec fn loads_insert(
        &self,
        place: Place,
        in_channels: usize,
        out_channels: usize,
        result: Loaded,
    ) -> bool {
        exists|first: Loaded, second: Loaded|
            {
                &&& self.loads_conv(
                    place.at("in_conv"),
                    pointwise_spec(in_channels, out_channels, false),
                    Activation::Identity,
                    first,
                )
                &&& self.loads_fifths(place.at("squeeze_excitation_block"), out_channels, second)
                &&& #[trigger] chains(pair_of(first, second), result)
            }
    }

    fn load_insert(
        &self,
        builder: &VarBuilder,
        in_channels: usize,
        out_channels: usize,
    ) -> (result: Loaded)
        requires
            builder.weights.wf(),
        ensures
            self.loads_insert(place_of(*builder), in_channels, out_channels, result),
            loaded_wf(result),
    {
        let first: Loaded = self.load_conv(
            &builder.pp("in_conv"),
            &pointwise(in_channels, out_channels, false),
            Activation::Identity,
        );
        let second: Loaded = self.load_fifths(
            &builder.pp("squeeze_excitation_block"),
            out_channels,
        );
        let ghost both = pair_of(first, second);
        let list: Vec<Loaded> = vec![first, second];
        assert(list@ =~= both);
        chain(list)
    }

    /// A convolution of each channel, one of single cells that leaves a quarter
    /// of the channels, and factors of those.
    pub open spec fn loads_separable(
        &self,
        place: Place,
        channels: usize,
        kernel: usize,
        result: Loaded,
    ) -> bool {
        exists|depthwise: Loaded, narrow: Loaded, factors: Loaded|
            {
                &&& self.loads_conv(
                    place.at("depthwise_convolution"),
                    square_spec(channels, channels, kernel, [1, 1], true, channels),
                    Activation::Identity,
                    depthwise,
                )
                &&& self.loads_conv(
                    place.at("pointwise_convolution"),
                    pointwise_spec(channels, channels / 4, false),
                    Activation::Identity,
                    narrow,
                )
                &&& self.loads_fifths(
                    place.at("squeeze_excitation_module"),
                    channels / 4,
                    factors,
                )
                &&& #[trigger] chains(three_of(depthwise, narrow, factors), result)
            }
    }

    fn load_separable(
        &self,
        builder: &VarBuilder,
        channels: usize,
        kernel: usize,
    ) -> (result: Loaded)
        requires
            builder.weights.wf(),
            channels > 0,
        ensures
            self.loads_separable(place_of(*builder), channels, kernel, result),
            loaded_wf(result),
    {
        let spec: ConvSpec = square(channels, channels, kernel, [1, 1], true, channels);
        assert(spec == square_spec(channels, channels, kernel, [1, 1], true, channels));
        let depthwise: Loaded = self.load_conv(
            &builder.pp("depthwise_convolution"),
            &spec,
            Activation::Identity,
        );
        let narrow: Loaded = self.load_conv(
            &builder.pp("pointwise_convolution"),
            &pointwise(channels, channels / 4, false),
            Activation::Identity,
        );
        let factors: Loaded = self.load_fifths(
            &builder.pp("squeeze_excitation_module"),
            channels / 4,
        );
        let ghost parts = three_of(depthwise, narrow, factors);
        let list: Vec<Loaded> = vec![depthwise, narrow, factors];
        assert(list@ =~= parts);
        chain(list)
    }

    /// What brings the stages to the same channels.
    pub open spec fn are_inserts(
        &self,
        place: Place,
        stages: [usize; 4],
        channels: usize,
        parts: Seq<Loaded>,
    ) -> bool {
        &&& parts.len() == 4
        &&& forall|i: int|
            0 <= i < 4 ==> self.loads_insert(
                place.at("insert_conv").at_index(i),
                stages@[i],
                channels,
                #[trigger] parts[i],
            )
    }

    fn load_inserts(
        &self,
        builder: &VarBuilder,
        stages: [usize; 4],
        channels: usize,
    ) -> (result: Vec<Loaded>)
        requires
            self.valid(),
            builder.weights.wf(),
        ensures
            self.are_inserts(place_of(*builder), stages, channels, result@),
            all_loaded_wf(result@),
    {
        let mut parts: Vec<Loaded> = Vec::new();
        for index in 0..4usize
            invariant
                self.valid(),
                builder.weights.wf(),
                parts@.len() == index,
                all_loaded_wf(parts@),
                forall|i: int|
                    0 <= i < index ==> self.loads_insert(
                        place_of(*builder).at("insert_conv").at_index(i),
                        stages@[i],
                        channels,
                        #[trigger] parts@[i],
                    ),
        {
            let part: Loaded = self.load_insert(
                &builder.pp("insert_conv").pp_index(index),
                stages[index],
                channels,
            );
            parts.push(part);
        }
        parts
    }

    /// What the fused features go through.
    pub open spec fn are_separables(
        &self,
        place: Place,
        channels: usize,
        kernel: usize,
        parts: Seq<Loaded>,
    ) -> bool {
        &&& parts.len() == 4
        &&& forall|i: int|
            0 <= i < 4 ==> self.loads_separable(
                place.at("input_conv").at_index(i),
                channels,
                kernel,
                #[trigger] parts[i],
            )
    }

    fn load_separables(
        &self,
        builder: &VarBuilder,
        channels: usize,
        kernel: usize,
    ) -> (result: Vec<Loaded>)
        requires
            self.valid(),
            builder.weights.wf(),
            channels > 0,
        ensures
            self.are_separables(place_of(*builder), channels, kernel, result@),
            all_loaded_wf(result@),
    {
        let mut parts: Vec<Loaded> = Vec::new();
        for index in 0..4usize
            invariant
                self.valid(),
                builder.weights.wf(),
                channels > 0,
                parts@.len() == index,
                all_loaded_wf(parts@),
                forall|i: int|
                    0 <= i < index ==> self.loads_separable(
                        place_of(*builder).at("input_conv").at_index(i),
                        channels,
                        kernel,
                        #[trigger] parts@[i],
                    ),
        {
            let part: Loaded = self.load_separable(
                &builder.pp("input_conv").pp_index(index),
                channels,
                kernel,
            );
            parts.push(part);
        }
        parts
    }

    /// The neck of the smaller detectors.
    pub open spec fn loads_fpn(
        &self,
        place: Place,
        stages: [usize; 4],
        channels: usize,
        kernel: usize,
        result: Result<Neck, LoadError>,
    ) -> bool {
        exists|insert: Seq<Loaded>, input: Seq<Loaded>|
            {
                &&& #[trigger] self.are_inserts(place, stages, channels, insert)
                &&& #[trigger] self.are_separables(place, channels, kernel, input)
                &&& is_fpn(insert, input, result)
            }
    }

    /// Loads the neck of the smaller detectors.
    pub fn load_fpn(
        &self,
        builder: &VarBuilder,
        stages: [usize; 4],
        channels: usize,
        kernel: usize,
    ) -> (result: Result<Neck, LoadError>)
        requires
            self.valid(),
            builder.weights.wf(),
            channels > 0,
        ensures
            self.loads_fpn(place_of(*builder), stages, channels, kernel, result),
            result matches Ok(neck) ==> neck.wf(),
    {
        let insert: Vec<Loaded> = self.load_inserts(builder, stages, channels);
        let input: Vec<Loaded> = self.load_separables(builder, channels, kernel);
        let ghost place = place_of(*builder);
        let result: Result<Neck, LoadError> = fpn(insert, input);
        assert(self.are_inserts(place, stages, channels, insert@));
        assert(self.are_separables(place, channels, kernel, input@));
        result
    }

    /// The head of a detector.
    pub open spec fn loads_detector_head(
        &self,
        place: Place,
        channels: usize,
        result: Loaded,
    ) -> bool {
        exists|down: Loaded, up: Loaded, last: Loaded|
            {
                &&& self.loads_conv_bn(
                    place.at("conv_down"),
                    square_spec(channels, channels / 4, 3, [1, 1], false, 1),
                    "norm",
                    Activation::Relu,
                    down,
                )
                &&& self.loads_doubling_bn(
                    place.at("conv_up"),
                    channels / 4,
                    channels / 4,
                    Activation::Relu,
                    up,
                )
                &&& self.loads_doubling(
                    place.at("conv_final"),
                    channels / 4,
                    1,
                    Activation::Sigmoid,
                    last,
                )
                &&& #[trigger] chains(three_of(down, up, last), result)
            }
    }

    /// Loads the head of a detector.
    pub fn load_detector_head(&self, builder: &VarBuilder, channels: usize) -> (result: Loaded)
        requires
            self.valid(),
            builder.weights.wf(),
        ensures
            self.loads_detector_head(place_of(*builder), channels, result),
            loaded_wf(result),
    {
        let hidden: usize = channels / 4;
        let spec: ConvSpec = square(channels, hidden, 3, [1, 1], false, 1);
        assert(spec == square_spec(channels, hidden, 3, [1, 1], false, 1));
        let down: Loaded = self.load_conv_bn(
            &builder.pp("conv_down"),
            &spec,
            "norm",
            Activation::Relu,
        );
        let up: Loaded = self.load_doubling_bn(
            &builder.pp("conv_up"),
            hidden,
            hidden,
            Activation::Relu,
        );
        let last: Loaded = self.load_doubling(
            &builder.pp("conv_final"),
            hidden,
            1,
            Activation::Sigmoid,
        );
        let ghost parts = three_of(down, up, last);
        let list: Vec<Loaded> = vec![down, up, last];
        assert(list@ =~= parts);
        chain(list)
    }

    /// The neck of the detector of a size.
    pub open spec fn loads_neck(
        &self,
        place: Place,
        size: ModelSize,
        result: Result<Neck, LoadError>,
    ) -> bool {
        match size {
            ModelSize::Medium => self.loads_medium_neck(place, result),
            ModelSize::Small => self.loads_fpn(place, [48, 96, 192, 384], 96, 7, result),
            ModelSize::Tiny => self.loads_fpn(place, [32, 48, 64, 160], 64, 5, result),
        }
    }

    fn load_neck(&self, builder: &VarBuilder, size: ModelSize) -> (result: Result<Neck, LoadError>)
        requires
            self.valid(),
            builder.weights.wf(),
        ensures
            self.loads_neck(place_of(*builder), size, result),
            result matches Ok(neck) ==> neck.wf(),
    {
        match size {
            ModelSize::Medium => self.load_medium_neck(builder),
            ModelSize::Small => {
                let stages: [usize; 4] = [48, 96, 192, 384];
                self.load_fpn(builder, stages, 96, 7)
            },
            ModelSize::Tiny => {
                let stages: [usize; 4] = [32, 48, 64, 160];
                self.load_fpn(builder, stages, 64, 5)
            },
        }
    }

    /// The detector of a size.
    pub open spec fn loads_detector(
        &self,
        place: Place,
        size: ModelSize,
        result: Result<Detector, LoadError>,
    ) -> bool {
        let encoder = place.at("model").at("backbone").at("encoder");
        let neck = place.at("model").at("neck");
        let head = place.at("head");
        exists|specs: Seq<Vec<BlockSpec>>| #[trigger]
            is_detector_stages(specs, detector_channels(size)@) && match result {
                Ok(detector) => {
                    &&& self.loads_backbone(
                        encoder,
                        specs,
                        detector_stem(size),
                        Ok(detector.backbone),
                    )
                    &&& self.loads_neck(neck, size, Ok(detector.neck))
                    &&& self.loads_detector_head(head, head_channels(size), Ok(detector.head))
                },
                Err(error) => {
                    ||| self.loads_backbone(encoder, specs, detector_stem(size), Err(error))
                    ||| {
                        &&& exists|backbone: Backbone| #[trigger]
                            self.loads_backbone(encoder, specs, detector_stem(size), Ok(backbone))
                        &&& {
                            ||| self.loads_neck(neck, size, Err(error))
                            ||| {
                                &&& exists|module: Neck| #[trigger]
                                    self.loads_neck(neck, size, Ok(module))
                                &&& self.loads_detector_head(head, head_channels(size), Err(error))
                            }
                        }
                    }
                },
            }
    }

    /// Loads the detector of a size from stored weights.
    pub fn load_detector(&self, weights: &Weights, size: ModelSize) -> (result: Result<
        Detector,
        LoadError,
    >)
        requires
            self.valid(),
            weights.wf(),
        ensures
            self.loads_detector(root_of(*weights), size, result),
            result matches Ok(detector) ==> detector.wf(),
    {
        let builder: VarBuilder = weights.builder();
        assert(place_of(builder) == root_of(*weights));
        let (channels, mid_channels): ([usize; 4], usize) = match size {
            ModelSize::Medium => ([128, 256, 512, 896], 64),
            ModelSize::Small => ([48, 96, 192, 384], 24),
            ModelSize::Tiny => ([32, 48, 64, 160], 16),
        };
        assert(channels@ =~= detector_channels(size)@);
        let specs: Vec<Vec<BlockSpec>> = detector_stages_for_channels(channels);
        proof {
            lemma_detector_loadable(specs@, channels@);
        }
        let stem: StemSpec = StemSpec::Large { mid_channels, out_channels: channels[0] };
        assert(stem == detector_stem(size));
        let backbone: Backbone = match self.load_backbone(
            &builder.pp("model").pp("backbone").pp("encoder"),
            &specs,
            stem,
        ) {
            Err(error) => {
                assert(is_detector_stages(specs@, detector_channels(size)@));
                return Err(error);
            },
            Ok(backbone) => backbone,
        };
        assert(is_detector_stages(specs@, detector_channels(size)@));
        let neck: Neck = match self.load_neck(&builder.pp("model").pp("neck"), size) {
            Err(error) => {
                return Err(error);
            },
            Ok(neck) => neck,
        };
        let channels: usize = match size {
            ModelSize::Medium => 256,
            ModelSize::Small => 96,
            ModelSize::Tiny => 64,
        };
        match self.load_detector_head(&builder.pp("head"), channels) {
            Err(error) => Err(error),
            Ok(head) => Ok(Detector { backbone, neck, head }),
        }
    }

    /// Attention between the columns, added to what it takes.
    pub open spec fn loads_attention_half(
        &self,
        place: Place,
        hidden_size: usize,
        num_heads: usize,
        result: Loaded,
    ) -> bool {
        exists|norm: Loaded, attention: Loaded, inner: Loaded|
            {
                &&& self.loads_layer_norm(place.at("layer_norm1"), hidden_size, norm)
                &&& self.loads_attention(place.at("self_attn"), hidden_size, num_heads, attention)
                &&& #[trigger] chains(pair_of(norm, attention), inner)
                &&& sums(inner, result)
            }
    }

    fn load_attention_half(
        &self,
        builder: &VarBuilder,
        hidden_size: usize,
        num_heads: usize,
    ) -> (result: Loaded)
        requires
            builder.weights.wf(),
            num_heads > 0,
            hidden_size * 3 <= usize::MAX,
        ensures
            self.loads_attention_half(place_of(*builder), hidden_size, num_heads, result),
            loaded_wf(result),
    {
        let norm: Loaded = self.load_layer_norm(&builder.pp("layer_norm1"), hidden_size);
        let attention: Loaded = self.load_attention(
            &builder.pp("self_attn"),
            hidden_size,
            num_heads,
        );
        let ghost both = pair_of(norm, attention);
        let list: Vec<Loaded> = vec![norm, attention];
        assert(list@ =~= both);
        let inner: Loaded = chain(list);
        assert(chains(both, inner));
        sum(inner)
    }

    /// Two linear layers for each column, added to what they take.
    pub open spec fn loads_mlp_half(
        &self,
        place: Place,
        hidden_size: usize,
        mlp_size: usize,
        result: Loaded,
    ) -> bool {
        exists|norm: Loaded, first: Loaded, second: Loaded, inner: Loaded|
            {
                &&& self.loads_layer_norm(place.at("layer_norm2"), hidden_size, norm)
                &&& self.loads_linear(
                    place.at("mlp").at("fc1"),
                    hidden_size,
                    mlp_size,
                    Activation::Silu,
                    false,
                    first,
                )
                &&& self.loads_linear(
                    place.at("mlp").at("fc2"),
                    mlp_size,
                    hidden_size,
                    Activation::Identity,
                    false,
                    second,
                )
                &&& #[trigger] chains(three_of(norm, first, second), inner)
                &&& sums(inner, result)
            }
    }

    fn load_mlp_half(
        &self,
        builder: &VarBuilder,
        hidden_size: usize,
        mlp_size: usize,
    ) -> (result: Loaded)
        requires
            builder.weights.wf(),
        ensures
            self.loads_mlp_half(place_of(*builder), hidden_size, mlp_size, result),
            loaded_wf(result),
    {
        let norm: Loaded = self.load_layer_norm(&builder.pp("layer_norm2"), hidden_size);
        let first: Loaded = self.load_linear(
            &builder.pp("mlp").pp("fc1"),
            hidden_size,
            mlp_size,
            Activation::Silu,
            false,
        );
        let second: Loaded = self.load_linear(
            &builder.pp("mlp").pp("fc2"),
            mlp_size,
            hidden_size,
            Activation::Identity,
            false,
        );
        let ghost parts = three_of(norm, first, second);
        let list: Vec<Loaded> = vec![norm, first, second];
        assert(list@ =~= parts);
        let inner: Loaded = chain(list);
        assert(chains(parts, inner));
        sum(inner)
    }

    /// A block of the encoder.
    pub open spec fn loads_rec_block(
        &self,
        place: Place,
        hidden_size: usize,
        mlp_size: usize,
        result: Loaded,
    ) -> bool {
        exists|first: Loaded, second: Loaded|
            {
                &&& self.loads_attention_half(place, hidden_size, 8, first)
                &&& self.loads_mlp_half(place, hidden_size, mlp_size, second)
                &&& #[trigger] chains(pair_of(first, second), result)
            }
    }

    fn load_rec_block(
        &self,
        builder: &VarBuilder,
        hidden_size: usize,
        mlp_size: usize,
    ) -> (result: Loaded)
        requires
            builder.weights.wf(),
            hidden_size * 3 <= usize::MAX,
        ensures
            self.loads_rec_block(place_of(*builder), hidden_size, mlp_size, result),
            loaded_wf(result),
    {
        let first: Loaded = self.load_attention_half(builder, hidden_size, 8);
        let second: Loaded = self.load_mlp_half(builder, hidden_size, mlp_size);
        let ghost both = pair_of(first, second);
        let list: Vec<Loaded> = vec![first, second];
        assert(list@ =~= both);
        chain(list)
    }

    /// The convolutions whose planes the encoder reads by column.
    pub open spec fn loads_lead(
        &self,
        place: Place,
        input_channels: usize,
        hidden_size: usize,
        result: Loaded,
    ) -> bool {
        exists|reduce: Loaded, local: Loaded, added: Loaded|
            {
                &&& self.loads_conv_bn(
                    place.at("conv_block").at("1"),
                    pointwise_spec(input_channels, hidden_size, false),
                    "normalization",
                    Activation::Silu,
                    reduce,
                )
                &&& self.loads_conv_bn(
                    place.at("conv_block").at("2"),
                    local_spec(hidden_size),
                    "normalization",
                    Activation::Silu,
                    local,
                )
                &&& #[trigger] sums(local, added)
                &&& #[trigger] chains(pair_of(reduce, added), result)
            }
    }

    fn load_lead(
        &self,
        builder: &VarBuilder,
        input_channels: usize,
        hidden_size: usize,
    ) -> (result: Loaded)
        requires
            self.valid(),
            builder.weights.wf(),
            hidden_size > 0,
        ensures
            self.loads_lead(place_of(*builder), input_channels, hidden_size, result),
            loaded_wf(result),
    {
        let reduce: Loaded = self.load_conv_bn(
            &builder.pp("conv_block").pp("1"),
            &pointwise(input_channels, hidden_size, false),
            "normalization",
            Activation::Silu,
        );
        let spec: ConvSpec = ConvSpec {
            in_channels: hidden_size,
            out_channels: hidden_size,
            kernel: [1, 7],
            stride: [1, 1],
            pads: [0, 3, 0, 3],
            bias: false,
            groups: hidden_size,
        };
        assert(spec == local_spec(hidden_size));
        let local: Loaded = self.load_conv_bn(
            &builder.pp("conv_block").pp("2"),
            &spec,
            "normalization",
            Activation::Silu,
        );
        let ghost local_seen = local;
        let added: Loaded = sum(local);
        assert(sums(local_seen, added));
        let ghost both = pair_of(reduce, added);
        let list: Vec<Loaded> = vec![reduce, added];
        assert(list@ =~= both);
        chain(list)
    }

    /// The blocks of the encoder and the normalisation behind them.
    pub open spec fn loads_body(
        &self,
        place: Place,
        hidden_size: usize,
        mlp_size: usize,
        result: Loaded,
    ) -> bool {
        exists|first: Loaded, second: Loaded, norm: Loaded|
            {
                &&& self.loads_rec_block(
                    place.at("svtr_block").at("0"),
                    hidden_size,
                    mlp_size,
                    first,
                )
                &&& self.loads_rec_block(
                    place.at("svtr_block").at("1"),
                    hidden_size,
                    mlp_size,
                    second,
                )
                &&& self.loads_layer_norm(place.at("norm"), hidden_size, norm)
                &&& #[trigger] chains(three_of(first, second, norm), result)
            }
    }

    fn load_body(
        &self,
        builder: &VarBuilder,
        hidden_size: usize,
        mlp_size: usize,
    ) -> (result: Loaded)
        requires
            builder.weights.wf(),
            hidden_size * 3 <= usize::MAX,
        ensures
            self.loads_body(place_of(*builder), hidden_size, mlp_size, result),
            loaded_wf(result),
    {
        let first: Loaded = self.load_rec_block(
            &builder.pp("svtr_block").pp("0"),
            hidden_size,
            mlp_size,
        );
        let second: Loaded = self.load_rec_block(
            &builder.pp("svtr_block").pp("1"),
            hidden_size,
            mlp_size,
        );
        let norm: Loaded = self.load_layer_norm(&builder.pp("norm"), hidden_size);
        let ghost parts = three_of(first, second, norm);
        let list: Vec<Loaded> = vec![first, second, norm];
        assert(list@ =~= parts);
        chain(list)
    }

    /// The head that reads a line by attention.
    pub open spec fn loads_light_head(
        &self,
        place: Place,
        input_channels: usize,
        hidden_size: usize,
        mlp_size: usize,
        classes: usize,
        result: Loaded,
    ) -> bool {
        exists|skip: Loaded, lead: Loaded, body: Loaded, encoder: Loaded, classifier: Loaded|
            {
                &&& self.loads_conv_bn(
                    place.at("encoder").at("conv_block").at("0"),
                    pointwise_spec(input_channels, hidden_size, false),
                    "normalization",
                    Activation::Silu,
                    skip,
                )
                &&& self.loads_lead(place.at("encoder"), input_channels, hidden_size, lead)
                &&& self.loads_body(place.at("encoder"), hidden_size, mlp_size, body)
                &&& #[trigger] encodes(skip, lead, body, encoder)
                &&& self.loads_linear(
                    place.at("head"),
                    hidden_size,
                    classes,
                    Activation::Identity,
                    true,
                    classifier,
                )
                &&& #[trigger] chains(pair_of(encoder, classifier), result)
            }
    }

    fn load_light_head(
        &self,
        builder: &VarBuilder,
        input_channels: usize,
        hidden_size: usize,
        mlp_size: usize,
        classes: usize,
    ) -> (result: Loaded)
        requires
            self.valid(),
            builder.weights.wf(),
            hidden_size > 0,
            hidden_size * 3 <= usize::MAX,
        ensures
            self.loads_light_head(
                place_of(*builder),
                input_channels,
                hidden_size,
                mlp_size,
                classes,
                result,
            ),
            loaded_wf(result),
    {
        let below: VarBuilder = builder.pp("encoder");
        let skip: Loaded = self.load_conv_bn(
            &below.pp("conv_block").pp("0"),
            &pointwise(input_channels, hidden_size, false),
            "normalization",
            Activation::Silu,
        );
        let lead: Loaded = self.load_lead(&below, input_channels, hidden_size);
        let body: Loaded = self.load_body(&below, hidden_size, mlp_size);
        let ghost parts = (skip, lead, body);
        let encoder: Loaded = encode(skip, lead, body);
        assert(encodes(parts.0, parts.1, parts.2, encoder));
        let classifier: Loaded = self.load_linear(
            &builder.pp("head"),
            hidden_size,
            classes,
            Activation::Identity,
            true,
        );
        let ghost both = pair_of(encoder, classifier);
        let list: Vec<Loaded> = vec![encoder, classifier];
        assert(list@ =~= both);
        chain(list)
    }

    /// The head that reads a line by convolutions.
    pub open spec fn loads_tiny_head(&self, place: Place, result: Loaded) -> bool {
        exists|first: Loaded, second: Loaded, third: Loaded, fourth: Loaded|
            {
                &&& self.loads_line_conv(
                    place.at("conv1"),
                    place.at("norm1"),
                    160,
                    5,
                    160,
                    Activation::HardSwish,
                    first,
                )
                &&& self.loads_line_conv(
                    place.at("conv2"),
                    place.at("norm2"),
                    160,
                    1,
                    1,
                    Activation::HardSwish,
                    second,
                )
                &&& self.loads_linear(
                    place.at("fc1"),
                    160,
                    80,
                    Activation::Identity,
                    false,
                    third,
                )
                &&& self.loads_linear(
                    place.at("fc2"),
                    80,
                    6_906,
                    Activation::Identity,
                    true,
                    fourth,
                )
                &&& #[trigger] chains(
                    five_of(first, second, Ok(Module::Columns), third, fourth),
                    result,
                )
            }
    }

    fn load_tiny_head(&self, builder: &VarBuilder) -> (result: Loaded)
        requires
            self.valid(),
            builder.weights.wf(),
        ensures
            self.loads_tiny_head(place_of(*builder), result),
            loaded_wf(result),
    {
        let first: Loaded = self.load_line_conv(
            &builder.pp("conv1"),
            &builder.pp("norm1"),
            160,
            5,
            160,
            Activation::HardSwish,
        );
        let second: Loaded = self.load_line_conv(
            &builder.pp("conv2"),
            &builder.pp("norm2"),
            160,
            1,
            1,
            Activation::HardSwish,
        );
        let third: Loaded = self.load_linear(
            &builder.pp("fc1"),
            160,
            80,
            Activation::Identity,
            false,
        );
        let fourth: Loaded = self.load_linear(
            &builder.pp("fc2"),
            80,
            6_906,
            Activation::Identity,
            true,
        );
        let ghost parts = five_of(first, second, Ok(Module::Columns), third, fourth);
        let list: Vec<Loaded> = vec![first, second, Ok(Module::Columns), third, fourth];
        assert(list@ =~= parts);
        chain(list)
    }

    /// The head of the recognizer of a size.
    pub open spec fn loads_recognizer_head(
        &self,
        place: Place,
        size: ModelSize,
        result: Loaded,
    ) -> bool {
        match size {
            ModelSize::Medium => self.loads_light_head(place, 768, 192, 768, 18_710, result),
            ModelSize::Small => self.loads_light_head(place, 384, 120, 240, 18_710, result),
            ModelSize::Tiny => self.loads_tiny_head(place, result),
        }
    }

    /// The recognizer of a size.
    pub open spec fn loads_recognizer(
        &self,
        place: Place,
        size: ModelSize,
        result: Result<Recognizer, LoadError>,
    ) -> bool {
        let encoder = place.at("model").at("backbone").at("encoder");
        let head = place.at("head");
        exists|specs: Seq<Vec<BlockSpec>>| #[trigger]
            is_sized_recognizer_stages(specs, size) && match result {
                Ok(recognizer) => {
                    &&& self.loads_backbone(
                        encoder,
                        specs,
                        recognizer_stem(size),
                        Ok(recognizer.backbone),
                    )
                    &&& self.loads_recognizer_head(head, size, Ok(recognizer.head))
                },
                Err(error) => {
                    ||| self.loads_backbone(encoder, specs, recognizer_stem(size), Err(error))
                    ||| {
                        &&& exists|backbone: Backbone| #[trigger]
                            self.loads_backbone(
                                encoder,
                                specs,
                                recognizer_stem(size),
                                Ok(backbone),
                            )
                        &&& self.loads_recognizer_head(head, size, Err(error))
                    }
                },
            }
    }

    /// Loads the recognizer of a size from stored weights.
    pub fn load_recognizer(&self, weights: &Weights, size: ModelSize) -> (result: Result<
        Recognizer,
        LoadError,
    >)
        requires
            self.valid(),
            weights.wf(),
        ensures
            self.loads_recognizer(root_of(*weights), size, result),
            result matches Ok(recognizer) ==> recognizer.wf(),
    {
        let builder: VarBuilder = weights.builder();
        assert(place_of(builder) == root_of(*weights));
        let specs: Vec<Vec<BlockSpec>> = match size {
            ModelSize::Medium => recognizer_stages(),
            ModelSize::Small => small_recognizer_stages(),
            ModelSize::Tiny => tiny_recognizer_stages(),
        };
        proof {
            lemma_recognizer_loadable(specs@, size);
        }
        let stem: StemSpec = match size {
            ModelSize::Medium => StemSpec::Large { mid_channels: 64, out_channels: 128 },
            ModelSize::Small => StemSpec::Large { mid_channels: 48, out_channels: 96 },
            ModelSize::Tiny => StemSpec::Small { mid_channels: 24, out_channels: 48 },
        };
        let backbone: Backbone = match self.load_backbone(
            &builder.pp("model").pp("backbone").pp("encoder"),
            &specs,
            stem,
        ) {
            Err(error) => {
                assert(is_sized_recognizer_stages(specs@, size));
                return Err(error);
            },
            Ok(backbone) => backbone,
        };
        assert(is_sized_recognizer_stages(specs@, size));
        let root: VarBuilder = builder.pp("head");
        let head: Loaded = match size {
            ModelSize::Medium => self.load_light_head(&root, 768, 192, 768, 18_710),
            ModelSize::Small => self.load_light_head(&root, 384, 120, 240, 18_710),
            ModelSize::Tiny => self.load_tiny_head(&root),
        };
        match head {
            Err(error) => Err(error),
            Ok(head) => Ok(Recognizer { backbone, head }),
        }
    }
}

/// Each block of a stage has channels, twice as many of which can be counted.
pub open spec fn stage_loadable(specs: Seq<BlockSpec>) -> bool {
    forall|i: int|
        0 <= i < specs.len() ==> 0 < (#[trigger] specs[i]).in_channels && specs[i].in_channels * 2
            <= usize::MAX
}

/// Each block of all stages has channels.
pub open spec fn stages_loadable(specs: Seq<Vec<BlockSpec>>) -> bool {
    forall|i: int| 0 <= i < specs.len() ==> stage_loadable((#[trigger] specs[i])@)
}

/// A convolution that halves both sides of planes.
pub open spec fn halving_spec(in_channels: usize, out_channels: usize) -> ConvSpec {
    square_spec(in_channels, out_channels, 3, [2, 2], false, 1)
}

fn halving(in_channels: usize, out_channels: usize) -> (result: ConvSpec)
    ensures
        result == halving_spec(in_channels, out_channels),
{
    square(in_channels, out_channels, 3, [2, 2], false, 1)
}

/// A convolution of two by two cells, padded behind.
pub open spec fn corner_spec(in_channels: usize, out_channels: usize) -> ConvSpec {
    ConvSpec {
        in_channels,
        out_channels,
        kernel: [2, 2],
        stride: [1, 1],
        pads: [0, 0, 1, 1],
        bias: false,
        groups: 1,
    }
}

fn corner(in_channels: usize, out_channels: usize) -> (result: ConvSpec)
    ensures
        result == corner_spec(in_channels, out_channels),
{
    ConvSpec {
        in_channels,
        out_channels,
        kernel: [2, 2],
        stride: [1, 1],
        pads: [0, 0, 1, 1],
        bias: false,
        groups: 1,
    }
}

/// Windows of two by two cells, padded behind.
pub open spec fn corner_windows() -> PoolOptions {
    PoolOptions {
        kernel: [2, 2],
        strides: [1, 1],
        pads: [0, 0, 1, 1],
        ceil_mode: false,
        count_include_pad: false,
    }
}

/// The channels of the stages of the medium detector.
pub open spec fn medium_channels(stage: int) -> usize {
    if stage == 0 {
        128
    } else if stage == 1 {
        256
    } else if stage == 2 {
        512
    } else {
        896
    }
}

fn medium_channel(stage: usize) -> (result: usize)
    ensures
        result == medium_channels(stage as int),
{
    match stage {
        0 => 128,
        1 => 256,
        2 => 512,
        _ => 896,
    }
}

/// The neck of the medium detector from its modules, or the first refusal.
pub open spec fn is_medium_neck(
    adjust: Seq<Loaded>,
    project: Seq<Loaded>,
    pan_head: Seq<Loaded>,
    pan_lateral: Seq<Loaded>,
    refine: Seq<Loaded>,
    result: Result<Neck, LoadError>,
) -> bool {
    match result {
        Ok(
            Neck::Medium {
                adjust: first,
                project: second,
                pan_head: third,
                pan_lateral: fourth,
                refine: fifth,
            },
        ) => {
            &&& gathers(adjust, Ok(first@))
            &&& gathers(project, Ok(second@))
            &&& gathers(pan_head, Ok(third@))
            &&& gathers(pan_lateral, Ok(fourth@))
            &&& gathers(refine, Ok(fifth@))
        },
        Err(error) => {
            ||| gathers(adjust, Err(error))
            ||| succeeds(adjust) && gathers(project, Err(error))
            ||| succeeds(adjust) && succeeds(project) && gathers(pan_head, Err(error))
            ||| succeeds(adjust) && succeeds(project) && succeeds(pan_head) && gathers(
                pan_lateral,
                Err(error),
            )
            ||| succeeds(adjust) && succeeds(project) && succeeds(pan_head) && succeeds(
                pan_lateral,
            ) && gathers(refine, Err(error))
        },
        _ => false,
    }
}

fn medium_neck(
    adjust: Vec<Loaded>,
    project: Vec<Loaded>,
    pan_head: Vec<Loaded>,
    pan_lateral: Vec<Loaded>,
    refine: Vec<Loaded>,
) -> (result: Result<Neck, LoadError>)
    requires
        all_loaded_wf(adjust@) && all_loaded_wf(project@) && all_loaded_wf(pan_head@),
        all_loaded_wf(pan_lateral@) && all_loaded_wf(refine@),
        adjust@.len() == 4 && project@.len() == 4 && pan_head@.len() == 3,
        pan_lateral@.len() == 4 && refine@.len() == 4,
    ensures
        is_medium_neck(adjust@, project@, pan_head@, pan_lateral@, refine@, result),
        result matches Ok(neck) ==> neck.wf(),
{
    match gather(adjust) {
        Err(error) => Err(error),
        Ok(adjust) => match gather(project) {
            Err(error) => Err(error),
            Ok(project) => match gather(pan_head) {
                Err(error) => Err(error),
                Ok(pan_head) => match gather(pan_lateral) {
                    Err(error) => Err(error),
                    Ok(pan_lateral) => match gather(refine) {
                        Err(error) => Err(error),
                        Ok(refine) => Ok(
                            Neck::Medium { adjust, project, pan_head, pan_lateral, refine },
                        ),
                    },
                },
            },
        },
    }
}

/// The neck of the smaller detectors from its modules, or the first refusal.
pub open spec fn is_fpn(
    insert: Seq<Loaded>,
    input: Seq<Loaded>,
    result: Result<Neck, LoadError>,
) -> bool {
    match result {
        Ok(Neck::Fpn { insert: first, input: second }) => {
            &&& gathers(insert, Ok(first@))
            &&& gathers(input, Ok(second@))
        },
        Err(error) => {
            ||| gathers(insert, Err(error))
            ||| succeeds(insert) && gathers(input, Err(error))
        },
        _ => false,
    }
}

fn fpn(insert: Vec<Loaded>, input: Vec<Loaded>) -> (result: Result<Neck, LoadError>)
    requires
        all_loaded_wf(insert@) && all_loaded_wf(input@),
        insert@.len() == 4 && input@.len() == 4,
    ensures
        is_fpn(insert@, input@, result),
        result matches Ok(neck) ==> neck.wf(),
{
    match gather(insert) {
        Err(error) => Err(error),
        Ok(insert) => match gather(input) {
            Err(error) => Err(error),
            Ok(input) => Ok(Neck::Fpn { insert, input }),
        },
    }
}

/// An encoder from its modules, or the first refusal.
pub open spec fn encodes(skip: Loaded, lead: Loaded, body: Loaded, result: Loaded) -> bool {
    match (skip, lead, body, result) {
        (Err(error), _, _, Err(refusal)) => refusal == error,
        (Ok(_), Err(error), _, Err(refusal)) => refusal == error,
        (Ok(_), Ok(_), Err(error), Err(refusal)) => refusal == error,
        (Ok(first), Ok(second), Ok(third), Ok(Module::Encoder(one, two, three))) => *one == first
            && *two == second && *three == third,
        _ => false,
    }
}

fn encode(skip: Loaded, lead: Loaded, body: Loaded) -> (result: Loaded)
    requires
        loaded_wf(skip) && loaded_wf(lead) && loaded_wf(body),
    ensures
        encodes(skip, lead, body, result),
        loaded_wf(result),
{
    match (skip, lead, body) {
        (Err(error), _, _) => Err(error),
        (_, Err(error), _) => Err(error),
        (_, _, Err(error)) => Err(error),
        (Ok(first), Ok(second), Ok(third)) => Ok(
            Module::Encoder(Box::new(first), Box::new(second), Box::new(third)),
        ),
    }
}

/// The convolution of each channel of the encoder along the line.
pub open spec fn local_spec(channels: usize) -> ConvSpec {
    ConvSpec {
        in_channels: channels,
        out_channels: channels,
        kernel: [1, 7],
        stride: [1, 1],
        pads: [0, 3, 0, 3],
        bias: false,
        groups: channels,
    }
}

/// All stored tensors, under their own names.
pub open spec fn root_of(weights: Weights) -> Place {
    Place { contents: weights.contents(), prefix: Seq::empty() }
}

/// The channels of the stages of a detector.
pub open spec fn detector_channels(size: ModelSize) -> [usize; 4] {
    match size {
        ModelSize::Medium => [128, 256, 512, 896],
        ModelSize::Small => [48, 96, 192, 384],
        ModelSize::Tiny => [32, 48, 64, 160],
    }
}

/// The stem of a detector.
pub open spec fn detector_stem(size: ModelSize) -> StemSpec {
    match size {
        ModelSize::Medium => StemSpec::Large { mid_channels: 64, out_channels: 128 },
        ModelSize::Small => StemSpec::Large { mid_channels: 24, out_channels: 48 },
        ModelSize::Tiny => StemSpec::Large { mid_channels: 16, out_channels: 32 },
    }
}

/// The channels that the head of a detector takes.
pub open spec fn head_channels(size: ModelSize) -> usize {
    match size {
        ModelSize::Medium => 256,
        ModelSize::Small => 96,
        ModelSize::Tiny => 64,
    }
}

/// The stem of a recognizer.
pub open spec fn recognizer_stem(size: ModelSize) -> StemSpec {
    match size {
        ModelSize::Medium => StemSpec::Large { mid_channels: 64, out_channels: 128 },
        ModelSize::Small => StemSpec::Large { mid_channels: 48, out_channels: 96 },
        ModelSize::Tiny => StemSpec::Small { mid_channels: 24, out_channels: 48 },
    }
}

/// The stages of the recognizer of a size.
pub open spec fn is_sized_recognizer_stages(stages: Seq<Vec<BlockSpec>>, size: ModelSize) -> bool {
    match size {
        ModelSize::Medium => is_recognizer_stages(
            stages,
            seq![128, 256, 512, 768],
            seq![false, false, true],
            seq![false, true, false, true, false, true, false],
            seq![false, true, false],
        ),
        ModelSize::Small => is_recognizer_stages(
            stages,
            seq![96, 96, 192, 384],
            seq![false, false],
            seq![false, true, false, true, false, true, false],
            seq![false, true, false],
        ),
        ModelSize::Tiny => is_recognizer_stages(
            stages,
            seq![48, 48, 96, 160],
            seq![false],
            seq![false, true, false],
            seq![false, true, false, false],
        ),
    }
}

proof fn lemma_stage_loadable(
    stage: Seq<BlockSpec>,
    incoming: int,
    outgoing: int,
    vertical: int,
    horizontal: int,
    gated: Seq<bool>,
)
    requires
        is_stage(stage, incoming, outgoing, vertical, horizontal, gated),
        0 < incoming <= 1_000,
        0 < outgoing <= 1_000,
    ensures
        stage_loadable(stage),
{
    assert forall|i: int| 0 <= i < stage.len() implies 0 < (#[trigger] stage[i]).in_channels
        && stage[i].in_channels * 2 <= usize::MAX by {
        if i > 0 {
            assert(stage[i].is_block(outgoing, outgoing, 1, 1, gated[i]));
        }
    }
}

proof fn lemma_detector_loadable(stages: Seq<Vec<BlockSpec>>, channels: Seq<usize>)
    requires
        is_detector_stages(stages, channels),
        forall|i: int| 0 <= i < 4 ==> 0 < #[trigger] channels[i] <= 1_000,
    ensures
        stages_loadable(stages),
{
    let first: int = channels[0] as int;
    let second: int = channels[1] as int;
    let third: int = channels[2] as int;
    let fourth: int = channels[3] as int;
    lemma_stage_loadable(stages[0]@, first, first, 1, 1, seq![true, false]);
    lemma_stage_loadable(stages[1]@, first, second, 2, 2, seq![false, true, false]);
    lemma_stage_loadable(stages[2]@, second, third, 2, 2, seq![false, true, false, true, false]);
    lemma_stage_loadable(stages[3]@, third, fourth, 2, 2, seq![false, true, false]);
    assert forall|i: int| 0 <= i < stages.len() implies stage_loadable((#[trigger] stages[i])@) by {
        assert(i == 0 || i == 1 || i == 2 || i == 3);
    }
}

proof fn lemma_four_loadable(
    stages: Seq<Vec<BlockSpec>>,
    channels: Seq<int>,
    second: Seq<bool>,
    third: Seq<bool>,
    fourth: Seq<bool>,
)
    requires
        is_recognizer_stages(stages, channels, second, third, fourth),
        0 < channels[0] <= 1_000 && 0 < channels[1] <= 1_000,
        0 < channels[2] <= 1_000 && 0 < channels[3] <= 1_000,
    ensures
        stages_loadable(stages),
{
    lemma_stage_loadable(stages[0]@, channels[0], channels[0], 1, 1, seq![true]);
    lemma_stage_loadable(stages[1]@, channels[0], channels[1], 1, 1, second);
    lemma_stage_loadable(stages[2]@, channels[1], channels[2], 2, 1, third);
    lemma_stage_loadable(stages[3]@, channels[2], channels[3], 2, 1, fourth);
    assert forall|i: int| 0 <= i < stages.len() implies stage_loadable((#[trigger] stages[i])@) by {
        assert(i == 0 || i == 1 || i == 2 || i == 3);
    }
}

proof fn lemma_recognizer_loadable(stages: Seq<Vec<BlockSpec>>, size: ModelSize)
    requires
        is_sized_recognizer_stages(stages, size),
    ensures
        stages_loadable(stages),
        stages.len() == 4,
{
    match size {
        ModelSize::Medium => {
            lemma_four_loadable(
                stages,
                seq![128, 256, 512, 768],
                seq![false, false, true],
                seq![false, true, false, true, false, true, false],
                seq![false, true, false],
            );
        },
        ModelSize::Small => {
            lemma_four_loadable(
                stages,
                seq![96, 96, 192, 384],
                seq![false, false],
                seq![false, true, false, true, false, true, false],
                seq![false, true, false],
            );
        },
        ModelSize::Tiny => {
            lemma_four_loadable(
                stages,
                seq![48, 48, 96, 160],
                seq![false],
                seq![false, true, false],
                seq![false, true, false, false],
            );
        },
    }
}

/// Three modules in a list.
pub open spec fn three_of(first: Loaded, second: Loaded, third: Loaded) -> Seq<Loaded> {
    seq![first, second, third]
}

/// Four modules in a list.
pub open spec fn four_of(
    first: Loaded,
    second: Loaded,
    third: Loaded,
    fourth: Loaded,
) -> Seq<Loaded> {
    seq![first, second, third, fourth]
}

/// Five modules in a list.
pub open spec fn five_of(
    first: Loaded,
    second: Loaded,
    third: Loaded,
    fourth: Loaded,
    fifth: Loaded,
) -> Seq<Loaded> {
    seq![first, second, third, fourth, fifth]
}

/// Two modules in a list.
pub open spec fn pair_of(first: Loaded, second: Loaded) -> Seq<Loaded> {
    seq![first, second]
}

/// The channels that each stage gives to the head of a detector.
pub open spec fn neck_channels(size: ModelSize) -> usize {
    match size {
        ModelSize::Medium => 64,
        ModelSize::Small => 24,
        ModelSize::Tiny => 16,
    }
}

/// The channels that the head of a recognizer takes.
pub open spec fn line_channels(size: ModelSize) -> usize {
    match size {
        ModelSize::Medium => 768,
        ModelSize::Small => 384,
        ModelSize::Tiny => 160,
    }
}

/// The channels that a stem gives.
pub open spec fn stem_channels(stem: StemSpec) -> usize {
    match stem {
        StemSpec::Large { out_channels, .. } => out_channels,
        StemSpec::Small { out_channels, .. } => out_channels,
    }
}

/// The parts of a detector fit together: the stem gives the channels that the
/// first stage takes, each stage those that the next takes and those that the
/// neck takes of it, and the neck those that the head takes.
pub proof fn lemma_detector_fits(stages: Seq<Vec<BlockSpec>>, size: ModelSize)
    requires
        is_detector_stages(stages, detector_channels(size)@),
    ensures
        stages[0]@[0].in_channels == stem_channels(detector_stem(size)),
        forall|i: int|
            0 <= i < 4 ==> (#[trigger] stages[i])@.last().out_channels == detector_channels(
                size,
            )@[i],
        forall|i: int|
            0 < i < 4 ==> (#[trigger] stages[i])@[0].in_channels == detector_channels(size)@[i
                - 1],
        size == ModelSize::Medium ==> forall|i: int|
            0 <= i < 4 ==> #[trigger] medium_channels(i) == detector_channels(size)@[i],
        head_channels(size) == 4 * neck_channels(size),
{
    let channels = detector_channels(size)@;
    lemma_detector_chains(stages, channels);
    assert forall|i: int| 0 <= i < 4 implies (#[trigger] stages[i])@.last().out_channels
        == channels[i] by {
        assert(i == 0 || i == 1 || i == 2 || i == 3);
    }
    assert forall|i: int| 0 < i < 4 implies (#[trigger] stages[i])@[0].in_channels == channels[i
        - 1] by {
        assert(i == 1 || i == 2 || i == 3);
    }
}

/// The parts of a recognizer fit together: the stem gives the channels that the
/// first stage takes, and the last stage those that the head takes.
pub proof fn lemma_recognizer_fits(stages: Seq<Vec<BlockSpec>>, size: ModelSize)
    requires
        is_sized_recognizer_stages(stages, size),
    ensures
        stages.len() == 4,
        stages[0]@[0].in_channels == stem_channels(recognizer_stem(size)),
        stages[1]@[0].in_channels == stages[0]@.last().out_channels,
        stages[2]@[0].in_channels == stages[1]@.last().out_channels,
        stages[3]@[0].in_channels == stages[2]@.last().out_channels,
        stages[3]@.last().out_channels == line_channels(size),
{
    let middle = match size {
        ModelSize::Medium => seq![128int, 256, 512, 768],
        ModelSize::Small => seq![96int, 96, 192, 384],
        ModelSize::Tiny => seq![48int, 48, 96, 160],
    };
    let second = match size {
        ModelSize::Medium => seq![false, false, true],
        ModelSize::Small => seq![false, false],
        ModelSize::Tiny => seq![false],
    };
    let third = match size {
        ModelSize::Tiny => seq![false, true, false],
        _ => seq![false, true, false, true, false, true, false],
    };
    let fourth = match size {
        ModelSize::Tiny => seq![false, true, false, false],
        _ => seq![false, true, false],
    };
    assert(is_recognizer_stages(stages, middle, second, third, fourth));
    lemma_stage_chains(stages[0]@, middle[0], middle[0], 1, 1, seq![true]);
    lemma_stage_chains(stages[1]@, middle[0], middle[1], 1, 1, second);
    lemma_stage_chains(stages[2]@, middle[1], middle[2], 2, 1, third);
    lemma_stage_chains(stages[3]@, middle[2], middle[3], 2, 1, fourth);
}

impl Detector {
    /// Loads the detector of a size from the bytes of an archive of weights.
    pub fn load<
        B: Fn(Single, Single) -> Single,
        S: Fn(Single, Single, Single, Single) -> Single,
        Q: Fn(Single) -> bool,
        C: Fn(Vec<Single>, usize) -> Option<(Vec<Single>, Vec<Single>)>,
        A: Fn(Vec<Single>, Vec<Single>, Vec<Single>, usize) -> bool,
    >(loader: &Loader<B, S, Q, C, A>, bytes: &[u8], size: ModelSize) -> (result: Result<
        Detector,
        LoadError,
    >)
        requires
            loader.valid(),
        ensures
            exists|weights: Result<Weights, WeightsError>| #[trigger]
                reads_archive(bytes@, weights) && match weights {
                    Err(error) => result == Err::<Detector, LoadError>(LoadError::Weights(error)),
                    Ok(stored) => loader.loads_detector(root_of(stored), size, result),
                },
            result matches Ok(detector) ==> detector.wf(),
    {
        let weights: Result<Weights, WeightsError> = Weights::load(bytes);
        assert(reads_archive(bytes@, weights));
        match &weights {
            Err(error) => Err(LoadError::Weights(*error)),
            Ok(stored) => loader.load_detector(stored, size),
        }
    }
}

impl Recognizer {
    /// Loads the recognizer of a size from the bytes of an archive of weights.
    pub fn load<
        B: Fn(Single, Single) -> Single,
        S: Fn(Single, Single, Single, Single) -> Single,
        Q: Fn(Single) -> bool,
        C: Fn(Vec<Single>, usize) -> Option<(Vec<Single>, Vec<Single>)>,
        A: Fn(Vec<Single>, Vec<Single>, Vec<Single>, usize) -> bool,
    >(loader: &Loader<B, S, Q, C, A>, bytes: &[u8], size: ModelSize) -> (result: Result<
        Recognizer,
        LoadError,
    >)
        requires
            loader.valid(),
        ensures
            exists|weights: Result<Weights, WeightsError>| #[trigger]
                reads_archive(bytes@, weights) && match weights {
                    Err(error) => result == Err::<Recognizer, LoadError>(LoadError::Weights(error)),
                    Ok(stored) => loader.loads_recognizer(root_of(stored), size, result),
                },
            result matches Ok(recognizer) ==> recognizer.wf(),
    {
        let weights: Result<Weights, WeightsError> = Weights::load(bytes);
        assert(reads_archive(bytes@, weights));
        match &weights {
            Err(error) => Err(LoadError::Weights(*error)),
            Ok(stored) => loader.load_recognizer(stored, size),
        }
    }
}

} // verus!
