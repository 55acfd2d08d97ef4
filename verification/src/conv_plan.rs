//! How a convolution is carried out: which kernel serves it, and how its weights
//! are interleaved for that kernel.
use vstd::prelude::*;

verus! {

/// What the machine offers.
#[derive(Clone, Copy, Debug, PartialEq, Eq, Structural)]
pub struct Platform {
    /// A system library multiplies matrices.
    pub system_dense: bool,
    /// The processor has the wide x86 kernels.
    pub wide_kernels: bool,
    /// Spatial convolutions can run without gathering their windows.
    pub direct_spatial: bool,
    /// Two convolutions by a single cell can be carried out together.
    pub pair_fusion: bool,
}

/// The dimensions of a convolution's weights, and how it moves.
#[derive(Clone, Copy, Debug)]
pub struct ConvGeometry {
    pub output_channels: usize,
    pub channels_per_group: usize,
    pub kernel_height: usize,
    pub kernel_width: usize,
    pub strides: [usize; 2],
    pub pads: [usize; 4],
    pub groups: usize,
}

impl ConvGeometry {
    /// The number of weights of an output channel.
    pub open spec fn inner(self) -> int {
        self.channels_per_group * self.kernel_height * self.kernel_width
    }

    /// The kernel is a single cell.
    pub open spec fn single(self) -> bool {
        self.kernel_height == 1 && self.kernel_width == 1
    }

    /// The kernel moves by one.
    pub open spec fn steps_one(self) -> bool {
        self.strides@[0] == 1 && self.strides@[1] == 1
    }

    /// The input is not padded.
    pub open spec fn unpadded(self) -> bool {
        self.pads@[0] == 0 && self.pads@[1] == 0 && self.pads@[2] == 0 && self.pads@[3] == 0
    }

    /// A single cell moves over every cell of an unpadded input.
    pub open spec fn pointwise(self) -> bool {
        self.groups == 1 && self.single() && self.steps_one() && self.unpadded()
    }

    /// Spatial and large enough to be tiled.
    pub open spec fn tiled_spatial(self) -> bool {
        self.groups == 1 && !self.single() && self.inner() >= 128 && self.output_channels >= 16
    }

    /// Large enough by a single cell to look for zeros.
    pub open spec fn sparse_pointwise(self) -> bool {
        self.groups == 1 && self.single() && self.inner() >= 512 && self.output_channels >= 512
    }

    /// Whether zeros are looked for.
    pub open spec fn seeks_zeros(self) -> bool {
        (self.tiled_spatial() || self.sparse_pointwise()) && self.output_channels % 4 == 0
    }

    /// Whether windows are not gathered. `sparse` tells that zeros were found.
    pub open spec fn direct_spatial(self, sparse: bool, platform: Platform) -> bool {
        &&& self.groups == 1 && !self.single()
        &&& self.strides@[0] == 1 || self.strides@[0] == 2
        &&& self.strides@[1] == 1 || self.strides@[1] == 2
        &&& self.output_channels % 4 == 0
        &&& !sparse
        &&& platform.direct_spatial
    }

    /// Whether the system library multiplies.
    pub open spec fn system_pointwise(self, platform: Platform) -> bool {
        platform.system_dense && self.pointwise()
    }

    /// Whether the system library multiplies gathered windows.
    pub open spec fn system_spatial(self, sparse: bool, platform: Platform) -> bool {
        platform.system_dense && self.groups == 1 && !self.single() && !sparse
    }

    /// Whether the wide kernel with six output channels serves.
    pub open spec fn blocked_pointwise(self, sparse: bool, platform: Platform) -> bool {
        &&& platform.wide_kernels
        &&& self.pointwise()
        &&& self.output_channels >= 64
        &&& self.inner() >= 64
        &&& !sparse
    }

    /// Whether the weights are interleaved for products.
    pub open spec fn packed_pointwise(self, sparse: bool, platform: Platform) -> bool {
        &&& self.groups == 1
        &&& self.single() || (!self.steps_one() && self.output_channels >= 48)
            || self.tiled_spatial()
        &&& !self.system_pointwise(platform)
        &&& !self.system_spatial(sparse, platform)
        &&& !self.direct_spatial(sparse, platform)
    }

    /// Whether there is also a form for large products.
    pub open spec fn large_pointwise(self, sparse: bool, platform: Platform) -> bool {
        self.blocked_pointwise(sparse, platform) && self.output_channels % 16 == 0
    }

    /// The number of output channels whose weights are interleaved.
    pub open spec fn block_rows(self, sparse: bool, platform: Platform) -> Option<usize> {
        if self.direct_spatial(sparse, platform) {
            Some(6)
        } else if self.packed_pointwise(sparse, platform) {
            if self.tiled_spatial() || sparse {
                Some(4)
            } else if self.blocked_pointwise(sparse, platform) {
                Some(6)
            } else {
                Some(12)
            }
        } else {
            None
        }
    }
}

/// How a convolution is carried out.
#[derive(Clone, Copy, Debug, PartialEq, Eq, Structural)]
pub struct ConvPlan {
    pub exact_sparse: bool,
    pub direct_spatial: bool,
    pub system_dense_pointwise: bool,
    pub system_dense_spatial: bool,
    pub blocked_pointwise: bool,
    pub packed_pointwise: bool,
    pub large_pointwise: bool,
    pub block_rows: Option<usize>,
}

/// The plan of a convolution.
pub open spec fn plan_of(geometry: ConvGeometry, zeros: bool, platform: Platform) -> ConvPlan {
    let sparse = geometry.seeks_zeros() && zeros;
    ConvPlan {
        exact_sparse: sparse,
        direct_spatial: geometry.direct_spatial(sparse, platform),
        system_dense_pointwise: geometry.system_pointwise(platform),
        system_dense_spatial: geometry.system_spatial(sparse, platform),
        blocked_pointwise: geometry.blocked_pointwise(sparse, platform),
        packed_pointwise: geometry.packed_pointwise(sparse, platform),
        large_pointwise: geometry.large_pointwise(sparse, platform),
        block_rows: geometry.block_rows(sparse, platform),
    }
}


/// The product of three sizes, or the greatest number where it is greater.
fn bounded_product(first: usize, second: usize, third: usize) -> (result: usize)
    ensures
        result == if first * second * third > usize::MAX {
            usize::MAX as int
        } else {
            first * second * third
        },
{
    if first == 0 || second == 0 || third == 0 {
        assert(first * second * third == 0) by (nonlinear_arith)
            requires
                first == 0 || second == 0 || third == 0,
        ;
        return 0;
    }
    match first.checked_mul(second) {
        None => {
            assert(first * second <= first * second * third) by (nonlinear_arith)
                requires
                    first >= 0,
                    second >= 0,
                    third >= 1,
            ;
            usize::MAX
        },
        Some(pair) => match pair.checked_mul(third) {
            None => usize::MAX,
            Some(product) => product,
        },
    }
}

/// Decides how a convolution is carried out. `zeros` tells whether a lossless
/// sparse form of the weights was found where one is looked for.
pub fn plan_conv(geometry: &ConvGeometry, zeros: bool, platform: Platform) -> (result: ConvPlan)
    ensures
        result == plan_of(*geometry, zeros, platform),
{
    let channels: usize = geometry.output_channels;
    let inner: usize = bounded_product(
        geometry.channels_per_group,
        geometry.kernel_height,
        geometry.kernel_width,
    );
    let one_group: bool = geometry.groups == 1;
    let single: bool = geometry.kernel_height == 1 && geometry.kernel_width == 1;
    let steps_one: bool = geometry.strides[0] == 1 && geometry.strides[1] == 1;
    let unpadded: bool = geometry.pads[0] == 0 && geometry.pads[1] == 0 && geometry.pads[2] == 0
        && geometry.pads[3] == 0;
    let pointwise: bool = one_group && single && steps_one && unpadded;
    let tiled_spatial: bool = one_group && !single && inner >= 128 && channels >= 16;
    let sparse_pointwise: bool = one_group && single && inner >= 512 && channels >= 512;
    let exact_sparse: bool = (tiled_spatial || sparse_pointwise) && channels % 4 == 0 && zeros;
    let system_dense_pointwise: bool = platform.system_dense && pointwise;
    let system_dense_spatial: bool = platform.system_dense && one_group && !single && !exact_sparse;
    let direct_spatial: bool = one_group && !single && (geometry.strides[0] == 1
        || geometry.strides[0] == 2) && (geometry.strides[1] == 1 || geometry.strides[1] == 2)
        && channels % 4 == 0 && !exact_sparse && platform.direct_spatial;
    let blocked_pointwise: bool = platform.wide_kernels && pointwise && channels >= 64 && inner
        >= 64 && !exact_sparse;
    let packed_pointwise: bool = one_group && (single || (!steps_one && channels >= 48)
        || tiled_spatial) && !system_dense_pointwise && !system_dense_spatial && !direct_spatial;
    let block_rows: Option<usize> = if direct_spatial {
        Some(6)
    } else if packed_pointwise {
        if tiled_spatial || exact_sparse {
            Some(4)
        } else if blocked_pointwise {
            Some(6)
        } else {
            Some(12)
        }
    } else {
        None
    };
    ConvPlan {
        exact_sparse,
        direct_spatial,
        system_dense_pointwise,
        system_dense_spatial,
        blocked_pointwise,
        packed_pointwise,
        large_pointwise: blocked_pointwise && channels % 16 == 0,
        block_rows,
    }
}

/// The groups of output channels that a pair of convolutions can use; `None`
/// where the convolution is not by a single cell or runs elsewhere.
pub open spec fn pair_rows(geometry: ConvGeometry, plan: ConvPlan, platform: Platform) -> Option<
    usize,
> {
    if platform.pair_fusion && geometry.groups == 1 && geometry.steps_one() && geometry.unpadded()
        && plan.packed_pointwise && !plan.system_dense_pointwise && !plan.exact_sparse {
        if plan.blocked_pointwise {
            Some(6)
        } else {
            Some(12)
        }
    } else {
        None
    }
}

/// The groups of output channels that a pair of convolutions can use.
pub fn packed_pointwise_block_rows(
    geometry: &ConvGeometry,
    plan: &ConvPlan,
    platform: Platform,
) -> (result: Option<usize>)
    ensures
        result == pair_rows(*geometry, *plan, platform),
{
    if platform.pair_fusion && geometry.groups == 1 && geometry.strides[0] == 1
        && geometry.strides[1] == 1 && geometry.pads[0] == 0 && geometry.pads[1] == 0
        && geometry.pads[2] == 0 && geometry.pads[3] == 0 && plan.packed_pointwise
        && !plan.system_dense_pointwise && !plan.exact_sparse {
        if plan.blocked_pointwise {
            Some(6)
        } else {
            Some(12)
        }
    } else {
        None
    }
}

/// For a single cell the groups that a pair uses are those of the interleaved weights.
pub proof fn lemma_pair_rows(geometry: ConvGeometry, zeros: bool, platform: Platform)
    requires
        geometry.single(),
    ensures
        ({
            let plan = plan_of(geometry, zeros, platform);
            pair_rows(geometry, plan, platform) is Some ==> pair_rows(geometry, plan, platform)
                == plan.block_rows
        }),
{
}

/// Products from this many multiplications on use the form for large ones.
pub const LARGE_WORK: usize = 64_000_000;

/// Whether a product is large.
pub open spec fn is_large(batch: int, rows: int, inner: int, plane: int) -> bool {
    batch * rows * inner * plane >= LARGE_WORK
}

/// Whether a product is large; one whose multiplications cannot be counted is.
pub fn large_pointwise_work(
    batch: usize,
    output_channels: usize,
    input_channels: usize,
    height: usize,
    width: usize,
) -> (result: bool)
    requires
        batch > 0 && output_channels > 0 && input_channels > 0 && height > 0 && width > 0,
    ensures
        result == is_large(
            batch as int,
            output_channels as int,
            input_channels as int,
            height * width,
        ),
{
    let first: usize = bounded_product(batch, output_channels, input_channels);
    let second: usize = bounded_product(first, height, width);
    proof {
        let work: int = batch * output_channels * input_channels;
        let plane: int = height * width;
        assert(work >= 1 && plane >= 1) by (nonlinear_arith)
            requires
                work == batch * output_channels * input_channels,
                plane == height * width,
                batch >= 1,
                output_channels >= 1,
                input_channels >= 1,
                height >= 1,
                width >= 1,
        ;
        assert(first * height * width == first * plane) by (nonlinear_arith)
            requires
                plane == height * width,
        ;
        if work > usize::MAX {
            assert(first * plane >= first) by (nonlinear_arith)
                requires
                    plane >= 1,
                    first >= 0,
            ;
            assert(work * plane >= work) by (nonlinear_arith)
                requires
                    plane >= 1,
                    work >= 0,
            ;
            assert(usize::MAX >= LARGE_WORK);
        }
    }
    second >= LARGE_WORK
}

/// Whether a linear layer is large enough for the kernel of sixteen columns.
pub fn use_linear_6x16(input_features: usize, output_features: usize) -> (result: bool)
    ensures
        result == (input_features >= 192 && output_features >= 4_096),
{
    input_features >= 192 && output_features >= 4_096
}

} // verus!
