use vstd::prelude::*;

pub mod accumulate;
pub mod annotations;
pub mod architectures;
pub mod arena;
pub mod benchmark;
pub mod broadcast;
pub mod chunks;
pub mod commands;
pub mod components;
pub mod conv;
pub mod conv_layer;
pub mod conv_plan;
pub mod conv_transpose;
pub mod conv_transpose_layer;
pub mod convolution;
pub mod cpu_sets;
pub mod ctc;
pub mod detections;
pub mod dictionary;
pub mod elementwise;
pub mod equivalence;
pub mod folding;
pub mod functions;
pub mod fused_layers;
pub mod images;
pub mod index;
pub mod joining;
pub mod kernels;
pub mod laws;
pub mod layout;
pub mod linear;
pub mod loading;
pub mod matmul;
pub mod models;
pub mod network;
pub mod networks;
pub mod operations;
pub mod packing;
pub mod panels;
pub mod paths;
pub mod permutation;
pub mod pointwise;
pub mod pooling;
pub mod preprocess;
pub mod product;
pub mod rank_one;
pub mod reading;
pub mod rectify;
pub mod reduction;
pub mod reshape;
pub mod shape;
pub mod sidecar;
pub mod single;
pub mod slicing;
pub mod sparse;
pub mod staticize;
pub mod tensor;
pub mod tensor_ops;
pub mod text;
pub mod transposition;
pub mod weights;
pub mod window;

verus! {

} // verus!
