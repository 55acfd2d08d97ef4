# ppocr

A verified runtime for the PP-OCRv6 text detector and recognizer.

`src/` is the library. Every public function in it carries a contract that Verus proves; private
helpers have one where their callers need it. What is trusted instead of proved is named below.

- tensors and their operations (`tensor`, `shape`, `layout`, `reshape`, `slicing`, `joining`,
  `broadcast`, `reduction`, `pooling`, `matmul`, `conv`, `conv_transpose`, `operations`);
- the kernels that they rest on (`kernels`, `product`, `packing`, `sparse`, `window`,
  `convolution`, `panels`, `pointwise`, `elementwise`, `accumulate`);
- layers with prepared weights, and how they are carried out together (`conv_layer`,
  `conv_plan`, `conv_transpose_layer`, `linear`, `fused_layers`, `folding`, `rank_one`);
- the networks: their modules, how weights are loaded into them and how they are run
  (`functions`, `network`, `networks`, `loading`, `architectures`, `models`, `weights`);
- what stands around the networks: pictures and model inputs (`images`, `preprocess`,
  `chunks`, `rectify`, `annotations`, `reading`), detector outputs (`components`, `detections`),
  text (`ctc`, `dictionary`, `text`), paths (`paths`), buffers (`arena`), processors (`cpu_sets`),
  and the command-line tools (`benchmark`, `commands`, `sidecar`, `staticize`).

Floating point is not part of the proofs. Values are either a type parameter or the bits of a
number (`single::Single`), and what is done to them is a function that the caller hands in. The
contracts say which function is applied to which values, in which order.

Laws that span functions are public proof functions, among them that layers carried out together
give what they give one behind the other (`equivalence`), that interleaved and row-major weights
give the same product (`packing`), that dimensions that are reordered and put back, or inserted and
removed, give the tensor (`transposition`, `reshape`), that what stands behind the content of a
line does not change its text (`ctc`), and that a path to a model's data is given back unchanged
where it is put in again (`sidecar`).

Five wrappers are trusted: Verus believes their contracts without proof. They make the calls into
outside crates: `crop_imm` and `resize_triangle` in `images` into `image`, `read_archive` and
`read_data_end` in `weights` into `safetensors` and `serde_json`, and `parse_record` in
`annotations` into `serde_json`. Trusted too is the contract of `String::push` in `text`. Four
functions without a body name what such calls return (`resampled`, `archive_of`, `data_end_of`,
`record_of`): the contracts speak of the names, and say nothing of what they are on given bytes.

`app/` holds the command-line tools and the floating-point functions; `tests/` holds the tests.
