# bolt

Tensor metadata, shape algebra and the bookkeeping of a small training
stack, written in Rust and verified with Verus.

## Layout

- `src/` is the verified library.
  - `shape`: validated shapes (`ConcreteShape`), broadcasting, reduction axes.
  - `layout`: strided layouts — indexing, slicing, permuting, reshaping,
    broadcasting, byte offsets and bounds checks.
  - `index`: index expressions (integers, ranges, tuples) turned into indexers.
  - `small_vec`: the fixed-capacity vectors (from `tinyvec`) that hold
    dimensions and strides.
  - `autodiff`: shape rules of autodiff operations, when a result joins the
    gradient graph, and no-grad regions.
  - `nn`: the xorshift generator behind initialisation, naming rules of
    parameter stores, and the matching of a state dictionary against a store.
  - `data`, `datasets`: shuffling of sample indices, the MNIST IDX format and
    batch gathering.
- `tests/` runs the library on concrete values.
- `app/` is the unverified program around it: the thread-local gradient flag,
  the f32 autodiff tensor, parameter stores with their locks, SGD, file
  reading, and an MNIST training loop.

Each public function states its result in `ensures`; the laws that relate
several operations (broadcast symmetry, transposing twice, permuting back,
reshaping back, offsets of row-major layouts, bounds of indexed offsets,
shuffles being permutations, clean state-dictionary round trips, no-grad
regions) are public proof functions next to the code they speak of.
