# markov_junior

A MarkovJunior-style procedural generation engine whose logic is proved with Verus.

- `src/` is the verified library: grids and their values, rule parsing and symmetry
  images, the rule nodes (`one`, `all`, `prl`), path, map and convolution nodes, distance
  fields and observations, the interpreter and models, the XML model loader, resource
  readers (PNG rule images through the `image` crate, MagicaVoxel bytes), recordings and
  polar grids. Functions carry `requires`/`ensures` contracts (the polar grid's checksum, whose value
  depends on std's unspecified hasher, has none); the few calls into outside crates and
  unspecified parts of std go through small trusted wrappers whose doc comments say what
  is assumed.
- `tests/` runs the library on concrete inputs.
- `app/` holds what needs the file system or floating point: loading model files and
  their resources, saving and loading recordings, and polar grid geometry.
