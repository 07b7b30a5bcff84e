# bc4py_plotter

Proof-of-capacity plotting for bc4py, written in Verus.

`src/` is the verified library:

- `sha_plot`, `pochash`, `chain`: the two plot generators (SHA-512 and BLAKE2b
  hash chains) and the chain shape they share;
- `hashing`: the two hash functions, called from `sha2` and `blake2b_simd`;
- `utils`: bech32 address decoding (through the `bech32` crate) into the seed
  bytes of a plot;
- `layout`: unoptimized and optimized plot file layouts, block-wise conversion,
  joining, and the sizes and decisions of plotting;
- `names`, `joiner`: plot file names, choosing the files to join and their order;
- `node`, `prompt`: reading a node's address reply and a typed answer.

`app/` is the command-line program around it: questions, HTTP, files and the
worker pool.
