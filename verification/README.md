# arnis

The computing core of large-area world generation: geographic boxes and how they
are cut into tiles, the way from coordinates to blocks, the planning of a large
world as a grid of chunks that are generated one by one and merged, and grids of
heights in memory-mapped files.

`src/` is the library. Its functions are verified against their contracts, but for
three whose contracts are trusted because they call into other crates:
`elevation::mapping` reads and writes the bytes of a mapping of `memmap2`
(`bytes_of`, `copy_into`), and `elevation::parallel` hands work to the threads of
`rayon` (`map_pieces`).

- `binary64`, `binary32`: floating-point numbers as bit patterns. The operations
  are integer computations, and each contract says which real number the result
  is. `binary64::laws`, `order`, `error` and `excess` hold what is known of them in
  spite of rounding.
- `text`, `bignat`: reading text and large integers.
- `coordinate_system`: points and boxes, tiles, distances, and the transformer.
- `chunked`: chunk plans, command lines, reports, merging, and the order of a run.
- `elevation`: grids of elements in a mapping.

`app/` is ordinary Rust around it: files, processes, the memory maps themselves,
and the functions of floating point (sines, logarithms) whose results the library
takes as arguments.
