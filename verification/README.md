# paddleocr-vl

The rules of a document parser that reads pages with PaddleOCR-VL and PP-DocLayout,
written in Rust and verified with Verus.

- `src/` is the library. It holds the sizes that images are brought to and the patches
  they are cut into, the prompt and the tokens around an image, the positions of tokens,
  the choice of the next token, the parsing of spotted text, the detections of a page,
  their outlines and their reading order, the crops of a page, the blocks of its result
  and its Markdown, the names of files, devices and weights, and the shapes of the
  networks. Every function states what it returns; public proof functions named `law_..`
  state what holds across functions. Floating-point numbers are carried as their bits.
- `tests/` runs the library.
- `app/` is plain Rust around it: the networks on burn's tensors, the tensor backend on
  MLX, the command line, and the files that pages come from and results go to.

The calls into `image`, `regex`, `tokenizers` and `burn-core` that the library makes stand
behind functions marked `external_body` and `assume_specification` items, each with a
comment that says what is taken for granted.
