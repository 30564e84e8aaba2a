# nucleon

The verified core of a small LLM inference engine for Qwen3 checkpoints in
GGUF form.

- `src/` is the library, written in Verus and proved:
  - `loader/`: the GGUF container parser, the qwen3 config reader, the
    tokenizer-metadata and chat-template checks, the tensor contract
    (shapes, byte ranges, zero padding, completeness, memory budget) and the
    dequantizer that keeps stored values bit-exact. `load_bytes` turns a
    file's bytes into a `Yamf` bundle or names the first rule the file
    breaks.
  - `tokenizer.rs`: builds the byte-level BPE tokenizer (HF `tokenizers`)
    from a bundle after re-checking its border, and encodes, decodes and
    stream-decodes with it.
  - `families/qwen3.rs`: moves a bundle's tensors into the model's named
    fields with their shapes checked, and checks the ids of a forward pass.
  - `tensor.rs`, `backend.rs`, `metal.rs`, `mlx.rs`, `text.rs`: shape and
    index arithmetic, the attention shape contract, kernel dimension checks,
    the pinned MLX versions, and the text builders for messages.
- `tests/` runs the library on concrete inputs, including GGUF files built
  in memory.
- `app/` is ordinary Rust around the library: reading a file from disk,
  the `f32` tensor and the CPU reference backend, weight conversion to
  floats, the MLX forward pass, and error types that implement `Display`.
