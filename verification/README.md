# Bedrock cracker

Recovers the seed of a world from the bedrock pattern of its floor and roof. An observed block
becomes a check on the 48-bit seed of its surface; a search over all seeds, on threads or on the
graphics processor, finds the seeds that pass; a cross comparison between floor and roof leads from
there to the structure seed and the world seed.

* `src/` is the library, verified with Verus: the checks and their estimates, the layout of a
  search, the cross comparison, what the graphics processor is handed and the order in which it
  searches, and the state behind the window. `src/shader.rs` is a transcription of the shader: what
  runs is the text in `app/gpu.rs`, and nothing compares the two. `src/laws/` states what
  holds across modules, such as that a search covers every seed once and that a coarse pass loses
  no candidate.
* `app/` is ordinary Rust around it: threads, the graphics processor, files and the window. The
  window, `app/gui.rs`, is written for the crate `iced` 0.12. `Cargo.toml` does not list it,
  so that this file builds only where it is added.
* `tests/` runs the library, also against the floating-point arithmetic of the machine.

The library trusts five calls into other crates: the multiplier of `java_random`, its `next_long`,
`next_long_reverser::get_next_long`, and `cast_slice` and `pod_collect_to_vec` of `bytemuck`.
