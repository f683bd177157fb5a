# playa

The core of an image-sequence player, written in Verus: the functions in
`src/` carry contracts that Verus proves, apart from the small wrappers
marked `external_body` around calls into `lru`, `uuid`, `dirs-next`,
`regex` and std, whose contracts are trusted.

- `src/` — the verified library: sequence path parsing and detection, file
  and composition nodes, layer timing and tracks, the project's node graph
  (lookup, naming, deletion, traversal, cycle checks), frame status and
  pixel-buffer operations, which file frames a composite needs and what it
  is made of, the frame cache over
  `lru` with its byte budget, printf-style frame patterns over `regex`,
  selection and playhead decisions, and application paths.
  Public `law_*` proof functions state properties that hold across calls.
- `tests/` — ordinary Rust tests of the library on concrete values.
- `app/` — the command-line front end and what Verus does not take: file
  and environment access, floating-point blending,
  the event bus, JSON persistence, and the directory walk (`glob`).
