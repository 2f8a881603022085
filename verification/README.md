# rs-namin core

The logic of a small animation toolkit, written in Verus with its behaviour
stated as contracts and proved.

- `src/` — the verified library: L-system rewriting and turtle plans
  (`l_system`), the scene store and its draw orders (`scene`) with laws over
  whole histories of calls (`scene_history`), the checks before binding one
  object's property to another's (`binding`),
  the plot-expression tokenizer and parser (`expr`), mesh building and
  triangle chunking within macroquad's draw-call limits (`mesh`) with the
  greedy packing law (`mesh_packing`), reading
  dvisvgm SVG text and path data (`svg`), character prefixes (`chars`), and
  the video catalogue (`videos`).
- `app/` — ordinary Rust around it: floating-point geometry and evaluation,
  macroquad meshes and textures, and running `latex`/`dvisvgm`.
- `tests/` — tests of the library on concrete values.
