# Voxterra

A voxel world whose logic is written and proved in [Verus](https://github.com/verus-lang/verus):
every function of the library states what it returns or changes, and the proof
that it does so is checked by the verifier.

- `src/` is the library.
  - `coords`, `block`, `packed`, `chunk`, `world`, `registry`, `storage`: blocks,
    chunks with palettes, and the files a world is kept in.
  - `light`: what light is (the least field that its sources and the rules of
    spreading allow), flood fill, removal, and the light of whole chunks.
  - `mesh`: a chunk and its neighbours as quads, one per face or merged greedily.
  - `planet`, `time`: the shape of a world that wraps around, and its clock.
  - `streaming`, `heightmap`, `residency`: full-resolution terrain around the
    camera, what is loaded, and what is to be relit or meshed.
  - `lod`, `handover`, `edited`, `overlay`, `downsample`, `coarse`, `coverage`,
    `horizon`: coarse terrain beyond it.
  - `raycast`, `probe`, `controls`, `settings`: the player.
- `tests/` runs the library on concrete worlds.
- `app/` is the game around it: the window, the menu, the thread pool, files, and
  whatever is computed in floating point.

The public proof functions (`lemma_..`) are the laws of the library: that a
serialized chunk decodes to itself, that the levels of detail partition the
plane and hand over without a gap or an overlap, that two meshers show the same
surface, that an edit on one lap of the world is seen on every lap, and so on.
