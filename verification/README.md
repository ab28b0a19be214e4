# tearchan (verified core)

The data structures of the tearchan game engine, written in Verus with their
behaviour stated as contracts and proved.

- `src/` — the verified library:
  - `component`, `group`, `zip`: entity-component storage (one component per entity,
    dense storage with swap-remove) and joins of groups by entity;
  - `entity`: entity ids, saved-world renumbering;
  - `buffer`: the range allocator of batch buffers (best-fit reuse of freed
    ranges, merging, defragmentation, stable sorting) and its event queue;
  - `object_manager`: the ranges of the objects of a batch, turned into events
    about objects;
  - `bitmap`, `image`, `registry`, `horde`: RGBA images, an id-keyed store, the
    directions and moves of the maze game.
- `tests/` — tests run against the compiled library.
- `app/` — thread-shared wrappers (locks, channels, a global renumbering),
  serde forms of the library's data, the data arrays of batch objects and their
  matrix transforms, and conversions to `nalgebra-glm` types.
