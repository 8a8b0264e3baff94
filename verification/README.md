# kombox

The world model of a small voxel engine, verified with Verus, and the
engine around it.

- `src/` is the verified library:
  - `world/chunk.rs`: palette-compressed 16^3 chunk sections;
  - `world/worldgen.rs`: the column hash, tree placement and chunk
    generation (terrain layering and trees), with the layering law;
  - `world/mod.rs`: the world's chunk store, solid-block lookup and box
    queries used for collision;
  - `render.rs`: the naive mesher, on grid coordinates (one quad per visible
    face);
  - `hook.rs`: hook contexts and the hook registry;
  - `tick.rs`: tick rate presets.
- `app/` is the engine: window, GPU rendering, camera physics, the
  floating-point noise that gives column heights, and the tick clock.
- `tests/` exercises the library.
