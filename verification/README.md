# stagcrest

The verified core of the Stagcrest voxel client, written in Verus: the
logic of the client is stated in `requires`/`ensures` contracts and proved.

## Layout

- `src/` — the library, verified; the one call into the zip crate is a
  trusted wrapper whose contract names the archive's entry list.
  - `light.rs` — per-chunk skylight and block light propagation, vertex
    light sampling and packing.
  - `greedy.rs` — greedy merging of chunk faces, face culling, the cube grid
    of a chunk.
  - `scheduler.rs`, `chunk_map.rs`, `streaming.rs`, `mesh_cache.rs` —
    remesh and GPU upload queues with per-chunk versions, chunk recovery,
    biome grids, the mesh cache and its pending uploads; maps by chunk are
    std hash maps under a packed integer key.
  - `settings.rs`, `installer.rs`, `pack_manager.rs` — resource pack
    settings, zip extraction plans, the pack manager screen.
  - `connect.rs`, `chat.rs`, `hotbar.rs`, `minimap.rs`, `worlds.rs`,
    `graphics.rs`, `loading.rs`, `net.rs`, `text.rs` — smaller client rules.
- `tests/` — tests of the library on concrete values.
- `app/` — a command-line front end: the settings file (TOML), pack
  directories and archives on disk, the connection history (JSON), and
  float geometry for vertex shading.
