# abiogenesis

The verified core of a particle simulation on a toroidal (wrapping) world.

- `src/spatial_hash.rs`: a spatial hash grid of buckets addressed by integer
  grid coordinates, with wrapping of coordinates onto the torus, bucket
  indexing, enumeration of the cells within a radius and queries over them.
  Contracts state each operation exactly; proof functions state the laws of
  the grid (wrapping is the Euclidean residue, periodic and idempotent;
  indexing is a bijection between the cells and the buckets; a query
  reaches what was inserted within its radius; a larger radius only adds
  cells and items; a cleared grid answers nothing; a window that fits names
  each cell once).
- `src/particles/`: the particle colours, the bounded index of live
  particles, and the spawner's decisions (placement shape per colour,
  colours of a respawn, round-robin recycling once the capacity is taken,
  counting the spawns of a frame so that a frame never exceeds the capacity,
  recolouring on a change of the colour count). Laws over the hooks state
  that the index never exceeds its capacity and that after a respawn it holds
  exactly the new particles.
- `app/`: the Bevy plugins and systems, and the floating-point geometry
  (world positions to grid cells, toroidal distances), around the library.
- `tests/`: tests of the library.
