# seed_finder

A seed finder for a cultivation game's procedural worlds: it generates the
map of each world seed to count its spirit-soil cells, and it reads the
game's settings to list the elders of the thirteen sects of a world.

The library (`src/`) is verified with Verus; `app/` is the window around it.

## Library modules

- `rng`, `rounding`: the game's two random generators (a rotated linear
  congruential generator and the subtractive generator of .NET's `Random`).
  Where the game scales samples with `f64`/`f32` arithmetic, the library
  computes the same values exactly in integers.
- `terrain`, `constants`, `bits`, `neighbours`, `map_maker`: the map
  generator.  Each terrain owns a bit layer; the generator's invariant keeps
  the terrain layers disjoint and the row padding clear.  The smoothing step
  is specified cell by cell (`smoothed`), the mine walks exactly
  (`mine_walk`), the final grid from the layers (`cell_terrain`).
  `make_map` is split into five stages so that the smoothing between them
  can run elsewhere (`apply_optimized`).
- `stages`: what each step of generation leaves, as functions of the layers
  and the generator (`out_line_model`, `random_and_expand_model`,
  `random_line_model` and `smooth_result` in `map_maker`, composed here
  into the stage models and `make_map_model`); `seed_map` is the map of a
  seed.
- `cover`: once the soil is laid every cell holds exactly one terrain and
  none is wet land; every step of generation keeps this.
- `scan`: one seed's scan, and ranking by count.
- `utils`, `text`, `textops`: the game's string hash, the strings that hash
  to a given seed, and `str`-like operations on character sequences.
- `parse`, `npc`: the item, spell and name tables of the settings files, and
  the elders derived from a world seed.
- `seeds`, `task`: the seed lists and search ranges of the map tab, the
  background task, and the elder tab's state.

## App

`app/` holds the `eframe` window, the directory walk and file reading, the
thread pool (`rayon`) and the GPU (`wgpu`) scanners, and the floating-point
age draw of the elders.

## Tests

`tests/` compares the library with plain floating-point versions of the
game's generators and map maker, and checks the parsers on sample files.
