# unholy_force

The logic of the Unholy Force game and its editor, as a Verus library: Verus proves
every function in `src/` against its contract, and the public ones state what they do.

- `grid_math`: the inward and outward spiral walks over a square area, and the
  coloring of a floor's open cells into islands.
- `floor_data`, `floor_configs`, `floor_generator`, `bitset`: floor cells, floor and
  floor part configurations, and the generation of a floor from parts (selection of
  adjacency rules, module constraints, placement, connection of islands).
- `tile_corners`: which corners of a drawn tile belong to a tile group, and which
  border pieces a tile on the edge gets.
- `trie`, `completer`: the word tree and the completion popup of the editor's text
  fields.
- `assets`: the asset database (what is stored, changed, deleted and written back) and
  the naming of asset files.
- `effect_mechanics`: effect graphs, their nodes' decisions and the chain of a tick.
- `app`, `app_stage`, `main_menu`, `editor`, `errors`: the application's stages, the
  main menu's buttons and commands, and the editor's tools.

`app/` holds what touches the file system, the web browser and serde. `tests/` holds
the tests.
