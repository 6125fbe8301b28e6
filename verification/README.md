# dorfromantik

A verified engine for a hex-tile placement game: tiles with six terrain edges are placed
on an offset hex grid, same-terrain segments join into groups across matching edges,
quest tiles ask for a count of some terrain in their groups, and placements are scored.

The library in `src/` is written in Verus. Every function there carries a contract that
Verus proves, except two one-line wrappers in `text` around std's `String::push` and
`str::to_lowercase`, whose contracts are trusted:

- `tile` — edges, turning, segment layouts, quest tiles read from their prefab names;
- `board` — placement rules, grouping of segments, quest evaluation;
- `preview` — what the watched quests would show for a hovered tile;
- `quest_manager` — open quests, levels and the quest counts handed to generation;
- `score_manager` — fitting edges, perfect placements, rewards and the tile stack;
- `unity_random`, `generator`, `game_config` — the integer parts of tile generation;
- `keyed`, `text` — lists read as maps, and character-level string helpers;
- `laws` — properties that hold across operations (grid geometry, symmetric edge rules,
  turning tiles and their segments, segment codes and preset names read back, quests
  that stay decided, what an evaluation records and counts, evaluation that settles).

`app/` holds what works with `f32` weights, files and the console: probability tables,
weighted draws, quest difficulty, tile generation and the serialisable form of a move.
