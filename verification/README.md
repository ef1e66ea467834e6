# sudoku_gen

A library that generates or imports, solves and validates Sudoku boards of
size 4x4, 6x6, 9x9, 12x12 and 16x16, with regular (rectangular) or irregular
(jigsaw) regions. Every function of the library is written in Verus and
proved against its contract, except two small trusted wrappers whose
contracts are believed: `generate::shuffle` (a random shuffle with `rand`,
which keeps the elements) and `text::push_char` (`String::push`).

## Layout

- `src/` is the verified library.
  - `size`, `cell`, `region`, `board`: the board model (sizes, coordinates,
    region layouts with their validity invariant, cells with values or
    candidate notes).
  - `text`, `display`: import from and export to strings, and the
    human-readable drawing of a board.
  - `validate`: reporting duplicates, incomplete cells and out-of-range values.
  - `progress`, `solution`: what a solving step keeps (filled cells,
    consistent notes, conflict-free values, every solution of the board) and
    how it makes progress.
  - `strategy`, `lines`, `region_notes`: naked and hidden singles, locked
    candidates and hidden sets.
  - `solve`: backtracking over the strategies; a consistent board that has a
    solution is always solved.
  - `generate`, `completion`: seeding the first region and completing a
    board; every fresh regular board is completed.
  - `map_gen`, `layout`: validating and growing irregular region maps; the
    regular layout is valid and every accepted swap keeps a map valid.
  - `difficulty`: turning a solved board into a puzzle.
  - `related`: the regions that share rows and columns with a cell.
  - `menu`: the decisions of the game's menus (button labels, the states a
    pressed button leads to, the numbers of the loading animation).
  - `game_view`: what the game screens draw for a cell (its text and which
    borders mark a region's edge, the lines of the loading grid).
  - `laws`: properties that relate several operations.
- `tests/` exercises the library on concrete boards.
- `app/` is the command-line tool around the library.
