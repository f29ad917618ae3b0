# spellcast_finder

A verified word finder for a five-by-five letter board.

- `src/` is the library, checked by Verus:
  - `board`: cells, bonus flags, the board type, bounds checks.
  - `history`: the traced path (cells) and its letters.
  - `config`: replacement budget and diamond settings.
  - `parse`: reading the board text (letters, bonus digits, settings);
    `parse_error` tells the texts that are refused.
  - `score`: the score of a word along a path.
  - `trie`: the dictionary as a word tree; inserting a word adds exactly
    that word.
  - `search`: the board walk; `search` goes on from any path, letter history
    and word text it is given, and `find_from` returns exactly the dictionary
    words that start on a cell, along paths of neighbouring unvisited cells,
    with at most the given number of replaced letters.
  - `render`: decimal numbers, differing positions, path drawings.
  - `tally`: keeping the best finds, one at a time or a cell's whole list
    at once (the kept scores do not depend on the order the finds come in),
    and writing the result text.
- `app/` is the command-line program: it loads the word tree (JSON), reads a
  board from standard input, runs one thread per board cell and prints the
  result.
- `tests/` exercises the library on concrete boards.
