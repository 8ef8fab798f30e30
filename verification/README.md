# downloads_history

Archives downloaded files into `archives/YYYY-MM/` folders by modification time, indexes
them in SQLite (path, name, size, time, SHA-256), and searches the index by file name.

- `src/` is the library, written in Verus and proved against its contracts:
  - `calendar`: the UTC year and month of a timestamp (through chrono) and the `YYYY-MM`
    folder name;
  - `digest`: streaming SHA-256 (through sha2) and its hexadecimal text (through hex);
  - `path`: Unix path components, depth and equality, file stem and extension, numbered
    names such as `file (1).txt`;
  - `ingest`: the search for a free destination name, the directories to clean up and their
    deepest-first order, the steps of a move, and the row stored per file;
  - `search`: the `LIKE` pattern of a query and the text printed per hit;
  - `text`: decimal and zero-padded rendering of integers.
- `app/` is the command-line program: argument parsing, walking the incoming directory,
  file system operations and the SQLite database.
- `tests/` exercises the library, comparing it with std and chrono where they do the same.
