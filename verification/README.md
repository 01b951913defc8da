# lib2genlib

Converts a Liberty (`.lib`) cell library into the GENLIB gate format used by
ABC / MapTune.

- `src/` is the verified library:
  - `text.rs`: trimming, splitting, ASCII case folding and the byte/character
    conversions;
  - `scan.rs`: comment removal, whitespace, keyword search, attribute values
    and `type(name) { body }` groups;
  - `table.rs`: the index lists and value rows of NLDM lookup tables;
  - `liberty.rs`: cells, pins (with bundle and bus defaults), timing arcs and
    tables of a library, numbers kept as text;
  - `genlib.rs`: pin phases, function syntax, and which cells become gates;
  - `report.rs`: the GENLIB document and the tally of skipped cells.
- `app/main.rs` is the command-line program: files, number parsing, delay
  lookup in the tables, and formatting.
- `tests/` exercises the library on concrete inputs.
