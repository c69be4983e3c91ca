# dump-json-refs

Schemas, occurrence counts and relations of JSON data, with verified contracts.

Objects in JSON or JSONL input are described by schemas: the label of every field, by name. Equal
schemas are merged and named by paths; items of arrays share a schema or get one for each variant.
Every object is counted for its schema, and relations between schemas are read off the labels.
The result is kept as files, as a SQLite index, as a report and as a graph.

- `src/` is the library. It parses, builds, counts, relates and renders, and it is verified. What
  it calls outside is trusted: the JSON parser and writer (`serde_json`), the string interner
  (`lasso`), the difference of two paths (`pathdiff`) and `String::push`. The contracts of these
  calls stand with them in `json`, `interns`, `outdir` and `text`.
  - `input`, `jsonl`, `json`, `quoted`: from texts to values and top-level objects, and back
  - `walk`, `label`, `kinds`, `path`, `records`: from values to schemas
  - `index`, `statistics`, `relations`, `catalog`: from schemas to what is stored
  - `recorder`, `names`, `interns`, `tables`, `joins`, `stream`, `streamed`: the same for streams
    of lines
  - `report`, `graph`, `outdir`: what is shown and written
  - `laws`, `same_lines`, `same_records`, `overrides`, `same_index`, `same_counts`, `same_stored`,
    `same_text`: what holds of the library as a whole, above all that a stream stores what reading
    at once does
- `app/` is the command line program: arguments, files and the database.
- `tests/` runs the library.
