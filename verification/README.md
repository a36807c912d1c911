# elsewhere

The library behind a small world clock: a list of cities, each showing its
local time, with a search box to add more. Everything in `src/` is verified
with Verus; each public function states in its contract what it returns or
changes.

- `search` ranks cities against a query (whole-name prefix, then word
  prefix, then substring; larger population first; then geonameid) and labels
  them, adding the region where a name is shared.
- `saved` is the file format of the saved list: one geonameid per line under
  a header comment, read back forgivingly; and where the file lives.
- `clock` turns an instant and a zone into the clock face and the day hint
  a row shows, and works out how long to wait for the next minute.
- `picker` and `window` hold the state behind the window and its search
  picker, and what each event and each redraw decides.
- `gazetteer` parses the GeoNames dumps, filters them down to populated
  places, collapses duplicates and writes the run's report.
- `saver` and `swapper` are two small standalone views: a list of typed
  notes, and a city that changes at random on each click.
- `text` and `order` hold the character-level helpers and a verified sort.

`app/` is the command that runs the GeoNames filters over the dumps on disk:
reading files, parsing the coordinate columns (floating point) and printing
the report; beside it, the reading and writing of the saved list's file. `tests/` exercises the library on concrete values.
