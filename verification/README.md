# slabtastic

A streamable, random-accessible, appendable layout for non-uniform records
addressed by ordinal, written in Verus.

A slab file is a sequence of pages
(`[magic "SLAB"][page_size][records][offsets][16-byte footer]`) that ends
with a pages page: the index mapping each data page's first ordinal to its
file offset.

## Layout

- `src/` — the verified library. It works on the bytes of a file:
  - `encoding`, `constants`, `footer`, `page`, `pages_page`: the wire format,
    with round-trip laws for footers, index entries, pages and the pages page;
  - `config`, `writer`: the writer, which packs records into pages and emits
    the bytes to store; laws state that a finished file reads back the records
    written, in order, that no page exceeds the maximum page size before
    padding, and that appending keeps every old record and adds the new ones
    after the last ordinal; an appending writer hands over no byte before it
    is finished, so an interrupted append leaves the file as it was;
  - `reader`: opening a file from its bytes, lookup by ordinal (binary search
    over the index), iteration, batched iteration and streaming to a sink;
  - `maintenance`, `report`: the computations behind the `slab` tool (page
    listings, ordinal analysis, reordering, line splitting, export framing,
    hex dumps, size statistics);
  - `text`: decimal rendering and the messages of the library's errors.
- `tests/` — tests run against the compiled library.
- `app/` — the `slab` command-line tool: argument parsing, file I/O, printing,
  and background tasks with progress counters.
