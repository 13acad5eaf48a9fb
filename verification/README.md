# bins

`bins` shows pastes of paste services (gist, bitbucket, sprunge, hastebin,
pastebin, pastie) on the terminal. A paste of several files is kept as one
paste per file plus an index file that lists each file's name and URL.

Layout:

- `src/` — the verified library (Verus):
  - `text.rs`: characters, decimal numbers, whitespace, splitting and joining;
  - `paste_url.rs`: parsed URLs (through the `url` crate) and their path segments;
  - `maps.rs`: insertion-ordered maps (the `linked_hash_map` crate);
  - `index.rs`: writing and reading index files, with the proof that an
    index reads back to what was written when it lists at least one file,
    its names are distinct, and no name or URL holds a line break or `": "`;
  - `engines.rs`: the services, the files of a paste, choosing files, and
    the text shown for them; the program fetches and writes, and hands each
    result to the next step (`choose_contents`, then `finish_contents`);
  - `configuration.rs`: the configuration document (the `toml` crate parses
    the file's text and reads key paths), settings, file sizes and where the
    file lives;
  - `error.rs`: the library's error.
- `tests/` — tests of the library.
- `app/` — the program: reading and creating the configuration file, the
  command line, network transfers, writing files, JSON output, and the
  floating-point size computation.
