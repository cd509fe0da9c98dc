# toad_discovery

Project discovery for a workspace of software projects: which stack a
directory holds, how active it is, what its README says, which submodules and
sub-projects it has, how the registry of projects changed between two scans,
and how healthy the workspace is.

- `src/` is the library, written in Verus. Every function takes what was read
  from disk as plain values (`DirEntry` listings, README texts, modification
  times, git probe results) and its contract states exactly what it returns,
  over spec functions on `Seq<char>`. The laws of the library (sorted and
  de-duplicated scans, diffs of equal snapshots being empty, the changelog
  capacity, search results matching their query, ...) are public proof
  functions next to the code they speak of.
- `app/` does the reading: directory listings, file contents, `git`
  probes, the JSON files of the registry, the changelog and the tags, and the
  parallel scan of the projects folder. It hands what it read to the library.
- `tests/` runs the library on concrete values.

Modules of the library:

| module       | contents                                                        |
|--------------|-----------------------------------------------------------------|
| `text`       | character-level `str` behaviour: trim, lines, prefixes, order   |
| `sorting`    | stable sort by a text key, as `sort`/`sort_by` order `String`s  |
| `paths`      | `Path::join`, `==` and `ends_with`, by the text of the paths    |
| `model`      | the records discovery reads and produces, and their views      |
| `strategies` | built-in stack detection by marker files                       |
| `essence`    | the README digest                                               |
| `detection`  | activity tiers, VCS status, sub-projects, project DNA           |
| `scanner`    | search by name, metadata, tags, one project and a whole scan    |
| `reports`    | registry diff, changelog, search and status report             |
