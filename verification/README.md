# fsscanner

`fsscanner` scans directory trees and processes the files it finds. This
crate holds its logic as a verified library: every function in `src/` carries
a contract that Verus proves, except one trusted wrapper, `path_debug` in
`src/pathfilter.rs`, whose contract names what `Debug` prints for a path.

- `src/components.rs` — Unix paths as sequences of components: parsing a path
  text, rendering components back to text (parsing gives back what was
  rendered), comparisons and prefixes.
- `src/pathutils.rs` — lexical normalization (a leading `~` starts from the
  home directory's text as given; idempotent without a home
  directory; with an absolute home without `..`, however it is spelled,
  normalizing twice gives the same components as once, and the same text
  where the home is written in normal form, whenever the result does not
  begin with `~`; keeps relative paths relative; never climbs above the
  root), file names, stems and extensions,
  joins, prefix stripping, `set_extension`, the candidates and the best match
  for a loosely given path, and the steps of the search for a project root.
- `src/pathfilter.rs` — `Pathfilter`: which paths may be read or written,
  judged against allowed roots and blocked directory names; an accepted
  relative path never leaves any root. A root given as `""` or `.`
  normalizes to the empty path, which is a prefix of every path, so such a
  root admits every absolute path that is not blocked.
- `src/fsscanner_base.rs` — the directory scan as a state machine: queued
  directories, collected files, and link targets entered at most once.
- `src/fsscanner_mt.rs` — where the outputs of a mapped file go, and how the
  errors of a batch are reported.
- `src/fileentry.rs` — file entries, which paths are read, batch sizes, and
  how read outcomes become entries or one error.
- `src/threadpool.rs` — the worker pool's errors and decisions.

`app/` performs the I/O around the library: listing directories, reading
files, resolving links, running worker threads (crossbeam channels), the
serializable form of an entry (serde), and the `collect_to_md` program.
