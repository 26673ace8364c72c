# SpaceSniffer1000

A disk usage explorer: it scans a directory tree in the background and shows as a
treemap where the space went.

- `src/` is the library. It holds what is known of the tree, which scans run or
  wait, how sizes add up, which children are shown and in which order, filters,
  mounts, navigation and the texts. Every function states in its contract what it
  does, and Verus proves it. Statements that span several functions stand as public
  proof functions named `law_...` beside what they speak of; those on scans are in
  `src/scan/*_laws.rs`.
- `app/` is the window: it reads the disk, runs the threads that a scan asks for,
  and draws. Geometry and colors that are measured in floating point are there too.
- `tests/` runs the library on concrete values.

A scan never touches the disk. It hands out jobs (`ActiveScan::take_started_jobs`),
and whoever runs them hands reports back (`ActiveScan::drain_events`), together with
the fingerprints of the entries that they speak of. `scan::level` and `scan::walk`
turn what is read from the disk into such reports.

What the library takes from outside without proof: the lossy reading of bytes as
text, lower case by the rules of Unicode, appending to strings, the words of an I/O
error, sizes in binary units (`humansize`), and colors with an opacity (`egui`). Each
stands behind one small function whose comment says what is claimed of it.
