# cmdirstat

A terminal disk-usage analyzer: it scans a drive or directory in parallel,
shows how the space is shared out among the entries of each directory, lets
the user sort, search and browse the tree, and deletes entries after a
confirmation.

The library under `src/` holds the logic, verified with Verus:

- `tree`: the directory tree, the sizes of directories as sums over their
  subtrees, adding, finding and removing entries, and the paths through it;
- `sort`: the stable order of entries by a key, ascending or descending;
- `text`: case folding, characters, substring search and lexicographic order;
- `browse`: the listing of a directory (sorted by a column, filtered by a
  search) and the state of the browser with its navigation;
- `app`: the drive selection and browsing screens and what each key does;
- `scan`: sorting a directory's entries into subdirectories, files and
  skipped entries, and building its node from what the scan found;
- `paths`: paths as `std::path::Path` reads them on Unix: components, prefixes,
  file names, and the name of a device below `/dev`;
- `mounts`: the drives offered, read from the mount table, the device a path
  is on, and whether a device is a solid-state drive;
- `layout`: which columns fit, header and name cells, and the texts shown.

`app/` is the program around it: arguments, the terminal, the event loop, the
file system, the scan threads and the drawing.
