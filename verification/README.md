# macdirstat

The file-tree model of a disk usage viewer, verified with Verus.

* `src/` is the library. `tree` holds the nodes and the edits on them, `stats`
  the statistics by file extension, `listing` turns directory entries into
  nodes, `firmlinks` reads the table of firmlinks and `scan` decides which
  directories a scan enters. `model` says what a tree is and what the edits mean;
  `laws`, `scan_laws` and `whole_scan` state what holds across functions.
* `tests/` runs the library on concrete values.
* `app/` walks the file system: it opens and lists directories, hands what it
  finds to the library and shares the work among threads.
