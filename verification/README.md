# squirreldisk

A disk-usage browser whose core is formally verified.

- `src/` is the verified library:
  - `scan.rs`: the scanned file tree, kept as an arena of nodes; paths of
    nodes, removal of a node with its size taken off every ancestor, whether a
    node's chain of parents is rooted, and the
    steps by which the scanner fills the arena (pushing a node, skipping
    banned top-level entries of a quick root scan, completing a folder with
    its children ordered by size).
  - `scanner.rs`: the scan as a state machine (the arena and the stack of
    open folders; an entry found or a folder finished goes in), whose
    invariant makes every finished scan a consistent tree; and what each
    outcome adds to the progress counters.
  - `tree_laws.rs`: what removal keeps (consistent sizes, links and paths),
    when it can run, that removals commute and repeat harmlessly, and that
    the scanner's steps keep the tree consistent.
  - `order.rs`: the stable largest-first order of a list of sizes.
  - `viewmodel.rs`: the entries shown for a folder (large children, one
    bucket for the small ones), treemap cell colours, totals of the entries
    marked for deletion.
  - `disks.rs`: which mounted disks are shown and in what order, and how
    full a disk is.
  - `text.rs`: character-wise text comparison.
- `app/` is a text front end: it enumerates disks with `sysinfo`, walks the
  file system on a background thread, deletes and reveals files, and lays
  out the treemap (floating-point geometry, not verified).
- `tests/` runs the library on concrete trees, folders and disks.
