# rsrs

The index, layout and bookkeeping logic of a recursive strong
skeletonisation (RSRS) solver, written in Verus with its behaviour stated in
contracts and proved.

- `src/matrix.rs`: column-major matrices; extraction and insertion of rows,
  columns and crosses; row and column permutations.
- `src/part_files.rs`: sample matrices stored as column blocks in numbered
  part files: names, discovery, appending rows and loading.
- `src/levels.rs`: per-level index sets of the skeletonisation (targets,
  skeletons, near fields, box types), rank picking, sample counts, the
  order in which the ID step takes the boxes, the per-batch decisions of
  the joint ID and LU step and the column order of the last step.
- `src/near_groups.rs`: batches of boxes whose near fields do not overlap.
- `src/factors.rs`: orientation flags, read/write layouts and batch
  schedules of elementary factors; the permutation factor; the index
  bookkeeping of ID and LU factors and when a box gets one.
- `src/sampling.rs`: sample seeds, streaming chunks, the shape of the
  sample store and what the sampling step of a level draws and refreshes.
- `src/memory.rs`: memory reports (byte formatting, process status parsing).
- `src/statistics.rs`: timing and memory figures and how a level records
  them.

`app/` holds the process plumbing: asking the operating system for the
memory use of the process (`/proc/self/status` on Linux, `task_info` on
macOS), reading the
environment and the sample directory, and printing reports.
