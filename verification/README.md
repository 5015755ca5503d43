# musman

A hard-link manager for multi-format music libraries, verified with Verus.

musman keeps two derived trees in step with a source library:

```
<formats>/<ext>/<relative path>      one hard link per source file
<max-qual>/<relative path>.<ext>     one hard link per track, best format wins
```

The source tree is never modified. On every run the desired state is computed
from one pass over the source, missing links are created, stale ones are
re-pointed, everything else in the output trees is removed, and directories left
empty are pruned.

## Usage

```
musman -f flac -f mp3 -f ogg [-s DIR] [-m DIR] [-i DIR] [-v] [--dry-run]
```

The first format given is the best one. `-v` prints one line per file action. A
dry run announces what it would do, asked or not, and writes nothing. Exit codes:
`0` success, `1` some files could not be linked or removed, `2` usage error or
refused layout.

Where a directory of an output tree is a symbolic link, links are made where it
leads, with two exceptions, which are refused and reported: nothing is written into
the source tree, and nothing is removed outside the output trees. A file that cannot
be removed is reported, too, and the run goes on.

## Layout

- `src/` is the library. It never touches the disk: a run is a state machine
  (`run.rs`) that says what it needs to know or have done, and takes the answers.
  - `path.rs`, `path_set.rs`, `names.rs`, `text.rs`: paths, file names, text.
  - `config.rs`: configuration, refused layouts, resolution of output directories.
  - `walk.rs`, `scan.rs`: the source tree, its managed files and their tracks.
  - `plan.rs`, `survey.rs`, `link.rs`: which links are wanted, where they lead, and
    how one is made.
  - `clean.rs`, `prune.rs`: clearing an output tree.
  - `stats.rs`: counters and the summary.
  - `model.rs` and the `*_laws.rs` files: a model of a file system and what is
    proved of a run on it.
- `app/` is the program: arguments, system calls and threads.
- `tests/` runs the library against a file system kept in memory.

## What is proved

A run is undisturbed when the disk does what it is asked to, nothing else changes it,
and no symbolic link leads a wanted link into an output tree. Of an undisturbed run
that finishes, from a disk as `is_ready` in `run_laws.rs` describes it:

- Every link that was not refused is in place, and but for what `.stfolder`
  directories hold, no other regular file stays in the output trees, and no
  directory that holds nothing (`run_laws.rs`, `outcome_laws.rs`).
- Nothing that lies outside the output trees changes, and nothing is added to the
  source tree but an output root that lies in it (`outcome_laws.rs`).
- The counters say what happened (`run_laws.rs`), and do not depend on the order in
  which directories are listed (`order_laws.rs`). An unmanaged file in the source
  tree is counted and changes nothing else (`order_laws.rs`).
- A second run changes nothing, and counts every link that the first one made as up
  to date (`rerun_laws.rs`).
- A dry run before it counts the same links, removals and directories
  (`foretelling_laws.rs`).

Whatever becomes of the operations that a run asks for:

- The steps for links, in any order and wherever symbolic links lead them, leave the
  source tree alone and remove nothing outside the output trees, as long as the
  answers about the directories on the way were true (`survey_laws.rs`).
- Only entries below the output roots are linked, replaced or removed by their paths,
  and a file that could not be removed is reported and its directories are kept
  (`confinement_laws.rs`).
- A dry run asks for no change at all (`confinement_laws.rs`).
- Every link and every removal is counted once, and the counters agree with each
  other (`count_laws.rs`).

Of the plan: links mirror the relative paths of their sources, and each track has
the best format available (`plan_laws.rs`).
