# redo

A redo build system whose decisions are proved: which `.do` file builds a target, whether a target is
out of date, which target comes next, who may run a job, and what is shown of the logs.

- `src/` is the library. It touches no files, processes or terminals: what it needs to know about them
  comes in as plain values, and what is to be done goes out as plain values. Every function states what it
  returns, and Verus proves it. Functions called `law_...` state what holds of several functions together.
- `app/` holds the programs: `redo`, `redo-ifchange`, `redo-ifcreate`, `redo-always`, `redo-stamp`,
  `redo-log`, `redo-ood`, `redo-sources`, `redo-targets`, `redo-unlocked` and `redo-whichdo`, all in one
  executable. They read and write files, keep the database in SQLite, lock, fork and wait. Their loops carry
  out what the library decides; those of `redo-whichdo`, `redo-sources` and `redo-ood` print what it finds, file by
  file, and `redo-unlocked` starts one `redo-ifchange` after the other.
- `tests/` runs the library on concrete values.

The modules of the library:

| module | about |
| --- | --- |
| `helpers`, `pathname`, `relpath`, `redopath` | paths, their normal form, and paths as seen from a directory |
| `paths` | the `.do` files that might build a target |
| `stamp`, `db`, `state` | what is known of files, the tables that hold it, and transactions on them |
| `deps` | whether a target is out of date |
| `jobserver`, `lock`, `cycles` | tokens for parallel jobs, locks on targets, targets that depend on themselves |
| `builder`, `runner` | building one target, and building a list of them |
| `logs`, `logcat`, `viewer` | log lines, and showing the logs of targets within each other |
| `env`, `commands`, `exits`, `error` | settings, what the programs decide, exit codes, errors |
| `text` | splitting, trimming and reading text |
