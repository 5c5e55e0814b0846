# facet-dev

Development automation for Rust workspaces: READMEs from templates, a GitHub
workflow and funding file, a pre-commit hook, formatted sources, and checks
before a push. What is decided and computed is a library verified with
[Verus](https://github.com/verus-lang/verus); reading, writing and running
commands is a thin program around it. Paths are Unix paths, as bytes.

- `src/` is the library.
  - `text`, `order`, `paths`, `encoding`: text, lexicographic order, paths.
  - `readme`, `generated`, `templates`: what is generated.
  - `job`: which files are written, and in which order.
  - `status`, `quoting`: staged files, from `git status --porcelain`, and paths
    as git writes them.
  - `metadata`: the workspace, from `cargo metadata`.
  - `command`, `streaming`: commands, their reports and their output.
  - `pre_push`, `checks`: what a push affects, and what is run for it.
  - `cli`: arguments and the log level.
- `app/` is the program.
- `tests/` holds tests of the library.

```bash
facet-dev                               # generate and stage files
facet-dev --template-dir path/to/dir    # prefer templates from a directory
facet-dev pre-push                      # run the checks before a push
facet-dev debug-packages                # show the packages of the workspace
```
