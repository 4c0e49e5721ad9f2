# git_diff

A side-by-side git diff viewer for the terminal. The library under `src/`
holds its logic with machine-checked contracts; `app/` is the terminal
program around it.

- `src/model.rs`: changed files, commits, comparison modes and the refs on
  each side of a comparison.
- `src/text.rs`: character-level string helpers.
- `src/align.rs`: splitting contents into lines and aligning two versions
  row by row, hunks and runs of unchanged rows.
- `src/tree.rs`: the collapsible file tree, its sums, its sort orders and the
  rows a (filtered) walk shows.
- `src/git.rs`: parsing git's `--numstat`, `--name-status` and log output,
  and the queries the viewer makes through a `GitRunner`.
- `src/controller.rs`: the navigation state machine driven by key presses.
- `src/view.rs`: what the screen shows (file list rows, the status line, the
  help panel, the diff pane), fitted to terminal cells, and when a frame must
  be redrawn in full.
- `app/`: the `git-diff` program: it runs git, reads the terminal's keys and
  draws the controller's state.
