# pre_commit

The decisions behind running the hooks of a project that is configured for
pre-commit, written and proved in Verus: which hooks there are, where each of them
comes from and works, which of them run, and what is said when something is wrong.

- `src/` is the verified library.
  - `hook`: repositories, projects and hooks.
  - `config`, `language`, `stage`: what configurations and manifests say.
  - `prepare`: preparing the hooks of a project, piece by piece, in whatever order the
    pieces end; `prepare_laws` has what holds of a whole preparation.
  - `run`: choosing the hooks to run, and those to skip; `session` has the course of a run.
  - `cli`, `error`, `style`: levels, statuses, messages and their colours.
  - `paths`, `text`, `urls`, `seqs`: paths, lists, URLs, and facts about sequences.
- `tests/` runs the library, with the `url` and `owo-colors` crates behind it.
- `app/` is the program around it: the command line, files, git, and waiting for both.
