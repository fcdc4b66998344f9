# env-select

A verified core for `es`, a tool that selects between predefined sets of
environment variables ("profiles", grouped into "applications") and exports
them to the shell or runs a command in them.

- `src/` is the library, verified with Verus: names and profile references,
  the config model, qualification of freshly loaded configs, merging of the
  configs of a directory hierarchy, profile inheritance (with cycle and
  unknown-parent detection), environment construction from value sources,
  shell export text, side-effect ordering, and completion candidates.
- `app/` is the program around it: command-line parsing, config files,
  TOML (de)serialisation, prompts and subprocesses.
- `tests/` exercises the library on concrete values.
