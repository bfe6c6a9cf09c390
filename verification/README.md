# git_ai_xcode

The verified core of the `git-ai xcode` command, which manages the directories
an Xcode watcher observes and the launch agent that runs it.

- `src/text.rs`: character access to strings, string equality, decimal
  formatting.
- `src/path.rs`: Unix paths compared by components (equality and "lies
  within"), and the expansion of `remove-path` arguments (`~`, absolute,
  relative) with joining.
- `src/watch.rs`: the list of watch roots: normalisation, removal, counting,
  the stored form, and the laws of normalisation.
- `src/command.rs`: argument dispatch, the decisions and messages of
  `add-path`, `remove-path`, `list-paths` and `reload`, and the laws that
  relate them.
- `app/lib.rs`: the command around the library: configuration file, path
  canonicalisation, launch agent and printing, behind a host trait.
