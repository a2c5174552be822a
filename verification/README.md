# jevlint

A semantic code linter backed by the Jev service. Markdown rules are applied
to the files that the configured rule sets select; each verdict and each
line answer is cached, failed rules are located line by line, and results
are reported on the command line or streamed to editors in watch mode.

## Layout

- `src/` is the verified library. Each module states what it computes in
  `requires`/`ensures` contracts over spec functions, and Verus proves them:
  - `config`: the configuration, its validation, defaults, and where the API
    key comes from;
  - `files`: which files are linted, with which rules, severities and
    thresholds (glob matching goes through `globset`);
  - `rule`: rule files, their ids and messages;
  - `jev`: the questions asked of the service and the reading of its answers;
  - `engine`: the steps of a run, from cache lookups to violations and the
    run report, including line regions and line suppression;
  - `watch`: watch-mode state, snapshots and the decisions of the watch
    loop: which batches of changes call for a run, its sequence number and
    announcement, and what a failed configuration reload reports;
  - `cache_key`: the identities under which verdicts and line answers are
    cached, and their keys;
  - `report`: the text report and the exit status;
  - `hash`, `path`, `text`, `order`, `sorted_map`, `float_bits`: the
    supporting pieces (content hashes, path components, string operations,
    orderings, sorted maps, binary64 comparisons on bit patterns).
- `app/` is the program around the library: the command line, file and
  network I/O, the cache database, the HTTP client, the filesystem watcher,
  and serde copies of the library's types for JSON.
- `tests/` runs the library on concrete inputs.
