# git-vanity (verified core)

`git vanity <pattern>` rewrites the HEAD commit with an invisible `x-nonce`
header whose value is searched until the commit hash matches a pattern
(hex prefix, `repeat:N`, structured `1997xxx`, pair `xx`, or `/regex/`, at the
start, the end, or anywhere in the hash).

Layout:

- `src/` — the library, verified with Verus: commit parsing and rebuilding
  (`commit`), nonce generation (`nonce`), SHA-1 of Git objects with a
  precomputed prefix state (`hasher`, calling the `sha1` crate), pattern
  parsing, matching and difficulty estimates (`pattern`, calling `regex` and
  `hex`), presets (`preset`), the batch scan of the search (`worker`), the
  terminal formatting (`display`), the repository decisions (`git`), and the
  decisions of the subcommands (`vanity`).
- `app/` — the command line around it: argument parsing (`clap`), the git
  plumbing commands, worker threads and the timeout, Ctrl+C handling,
  progress display.
- `tests/` — tests of the library.
