# dragonfly-opengrep

The logic of Dragonfly's OpenGrep worker, verified with Verus. The worker leases
packages from an API, scans their distributions with OpenGrep, and submits
bounded findings.

`src/` is the verified library. It holds what the worker decides and computes:

- `origin`, `client`: the fence around the supported APIs, the loaded rules and
  the reports;
- `rules`: which files a rule corpus is made of, and whether its findings depend
  on the contents of a file alone;
- `paths`, `text`, `numbers`, `json`: the formats that the rest reads and writes;
- `order`, `path_order`: the orders of texts and of paths, and sorting by them;
- `identity`, `identities`, `index`: what makes two files the same scan target;
- `package`, `expansion`: one canonical target for every distinct file, and the
  way back from a finding in a target to every file with its contents;
- `engine`, `findings`, `content`: how the engine is called, what its output means,
  and what of it depends on the contents of a file alone;
- `scan`, `reuse`: the course of a scan, step by step, and the reuse of results
  across packages;
- `laws`: what holds of all of these together.

Paths are byte strings, times are nanoseconds from a common origin, and texts
are compared by their characters. What comes from another crate, and is taken
on trust, is said in the doc comments of `origin` (URLs), `identity` (XXH3 and
SHA-256), `content` (JSON texts) and `text` (two functions of the standard
library).

`app/` is the rest of the worker: HTTP, processes, files, and the wire formats.
The library never performs input or output; it takes what was read or what
happened, and says what to do next.

`tests/` runs the library on concrete values, against the standard library and
the other crates where they define the answer.
