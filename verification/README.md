# build_tools

A verified core of Android build configuration tools: aconfig flag parsing,
library modes, storage ids and fingerprints, the data behind the C/C++ flag
library, the exported-flag check, the release configuration summary used by
SDK finalization, and the consistency checks of api-versions files.

- `src/` is the library, written in Verus: every function carries a contract
  over mathematical models (sequences, maps, sets of character sequences).
  Properties that span several steps (what parsed flags satisfy, their
  traces, refused values, storage ids, the shape of the C/C++ library,
  sorting, the exported-flag check) are
  stated as public proof functions whose names begin with `lemma_`.
  - `text`, `sort`, `idents`: characters, trimming, splitting, string order,
    identifier syntax.
  - `flags`, `errors`, `parse`, `commands`, `codegen`, `cpp`, `sip`: aconfig.
  - `exported_flags`: `@FlaggedApi` annotations and the exported-flag check.
  - `build_flags`: release configurations and their build flags.
  - `api_versions`: the api-versions checks.
  - `cli`: response file expansion of the aconfig command line.
- `tests/` exercises the library on concrete values.
- `app/` holds the command-line front ends: argument parsing, files, protocol
  buffers, JSON, XML and template rendering.
