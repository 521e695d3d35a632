# containerless

Builds minimal, multi-platform OCI images from local files, with the logic verified by Verus.

- `src/` is the verified library. Configuration (`config`, `resolve`), command-line values
  (`cli`), the image model (`model`), filesystem trees and layers (`tree`, `sources`, `layer`,
  `archive`), OCI documents (`json`, `oci`, `image`), whole builds (`pipeline`, `output`),
  registry decisions (`registry`), what a publish pushes and in which order (`publish`) and the `uniko` command line and configuration each have a
  module. Outside crates (`sha2`, `hex`, `tar`, `flate2`, `zstd`, `globset`, `oci-client`, `serde_json`) are
  reached through small trusted wrappers whose contracts say what the library relies on.
- `app/` is the program: argument parsing, reading configuration files and local sources,
  registry traffic and writing outputs.
- `tests/` exercises the library on concrete values.
- Properties that span several calls are proof functions of the library, for instance that two
  builds of the same image set from the same sources give the same layout
  (`pipeline::lemma_builds_reproducible`, `output::lemma_outputs_reproducible`).
