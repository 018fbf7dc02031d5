# sbom_generator

Finds the third-party dependencies of a source tree (Cargo, npm, PyPI and
Maven projects) and writes them out as a CycloneDX SBOM, with a short
logical report on the console. Maven projects are read through Maven's own
dependency tree: the library resolves what `pom.xml` queries match, but the
program carries no tree-sitter XML grammar to run them, so without Maven a
Maven project yields nothing.

The library under `src/` is written in Verus: every function carries a
contract, and the properties that hold across functions are stated and
proved as proof functions whose names start with `law_`.

- `model`, `ident`, `merge`: the dependency node, its identifiers and the
  merge of the nodes that all producers found.
- `cargo`, `npm_lock`, `npm_manifest`, `pypi`, `lock_graph`: the producers
  that read lock files and manifests.
- `cargo_dynamic`, `npm_dynamic`, `pypi_dynamic`, `maven_cli`: the
  producers that read what a build tool prints.
- `maven`, `pom`, `properties`: Maven projects, their inheritance and their
  property references.
- `analyze`, `report`, `sbom`: how an ecosystem is analysed, the logical
  report, and the document that is written out.
- `data`, `text`, `tokens`, `pattern`, `position`, `producer`, `config`,
  `license_guard`: parsed documents, text helpers and shared types.

`app/` is the command-line program around the library: it walks the
directory, runs the build tools, and serialises the SBOM.
