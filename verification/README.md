# docgarden

Repository knowledge tooling for Markdown-heavy repositories: `docgarden lint`
and `docgarden fix` keep local references, frontmatter and size budgets in
order; `docgarden match` ranks documents for a query with BM25F; `docgarden
list` prints their metadata.

## Layout

- `src/` is the library, written in Verus. Every function there carries a
  contract that Verus proves: configuration lowering and the per-file rule
  policy, path handling, reference classification and resolution, the lint
  rules and their fixes, frontmatter parsing, the text analyzer and the
  integer side of ranking, the rendering of rows and reports, and the
  translation of skill documents, and the maintenance tasks' decisions
  (coverage command lines, release version check, manifest update).
- `app/` is the command line around it: argument parsing, reading
  `docgarden.toml`, walking the file system and probing link targets, the
  floating-point BM25F formula, and printing; `docgarden xtask <task>`
  (hidden) runs the repository's developer tasks: `validate`, `clippy`,
  `llvm-cov`, `covgate`, `release-version <version>` and
  `sync-skills [--check]`.
- `tests/` runs the library on concrete inputs.

The calls into outside crates that the library makes (Markdown parsing,
stemming, token counting, gitignore matching, heading slugs, percent
decoding, SemVer parsing, TOML manifest editing) go through
small trusted wrappers whose doc comments say what is assumed of them.
