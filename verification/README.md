# steel

The front half of the compiler for the ano language, as a verified library: the functions
under `src/` carry contracts that Verus proves, and the few calls into std and libc stand
behind trusted items whose contracts say what those calls are documented to do.

- `src/lib.rs` — shared types: diagnostics, the interner, token and syntax-tree kinds,
  directives.
- `src/lex.rs` — the lexer for the ASCII and Japanese surfaces.
- `src/text.rs`, `src/num.rs` — text conversions and exact integer spellings.
- `src/fs.rs` — path values and lexical path arithmetic, and the mapping of file-system
  conditions to platform error codes.
- `src/alias.rs`, `src/overlay.rs` — the dynamic `^name` overlay: name discipline, the
  versioned environment, snapshots, resolution, and the sidecar format.
- `src/migration.rs` — the schema manifest and the migration-map language with its rule pass.
- `src/directives.rs` — the driver's `--!` directive grammar and the same-tokens comparison.
- `src/registry_model.rs` — the registry's declarations with world values held as IEEE-754
  bit patterns: the structural schema fingerprint, the capture lines that write world
  values back (`save_line`, `save_patch`), and the view the alias overlay reads.
- `src/emit.rs` — the pure helpers of the BQN backend, syntax-tree walks and the
  relationship-write audit.
- `app/` — the command-line driver, file I/O, and floating-point number handling.
- `tests/` — tests run against the compiled library.
