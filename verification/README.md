# d3j

Structural three-way merge for source code over tree-sitter syntax
trees, written in Verus: the merge logic is executable Rust whose
contracts Verus proves.

## Layout

- `src/` — the verified library.
  - `tree`, `walk`, `embed`, `hash`, `text`: the arena syntax tree lifted
    from a concrete syntax tree, its pre-order layout, Merkle hashes, and
    byte-ranged source views.
  - `cst`, `lang`: the boundary to tree-sitter and the bundled grammars
    (Rust, Java, JSON). The grammar calls sit behind small trusted
    wrappers whose doc comments say what they claim.
  - `diff`, `zs`: the matching between two trees — unique-subtree
    anchoring, top-down alignment, and Zhang–Shasha refinement of the
    residues.
  - `rules`, `merge`, `synth`: the conflict rules, the pushout merge, and
    span-based synthesis of the merged text.
  - `check`: the universality checker. `merge_to_text` hands over only
    text whose parse is free of error and missing nodes and whose lifted
    tree passes this checker; the contracts state it over matchings of
    the shape every diff has, not over the diff's exact result.
  - `error`: the library's error type.
- `tests/` — tests against the compiled library.
- `app/` — the `d3j` command line: argument handling, file I/O,
  diagnostics.
