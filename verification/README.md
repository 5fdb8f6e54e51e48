# ast_engine

The logic of a JavaScript/TypeScript pattern-matching and rewrite toolkit,
written in Verus: every function states its behaviour in a `requires` /
`ensures` contract, and Verus proves it.

## Layout

- `src/` — the verified library.
  - `span`, `line_index`, `text`, `order`: spans, line/column lookup, the
    UTF-8 model of source text, and the insertion order used for sorting.
  - `span_mutator`: validating and applying span replacements and text diffs,
    with trivia absorption for deletions.
  - `capture`, `text_interpolation`: meta-variable bindings and fix templates.
  - `syntax`, `wildcard_parsing`, `matcher`, `overlap_resolution`,
    `combinators`: syntax trees, pattern trees, structural matching with
    backtracking over sequence wildcards, conflict resolution among
    overlapping matches, and matcher combinations.
  - `vue_sfc`: script-block extraction and offset mapping for Vue components.
  - `paths`, `project_graph`: path normalisation, import resolution, and the
    cross-file project graph.
  - `source_tree`: parsing with oxc — the node list of oxc's semantic
    builder, the syntax tree built from it for pattern matching, the
    top-level statements it describes, and the searches of a pattern in a
    source, in a Vue component's script block, and by a pattern rule.
  - `analysis`: what the analysis of a file records — imports, exports,
    declared symbols, call edges and lint issues — from oxc's parse and
    checks of the source, its top-level statements, and the declarations
    met during the walk.
  - `yaml_schema`, `relational_rules`, `payload`, `extensions`, `rewrite`:
    rule types, relational conditions, report records, the extension list of
    scans, and rewriting matches with a fix.
- `tests/` — tests of the library.
- `app/` — the `rast` command line: oxc's visitor walk, which reports each
  declaration and call to the library's `Analyzer`, YAML rule files, JSON
  output, and file-system access.
