# graphql-ish-schema-validator

Validates YAML and JSON documents against schemas written in a GraphQL-like
SDL (input types, enums, unions, custom scalars, and the directives `@root`,
`@closed`, `@open`, `@pattern`, `@min`, `@max`, `@oneOf`, `@discriminator`).

The library under `src/` is written in Verus, and every function in it is
verified against its contract:

- `text`, `pointer`, `ordered_map`, `value`, `numeric`, `diagnostics`:
  strings, RFC 6901 JSON pointers, insertion-ordered maps, document values,
  number classification, error types.
- `syntax`, `sdl`: the SDL's syntax tree, as apollo-parser builds it, read
  into type definitions.
- `literals`, `compiler`: lowering of type definitions to the schema IR
  (`ir`), with reference resolution and directive handling.
- `cycles`: detection of reference cycles between named types.
- `rules`, `validator`, `content`: what validating a value reports, the
  recursive-descent validator that reports it, and the fact that validation
  reads a bundle only through its content.
- `voyager`: rendering of a schema for GraphQL Voyager.
- `facade`: schema text to validation result, end to end.

Calls into `regex` and `apollo-parser` stand behind small trusted wrappers
whose contracts name what those crates return. The tree that apollo-parser
builds is read through its `SyntaxKind` numbers, which are those of
apollo-parser 0.8.7 (see `src/syntax.rs`).

Schema maps (`ordered_map::OrderedMap`) are an insertion-ordered vector of
entries rather than `indexmap::IndexMap`: a schema holds maps of schemas, and
an outside map type in that recursive position could not be declared to
Verus with contracts over its contents. The serde copies of the types in
`app/` use `IndexMap`.

`app/` holds the command-line program: argument handling, file reading,
YAML and JSON parsing with serde, logging, and serde copies of the library's
types. `tests/` holds the tests.
