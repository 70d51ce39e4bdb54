# ply_locales

Compile-time checking of Fluent localization files, with the checks proved
correct in Verus.

The `ply_locales("locales")` attribute reads the `.ftl` files of a locales
directory, reports syntax errors with readable snippets, checks every message
and term (calls to functions, references to terms and their arguments,
circular references, variables that differ between locales), warns about
missing translations, and generates one typed function per message.

## Layout

- `src/` — the verified library:
  - `loader.rs`: which directory entries are locales, language identifiers;
  - `fluent_model.rs`: the parsed Fluent resource as plain values, and the parse;
  - `ast_util.rs`: reading a locale's files into messages and terms;
  - `syntax_error.rs`, `scan.rs`: reports of syntax errors;
  - `validator.rs`, `cycles.rs`: the checks of a locale and between locales;
  - `custom.rs`: the Rust functions that templates may call;
  - `manifest.rs`: where the generated code takes `fluent_bundle` from;
  - `codegen.rs`: the documentation and names of the generated functions;
  - `text.rs`: text helpers and their mathematical meaning.
- `app/` — the attribute itself: file-system access, spans and token generation.
- `tests/` — tests of the library on concrete inputs.
