# slc

A generator for Silicon Labs SDK projects: it resolves the components a
project (`.slcp`) needs against an SDK (`.slcs`, `.slcc`) and lays out the
config files and templates that the selected components contribute.

The library in `src/` is verified with Verus:

- `resolve.rs`, `resolution.rs`: component resolution. The provided features
  are the least set closed under the selected components' provides; open
  requirements are filled by a single SDK candidate, else by a
  recommendation; the result meets the success criteria (every requirement
  provided, no provided feature in conflict, no feature provided twice
  without `allow_multiple`), and each failure is a structured error with the
  situation it describes.
- `parsed.rs`, `contributions.rs`: what a resolved project contributes
  (sources, includes, defines, libraries, templates, config files with
  per-instance expansion and overrides, template contributions sorted by
  priority then component id) and where its outputs go.
- `config_text.rs`, `instance.rs`, `template_text.rs`, `component.rs`: text
  transforms (configuration overrides of `#define` lines, `{{instance}}`
  substitution, the `INSTANCE` transform, appendable template lists, the
  `!!omap` component form).
- `features.rs`, `instances.rs`, `paths.rs`, `text.rs`, `definitions.rs`,
  `project.rs`, `sdk.rs`: the data model and its building blocks.

`app/` holds the command-line program: YAML reading (serde copies of the
library's types), file I/O, and template rendering with minijinja.

```
slc generate --sdk <path> [--output <dir>] <project.slcp>
```
