# dram

A bottle-only, Homebrew-compatible package manager.

- `src/` is the library: the rules and plans, verified with Verus. It decides
  what is resolved, poured, linked, rewritten and removed; it touches neither
  the disk nor the network.
- `app/` is the `dram` command around it: arguments, files, downloads, and the
  tools that are run.
- `tests/` runs the library on concrete values.

| Part | Modules |
|---|---|
| Index, resolution, bottles | `api`, `formula`, `resolver`, `bottle` |
| Installing and scheduling | `install`, `schedule`, `pour`, `links`, `profile` |
| What is installed | `installed`, `upgrade`, `uninstall`, `doctor`, `commands` |
| Relocation | `relocate`, `macho` |
| Post-install steps | `postinstall`, `step_loop`, `step_plan`, `step_ops`, `step_run`, `mode` |
| Projects and bundles | `env`, `bundle` |
| Shared | `ctx`, `path`, `text`, `json`, `strmap`, `ui` |

A contract speaks of views: text is a sequence of characters, a list of names
a sequence of texts. Proof functions whose names start with `law_` state what
holds across functions.
