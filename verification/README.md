# hinata

A JavaScript package manager that builds `node_modules` with Nix.

hinata resolves `package.json` against the npm registry into `hinata.lock`. Each package becomes its
own Nix derivation, and the project's `node_modules` is a writable directory of links into the store.

The decisions are in a library that is verified with Verus; what touches files, processes and the
network is ordinary Rust around it.

## Layout

- `src/` is the library. Every function states what it returns, and Verus proves it.
  - `text`, `dict`, `bag`, `json`, `error`, `graph`, `version`, `time`, `util`, `logging` are the ground
    that the rest stands on: ordered maps of strings, versions and ranges, paths and hashes.
  - `registry`, `lock`, `manifest`, `document`, `pnpm` are the data: packuments, lockfiles and manifests.
  - `resolve` turns what projects ask for into packages: `overrides` replace requests, `pick` and
    `chooser` choose versions, `closures` and `peers` tell instances apart by their peers. `choices`,
    `references` and `outcome` prove that the result holds what was asked for.
  - `install`, `update`, `workspace`, `edit`, `link`, `nix`, `run`, `impure`, `trust`, `summary`, `why`,
    `gc` decide what the commands do.
- `app/` is the command line program: arguments, files, HTTP and Nix. The Nix expressions in `nix_support`
  are read from where the program is installed. Nix evaluates them with `--pure-eval`: `install.nix` is a
  function of `dev`, `nodeMajor` and `system`, and `nodejs.nix` one of `nixpkgs` and `system`.
- `tests/` runs the library.

Calls into other crates are wrapped in functions marked `external_body`, each with a comment that says
what is taken on trust: `node-semver` for versions and ranges, `chrono` for times, `sha2` for digests,
`petgraph` for components, `serde_json` for what is hashed and `owo-colors` for colours.
