# deka_pm

The decision logic of the deka package manager and of its JavaScript isolate
pool, written in Verus: every function in `src/` carries a contract that Verus
proves, and the laws the library keeps across calls stand as public proof
functions (`law_*`).

## Layout

- `src/` — the verified library.
  - Text and paths: `text`, `paths`, `package_spec`.
  - Versions and installs: `versions` (semver ranges, best-version choice,
    release comparison), `install_rules`, `install_queue`, `lockfile`,
    `integrity`, `install_loop` (the resolver's per-package step and lock
    metadata), `install_recovery`, `recovery`, `grants`.
  - Sources and modules: `catalog_scan` (the `safe` / `unsafe` catalog
    scanner and its lowering), `stage` (compile-root mirrors), `islands`
    (island bundling), `transforms`, `dsc_rules`, `module_resolution`,
    `module_loading`, `loader_paths`, `boot_gates`.
  - Vendoring: `summon_rules`, `jsr`.
  - The isolate pool: `pool_types`, `worker_book` (isolate cache, request
    history, control commands, request settling), `handler_script`.
  - Releases and projects: `releases`, `project`, `manifest` (the JSON
    documents a project keeps: links, dependencies, lock pins), `scaffold`.
- `tests/` — tests of the library on concrete values.
- `app/` — plain Rust around the library: file-system and JSON plumbing
  (serde copies of the library's types), atomic writes, install-journal
  recovery on disk, fetching the release manifest, writing the scaffold.

`semver` and `serde_json` are called from `src/` through small trusted
wrappers whose contracts name what those calls return; everything built on
them is verified.
