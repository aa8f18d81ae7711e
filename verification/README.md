# rex_build

Build-time logic of the Rex React framework, verified with Verus.

- `src/` is the verified library. Every public function states its result
  over spec functions of `Seq<char>`, `Seq`, `Set` and `Map` views; the
  laws that relate several calls are public proof functions (`lemma_*`).
  Calls into `sha2`, `serde_json` and the standard library that vstd does
  not specify stand behind small trusted wrappers, each documented where it
  is declared.
- `app/` is the unverified glue: reading and writing files, walking
  directories, downloading fonts, serializing manifests with serde, and
  driving the module walks with an analysis supplied by the caller.
- `tests/` runs the library on concrete inputs.

Main modules: `rsc_entries`, `entries`, `server_bundle` and `client_bundle`
(bundle entry sources and aliases),
`rsc_graph` (module graph and its walk), `esm_transform` (the ESM module
walk), `server_action_extract` and `server_action_manifest`,
`css_modules`, `tailwind_scan`, `font_google`, `rsc_build_config` and
`rsc_server_bundle` (resolve aliases), `rsc_client_bundle` (client chunk
order and reference manifest rows), `rsc_bundler` (sorted RSC entry
points, client reference rows, stub aliases and the server action
manifest built from the module graph), `client_dep_bundle` (the browser
import map of the bundled dependencies), `page_exports` (data strategy), `dce` (server-only exports removed from
a page's client copy, over the module's symbols and statements),
`transform` (the transform cache).
