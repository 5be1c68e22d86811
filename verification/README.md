# vivaldi_mod_interceptor

A Windows launch interceptor for the Vivaldi browser that makes every launch
load the user's CSS and JS mods: it patches Vivaldi's `window.html` with one
script tag, compiles the enabled mods into `inject_bundle.css` and
`inject_bundle.js`, and starts the browser through a hard link that the IFEO
hook does not catch.

## Layout

- `src/` — the verified library (Verus). Each module decides what happens; it
  does no I/O.
  - `patcher` — recognising, injecting and removing the hook tag; laws:
    patching is idempotent, marks the page exactly once, changes nothing else,
    keeps an existing backup, and unpatching gives the page back.
  - `bundler` — the bundle texts; law: a bundle holds exactly the enabled
    mods of its kind, by priority and then name.
  - `config` — the mod registry (toggle, import, rescan, priorities) and the
    storage paths; laws: toggling twice is the identity, a second rescan adds
    nothing, an import keeps the list sorted and never duplicates a name.
  - `discovery` — version numbers, the active version directory, where the
    executable is looked for (the environment's folders, then the standard
    and Snapshot installation on every active drive), registry values,
    UTF-16 strings.
  - `launcher` — the command line that forwards the arguments (law: the
    Windows C runtime splits it back into the executable and the arguments),
    the hard link's name and when to renew it, what to prepare before a
    launch.
  - `os_hook` — the IFEO key, the hook's status, the elevation arguments;
    law: the value written at installation reads back as the interceptor's
    path.
  - `cli` — the interceptor's command line (including `setup --portable` and
    `--path`) and the web interface's.
  - `webui`, `json` — routing and the fixed replies, multipart uploads (law: a body framed with a
    delimiter that occurs in none of its parts is read back part by part) and
    the JSON request bodies of the web interface (`serde_json` parses; the
    library reads the document).
  - `text`, `paths` — verified text and Windows path helpers: prefixes,
    joining, extensions, and path equality by components.
- `tests/` — tests of the library on concrete values.
- `app/` — the program around the library: file system, registry, process
  creation, dialogs, the HTTP server and the JSON files (with serde copies of
  the configuration types).
