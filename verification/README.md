# dam

`dam` keeps snapshots ("seals") of a working tree in a reservoir, a `.dam/`
directory: files are collected into a staging area under `.purities`
allowlists and `.impurities` blocklists, sealed into content-addressed
objects, organised in streams, merged three ways, exported and imported as
archives, and synchronised with a GitHub repository.

Layout:

- `src/` is the library, verified with Verus. Each module states its
  behaviour in `requires`/`ensures` contracts over mathematical models
  (`Seq`, `Set`, spec functions), and the `law_*` proof functions state the
  properties that tie several operations together (what a merge keeps, what
  an encrypted vault gives back, what an upgraded config declares, ...).
  Calls into outside crates (hashing, compression, base64, AES-GCM, PBKDF2,
  globbing, randomness, the clock) go through small trusted wrappers whose
  contracts say what the library relies on.
- `app/` is the command-line program: argument parsing, files, prompts, the
  OS keychain and HTTP. It hands plain values to the library and acts on
  what comes back.
- `tests/` runs the library on concrete values.
