# Ren'Rs engine core

The core of the Ren'Rs visual-novel engine, verified with Verus. Every `.rrs` file is a
complete game: an AES-256-CBC encrypted package of Lua scripts and resources.

`src/` is the verified library:

- `archive`: the package format and its decryption into files (`try_decrypt_to_memory`).
- `package`: opening a package: its files and its main script with `embedLuaFile("...")`
  lines inlined (`parser`).
- `codec`: Base64 and the package key.
- `value`: JSON values and Lua values and the conversions between them.
- `copywriting`: what the script's globals (`SetDefine`, `GetDefine`, `SetTranslate`,
  `SetStyle`, `Span`, `Resource`, `Base64Resource`, ...) do to the engine's state.
- `style`: CSS text from style tables; `rng`: the generator behind resource identifiers;
  `games`: which files of the games folder are packages; `table`, `files`, `text`: the
  collections and text helpers these use.

`app/` is the desktop program around it: the Tauri commands, file I/O, and the Lua runtime
(`mlua`) whose globals call the library.
