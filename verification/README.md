# xon

The core of a keyboard launcher for Windows, verified with Verus: what is indexed, how an
entry is launched, and how icons, settings and usage records are kept.

`src/` is the library. Every function states what it returns, and each module ends with
the laws that hold of it.

| Module | What it holds |
| --- | --- |
| `index` | building the index from its five sources, watching for changes, collapsing bursts |
| `shortcuts` | which start-menu shortcuts are indexed, and as what |
| `portable` | the manifest of portable apps, their names and their launch |
| `store` | store apps: filtering, ordering, launching |
| `commands` | the table of well-known commands, their lookup, merging them into the index |
| `system` | the built-in settings pages and shell folders |
| `launch` | which way an entry is launched, and what the shell's answer means |
| `icons` | from GDI pixels to a PNG data URI, and the icon cache |
| `usage` | launch counts and their limit |
| `config`, `tray` | settings, autostart, tray menu, window |
| `text`, `textmap`, `wide`, `winpath`, `entry` | text, maps keyed by text, UTF-16, Windows paths, index rows |

A few calls leave the verified code: `str::to_lowercase`, `String::push` and
`char::from_u32` of the standard library, the PNG encoder of `image`, and the `base64`
engine. What is believed of each stands in the doc comment beside it.

`app/` is the application around the library: files, the scan of the start menu, the
Windows shell, file watching, the window. `tests/` runs the library on concrete values.
