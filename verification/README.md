# brunch

A desktop application launcher, as a verified library and a small program.

`src/` is the library, checked by Verus: which desktop entries are offered
(`applications`, `desktop_files`, `entry`), how an entry's command line is
launched (`launch`), the launch history (`history`), fuzzy search over the
entries (`search`), the launcher's interaction state (`ui`), icon lookup
(`icons`), the style file's colors (`userconfig`), the launcher's directories
(`directories`), and path, text and ordering helpers (`paths`, `text`,
`sorted`).

`app/` is the program around it: the iced window, file and process I/O, and
the floating-point ranking and style sizes.
