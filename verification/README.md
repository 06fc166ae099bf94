# ad2edit

The decisions and text handling behind an editor for Garry's Mod AdvDupe2
dupes, written in Verus and proved against their contracts.

- `text`: characters, white space, search in text, decimal numbers, words.
- `catalogue`: the parts catalogue's groups and the search over its parts.
- `add_window`: the Add window's state, and favourites kept by key.
- `menus`: the step-by-step tutorial and what File > New starts from.
- `gallery`: file sizes as shown, the recently opened dupes, titles.
- `naming`: names for new files and autosaves, and which entities are chips.
- `cli`: command-line flags, `Key=Value` settings, build reports.
- `shortcuts`: which command a frame's key presses run.
- `setup`: the first-run wizard.

`tests/` runs the library on concrete values.
