# xwitcher

A switcher for X11 that answers to Alt+Tab: it shows an overlay with the open
windows, the most recently used ones first, and focuses the one that is
selected when Alt is released.

- `Alt+Tab` goes forward through the windows, `Alt+Shift+Tab` backward.
- Releasing `Alt` focuses the selected window.
- `Alt+Escape` closes the overlay and keeps the focus.
- The pointer selects and activates entries, too.

The look is taken from `~/.config/xwitcher/style.css`; `-h` and `-v` choose a
horizontal or a vertical overlay.

## Layout

- `src/` is the verified library: everything the switcher decides. Contracts are
  stated next to the code, and what holds of several functions together stands
  as public proof functions next to them.
- `app/` is the program around it: the X connection, files, the environment and
  the reading of decimal numbers.
- `tests/` runs the library.

| Module | What it holds |
| --- | --- |
| `config`, `css`, `values`, `double`, `style` | command line and style sheet |
| `keys`, `switcher`, `overlay`, `mru` | keys, events, selection and order of use |
| `collect`, `properties` | which windows are offered, and what they are called |
| `theme`, `search`, `desktop`, `paths`, `icons` | which icon a window gets |
| `geometry`, `slots`, `scene`, `palette`, `raster`, `color` | what is drawn, and where |
| `text`, `textmap`, `util` | text, and maps keyed by it |

## What is taken on trust

The contracts of a few functions of `std` (`String::push`, `str::to_lowercase`,
`String::from_utf8`, `String::from_utf8_lossy`) and of the decoding functions of
the `image` crate are believed. Their doc comments say what is claimed.
