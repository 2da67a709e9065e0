# cavawall

An audio visualiser that draws over the wallpaper, as a Wayland layer surface
behind the windows. Bars stand in a row along the bottom, round a circle, or
along a path that was drawn over the picture.

The project is in two parts.

`src/` is the library, verified with Verus: the decisions the program takes on
everything but floating point.

| module | what it settles |
|---|---|
| `app_config`, `palette` | the configuration's types; reading, ordering and packing the gradient |
| `startup` | which configuration, mode, curve and bar count; what the analyser is told |
| `output`, `placement` | which output to be on; where the surface goes on it |
| `frame`, `render` | when to draw, park, wake and start over; which pixels changed |
| `curve` | sharing bars out between paths; the walks along a path and a silhouette; a wallpaper's key and size |
| `scheme`, `watch`, `json` | the shell's live state, and which of its files changed |
| `control` | the control socket's requests and answers |
| `editor` | a wallpaper's block in the configuration file, and the pages served to a browser |
| `single`, `text` | numbers held by their bits; text as a sequence of characters |

`app/` is ordinary Rust around it: the compositor, the graphics driver, files,
sockets, and what is calculated in floating point. The few decisions that hang
on such a calculation stand there too: the box a curve's surface shrinks to,
whether bars are divided evenly or in proportion, and the rounding to pixels.

Numbers in single precision are held in the library by their bits. It compares,
clamps and moves them, and never calculates with them.

`wayland-backend` is named in `Cargo.toml` for its features alone: it has the
Wayland libraries loaded when the program runs instead of linked when it is
built.

Shaders and the editor's page are read from `/usr/share/cavawall`.
