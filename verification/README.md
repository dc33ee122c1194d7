# sgraffito

Doodle and sticky notes on the Wayland wallpaper layer: annotations are drawn above the wallpaper
and below ordinary windows, and while locked the mouse and keyboard pass straight through.

`src/` is the library, verified with Verus: the annotation model and its hit testing, the editing
session as a state machine, the control protocol, the debounced store, and what a frame has to
repaint. `app/` is the program around it: the compositor, the file system, the control socket and
the rasteriser.

- `geometry`, `distance`, `text`: exact arithmetic on rectangles, distances and strings
- `canvas`, `document`, `buffer`, `overlay`: strokes, text boxes, documents, and what is in progress
- `session`: the states of a session and its transitions, in the mathematical model; `app` runs them
  and `laws` says what holds of them
- `input`, `ipc`, `store`: keys, commands, and when to write
- `damage`, `layout`, `region`, `render`: what a frame repaints; `frames` says why the picture is
  the same whichever way it is repainted
- `paint`, `typeset`, `hint`: what is painted

Coordinates are logical pixels in 24.8 fixed point: one pixel is 256 units. Rectangles are counted
in parts, 5040 to the unit, and paths finer still, so that fractions of an em, halves and the control
points of a rounded corner are exact. Times are nanoseconds.
What the library believes of other crates without proof stands in `text` (UTF-8
decoding) and `paint` (the pixels of a tiny-skia picture).
