# gamemaster

A terminal front end for text games: it runs a game program as a child process, shows the
program's output in a scrolling text pane, sends the commands typed at its prompt, and keeps a
small pixel canvas that the program draws on by printing commands of the form `#[...]`
(`imgsize`, `line`, `fill`, `clear`, `setcolor`, `img`/`pal`/`pixels`/`bitmap`, `status`).

The library in `src/` is verified with Verus:

- `base64`: the text form in which image data is sent to the terminal;
- `canvas`: the pixel buffer, scanline flood fill and Bresenham lines;
- `text`: white-space separated words, integer literals and `::`-separated fields;
- `drawer`: the drawing state driven by text commands, and the canvas as RGBA and PNG;
- `protocol`: which printed lines carry commands, which are dropped, and `[b]`/`[/b]` weights;
- `shell`: the editable command line;
- `game`: the session state and its reactions to printed lines, keys, resizes and the clock.

`app/` is the program around it: terminal set-up, the child process, the event loop, rendering
with `ratatui`, and sending the canvas to the terminal with the kitty graphics protocol.
