# pwetty_box

The verified core of a Waybar tile module: tile content is Pango markup that
may carry custom effect tags, and the library decides what the renderer draws.

- `src/markup.rs` — escaping, and splitting content into Pango-safe markup,
  effect spans over the plain text, inline embeds and structural flags.
- `src/flow.rs`, `src/status.rs` — inline-embed flow lines, attribute lookup,
  the status indicator and the leading / wrapped elements of a line.
- `src/content.rs` — when a tile animates, the shared content store, the
  content source, the composed tile markup, and stream-line framing.
- `src/template.rs` — binding a command's output into a tile template (HTML
  autoescaping, `{{ value }}` for non-objects) and checking bundled presets
  against their schemas and samples.
- `src/frame.rs` — per-frame decisions of the widget.
- `src/config.rs` — JSON layering of a tile preset under a module config.
- `src/pixels.rs` — RGBA / ARGB32 byte conversions and the GL row flip.
- `src/shader.rs`, `src/svg.rs`, `src/tiles/` — bundled shaders, icons and
  tile presets.

`app/` holds the host around the library: the Waybar module, GTK/Cairo/Pango
drawing, GL passes, threads and the `pwetty` CLI.
