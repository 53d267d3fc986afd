//! pwetty-box: the verified core of a Waybar tile module.
//!
//! Tile content is Pango markup that may also carry custom effect tags; the
//! library splits it into Pango-safe markup plus the extracted effects and
//! embeds, decides when a tile animates and what each frame paints, lays out
//! inline-embed flow lines and status indicators, frames streamed content, binds command output into tile templates,
//! layers tile presets under module configs, and holds the small byte-level
//! conversions the compositor needs. Rendering itself (GTK, Cairo, Pango, GL)
//! lives outside the library.

pub mod strings;
pub mod markup;
pub mod content;
pub mod shader;
pub mod svg;
pub mod tiles;
pub mod render;
pub mod flow;
pub mod pixels;
pub mod config;
pub mod tile;
pub mod status;
pub mod frame;
pub mod template;
