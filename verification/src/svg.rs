//! The bundled SVG icon set and the byte-order step of icon rasterization.
//!
//! Icons are rasterized (outside the library) into premultiplied RGBA; Cairo's
//! ARGB32 format wants the same bytes in little-endian B, G, R, A order, which
//! [`rgba_to_bgra`] provides.

use vstd::prelude::*;
use crate::strings::str_eq;

verus! {

pub const FOLDER_SVG: &'static str = "<svg xmlns=\"http://www.w3.org/2000/svg\" viewBox=\"0 0 24 24\"><path d=\"M2 5a2 2 0 0 1 2-2h5l2 2h9a2 2 0 0 1 2 2v11a2 2 0 0 1-2 2H4a2 2 0 0 1-2-2z\" fill=\"#fff\"/></svg>";
pub const CHECK_SVG: &'static str = "<svg xmlns=\"http://www.w3.org/2000/svg\" viewBox=\"0 0 24 24\"><path d=\"M4 12.5l5 5L20 6.5\" fill=\"none\" stroke=\"#fff\" stroke-width=\"3\" stroke-linecap=\"round\" stroke-linejoin=\"round\"/></svg>";
pub const ARROW_UP_SVG: &'static str = "<svg xmlns=\"http://www.w3.org/2000/svg\" viewBox=\"0 0 24 24\"><path d=\"M12 3l8 9h-5v9H9v-9H4z\" fill=\"#fff\"/></svg>";
pub const BELL_SVG: &'static str = "<svg xmlns=\"http://www.w3.org/2000/svg\" viewBox=\"0 0 24 24\"><path d=\"M12 2a6 6 0 0 0-6 6v5l-2 3v1h16v-1l-2-3V8a6 6 0 0 0-6-6zm-2 17a2 2 0 0 0 4 0z\" fill=\"#fff\"/></svg>";
pub const CODE_SVG: &'static str = "<svg xmlns=\"http://www.w3.org/2000/svg\" viewBox=\"0 0 24 24\"><path d=\"M8 6l-6 6 6 6M16 6l6 6-6 6\" fill=\"none\" stroke=\"#fff\" stroke-width=\"2.5\" stroke-linecap=\"round\" stroke-linejoin=\"round\"/></svg>";
pub const TERMINAL_SVG: &'static str = "<svg xmlns=\"http://www.w3.org/2000/svg\" viewBox=\"0 0 24 24\"><path d=\"M3 4h18v16H3z\" fill=\"none\" stroke=\"#fff\" stroke-width=\"2\"/><path d=\"M7 9l3 3-3 3M12 15h5\" fill=\"none\" stroke=\"#fff\" stroke-width=\"2\" stroke-linecap=\"round\"/></svg>";
pub const GEAR_SVG: &'static str = "<svg xmlns=\"http://www.w3.org/2000/svg\" viewBox=\"0 0 24 24\"><path d=\"M10 2h4l.6 2.6 2.3 1 2.3-1.4 2.8 2.8-1.4 2.3 1 2.3L24 12v0l-2.4.4-1 2.3 1.4 2.3-2.8 2.8-2.3-1.4-2.3 1L14 22h-4l-.6-2.6-2.3-1-2.3 1.4-2-2.8 1.4-2.3-1-2.3L0 12l2.6-.6 1-2.3-1.4-2.3 2.8-2.8 2.3 1.4 2.3-1zm2 6a4 4 0 1 0 0 8 4 4 0 0 0 0-8z\" fill=\"#fff\"/></svg>";
pub const APP_SVG: &'static str = "<svg xmlns=\"http://www.w3.org/2000/svg\" viewBox=\"0 0 24 24\"><rect x=\"3\" y=\"3\" width=\"7\" height=\"7\" rx=\"1.5\" fill=\"#fff\"/><rect x=\"14\" y=\"3\" width=\"7\" height=\"7\" rx=\"1.5\" fill=\"#fff\"/><rect x=\"3\" y=\"14\" width=\"7\" height=\"7\" rx=\"1.5\" fill=\"#fff\"/><rect x=\"14\" y=\"14\" width=\"7\" height=\"7\" rx=\"1.5\" fill=\"#fff\"/></svg>";

/// The status mascot: a small creature, wider than tall (18 × 11).
pub const SESSION_FACE_SVG: &'static str = "<svg xmlns=\"http://www.w3.org/2000/svg\" viewBox=\"0 0 18 11\"><path d=\"M3 0h12v3h3v3h-3v5h-2V9h-2v2H7V9H5v2H3V6H0V3h3z\" fill=\"#fff\"/><path d=\"M5 3h2v2H5zM11 3h2v2h-2z\" fill=\"#000\"/></svg>";

/// The bundled SVG icon set (name → SVG source). These are monochrome
/// silhouettes meant to be tinted; pass `color` on `<icon>` to colour them.
/// `session-face` is the status mascot drawn for a working or shell session.
pub const BUNDLED: [(&'static str, &'static str); 9] = [
    ("folder", FOLDER_SVG),
    ("check", CHECK_SVG),
    ("arrow-up", ARROW_UP_SVG),
    ("bell", BELL_SVG),
    ("code", CODE_SVG),
    ("terminal", TERMINAL_SVG),
    ("gear", GEAR_SVG),
    ("app", APP_SVG),
    ("session-face", SESSION_FACE_SVG),
];

/// The bundled icon named `name`.
pub open spec fn bundled_spec(name: Seq<char>) -> Option<&'static str> {
    if name == "folder"@ {
        Some(FOLDER_SVG)
    } else if name == "check"@ {
        Some(CHECK_SVG)
    } else if name == "arrow-up"@ {
        Some(ARROW_UP_SVG)
    } else if name == "bell"@ {
        Some(BELL_SVG)
    } else if name == "code"@ {
        Some(CODE_SVG)
    } else if name == "terminal"@ {
        Some(TERMINAL_SVG)
    } else if name == "gear"@ {
        Some(GEAR_SVG)
    } else if name == "app"@ {
        Some(APP_SVG)
    } else if name == "session-face"@ {
        Some(SESSION_FACE_SVG)
    } else {
        None
    }
}

/// Every listed icon is found by its name.
pub proof fn every_icon_resolves()
    ensures
        forall|i: int| 0 <= i < BUNDLED@.len() ==> bundled_spec((#[trigger] BUNDLED@[i]).0@) == Some(BUNDLED@[i].1),
{
    reveal_strlit("folder");
    reveal_strlit("check");
    reveal_strlit("arrow-up");
    reveal_strlit("bell");
    reveal_strlit("code");
    reveal_strlit("terminal");
    reveal_strlit("gear");
    reveal_strlit("app");
    reveal_strlit("session-face");
    let names = seq!["folder"@, "check"@, "arrow-up"@, "bell"@, "code"@, "terminal"@, "gear"@, "app"@, "session-face"@];
    assert(forall|i: int, j: int| 0 <= i < j < 9 ==> names[i][0] != names[j][0] || names[i][1] != names[j][1]);
    assert(BUNDLED@ == seq![
        ("folder", FOLDER_SVG),
        ("check", CHECK_SVG),
        ("arrow-up", ARROW_UP_SVG),
        ("bell", BELL_SVG),
        ("code", CODE_SVG),
        ("terminal", TERMINAL_SVG),
        ("gear", GEAR_SVG),
        ("app", APP_SVG),
        ("session-face", SESSION_FACE_SVG),
    ]);
}

/// Look up a bundled icon's SVG source by name.
pub fn bundled(name: &str) -> (r: Option<&'static str>)
    ensures
        r == bundled_spec(name@),
{
    if str_eq(name, "folder") {
        Some(FOLDER_SVG)
    } else if str_eq(name, "check") {
        Some(CHECK_SVG)
    } else if str_eq(name, "arrow-up") {
        Some(ARROW_UP_SVG)
    } else if str_eq(name, "bell") {
        Some(BELL_SVG)
    } else if str_eq(name, "code") {
        Some(CODE_SVG)
    } else if str_eq(name, "terminal") {
        Some(TERMINAL_SVG)
    } else if str_eq(name, "gear") {
        Some(GEAR_SVG)
    } else if str_eq(name, "app") {
        Some(APP_SVG)
    } else if str_eq(name, "session-face") {
        Some(SESSION_FACE_SVG)
    } else {
        None
    }
}

} // verus!
