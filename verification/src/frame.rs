//! Per-frame decisions of the tile widget: whether a tile may animate at all,
//! how often it redraws, whether a frame needs the GL context, and which
//! background layer it paints.

use vstd::prelude::*;
use crate::strings::{chars_of, contains_chars, contains_seq};

verus! {

/// Default redraw rate for auto-animated tiles (blink/pulse/ticker) when the
/// config doesn't pin `fps`.
pub const DEFAULT_ANIM_FPS: u32 = 30;

/// Whether a tile may ever animate, so that a frame-clock callback is worth
/// installing: a pinned `fps`, a background shader, or a template that can
/// produce a ticker, a status indicator, a pulse or a shader background.
pub open spec fn may_animate_spec(fps: u32, background_shader: bool, format: Option<Seq<char>>) -> bool {
    ||| fps > 0
    ||| background_shader
    ||| match format {
        Some(f) => contains_seq(f, "<tickerbox"@) || contains_seq(f, "<status"@) || contains_seq(f, "<pulse"@)
            || contains_seq(f, "<bg"@),
        None => false,
    }
}

/// Whether a tile may ever animate (see [`may_animate_spec`]).
pub fn may_animate(fps: u32, background_shader: bool, format: &Option<String>) -> (r: bool)
    ensures
        r == may_animate_spec(
            fps,
            background_shader,
            match format {
                Some(f) => Some(f@),
                None => None,
            },
        ),
{
    if fps > 0 || background_shader {
        return true;
    }
    match format {
        Some(f) => {
            let cs = chars_of(f.as_str());
            contains_chars(&cs, "<tickerbox") || contains_chars(&cs, "<status") || contains_chars(&cs, "<pulse")
                || contains_chars(&cs, "<bg")
        },
        None => false,
    }
}

/// The least time between two redraws of an animating tile, in microseconds:
/// a second divided by the pinned `fps`, or by [`DEFAULT_ANIM_FPS`] when none
/// is pinned.
pub open spec fn frame_interval_spec(fps: u32) -> i64 {
    let target = if fps > 0 { fps } else { DEFAULT_ANIM_FPS };
    (1_000_000int / (target as int)) as i64
}

/// The least time between two redraws (see [`frame_interval_spec`]).
pub fn frame_interval_us(fps: u32) -> (r: i64)
    ensures
        r == frame_interval_spec(fps),
        0 <= r <= 1_000_000,
{
    let target: u32 = if fps > 0 { fps } else { DEFAULT_ANIM_FPS };
    (1_000_000u32 / target) as i64
}

/// Whether drawing a frame needs the GL context: a tile without content (the
/// demo tile renders with GL), a configured background shader, or content
/// holding a `<glow>` span or a `<bg>` layer. Other content tiles draw with
/// Cairo alone.
pub open spec fn needs_gl_spec(markup: Option<Seq<char>>, shader_configured: bool) -> bool {
    match markup {
        None => true,
        Some(m) => shader_configured || contains_seq(m, "<glow"@) || contains_seq(m, "<bg"@),
    }
}

/// Whether drawing a frame needs the GL context (see [`needs_gl_spec`]).
pub fn needs_gl(markup: &Option<String>, shader_configured: bool) -> (r: bool)
    ensures
        r == needs_gl_spec(
            match markup {
                Some(m) => Some(m@),
                None => None,
            },
            shader_configured,
        ),
{
    match markup {
        None => true,
        Some(m) => {
            if shader_configured {
                return true;
            }
            let cs = chars_of(m.as_str());
            contains_chars(&cs, "<glow") || contains_chars(&cs, "<bg")
        },
    }
}

/// The bottom layer of a frame.
#[derive(Debug, Clone, Copy, PartialEq, Eq)]
pub enum BackgroundLayer {
    /// The compiled background shader's output.
    Shader,
    /// The animated demo tile (femtovg).
    Demo,
    /// The configured background colour, filled flat.
    Flat,
    /// Nothing: the bar shows through.
    Nothing,
}

/// Which background a frame paints: a ready shader wins; a tile without
/// content and without a shader shows the demo tile; a content tile without a
/// shader fills its static background colour, if it has one; a configured
/// shader that is not ready paints nothing.
pub open spec fn background_spec(
    shader_ready: bool,
    has_content: bool,
    shader_configured: bool,
    has_colour: bool,
) -> BackgroundLayer {
    if shader_ready {
        BackgroundLayer::Shader
    } else if !has_content && !shader_configured {
        BackgroundLayer::Demo
    } else if has_content && !shader_configured && has_colour {
        BackgroundLayer::Flat
    } else {
        BackgroundLayer::Nothing
    }
}

/// Which background a frame paints (see [`background_spec`]).
pub fn background_layer(shader_ready: bool, has_content: bool, shader_configured: bool, has_colour: bool) -> (r:
    BackgroundLayer)
    ensures
        r == background_spec(shader_ready, has_content, shader_configured, has_colour),
{
    if shader_ready {
        BackgroundLayer::Shader
    } else if !has_content && !shader_configured {
        BackgroundLayer::Demo
    } else if has_content && !shader_configured && has_colour {
        BackgroundLayer::Flat
    } else {
        BackgroundLayer::Nothing
    }
}

/// What each background layer is for: a ready shader always shows; otherwise
/// a tile with no content and no shader shows the demo tile, whatever its
/// background colour; a flat fill needs content, no shader and a colour. The
/// colour only ever matters for a content tile without a shader, and a tile
/// with content never shows the demo.
pub proof fn background_layer_roles(sr: bool, hc: bool, sc: bool, c1: bool, c2: bool)
    ensures
        (background_spec(sr, hc, sc, c1) == BackgroundLayer::Shader) == sr,
        !sr && !hc && !sc ==> background_spec(sr, hc, sc, c1) == BackgroundLayer::Demo,
        background_spec(sr, hc, sc, c1) == BackgroundLayer::Demo ==> !hc && !sc && !sr,
        background_spec(sr, hc, sc, c1) == BackgroundLayer::Flat ==> hc && !sc && c1 && !sr,
        !sr && hc && !sc && c1 ==> background_spec(sr, hc, sc, c1) == BackgroundLayer::Flat,
        background_spec(sr, hc, sc, c1) != background_spec(sr, hc, sc, c2) ==> hc && !sc && !sr,
{
}

/// Redraws are spaced by a whole second divided by the frame rate: a pinned
/// rate gives `1_000_000 / fps` microseconds, and no pin behaves as the
/// default rate; a faster rate never waits longer.
pub proof fn frame_interval_follows_rate(a: u32, b: u32)
    ensures
        a > 0 ==> frame_interval_spec(a) * (a as int) <= 1_000_000 < (frame_interval_spec(a) + 1) * (a as int),
        frame_interval_spec(0) == frame_interval_spec(DEFAULT_ANIM_FPS),
        0 < a <= b ==> frame_interval_spec(b) <= frame_interval_spec(a),
{
    if a > 0 {
        let q = 1_000_000int / (a as int);
        assert(q * (a as int) <= 1_000_000 < (q + 1) * (a as int)) by (nonlinear_arith)
            requires
                a > 0,
                q == 1_000_000int / (a as int),
        ;
        assert(0 <= q <= 1_000_000) by (nonlinear_arith)
            requires
                a > 0,
                q == 1_000_000int / (a as int),
        ;
    }
    if 0 < a <= b {
        let qa = 1_000_000int / (a as int);
        let qb = 1_000_000int / (b as int);
        assert(qb <= qa) by (nonlinear_arith)
            requires
                0 < a <= b,
                qa == 1_000_000int / (a as int),
                qb == 1_000_000int / (b as int),
        ;
        assert(0 <= qb <= 1_000_000) by (nonlinear_arith)
            requires
                b > 0,
                qb == 1_000_000int / (b as int),
        ;
        assert(0 <= qa <= 1_000_000) by (nonlinear_arith)
            requires
                a > 0,
                qa == 1_000_000int / (a as int),
        ;
    }
}

/// GL is needed whenever there is no content (the demo tile draws with GL)
/// or a shader is configured; content needs it only for a `<glow>` or `<bg>`.
pub proof fn gl_need_roles(m: Seq<char>, sc: bool)
    ensures
        needs_gl_spec(None, sc),
        needs_gl_spec(Some(m), true),
        needs_gl_spec(Some(m), false) == (contains_seq(m, "<glow"@) || contains_seq(m, "<bg"@)),
{
}

/// A tile may animate when a rate is pinned, a shader is configured, or its
/// template can produce a ticker, status, pulse or shader background; a
/// template-less tile with neither pin nor shader never animates.
pub proof fn animation_possibility(fps: u32, bs: bool, f: Seq<char>)
    ensures
        fps > 0 || bs ==> may_animate_spec(fps, bs, None) && may_animate_spec(fps, bs, Some(f)),
        fps == 0 && !bs ==> !may_animate_spec(fps, bs, None),
        fps == 0 && !bs ==> (may_animate_spec(fps, bs, Some(f)) == (contains_seq(f, "<tickerbox"@)
            || contains_seq(f, "<status"@) || contains_seq(f, "<pulse"@) || contains_seq(f, "<bg"@))),
{
}

} // verus!
