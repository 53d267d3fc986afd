//! Tile-level background shaders: the bundled Shadertoy-style presets and the
//! wrappers that turn user `mainImage` code into a complete GLES3 fragment
//! shader. Compiling and running them on the GPU is the renderer's job.

use vstd::prelude::*;
use crate::strings::str_eq;

verus! {

/// A slow starfield over a deep-blue vertical gradient. Takes optional
/// `stars_r/g/b` uniforms (a `stars="#rrggbb"` attribute) for the star tint.
pub const NIGHT_SRC: &'static str = "uniform float stars_r; uniform float stars_g; uniform float stars_b;
float _night_hash(vec2 p) { return fract(sin(dot(p, vec2(127.1, 311.7))) * 43758.5453); }
void mainImage(out vec4 fragColor, in vec2 fragCoord) {
    vec2 uv = fragCoord / iResolution.xy;
    vec3 sky = mix(vec3(0.02, 0.03, 0.10), vec3(0.10, 0.12, 0.30), uv.y);
    vec3 tint = vec3(stars_r, stars_g, stars_b);
    if (dot(tint, tint) < 0.0001) { tint = vec3(0.95, 0.92, 0.80); }
    vec2 cell = floor(fragCoord / 6.0);
    float h = _night_hash(cell);
    float twinkle = 0.5 + 0.5 * sin(iTime * (1.0 + 3.0 * h) + h * 6.2831);
    float star = step(0.985, h) * twinkle;
    fragColor = vec4(sky + tint * star, 0.85);
}
";

/// Rippling light caustics in teal, drifting slowly.
pub const CAUSTIC_SRC: &'static str = "void mainImage(out vec4 fragColor, in vec2 fragCoord) {
    vec2 p = fragCoord / iResolution.y * 6.0;
    float t = iTime * 0.35;
    float c = 0.0;
    for (int i = 0; i < 3; i++) {
        float fi = float(i);
        p += vec2(sin(p.y + t + fi), cos(p.x - t * 1.3 + fi));
        c += 1.0 / (1.0 + 4.0 * abs(sin(p.x) * sin(p.y)));
    }
    c = clamp(c / 3.0, 0.0, 1.0);
    vec3 col = mix(vec3(0.02, 0.18, 0.24), vec3(0.55, 0.95, 0.95), c * c);
    fragColor = vec4(col, 0.8);
}
";

/// Bundled background-shader presets, selectable via `<bg preset="name"/>`. Each
/// is Shadertoy-style (`mainImage`), single-pass, texture-free.
pub const PRESETS: [(&'static str, &'static str); 2] = [("night", NIGHT_SRC), ("caustic", CAUSTIC_SRC)];

/// The GLSL source of the preset named `name`.
pub open spec fn preset_spec(name: Seq<char>) -> Option<&'static str> {
    if name == "night"@ {
        Some(NIGHT_SRC)
    } else if name == "caustic"@ {
        Some(CAUSTIC_SRC)
    } else {
        None
    }
}

/// Every listed background preset is found by its name.
pub proof fn every_shader_preset_resolves()
    ensures
        forall|i: int| 0 <= i < PRESETS@.len() ==> preset_spec((#[trigger] PRESETS@[i]).0@) == Some(PRESETS@[i].1),
{
    reveal_strlit("night");
    reveal_strlit("caustic");
    assert("night"@[0] != "caustic"@[0]);
    assert(PRESETS@ == seq![("night", NIGHT_SRC), ("caustic", CAUSTIC_SRC)]);
}

/// GLSL source for a named background preset, if it exists.
pub fn preset(name: &str) -> (r: Option<&'static str>)
    ensures
        r == preset_spec(name@),
{
    if str_eq(name, "night") {
        Some(NIGHT_SRC)
    } else if str_eq(name, "caustic") {
        Some(CAUSTIC_SRC)
    } else {
        None
    }
}

/// Built-in soft-glow shader (used by the `<glow color="…">` span effect). A
/// gently pulsing coloured blob with a soft elliptical falloff; the colour comes
/// from the `u_r`/`u_g`/`u_b` uniforms.
pub const GLOW_SRC: &'static str = "uniform float u_r; uniform float u_g; uniform float u_b;
void mainImage(out vec4 fragColor, in vec2 fragCoord) {
vec2 p = (fragCoord / iResolution.xy - 0.5) * 2.0;
float d = length(p * vec2(0.85, 1.0));
float a = smoothstep(1.0, 0.05, d) * 0.6 * (0.85 + 0.15 * sin(iTime * 2.5));
fragColor = vec4(u_r, u_g, u_b, clamp(a, 0.0, 1.0));
}
";

/// What precedes user code in a plain fragment shader: version, precision, the
/// standard `iResolution`/`iTime`/`iFrame` uniforms and the output variable.
pub const FRAGMENT_HEAD: &'static str = "#version 300 es
precision highp float;
uniform vec3 iResolution;
uniform float iTime;
uniform int iFrame;
out vec4 _pwetty_fragColor;
";

/// What follows user code in a plain fragment shader: the entry point calling
/// `mainImage`.
pub const FRAGMENT_TAIL: &'static str = "
void main() { mainImage(_pwetty_fragColor, gl_FragCoord.xy); }
";

/// What precedes user code in a masked fragment shader: as [`FRAGMENT_HEAD`],
/// plus the focus-bubble and opacity uniforms.
pub const MASKED_HEAD: &'static str = "#version 300 es
precision highp float;
uniform vec3 iResolution;
uniform float iTime;
uniform int iFrame;
uniform float u_bx; uniform float u_by; uniform float u_bw; uniform float u_bh;
uniform float u_radius; uniform float u_fade; uniform float u_falloff; uniform float u_alpha;
out vec4 _pwetty_fragColor;
";

/// What follows user code in a masked fragment shader: the rounded-rect
/// distance function and an entry point that multiplies the shader's alpha by
/// a steep `u_fade`-px edge cliff and a slow `u_falloff`-px vignette.
pub const MASKED_TAIL: &'static str = "
float _pw_sdbox(vec2 p, vec2 b, float r) {
vec2 q = abs(p) - b + r;
return min(max(q.x, q.y), 0.0) + length(max(q, 0.0)) - r;
}
void main() {
vec4 c; mainImage(c, gl_FragCoord.xy);
vec2 ctr = vec2(u_bx + u_bw * 0.5, u_by + u_bh * 0.5);
vec2 hlf = vec2(u_bw * 0.5, u_bh * 0.5);
float dist = -_pw_sdbox(gl_FragCoord.xy - ctr, hlf, u_radius);
// Two stacked fades, both on inside-distance from the bubble edge:
//   cliff = a steep cut over u_fade px right at the edge (clean boundary);
//   slow  = a gentle ramp over a much larger u_falloff px (a soft vignette,
//           brightest deep inside, dimming out toward the edge).
float cliff = clamp(dist / max(u_fade, 1.0), 0.0, 1.0);
float slow  = clamp(dist / max(u_falloff, 1.0), 0.0, 1.0);
_pwetty_fragColor = vec4(c.rgb, c.a * cliff * slow);
}
";

/// Wrap Shadertoy-style user code (which defines
/// `void mainImage(out vec4 fragColor, in vec2 fragCoord)`) into a complete
/// GLES3 fragment shader exposing the standard `iResolution`/`iTime`/`iFrame`.
pub fn wrap_fragment(user: &str) -> (r: String)
    ensures
        r@ == FRAGMENT_HEAD@ + user@ + FRAGMENT_TAIL@,
{
    let mut s = String::new();
    s.append(FRAGMENT_HEAD);
    s.append(user);
    s.append(FRAGMENT_TAIL);
    assert(s@ =~= FRAGMENT_HEAD@ + user@ + FRAGMENT_TAIL@);
    s
}

/// As [`wrap_fragment`], but multiplies the shader's alpha by a rounded-rect
/// **focus-bubble mask** so `<bg>` presets read as a contained graphical layer.
/// The preset owns its own opacity via its `fragColor.a` (the declared
/// `u_alpha` is available to it but not applied here). Output is straight
/// alpha. Bubble bounds and radii are device px.
pub fn wrap_fragment_masked(user: &str) -> (r: String)
    ensures
        r@ == MASKED_HEAD@ + user@ + MASKED_TAIL@,
{
    let mut s = String::new();
    s.append(MASKED_HEAD);
    s.append(user);
    s.append(MASKED_TAIL);
    assert(s@ =~= MASKED_HEAD@ + user@ + MASKED_TAIL@);
    s
}

} // verus!
