use pwetty_box::shader::{preset, wrap_fragment, wrap_fragment_masked, GLOW_SRC, PRESETS};

#[test]
fn wrap_adds_boilerplate_and_user_code() {
    let s = wrap_fragment("void mainImage(out vec4 c, in vec2 p){ c = vec4(1.0); }");
    assert!(s.starts_with("#version 300 es"));
    assert!(s.contains("uniform float iTime;"));
    assert!(s.contains("uniform vec3 iResolution;"));
    assert!(s.contains("void mainImage"));
    assert!(s.contains("mainImage(_pwetty_fragColor, gl_FragCoord.xy)"));
}

#[test]
fn masked_wrap_adds_bubble_uniforms_and_mask() {
    let s = wrap_fragment_masked("void mainImage(out vec4 c, in vec2 p){ c = vec4(1.0); }");
    assert!(s.starts_with("#version 300 es"));
    for u in [
        "u_bx",
        "u_by",
        "u_bw",
        "u_bh",
        "u_radius",
        "u_fade",
        "u_falloff",
        "u_alpha",
    ] {
        assert!(s.contains(u), "missing uniform {u}");
    }
    assert!(s.contains("_pw_sdbox"));
    assert!(s.contains("c.a * cliff * slow"));
}

#[test]
fn presets_resolve_by_name() {
    assert!(preset("night").is_some());
    assert!(preset("caustic").is_some());
    assert!(preset("nope").is_none());
    for (name, src) in PRESETS {
        assert!(src.contains("mainImage"), "{name} has no mainImage");
    }
}

#[test]
fn every_listed_preset_is_found_by_name() {
    for (name, src) in PRESETS {
        assert_eq!(preset(name), Some(src));
    }
    assert!(GLOW_SRC.contains("mainImage"));
}

#[test]
fn wrapping_keeps_user_code_verbatim_once() {
    let user = "void mainImage(out vec4 c, in vec2 p){ c = vec4(0.5); }";
    let s = wrap_fragment(user);
    assert_eq!(s.matches(user).count(), 1);
    let m = wrap_fragment_masked(user);
    assert_eq!(m.matches(user).count(), 1);
}
