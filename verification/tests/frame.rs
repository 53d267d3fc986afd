use pwetty_box::frame::{
    background_layer, frame_interval_us, may_animate, needs_gl, BackgroundLayer, DEFAULT_ANIM_FPS,
};

#[test]
fn animation_is_considered_only_when_something_can_move() {
    assert!(may_animate(60, false, &None));
    assert!(may_animate(0, true, &None));
    assert!(may_animate(0, false, &Some("<status state='{{ s }}'/>".to_string())));
    assert!(may_animate(0, false, &Some("<bg preset='night'/>{{ v }}".to_string())));
    assert!(!may_animate(0, false, &Some("<b>{{ value }}</b>".to_string())));
    assert!(!may_animate(0, false, &None));
}

#[test]
fn frame_interval_follows_fps() {
    assert_eq!(frame_interval_us(0), 1_000_000 / DEFAULT_ANIM_FPS as i64);
    assert_eq!(frame_interval_us(60), 16_666);
    assert_eq!(frame_interval_us(1), 1_000_000);
    assert_eq!(frame_interval_us(u32::MAX), 0);
}

#[test]
fn gl_is_needed_only_for_gpu_layers() {
    assert!(needs_gl(&None, false));
    assert!(needs_gl(&Some("plain".to_string()), true));
    assert!(needs_gl(&Some("<glow color='#f00'>x</glow>".to_string()), false));
    assert!(needs_gl(&Some("<bg preset='night'/>".to_string()), false));
    assert!(!needs_gl(&Some("<b>x</b>".to_string()), false));
}

#[test]
fn background_layer_choice() {
    assert_eq!(background_layer(true, true, true, true), BackgroundLayer::Shader);
    assert_eq!(background_layer(false, false, false, true), BackgroundLayer::Demo);
    assert_eq!(background_layer(false, true, false, true), BackgroundLayer::Flat);
    assert_eq!(background_layer(false, true, false, false), BackgroundLayer::Nothing);
    assert_eq!(background_layer(false, false, true, true), BackgroundLayer::Nothing);
    assert_eq!(background_layer(false, true, true, true), BackgroundLayer::Nothing);
}
