use pwetty_box::svg::{bundled, BUNDLED};
use pwetty_box::tiles::{all, get};

#[test]
fn session_preset_is_registered_and_well_formed() {
    let p = get("session").expect("session preset present");
    serde_json::from_str::<serde_json::Value>(p.config).expect("config is JSON");
    serde_json::from_str::<serde_json::Value>(p.schema).expect("schema is JSON");
    assert_eq!(p.samples.len(), 5);
    for (name, json) in p.samples {
        serde_json::from_str::<serde_json::Value>(json)
            .unwrap_or_else(|e| panic!("sample {name} is JSON: {e}"));
    }
}

#[test]
fn empty_preset_is_registered_and_well_formed() {
    let p = get("empty").expect("empty preset present");
    serde_json::from_str::<serde_json::Value>(p.config).expect("config is JSON");
    serde_json::from_str::<serde_json::Value>(p.schema).expect("schema is JSON");
    assert_eq!(p.samples.len(), 2);
}

#[test]
fn unknown_preset_is_none() {
    assert!(get("nope").is_none());
}

#[test]
fn all_presets_resolve_by_their_names() {
    let ps = all();
    assert_eq!(ps.len(), 2);
    for p in ps {
        assert_eq!(get(p.name).map(|q| q.name), Some(p.name));
    }
}

#[test]
fn bundled_icons_resolve_by_name() {
    for (name, svg) in BUNDLED {
        assert_eq!(bundled(name), Some(svg));
        assert!(svg.starts_with("<svg"));
    }
    assert!(bundled("nope").is_none());
}

#[test]
fn status_mascot_is_bundled() {
    let svg = bundled("session-face").expect("mascot bundled");
    assert!(svg.contains("viewBox=\"0 0 18 11\""));
}
