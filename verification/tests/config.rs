use pwetty_box::config::{json_copy, layer_preset, merge, preset_source, Json, PresetSource};

fn num(n: &str) -> Json {
    Json::Number(n.to_string())
}

fn s(v: &str) -> Json {
    Json::Str(v.to_string())
}

fn obj(members: Vec<(&str, Json)>) -> Json {
    Json::Object(members.into_iter().map(|(k, v)| (k.to_string(), v)).collect())
}

#[test]
fn merge_object_keys_recursively_over_wins() {
    let mut base = obj(vec![
        ("a", num("1")),
        ("b", obj(vec![("x", num("1")), ("y", num("2"))])),
        ("c", num("3")),
    ]);
    merge(
        &mut base,
        &obj(vec![("b", obj(vec![("y", num("20")), ("z", num("30"))])), ("c", num("99"))]),
    );
    assert_eq!(
        base,
        obj(vec![
            ("a", num("1")),
            ("b", obj(vec![("x", num("1")), ("y", num("20")), ("z", num("30"))])),
            ("c", num("99")),
        ])
    );
}

#[test]
fn merge_scalar_and_array_replace_not_merge() {
    let mut base = obj(vec![
        ("arr", Json::Array(vec![num("1"), num("2"), num("3")])),
        ("s", s("old")),
    ]);
    merge(&mut base, &obj(vec![("arr", Json::Array(vec![num("9")])), ("s", s("new"))]));
    assert_eq!(
        base,
        obj(vec![("arr", Json::Array(vec![num("9")])), ("s", s("new"))])
    );
}

#[test]
fn merge_non_object_replaces_whole_value() {
    let mut base = obj(vec![("a", num("1"))]);
    merge(&mut base, &Json::Null);
    assert_eq!(base, Json::Null);
    let mut base = Json::Bool(true);
    merge(&mut base, &obj(vec![("a", Json::Null)]));
    assert_eq!(base, obj(vec![("a", Json::Null)]));
}

#[test]
fn json_copy_is_equal() {
    let v = obj(vec![
        ("a", Json::Array(vec![Json::Bool(false), Json::Null, s("t")])),
        ("b", obj(vec![("c", num("-1.5e3"))])),
    ]);
    assert_eq!(json_copy(&v), v);
}

#[test]
fn preset_source_file_wins_over_tile() {
    let raw = obj(vec![("tile", s("session")), ("tile_file", s("/x.json"))]);
    assert_eq!(preset_source_name(&raw), "file:/x.json");
    let raw = obj(vec![("tile", s("session")), ("width", num("360"))]);
    assert_eq!(preset_source_name(&raw), "bundled:session");
    let raw = obj(vec![("tile", s("ghost"))]);
    assert_eq!(preset_source_name(&raw), "unknown:ghost");
    let raw = obj(vec![("width", num("123"))]);
    assert_eq!(preset_source_name(&raw), "absent");
    let raw = obj(vec![("tile_file", num("7")), ("tile", s("empty"))]);
    assert_eq!(preset_source_name(&raw), "bundled:empty");
    assert_eq!(preset_source_name(&s("tile")), "absent");
}

fn preset_source_name(raw: &Json) -> String {
    match preset_source(raw) {
        PresetSource::File(p) => format!("file:{p}"),
        PresetSource::Bundled(t) => format!("bundled:{}", t.name),
        PresetSource::Unknown(n) => format!("unknown:{n}"),
        PresetSource::Absent => "absent".to_string(),
    }
}

#[test]
fn layer_preset_lets_module_keys_win() {
    let preset = obj(vec![("width", num("300")), ("height", num("96"))]);
    let raw = obj(vec![("tile", s("session")), ("width", num("360")), ("exec", s("echo"))]);
    let merged = layer_preset(Some(preset), json_copy(&raw));
    assert_eq!(
        merged,
        obj(vec![
            ("width", num("360")),
            ("height", num("96")),
            ("tile", s("session")),
            ("exec", s("echo")),
        ])
    );
    assert_eq!(layer_preset(None, json_copy(&raw)), raw);
}
