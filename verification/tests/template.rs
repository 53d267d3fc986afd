use pwetty_box::template::{check_preset, check_sample, context_for, render_template, SampleCheck};
use pwetty_box::tiles::get;

#[test]
fn template_binds_object_fields() {
    let data = r#"{ "host": "nas", "cpu": { "pct": 82 } }"#;
    assert_eq!(render_template("{{ host }}", data).unwrap(), "nas");
    assert_eq!(render_template("CPU {{ cpu.pct }}%", data).unwrap(), "CPU 82%");
}

#[test]
fn template_autoescapes_values_but_not_markup() {
    let out = render_template("<span>{{ v }}</span>", r#"{ "v": "a<b&c" }"#).unwrap();
    assert!(out.starts_with("<span>") && out.ends_with("</span>"), "{out}");
    assert!(out.contains("a&lt;b&amp;c"), "value escaped: {out}");
    assert!(!out.contains("a<b"), "raw < must not survive: {out}");
}

#[test]
fn template_scalar_is_value_and_conditionals_work() {
    assert_eq!(render_template("{{ value }}", r#""hi""#).unwrap(), "hi");
    let data = r#"{ "n": 9 }"#;
    assert_eq!(
        render_template("{% if n >= 5 %}big{% else %}small{% endif %}", data).unwrap(),
        "big"
    );
    assert_eq!(render_template("[{{ nope }}]", data).unwrap(), "[]");
}

#[test]
fn parse_data_json_or_plain() {
    // An object's fields are bound at the top level; plain text is `{{ value }}`.
    assert_eq!(render_template("{{ a }}", r#"{"a":1}"#).unwrap(), "1");
    assert_eq!(render_template("{{ value }}", r#"{"a":1}"#).unwrap(), "");
    assert_eq!(render_template("{{ value }}", "hello").unwrap(), "hello");
    assert_eq!(render_template("{{ value }}", "42").unwrap(), "42");
}

#[test]
fn render_context_wraps_non_objects() {
    assert_eq!(context_for(r#"{"a":1}"#, &Ok(true)), r#"{"a":1}"#);
    assert_eq!(context_for("42", &Ok(false)), r#"{"value":42}"#);
    assert_eq!(
        context_for("he said \"hi\"\\\n", &Err("bad".into())),
        "{\"value\":\"he said \\\"hi\\\"\\\\\\u000a\"}"
    );
    assert_eq!(render_template("{{ value }}", "a&b").unwrap(), "a&amp;b");
    assert_eq!(render_template("{{ value }}", "say \"x\"\t").unwrap(), "say &quot;x&quot;\t");
}

#[test]
fn template_errors_are_reported() {
    assert!(render_template("{% if %}", "1").is_err());
}

#[test]
fn samples_are_checked() {
    assert_eq!(check_sample("{{ a }}", r#"{"a":1}"#), SampleCheck::Renders);
    assert!(matches!(check_sample("{{ a }}", "{oops"), SampleCheck::NotJson(_)));
    assert!(matches!(check_sample("{% if %}", "{}"), SampleCheck::RenderError(_)));
}

#[test]
fn bundled_presets_pass_their_check() {
    for name in ["session", "empty"] {
        let p = get(name).unwrap();
        let cfg: serde_json::Value = serde_json::from_str(p.config).unwrap();
        let template = cfg["format"].as_str().unwrap().to_string();
        let report = check_preset(&p, &template);
        assert!(report.vars.is_ok(), "{name}: {:?}", report.vars);
        assert_eq!(report.samples.len(), p.samples.len());
        for s in &report.samples {
            assert_eq!(*s, SampleCheck::Renders, "{name}");
        }
    }
}

#[test]
fn preset_report_lists_undeclared_and_unused() {
    let p = get("session").unwrap();
    let report = check_preset(&p, "{{ state }} {{ extra }}");
    assert_eq!(report.undeclared, vec!["extra".to_string()]);
    let mut unused = report.unused.clone();
    unused.sort();
    assert_eq!(unused, vec!["ago", "desktop", "folder", "level", "title"]);
}
