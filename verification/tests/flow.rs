use pwetty_box::flow::{attr, flow_layout, FlowItem};

const P: char = '\u{FFFC}';

#[test]
fn flow_layout_single_line_with_embed() {
    let m = format!("a{P}b");
    assert_eq!(
        flow_layout(&m),
        vec![vec![FlowItem::Text("a"), FlowItem::Embed(0), FlowItem::Text("b")]]
    );
}

#[test]
fn flow_layout_multiline_indexes_embeds_in_document_order() {
    let m = format!("x{P}y\nz{P}{P}w");
    assert_eq!(
        flow_layout(&m),
        vec![
            vec![FlowItem::Text("x"), FlowItem::Embed(0), FlowItem::Text("y")],
            vec![
                FlowItem::Text("z"),
                FlowItem::Embed(1),
                FlowItem::Embed(2),
                FlowItem::Text("w"),
            ],
        ]
    );
}

#[test]
fn flow_layout_leading_and_trailing_placeholders_emit_no_empty_text() {
    let m = format!("{P}mid{P}");
    assert_eq!(
        flow_layout(&m),
        vec![vec![FlowItem::Embed(0), FlowItem::Text("mid"), FlowItem::Embed(1)]]
    );
}

#[test]
fn flow_layout_plain_multiline_has_no_embeds() {
    assert_eq!(
        flow_layout("one\ntwo"),
        vec![vec![FlowItem::Text("one")], vec![FlowItem::Text("two")]]
    );
}

#[test]
fn flow_layout_empty_lines_stay() {
    assert_eq!(flow_layout(""), vec![Vec::<FlowItem>::new()]);
    assert_eq!(
        flow_layout("a\n\nb"),
        vec![vec![FlowItem::Text("a")], vec![], vec![FlowItem::Text("b")]]
    );
}

#[test]
fn attr_finds_value_or_none() {
    let a = vec![("state".to_string(), "working".to_string())];
    assert_eq!(attr(&a, "state"), Some("working"));
    assert_eq!(attr(&a, "level"), None);
}

#[test]
fn attr_takes_the_first_match() {
    let a = vec![
        ("w".to_string(), "1".to_string()),
        ("w".to_string(), "2".to_string()),
    ];
    assert_eq!(attr(&a, "w"), Some("1"));
}

#[test]
fn flow_lines_rebuild_the_markup_and_number_every_placeholder() {
    let m = format!("{P}a\n\nb{P}{P}c\n{P}");
    let lines = flow_layout(&m);
    let rebuilt: Vec<String> = lines
        .iter()
        .map(|l| {
            l.iter()
                .map(|it| match it {
                    FlowItem::Text(t) => t.to_string(),
                    FlowItem::Embed(_) => P.to_string(),
                })
                .collect::<String>()
        })
        .collect();
    assert_eq!(rebuilt.join("\n"), m);
    let slots: Vec<usize> = lines
        .iter()
        .flatten()
        .filter_map(|it| match it {
            FlowItem::Embed(i) => Some(*i),
            _ => None,
        })
        .collect();
    assert_eq!(slots, (0..m.matches(P).count()).collect::<Vec<_>>());
}
