use pwetty_box::markup::{escape, icon_span_markup, process, EMBED_PLACEHOLDER};

#[test]
fn escape_special_chars() {
    assert_eq!(escape("a & b < c > d"), "a &amp; b &lt; c &gt; d");
    assert_eq!(escape("plain"), "plain");
    assert_eq!(escape(r#"q"' "#), "q&quot;&#39; ");
}

#[test]
fn escape_leaves_no_markup_special_char() {
    let e = escape(r#"<a href="x">it's</a> & more"#);
    assert!(!e.contains('<') && !e.contains('>') && !e.contains('"') && !e.contains('\''));
    assert_eq!(e, "&lt;a href=&quot;x&quot;&gt;it&#39;s&lt;/a&gt; &amp; more");
}

#[test]
fn inline_embed_reserves_placeholder_and_pulls_inner() {
    let p = process(
        r#"<b>NOW</b> <tickerbox width="200"><b>x</b> y</tickerbox> z"#,
        &["box"],
        &["tickerbox"],
    );
    assert!(p.markup.starts_with("<b>NOW</b> "));
    assert!(p.markup.ends_with(" z"));
    assert!(p.markup.contains(EMBED_PLACEHOLDER));
    assert_eq!(p.effects.len(), 0);
    assert_eq!(p.embeds.len(), 1);

    let e = &p.embeds[0];
    assert_eq!(e.tag, "tickerbox");
    assert_eq!(e.attrs, vec![("width".to_string(), "200".to_string())]);
    assert_eq!(e.inner, "<b>x</b> y");
    assert_eq!(
        &p.plain[e.start..e.start + EMBED_PLACEHOLDER.len_utf8()],
        "\u{FFFC}"
    );
}

#[test]
fn plain_text_passthrough() {
    let p = process("hello & world", &["box"], &[]);
    assert_eq!(p.markup, "hello &amp; world");
    assert_eq!(p.plain, "hello & world");
    assert!(p.effects.is_empty());
}

#[test]
fn standard_bold_passthrough() {
    let p = process("<b>hi</b>", &["box"], &[]);
    assert_eq!(p.markup, "<b>hi</b>");
    assert_eq!(p.plain, "hi");
    assert!(p.effects.is_empty());
}

#[test]
fn standard_span_attrs_preserved() {
    let p = process(r##"<span foreground="#f00">hi</span>"##, &["box"], &[]);
    assert_eq!(p.markup, r##"<span foreground="#f00">hi</span>"##);
    assert_eq!(p.plain, "hi");
    assert!(p.effects.is_empty());
}

#[test]
fn single_custom_tag() {
    let p = process(r##"<box bg="#222">hi</box>"##, &["box"], &[]);
    assert_eq!(p.markup, "hi");
    assert_eq!(p.plain, "hi");
    assert_eq!(p.effects.len(), 1);
    let e = &p.effects[0];
    assert_eq!(e.tag, "box");
    assert_eq!(e.attrs, vec![("bg".to_string(), "#222".to_string())]);
    assert_eq!(e.start, 0);
    assert_eq!(e.end, 2);
    assert_eq!(&p.plain[e.start..e.end], "hi");
}

#[test]
fn custom_tag_with_surrounding_text() {
    let p = process("before <box>X</box> after", &["box"], &[]);
    assert_eq!(p.markup, "before X after");
    assert_eq!(p.plain, "before X after");
    assert_eq!(p.effects.len(), 1);
    let e = &p.effects[0];
    assert_eq!(e.tag, "box");
    assert_eq!(&p.plain[e.start..e.end], "X");
    assert_eq!(e.start, 7);
    assert_eq!(e.end, 8);
}

#[test]
fn standard_around_custom() {
    let p = process("<b><box>x</box></b>", &["box"], &[]);
    assert_eq!(p.markup, "<b>x</b>");
    assert_eq!(p.plain, "x");
    assert_eq!(p.effects.len(), 1);
    let e = &p.effects[0];
    assert_eq!(e.tag, "box");
    assert_eq!(&p.plain[e.start..e.end], "x");
}

#[test]
fn custom_around_standard() {
    let p = process("<box><b>x</b></box>", &["box"], &[]);
    assert_eq!(p.markup, "<b>x</b>");
    assert_eq!(p.plain, "x");
    assert_eq!(p.effects.len(), 1);
    let e = &p.effects[0];
    assert_eq!(e.tag, "box");
    assert_eq!(e.start, 0);
    assert_eq!(e.end, 1);
    assert_eq!(&p.plain[e.start..e.end], "x");
}

#[test]
fn two_sibling_custom_tags() {
    let p = process("<box>aa</box><glow>bbb</glow>", &["box", "glow"], &[]);
    assert_eq!(p.markup, "aabbb");
    assert_eq!(p.plain, "aabbb");
    assert_eq!(p.effects.len(), 2);

    let a = &p.effects[0];
    assert_eq!(a.tag, "box");
    assert_eq!(a.start, 0);
    assert_eq!(a.end, 2);
    assert_eq!(&p.plain[a.start..a.end], "aa");

    let b = &p.effects[1];
    assert_eq!(b.tag, "glow");
    assert_eq!(b.start, 2);
    assert_eq!(b.end, 5);
    assert_eq!(&p.plain[b.start..b.end], "bbb");
}

#[test]
fn malformed_input_falls_back() {
    let p = process("a < b", &["box"], &[]);
    assert_eq!(p.markup, "a &lt; b");
    assert_eq!(p.plain, "a < b");
    assert!(p.effects.is_empty());
}

#[test]
fn nested_custom_in_custom() {
    let p = process("<box>a<glow>b</glow>c</box>", &["box", "glow"], &[]);
    assert_eq!(p.markup, "abc");
    assert_eq!(p.plain, "abc");
    assert_eq!(p.effects.len(), 2);
    let glow = p.effects.iter().find(|e| e.tag == "glow").unwrap();
    let bx = p.effects.iter().find(|e| e.tag == "box").unwrap();
    assert_eq!(&p.plain[glow.start..glow.end], "b");
    assert_eq!(&p.plain[bx.start..bx.end], "abc");
}

#[test]
fn structural_tags_set_flags_and_emit_nothing() {
    let p = process("<active/><pulse><b>hi</b></pulse>", &[], &[]);
    assert!(p.active);
    assert!(p.pulse);
    assert_eq!(p.markup, "<b>hi</b>");
    assert_eq!(p.plain, "hi");
}

#[test]
fn embed_inner_keeps_nested_attributes_escaped() {
    let p = process(
        r#"<tickerbox><span foreground="a&amp;b">x</span></tickerbox>"#,
        &[],
        &["tickerbox"],
    );
    assert_eq!(p.embeds.len(), 1);
    assert_eq!(p.embeds[0].inner, r#"<span foreground="a&amp;b">x</span>"#);
    assert_eq!(p.embeds[0].start, 0);
    assert_eq!(p.plain, "\u{FFFC}");
}

#[test]
fn offsets_count_bytes_not_chars() {
    let p = process("é<box>ü</box>", &["box"], &[]);
    assert_eq!(p.effects.len(), 1);
    assert_eq!(p.effects[0].start, 2);
    assert_eq!(p.effects[0].end, 4);
    assert_eq!(&p.plain[p.effects[0].start..p.effects[0].end], "ü");
}

#[test]
fn icon_span_markup_sizes_rises_and_escapes() {
    let s = icon_span_markup("<", 130, -4608);
    assert_eq!(s, "<span size=\"130%\" rise=\"-4608\">&lt;</span>");
    assert!(icon_span_markup("x", 100, 0).contains("rise=\"0\""));
}

#[test]
fn spans_nest_or_follow_and_embeds_advance() {
    let p = process(
        "<box>a<glow>é</glow></box><box>c</box>x<t/>y<t/>",
        &["box", "glow"],
        &["t"],
    );
    let ends: Vec<usize> = p.effects.iter().map(|e| e.end).collect();
    assert!(ends.windows(2).all(|w| w[0] <= w[1]));
    for (i, a) in p.effects.iter().enumerate() {
        assert!(p.plain.is_char_boundary(a.start) && p.plain.is_char_boundary(a.end));
        for b in &p.effects[i + 1..] {
            assert!(a.end <= b.start || (b.start <= a.start && a.end <= b.end));
        }
    }
    assert_eq!(p.embeds.len(), 2);
    assert!(p.embeds[0].start < p.embeds[1].start);
}

#[test]
fn markup_without_tags_is_escaped_plain() {
    let p = process(
        r#"<b a="x&amp;y">1 &lt; 2</b><box>z</box><t>in</t> &amp; 'q'"#,
        &["box"],
        &["t"],
    );
    let mut stripped = String::new();
    let mut in_tag = false;
    for c in p.markup.chars() {
        match c {
            '<' => in_tag = true,
            '>' => in_tag = false,
            _ if !in_tag => stripped.push(c),
            _ => {}
        }
    }
    assert_eq!(stripped, escape(&p.plain));
    assert_eq!(p.plain, "1 < 2z\u{FFFC} & 'q'");
}
