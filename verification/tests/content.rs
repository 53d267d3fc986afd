use pwetty_box::content::{
    classify_stream_line, compose_tile_markup, content_animates, content_source, ContentSource,
    ContentStore, StreamLine, TileContent, LINE_CAP,
};

#[test]
fn content_animates_is_quote_agnostic() {
    assert!(content_animates("<status state='working' level='0'/>"));
    assert!(content_animates("<status state=\"shell\"/>"));
    assert!(content_animates("a <tickerbox>x</tickerbox>"));
    assert!(content_animates("<pulse>x</pulse>"));
    assert!(content_animates("<status state='idle' level='2'/>"));
    assert!(!content_animates("<status state='idle' level='6'/>"));
    assert!(!content_animates("just text, folder named working"));
}

#[test]
fn content_animates_on_background_and_prompt() {
    assert!(content_animates("<bg preset='night'/>x"));
    assert!(content_animates("<status state=\"prompt\"/>"));
    assert!(!content_animates("<status state='empty'/>"));
}

#[test]
fn store_tracks_dirty() {
    let mut s = ContentStore::new(TileContent::default());
    assert!(s.take_dirty(), "new store starts dirty");
    assert!(!s.take_dirty(), "cleared after read");
    s.set(TileContent {
        markup: "x".into(),
        ..Default::default()
    });
    assert!(s.take_dirty(), "dirty again after set");
    assert_eq!(s.markup(), "x");
}

#[test]
fn store_animating_follows_content_and_shutdown_sticks() {
    let mut s = ContentStore::new(TileContent::default());
    assert!(!s.animating());
    s.set(TileContent {
        markup: "<pulse>x</pulse>".into(),
        uniforms: vec![("u_load".to_string(), 95.0f32.to_bits())],
    });
    assert!(s.animating());
    assert_eq!(s.uniforms(), vec![("u_load".to_string(), 95.0f32.to_bits())]);
    assert!(!s.is_shutdown());
    s.set_child_pid(42);
    assert_eq!(s.child_pid(), 42);
    assert_eq!(s.shutdown(), Some(42));
    assert!(s.is_shutdown());
    s.set(TileContent::default());
    assert!(s.is_shutdown(), "a later write does not undo teardown");
    s.clear_child_pid();
    assert_eq!(s.child_pid(), 0);
    assert_eq!(s.shutdown(), None);
}

#[test]
fn compose_prefixes_icon_and_surfaces_errors() {
    assert_eq!(compose_tile_markup(Ok("a&amp;b".into()), &None, 130, -4608), "a&amp;b");
    let with_icon = compose_tile_markup(Ok("x".into()), &Some("I".into()), 130, -4608);
    assert_eq!(with_icon, "<span size=\"130%\" rise=\"-4608\">I</span>  x");
    assert_eq!(compose_tile_markup(Ok("x".into()), &Some(String::new()), 130, 0), "x");
    assert_eq!(
        compose_tile_markup(Err("bad <tag>".into()), &None, 100, 0),
        "<span foreground=\"#f38ba8\">template error: bad &lt;tag&gt;</span>"
    );
}

#[test]
fn content_source_prefers_exec_and_honours_stream() {
    let cmd = Some("date".to_string());
    let text = Some("hi".to_string());
    assert_eq!(content_source(&cmd, true, 5, &text), ContentSource::Stream("date".into()));
    assert_eq!(content_source(&cmd, false, 5, &text), ContentSource::Poll("date".into(), 5));
    assert_eq!(content_source(&None, true, 5, &text), ContentSource::Static("hi".into()));
    assert_eq!(content_source(&None, false, 0, &None), ContentSource::Absent);
}

#[test]
fn stream_lines_are_classified() {
    assert_eq!(classify_stream_line(b""), StreamLine::Eof);
    assert_eq!(classify_stream_line(b"{\"value\":\"one\"}\r\n"), StreamLine::Content("{\"value\":\"one\"}".into()));
    assert_eq!(classify_stream_line(b"  \t\n"), StreamLine::Blank);
    assert_eq!(classify_stream_line(&[0xff, 0xfe, b'\n']), StreamLine::Undecodable);
    let long = vec![b'a'; LINE_CAP];
    assert_eq!(classify_stream_line(&long), StreamLine::Overlong);
    let mut ok = vec![b'a'; LINE_CAP - 1];
    ok.push(b'\n');
    assert_eq!(classify_stream_line(&ok), StreamLine::Content("a".repeat(LINE_CAP - 1)));
    assert_eq!(classify_stream_line("héllo".as_bytes()), StreamLine::Content("héllo".into()));
}
