use pwetty_box::flow::{flow_layout, FlowItem};
use pwetty_box::markup::process;
use pwetty_box::status::{
    age_label, idle_level, lead_of, AgeUnit, parse_usize, status_of, wrap_of, Lead, StatusKind, IDLE_LEVELS,
};

fn attrs(pairs: &[(&str, &str)]) -> Vec<(String, String)> {
    pairs.iter().map(|(k, v)| (k.to_string(), v.to_string())).collect()
}

#[test]
fn idle_levels_cover_seven_steps() {
    assert_eq!(IDLE_LEVELS.len(), 7);
    assert_eq!(IDLE_LEVELS[0], "#ffffff");
    assert_eq!(IDLE_LEVELS[6], "#3a3a3a");
}

#[test]
fn parse_usize_reads_like_from_str() {
    for s in ["0", "7", "+12", "0042", "18446744073709551615", "", "+", "-1", "1 ", "x", "99999999999999999999"] {
        assert_eq!(parse_usize(s), s.parse::<usize>().ok(), "input {s:?}");
    }
}

#[test]
fn status_kinds_follow_state() {
    assert_eq!(status_of(&attrs(&[("state", "working")])), StatusKind::Working);
    assert_eq!(status_of(&attrs(&[("state", "shell")])), StatusKind::Shell);
    assert_eq!(status_of(&attrs(&[("state", "prompt")])), StatusKind::Prompt);
    assert_eq!(status_of(&attrs(&[("state", "empty")])), StatusKind::Empty);
    assert_eq!(status_of(&attrs(&[("state", "gone")])), StatusKind::Unknown);
    assert_eq!(
        status_of(&attrs(&[])),
        StatusKind::Idle { level: 0, badge: false }
    );
    assert_eq!(
        status_of(&attrs(&[("state", "idle"), ("level", "3"), ("ago", "12m")])),
        StatusKind::Idle { level: 3, badge: true }
    );
    assert_eq!(
        status_of(&attrs(&[("state", "idle"), ("level", "40"), ("ago", "")])),
        StatusKind::Idle { level: 6, badge: false }
    );
}

#[test]
fn idle_level_defaults_and_caps() {
    assert_eq!(idle_level(&attrs(&[("level", "2")])), 2);
    assert_eq!(idle_level(&attrs(&[("level", "6")])), 6);
    assert_eq!(idle_level(&attrs(&[("level", "99")])), 6);
    assert_eq!(idle_level(&attrs(&[("level", "two")])), 0);
    assert_eq!(idle_level(&attrs(&[])), 0);
}

#[test]
fn lead_and_wrap_are_found() {
    let p = process(
        "<icon hero='1'/> <b>x</b>\n<wrap>long title</wrap>",
        &[],
        &["icon", "wrap"],
    );
    let lines = flow_layout(&p.markup);
    assert_eq!(lead_of(&lines, &p.embeds), Lead::Hero(0));
    assert_eq!(wrap_of(&lines[0], &p.embeds), None);
    assert_eq!(wrap_of(&lines[1], &p.embeds), Some(1));

    let p = process("<icon watermark='1' hero='1'/>x", &[], &["icon"]);
    let lines = flow_layout(&p.markup);
    assert_eq!(lead_of(&lines, &p.embeds), Lead::Watermark(0));

    let p = process("<gutter><big>3</big></gutter>x", &[], &["gutter"]);
    let lines = flow_layout(&p.markup);
    assert_eq!(lead_of(&lines, &p.embeds), Lead::Gutter(0));

    let p = process("x<icon hero='1'/>", &[], &["icon"]);
    let lines = flow_layout(&p.markup);
    assert_eq!(lead_of(&lines, &p.embeds), Lead::Plain);
    assert_eq!(lead_of(&[], &p.embeds), Lead::Plain);
    assert_eq!(wrap_of(&[FlowItem::Embed(9)], &p.embeds), None);
}

#[test]
fn age_labels_split_into_count_and_unit() {
    assert_eq!(age_label("45s"), ("45".to_string(), AgeUnit::Seconds));
    assert_eq!(age_label(" 12m "), ("12".to_string(), AgeUnit::Minutes));
    assert_eq!(age_label("2 hrs"), ("2".to_string(), AgeUnit::Hours));
    assert_eq!(age_label("3d"), ("3".to_string(), AgeUnit::Days));
    assert_eq!(age_label("270"), ("270".to_string(), AgeUnit::Minutes));
    assert_eq!(age_label("sec"), ("".to_string(), AgeUnit::Seconds));
    assert_eq!(age_label(""), ("".to_string(), AgeUnit::Minutes));
    assert_eq!(age_label("\u{a0}5h\t"), ("5".to_string(), AgeUnit::Hours));
}
