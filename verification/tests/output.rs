use stpl::config::Config;
use stpl::date::Date;
use stpl::memo::{Memo, MemoKind};
use stpl::output::{success, Style};

fn memo(title: &str, path: &str) -> Memo {
    Memo {
        title: title.to_string(),
        slug: "s".to_string(),
        date: Date::from_ymd(2026, 6, 14).unwrap(),
        year: 2026,
        week: 24,
        path: path.to_string(),
        kind: MemoKind::File,
        tags: Vec::new(),
    }
}

#[test]
fn style_from_config_gates_color_and_links() {
    let c = Config { memo_directory: "/m".to_string(), disable_color: false, disable_emoji: true };
    let s = Style::from_config(&c, true, false);
    assert!(s.color && !s.emoji && s.hyperlinks);
    assert!(!Style::from_config(&c, true, true).color);
    let s = Style::from_config(&c, false, false);
    assert!(!s.color && !s.hyperlinks);
    let c = Config { memo_directory: "/m".to_string(), disable_color: true, disable_emoji: false };
    let s = Style::from_config(&c, true, false);
    assert!(!s.color && s.emoji);
}

#[test]
fn link_encodes_spaces_when_hyperlinks_are_on() {
    let on = Style { color: false, emoji: false, hyperlinks: true };
    assert_eq!(
        on.link("T", "/m/a b.md"),
        "\x1b]8;;file:///m/a%20b.md\x1b\\T\x1b]8;;\x1b\\"
    );
    let off = Style { color: false, emoji: false, hyperlinks: false };
    assert_eq!(off.link("T", "/m/a b.md"), "T");
}

#[test]
fn memo_line_with_and_without_emoji() {
    let m = memo("My Note", "/m/n.md");
    let plain = Style { color: false, emoji: false, hyperlinks: false };
    assert_eq!(plain.memo_line(&m), "My Note[/m/n.md]");
    let emoji = Style { color: false, emoji: true, hyperlinks: false };
    assert_eq!(emoji.memo_line(&m), "📎 My Note[/m/n.md]");
    let linked = Style { color: false, emoji: false, hyperlinks: true };
    assert_eq!(
        linked.memo_line(&m),
        "\x1b]8;;file:///m/n.md\x1b\\My Note[/m/n.md]\x1b]8;;\x1b\\"
    );
}

#[test]
fn success_is_green_with_color() {
    let plain = Style { color: false, emoji: false, hyperlinks: false };
    assert_eq!(success(&plain, "done"), "done");
    let both = Style { color: true, emoji: true, hyperlinks: false };
    assert_eq!(success(&both, "done"), "📎 \x1b[32mdone\x1b[0m");
}
