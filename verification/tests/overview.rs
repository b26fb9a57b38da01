use stpl::commands::overview::{
    colored_tags, content_preview, group, heading, output_no_memos, render_markdown,
    render_markdown_verbose, render_text, run, strip_frontmatter, tags_suffix, Group,
};
use stpl::date::Date;
use stpl::error::StplError;
use stpl::memo::{Memo, MemoKind};
use stpl::output::Style;
use stpl::store::StoreError;

fn day(y: i32, m: u32, d: u32) -> Date {
    Date::from_ymd(y, m, d).unwrap()
}

fn memo(title: &str, path: &str, tags: &[&str]) -> Memo {
    Memo {
        title: title.to_string(),
        slug: "x".to_string(),
        date: day(2026, 6, 15),
        year: 2026,
        week: 25,
        path: path.to_string(),
        kind: MemoKind::File,
        tags: tags.iter().map(|t| t.to_string()).collect(),
    }
}

fn dated(title: &str, date: Date, year: i32, week: u32, tags: &[&str]) -> Memo {
    Memo {
        title: title.to_string(),
        slug: title.to_lowercase(),
        date,
        year,
        week,
        path: format!("/m/{title}.md"),
        kind: MemoKind::File,
        tags: tags.iter().map(|t| t.to_string()).collect(),
    }
}

const PLAIN: Style = Style { color: false, emoji: false, hyperlinks: false };

#[test]
fn render_markdown_uses_reference_links_grouped_per_section() {
    let groups = vec![
        Group {
            year: 2026,
            week: 25,
            memos: vec![
                memo("Alpha", "/m/a.md", &["api", "hub"]),
                memo("Beta", "/m/b.md", &[]),
            ],
        },
        Group { year: 2026, week: 26, memos: vec![memo("Gamma", "/m/c.md", &["rest"])] },
    ];
    let md = render_markdown(&groups);
    assert_eq!(
        md,
        "# Memos\n\
         \n## 2026/25\n\n\
         - [Alpha][1]  #api #hub\n\
         - [Beta][2]\n\
         \n\
         [1]: file:///m/a.md\n\
         [2]: file:///m/b.md\n\
         \n## 2026/26\n\n\
         - [Gamma][3]  #rest\n\
         \n\
         [3]: file:///m/c.md\n"
    );
}

#[test]
fn content_preview_strips_frontmatter_and_leading_blanks() {
    let content = "---\ntitle: Hub API Architecture\ndate: 2026-06-15\ntags: [api, hub]\n---\n\n# Hub API Architecture\n\nBody line.\n";
    assert_eq!(content_preview(content, 10), "# Hub API Architecture\n\nBody line.");
}

#[test]
fn content_preview_honors_line_limit() {
    let content = "---\nt: x\n---\n\nl1\nl2\nl3\nl4\n";
    assert_eq!(content_preview(content, 2), "l1\nl2");
}

#[test]
fn content_preview_without_frontmatter() {
    assert_eq!(content_preview("# Title\n\nbody\n", 10), "# Title\n\nbody");
    // Missing closing fence: nothing is stripped.
    assert_eq!(content_preview("---\nt: x\nbody\n", 10), "---\nt: x\nbody");
    // Empty frontmatter block.
    assert_eq!(content_preview("---\n---\nhi\n", 10), "hi");
}

#[test]
fn content_preview_handles_crlf_and_zero_lines() {
    assert_eq!(content_preview("a\r\nb\r\n", 10), "a\nb");
    assert_eq!(content_preview("a\nb\n", 0), "");
    assert_eq!(content_preview("", 3), "");
    assert_eq!(content_preview("\n \n\t\n", 3), "");
}

#[test]
fn overview_strip_frontmatter_keeps_leading_newlines() {
    assert_eq!(strip_frontmatter("---\nt: x\n---\n\nbody\n"), "\nbody\n");
    assert_eq!(strip_frontmatter("no frontmatter\n"), "no frontmatter\n");
    assert_eq!(strip_frontmatter("---\nunclosed\n"), "---\nunclosed\n");
}

#[test]
fn tags_suffix_and_colored_tags() {
    let tags = vec!["work".to_string(), "urgent".to_string()];
    assert_eq!(tags_suffix(&tags), "  #work #urgent");
    assert_eq!(tags_suffix(&[]), "");
    assert_eq!(colored_tags(&PLAIN, &tags), "  #work #urgent");
    let color = Style { color: true, emoji: false, hyperlinks: false };
    assert_eq!(colored_tags(&color, &tags), "  \x1b[35m#work #urgent\x1b[0m");
    assert_eq!(colored_tags(&color, &[]), "");
}

#[test]
fn heading_is_bold_cyan_with_color() {
    assert_eq!(heading(&PLAIN, "2026 · week 24"), "2026 · week 24");
    let color = Style { color: true, emoji: false, hyperlinks: false };
    assert_eq!(heading(&color, "x"), "\x1b[1m\x1b[36mx\x1b[0m");
}

#[test]
fn group_sorts_folders_then_date_then_title() {
    let memos = vec![
        dated("Zed", day(2026, 6, 16), 2026, 25, &[]),
        dated("Old", day(2025, 1, 2), 2025, 1, &[]),
        dated("Beta", day(2026, 6, 15), 2026, 25, &[]),
        dated("Alpha", day(2026, 6, 15), 2026, 25, &[]),
        dated("Next", day(2026, 6, 22), 2026, 26, &[]),
    ];
    let groups = group(memos);
    let shape: Vec<(i32, u32, Vec<String>)> = groups
        .iter()
        .map(|g| (g.year, g.week, g.memos.iter().map(|m| m.title.clone()).collect()))
        .collect();
    assert_eq!(
        shape,
        vec![
            (2025, 1, vec!["Old".to_string()]),
            (2026, 25, vec!["Alpha".to_string(), "Beta".to_string(), "Zed".to_string()]),
            (2026, 26, vec!["Next".to_string()]),
        ]
    );
    assert!(group(Vec::new()).is_empty());
}

#[test]
fn run_filters_by_date_and_tag() {
    let memos = vec![
        dated("A", day(2026, 6, 1), 2026, 23, &["Work"]),
        dated("B", day(2026, 6, 10), 2026, 24, &["home"]),
        dated("C", day(2026, 6, 20), 2026, 25, &["work"]),
    ];
    let groups = run(memos, Some("2026-06-05"), None, &["WORK".to_string()]).unwrap();
    assert_eq!(groups.len(), 1);
    assert_eq!(groups[0].memos[0].title, "C");
}

#[test]
fn run_rejects_bad_dates_and_ranges() {
    match run(Vec::new(), Some("2026-13-01"), None, &[]) {
        Err(StoreError::Stpl(StplError::InvalidDate(s))) => assert_eq!(s, "2026-13-01"),
        _ => panic!("expected InvalidDate"),
    }
    match run(Vec::new(), None, Some("yesterday"), &[]) {
        Err(StoreError::Stpl(StplError::InvalidDate(s))) => assert_eq!(s, "yesterday"),
        _ => panic!("expected InvalidDate"),
    }
    match run(Vec::new(), Some("2026-06-10"), Some("2026-06-01"), &[]) {
        Err(StoreError::Message(m)) => {
            assert_eq!(m, "invalid range: after 2026-06-10 is later than before 2026-06-01")
        }
        _ => panic!("expected a range error"),
    }
}

#[test]
fn render_text_lines() {
    let groups = vec![
        Group { year: 2026, week: 5, memos: vec![memo("Alpha", "/m/a.md", &["x"])] },
        Group { year: 2026, week: 6, memos: vec![memo("Beta", "/m/b.md", &[])] },
    ];
    assert_eq!(
        render_text(&PLAIN, &groups),
        vec!["2026 · week 05", "  - Alpha  #x", "", "2026 · week 06", "  - Beta"]
    );
    let emoji = Style { color: false, emoji: true, hyperlinks: false };
    assert_eq!(render_text(&emoji, &groups)[1], "  📎 Alpha  #x");
    assert_eq!(render_text(&PLAIN, &[]), vec!["no memos found"]);
    assert_eq!(output_no_memos(&emoji), "📎 no memos found");
}

#[test]
fn render_markdown_empty() {
    assert_eq!(render_markdown(&[]), "# Memos\n\n_No memos found._\n");
}

#[test]
fn render_markdown_verbose_sections() {
    let groups = vec![Group {
        year: 2026,
        week: 25,
        memos: vec![
            memo("Hub API", "/m/hub api.md", &["api", "hub"]),
            memo("Empty", "/m/e.md", &[]),
        ],
    }];
    let contents = vec![
        "---\ntitle: Hub API\n---\n\n# Hub API\n\nBody.\n".to_string(),
        String::new(),
    ];
    assert_eq!(
        render_markdown_verbose(&groups, &contents),
        "# Hub API: `#api` `#hub`\n\n[file](file:///m/hub%20api.md)\n\n# Hub API\n\nBody.\n\n# Empty\n\n[file](file:///m/e.md)\n"
    );
    assert_eq!(render_markdown_verbose(&[], &[]), "_No memos found._\n");
}
