use stpl::date::Date;
use stpl::error::StplError;
use stpl::memo::{
    dir_for, memo_path, parse_stem, parse_tags, rewrite_title, slugify, stem_for,
    strip_frontmatter, title_from_slug, write_tags, Memo, MemoKind,
};

fn d(y: i32, m: u32, day: u32) -> Date {
    Date::from_ymd(y, m, day).unwrap()
}

#[test]
fn slugify_basic() {
    assert_eq!(slugify("My Note").unwrap(), "my-note");
    assert_eq!(slugify("My First Note").unwrap(), "my-first-note");
}

#[test]
fn slugify_collapses_and_trims() {
    assert_eq!(slugify("  Hello---World!!  ").unwrap(), "hello-world");
    assert_eq!(slugify("a / b / c").unwrap(), "a-b-c");
    assert_eq!(slugify("Café & Crème").unwrap(), "café-crème");
}

#[test]
fn slugify_empty_errors() {
    assert!(matches!(slugify(""), Err(StplError::InvalidTitle(_))));
    assert!(matches!(slugify("!!!"), Err(StplError::InvalidTitle(_))));
    assert!(matches!(slugify("   "), Err(StplError::InvalidTitle(_))));
}

#[test]
fn title_from_slug_titlecases() {
    assert_eq!(title_from_slug("my-note"), "My Note");
    assert_eq!(title_from_slug("my-first-note"), "My First Note");
    assert_eq!(title_from_slug("single"), "Single");
}

#[test]
fn stem_and_path_building() {
    let date = d(2026, 6, 14);
    assert_eq!(stem_for(date, "my-note"), "2026-06-14-my-note");

    let memo_dir = "/home/u/stpls";
    assert_eq!(dir_for(memo_dir, date), "/home/u/stpls/2026/24");
    assert_eq!(
        memo_path(memo_dir, date, "my-note"),
        "/home/u/stpls/2026/24/2026-06-14-my-note.md"
    );
}

#[test]
fn iso_week_year_boundary() {
    // 2024-12-31 is a Tuesday; ISO week 01 of week-numbering year 2025.
    let date = d(2024, 12, 31);
    let memo_dir = "/m";
    assert_eq!(dir_for(memo_dir, date), "/m/2025/01");

    let memo = Memo::from_path(&memo_path(memo_dir, date, "newyear"), None).unwrap();
    assert_eq!(memo.year, 2025);
    assert_eq!(memo.week, 1);
}

#[test]
fn from_path_file_round_trip() {
    let date = d(2026, 6, 14);
    let path = memo_path("/home/u/stpls", date, "my-first-note");
    let memo = Memo::from_path(&path, None).expect("should parse");
    assert_eq!(memo.kind, MemoKind::File);
    assert_eq!(memo.slug, "my-first-note");
    assert_eq!(memo.date, date);
    assert_eq!(memo.title, "My First Note");
    assert_eq!(memo.path, path);
}

#[test]
fn from_path_project_round_trip() {
    let path = "/home/u/stpls/2026/24/2026-06-14-big-thing/project.md".to_string();
    let memo = Memo::from_path(&path, None).expect("should parse");
    assert_eq!(memo.kind, MemoKind::Project);
    assert_eq!(memo.slug, "big-thing");
    assert_eq!(memo.title, "Big Thing");
    assert_eq!(memo.date, d(2026, 6, 14));
    assert_eq!(memo.path, path);
}

#[test]
fn from_path_rejects_non_memo() {
    assert!(Memo::from_path("/tmp/notes.txt", None).is_none());
    assert!(Memo::from_path("/tmp/README.md", None).is_none());
    assert!(Memo::from_path("/tmp/2026-06-14.md", None).is_none());
    assert!(Memo::from_path("/tmp/2026-06-14-.md", None).is_none());
    assert!(Memo::from_path("/tmp/not-a-date-here.md", None).is_none());
    // project.md whose parent doesn't parse.
    assert!(Memo::from_path("/tmp/random-dir/project.md", None).is_none());
}

#[test]
fn parse_tags_inline_list() {
    let content = "---\ntitle: T\ndate: 2026-06-14\ntags: [work, urgent]\n---\n\n# T\n";
    assert_eq!(parse_tags(content), vec!["work", "urgent"]);
}

#[test]
fn parse_tags_empty_list() {
    let content = "---\ntitle: T\ndate: 2026-06-14\ntags: []\n---\n\n# T\n";
    assert!(parse_tags(content).is_empty());
}

#[test]
fn parse_tags_strips_quotes_and_spaces() {
    let content = "---\ntags: [ \"work\" , 'home' ,  , urgent ]\n---\n";
    assert_eq!(parse_tags(content), vec!["work", "home", "urgent"]);
}

#[test]
fn parse_tags_missing_line_or_frontmatter() {
    // No `tags:` line in the frontmatter.
    let no_tags = "---\ntitle: T\ndate: 2026-06-14\n---\n\n# T\n";
    assert!(parse_tags(no_tags).is_empty());
    // No leading frontmatter at all.
    let no_fm = "# T\n\ntags: [work]\n";
    assert!(parse_tags(no_fm).is_empty());
    // `tags:` present but not the inline form.
    let block = "---\ntags:\n  - work\n---\n";
    assert!(parse_tags(block).is_empty());
}

#[test]
fn write_tags_replaces_inline_list() {
    let content = "---\ntitle: T\ndate: 2026-06-14\ntags: []\n---\n\n# T\n";
    let out = write_tags(content, &["work".to_string(), "urgent".to_string()]);
    assert_eq!(
        out,
        "---\ntitle: T\ndate: 2026-06-14\ntags: [work, urgent]\n---\n\n# T\n"
    );
    // The written form round-trips through the parser.
    assert_eq!(parse_tags(&out), vec!["work", "urgent"]);
}

#[test]
fn write_tags_inserts_when_missing() {
    let content = "---\ntitle: T\ndate: 2026-06-14\n---\n\n# T\n";
    let out = write_tags(content, &["work".to_string()]);
    assert_eq!(
        out,
        "---\ntitle: T\ndate: 2026-06-14\ntags: [work]\n---\n\n# T\n"
    );
}

#[test]
fn write_tags_prepends_when_no_frontmatter() {
    let content = "# T\n\nbody\n";
    let out = write_tags(content, &["work".to_string()]);
    assert_eq!(out, "---\ntags: [work]\n---\n\n# T\n\nbody\n");
    assert_eq!(parse_tags(&out), vec!["work"]);
}

#[test]
fn strip_frontmatter_removes_block() {
    let content = "---\ntitle: T\ntags: [a]\n---\n\n# T\n\nbody line\n";
    assert_eq!(strip_frontmatter(content), "# T\n\nbody line\n");
}

#[test]
fn strip_frontmatter_passthrough_and_unterminated() {
    // No frontmatter: returned unchanged.
    let no_fm = "# T\n\nbody\n";
    assert_eq!(strip_frontmatter(no_fm), no_fm);
    // Opening fence but no closing fence: left untouched.
    let unterminated = "---\ntitle: T\nstill in frontmatter\n";
    assert_eq!(strip_frontmatter(unterminated), unterminated);
}

#[test]
fn rewrite_title_updates_frontmatter_and_h1() {
    let content = "---\ntitle: Old\ndate: 2026-06-14\ntags: []\n---\n\n# Old\n\nbody\n";
    let out = rewrite_title(content, "New Name");
    assert_eq!(
        out,
        "---\ntitle: New Name\ndate: 2026-06-14\ntags: []\n---\n\n# New Name\n\nbody\n"
    );
}

#[test]
fn rewrite_title_only_first_h1_and_no_frontmatter() {
    // No frontmatter; only the first `# ` heading is changed.
    let content = "# Old\n\n# Old\n";
    assert_eq!(rewrite_title(content, "New"), "# New\n\n# Old\n");
}

#[test]
fn from_path_handles_multibyte_stems_without_panicking() {
    // A foreign file whose name is >= 12 bytes but has a multibyte char
    // straddling byte index 10 must be rejected, not panic.
    assert!(parse_stem("123456789日本").is_none());
    assert!(Memo::from_path("/tmp/123456789日本.md", None).is_none());
    // A genuine date prefix followed by a multibyte slug still parses.
    let (date, slug) = parse_stem("2026-06-14-café").expect("valid date prefix");
    assert_eq!(date, d(2026, 6, 14));
    assert_eq!(slug, "café");
}

#[test]
fn parse_tags_needs_a_closed_frontmatter() {
    // Opened but never closed: no frontmatter, so no tags.
    assert!(parse_tags("---\ntitle: T\ntags: [x]\n").is_empty());
    // A `tags:` line after the closing fence is body text.
    assert!(parse_tags("---\ntitle: T\n---\ntags: [x]\n").is_empty());
}

#[test]
fn write_tags_prepends_to_unclosed_frontmatter() {
    let out = write_tags("---\ntitle: T\n", &["work".to_string()]);
    assert_eq!(out, "---\ntags: [work]\n---\n\n---\ntitle: T\n");
    assert_eq!(parse_tags(&out), vec!["work"]);
    // An unclosed block that already lists tags gets a fresh block too.
    let out = write_tags("---\ntags: [old]\n", &["new".to_string()]);
    assert_eq!(out, "---\ntags: [new]\n---\n\n---\ntags: [old]\n");
    assert_eq!(parse_tags(&out), vec!["new"]);
}

#[test]
fn written_tags_read_back_for_any_content() {
    let tags = vec!["a".to_string(), "b c".to_string()];
    for content in [
        "",
        "# T\n",
        "---\ntitle: T\n",
        "---\ntitle: T\ntags: [x]\n---\nbody\n",
        "---\n---\n",
        "---\ntags: [x]\n---\ntags: [y]\n",
    ] {
        assert_eq!(parse_tags(&write_tags(content, &tags)), tags);
    }
    assert!(parse_tags(&write_tags("---\ntitle: T\n---\n", &[])).is_empty());
}

#[test]
fn write_tags_keeps_the_body() {
    let tags = vec!["work".to_string()];
    for content in [
        "",
        "\n\nbody\n",
        "# T\n\nbody\n",
        "---\ntitle: T\n",
        "---\ntitle: T\ntags: [x]\n---\n\n\nbody\n---\nmore\n",
        "---\ntitle: T\n---\nbody",
    ] {
        let out = write_tags(content, &tags);
        assert_eq!(
            strip_frontmatter(&out),
            strip_frontmatter(content).trim_start_matches('\n')
        );
    }
    let out = write_tags("---\ntitle: T\n---\n\nbody\n", &tags);
    assert_eq!(strip_frontmatter(&out), "body\n");
}

#[test]
fn rewrite_title_twice_is_once() {
    for content in [
        "---\ntitle: A\n---\n\n# A\n\ntext\n",
        "---\ntitle: A\n---\n# A",
        "# A\n\n# B\n",
        "no heading\n",
        "---\ntitle: A\n",
        "---\n---\n# A\n",
    ] {
        let twice = rewrite_title(&rewrite_title(content, "First"), "Second");
        assert_eq!(twice, rewrite_title(content, "Second"));
        let again = rewrite_title(&rewrite_title(content, "Same"), "Same");
        assert_eq!(again, rewrite_title(content, "Same"));
    }
    assert_eq!(
        rewrite_title(&rewrite_title("---\ntitle: A\n---\n\n# A\n", "B"), "C"),
        "---\ntitle: C\n---\n\n# C\n"
    );
}

#[test]
fn slug_title_round_trip() {
    for slug in ["my-note", "a", "2nd-try-3", "x1-y2-z3", "hello-world-again"] {
        assert_eq!(slugify(&title_from_slug(slug)).unwrap(), slug);
    }
    assert_eq!(title_from_slug("2nd-try-3"), "2nd Try 3");
}

#[test]
fn memo_path_reads_back_with_digits_and_dashes() {
    let date = d(2026, 1, 1);
    let p = memo_path("/m", date, "q1-plan-2");
    assert_eq!(p, "/m/2026/01/2026-01-01-q1-plan-2.md");
    let m = Memo::from_path(&p, Some("---\ntags: [a]\n---\n")).expect("reads back");
    assert_eq!(m.kind, MemoKind::File);
    assert_eq!(m.date, date);
    assert_eq!(m.slug, "q1-plan-2");
    assert_eq!(m.title, "Q1 Plan 2");
    assert_eq!(m.tags, vec!["a"]);
    assert_eq!((m.year, m.week), (2026, 1));
}

#[test]
fn iso_weeks_at_year_ends() {
    assert_eq!(d(2021, 1, 3).iso_week(), (2020, 53));
    assert_eq!(d(2015, 12, 31).iso_week(), (2015, 53));
    assert_eq!(d(2016, 1, 1).iso_week(), (2015, 53));
    assert_eq!(d(2008, 12, 29).iso_week(), (2009, 1));
    assert_eq!(d(2026, 6, 14).iso_week(), (2026, 24));
    assert_eq!(d(1, 1, 1).iso_week(), (1, 1));
}
