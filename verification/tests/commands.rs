use stpl::commands::search::{self, Hit, LineMatch};
use stpl::commands::sync::{self, SyncAction, SyncEvent, SyncState};
use stpl::commands::tags::{self, TagCount};
use stpl::commands::{append, del, edit, expand, init, new, path, rename, show, tag, untag, util};
use stpl::config::Config;
use stpl::date::Date;
use stpl::error::StplError;
use stpl::memo::{Memo, MemoKind};
use stpl::output::Style;
use stpl::commands::overview;
use stpl::store::{self, CreatePlan, ExpandPlan, RenamePlan, StoreError};

fn day(y: i32, m: u32, d: u32) -> Date {
    Date::from_ymd(y, m, d).unwrap()
}

fn memo(title: &str, date: Date, tags: &[&str]) -> Memo {
    Memo {
        title: title.to_string(),
        slug: title.to_lowercase(),
        date,
        year: 2026,
        week: 24,
        path: format!("/m/2026/24/{}.md", title.to_lowercase()),
        kind: MemoKind::File,
        tags: tags.iter().map(|t| t.to_string()).collect(),
    }
}

fn strings(v: &[&str]) -> Vec<String> {
    v.iter().map(|s| s.to_string()).collect()
}

const PLAIN: Style = Style { color: false, emoji: false, hyperlinks: false };

#[test]
fn util_filters_and_dates() {
    assert!(util::eq_ignore_ascii_case("WoRk", "work"));
    assert!(!util::eq_ignore_ascii_case("work", "works"));
    assert!(!util::eq_ignore_ascii_case("É", "é"));
    assert!(util::parse_date(None).ok().unwrap().is_none());
    assert_eq!(util::parse_date(Some("2026-02-28")).ok().unwrap().unwrap(), day(2026, 2, 28));
    assert!(matches!(util::parse_date(Some("2026-02-30")), Err(StplError::InvalidDate(_))));
    assert!(util::check_range(Some(day(2026, 1, 1)), Some(day(2026, 1, 1))).is_ok());
    assert_eq!(
        util::check_range(Some(day(2026, 1, 2)), Some(day(2026, 1, 1))).unwrap_err(),
        "invalid range: after 2026-01-02 is later than before 2026-01-01"
    );
    let memos = vec![
        memo("A", day(2026, 6, 1), &["x"]),
        memo("B", day(2026, 6, 2), &["Y"]),
        memo("C", day(2026, 6, 3), &[]),
    ];
    let kept = util::select(memos, None, Some(day(2026, 6, 2)), &strings(&["y", "z"]));
    assert_eq!(kept.len(), 1);
    assert_eq!(kept[0].title, "B");
}

#[test]
fn util_style_and_ambiguity_report() {
    let c = Config { memo_directory: "/m".to_string(), disable_color: false, disable_emoji: false };
    let (c2, s) = util::config_and_style(c, false, false);
    assert_eq!(c2.memo_directory, "/m");
    assert!(!s.color && s.emoji && !s.hyperlinks);
    let ms = vec![memo("A", day(2026, 6, 1), &[]), memo("B", day(2026, 6, 1), &[])];
    assert_eq!(
        util::ambiguity_report(&PLAIN, "q", &ms),
        vec![
            "multiple memos match 'q' \u{2014} be more specific:",
            "  A[/m/2026/24/a.md]",
            "  B[/m/2026/24/b.md]"
        ]
    );
}

#[test]
fn search_line_matches_are_numbered_within_the_body() {
    let content = "---\ntitle: T\n---\n\nFirst line\n  blocked on CI  \nnothing\nBLOCKED again\n";
    let ms = search::line_matches(content, "Blocked");
    let got: Vec<(usize, String)> = ms.iter().map(|m| (m.line, m.text.clone())).collect();
    assert_eq!(got, vec![(2, "blocked on CI".to_string()), (4, "BLOCKED again".to_string())]);
    assert!(search::line_matches("abc\n", "zzz").is_empty());
    assert_eq!(search::line_matches("a\nb\n", "").len(), 2);
}

#[test]
fn search_run_sorts_by_date_then_title_and_hits_skip_unreadable() {
    let memos = vec![
        memo("Zeta", day(2026, 6, 2), &[]),
        memo("Beta", day(2026, 6, 2), &[]),
        memo("Alpha", day(2026, 6, 3), &[]),
        memo("Old", day(2025, 1, 1), &[]),
    ];
    let listed = search::run(memos, Some("2026-01-01"), None, &[]).ok().unwrap();
    let names: Vec<String> = listed.iter().map(|m| m.title.clone()).collect();
    assert_eq!(names, vec!["Beta", "Zeta", "Alpha"]);
    let contents = vec![Some("needle here\n".to_string()), None, Some("no\n".to_string())];
    let hits = search::hits(listed, &contents, "NEEDLE");
    assert_eq!(hits.len(), 1);
    assert_eq!(hits[0].memo.title, "Beta");
    assert_eq!(hits[0].matches[0].line, 1);
}

#[test]
fn search_renderings() {
    let hit = Hit {
        memo: memo("Note", day(2026, 6, 1), &[]),
        matches: vec![LineMatch { line: 3, text: "x y".to_string() }],
    };
    let hits = vec![hit];
    assert_eq!(
        search::render_markdown(&hits, "x"),
        "# Search: x\n\n- [Note](file:///m/2026/24/note.md)\n  - `3`: x y\n"
    );
    assert_eq!(search::render_markdown(&[], "x"), "# Search: x\n\n_No matches._\n");
    assert_eq!(search::render_text(&PLAIN, &hits, "x"), vec!["Note[/m/2026/24/note.md]", "    3: x y"]);
    assert_eq!(search::render_text(&PLAIN, &[], "x"), vec!["no memos match 'x'"]);
    let color = Style { color: true, emoji: false, hyperlinks: false };
    assert_eq!(search::dim(&color, "3:"), "\x1b[90m3:\x1b[0m");
}

#[test]
fn tags_listing_and_renderings() {
    let memos = vec![
        memo("A", day(2026, 6, 1), &["work", "home"]),
        memo("B", day(2026, 6, 1), &["work"]),
    ];
    let counts = tags::run(&memos);
    let got: Vec<(String, usize)> = counts.iter().map(|c| (c.tag.clone(), c.count)).collect();
    assert_eq!(got, vec![("work".to_string(), 2), ("home".to_string(), 1)]);
    assert_eq!(tags::render_markdown(&counts), "# Tags\n\n- #work (2)\n- #home (1)\n");
    assert_eq!(tags::render_markdown(&[]), "# Tags\n\n_No tags found._\n");
    assert_eq!(tags::render_text(&PLAIN, &counts), vec!["  #work (2)", "  #home (1)"]);
    assert_eq!(tags::render_text(&PLAIN, &[]), vec!["no tags found"]);
    let color = Style { color: true, emoji: false, hyperlinks: false };
    assert_eq!(tags::tag_colored(&color, "w"), "\x1b[35m#w\x1b[0m");
    let one = vec![TagCount { tag: "t".to_string(), count: 1 }];
    assert_eq!(tags::render_text(&color, &one), vec!["  \x1b[35m#t\x1b[0m \x1b[90m(1)\x1b[0m"]);
}

fn git_ok() -> SyncEvent {
    SyncEvent::Git { success: true, status: "exit status: 0".to_string(), stdout_empty: true, stderr: String::new() }
}

fn git_fail(stderr: &str, stdout_empty: bool) -> SyncEvent {
    SyncEvent::Git {
        success: false,
        status: "exit status: 1".to_string(),
        stdout_empty,
        stderr: stderr.to_string(),
    }
}

fn args(a: &SyncAction) -> Vec<String> {
    match a {
        SyncAction::Git(v) => v.clone(),
        _ => panic!("expected a git action"),
    }
}

#[test]
fn sync_commits_pulls_and_pushes() {
    let dir = "/m";
    let (s, a) = sync::step(SyncState::Start, SyncEvent::Begin, dir);
    assert!(matches!(a, SyncAction::CheckRepo));
    let (s, a) = sync::step(s, SyncEvent::Repo(true), dir);
    assert_eq!(args(&a), vec!["add", "-A"]);
    let (s, a) = sync::step(s, git_ok(), dir);
    assert_eq!(args(&a), vec!["diff", "--cached", "--quiet"]);
    let (s, a) = sync::step(s, git_fail("", true), dir);
    assert!(matches!(a, SyncAction::Clock));
    let (s, a) = sync::step(s, SyncEvent::Clock("2026-06-14 10:00:00".to_string()), dir);
    assert_eq!(args(&a), vec!["commit", "-m", "stpl sync: 2026-06-14 10:00:00"]);
    let (s, a) = sync::step(s, git_ok(), dir);
    match &a {
        SyncAction::Say(m) => assert_eq!(m, "committed local changes (stpl sync: 2026-06-14 10:00:00)"),
        _ => panic!("expected a message"),
    }
    let (s, a) = sync::step(s, SyncEvent::Printed, dir);
    assert_eq!(args(&a), vec!["pull", "--no-rebase"]);
    let (s, a) = sync::step(s, git_ok(), dir);
    assert!(matches!(a, SyncAction::Say(_)));
    let (s, a) = sync::step(s, SyncEvent::Printed, dir);
    assert_eq!(args(&a), vec!["push"]);
    let (s, a) = sync::step(s, git_ok(), dir);
    assert!(matches!(a, SyncAction::Say(_)));
    let (s, a) = sync::step(s, SyncEvent::Printed, dir);
    assert!(matches!(s, SyncState::Finished));
    assert!(matches!(a, SyncAction::Done(Ok(()))));
}

#[test]
fn sync_refuses_non_repo_and_stops_on_conflicts() {
    let dir = "/m";
    let (s, a) = sync::step(SyncState::Checking, SyncEvent::Repo(false), dir);
    match &a {
        SyncAction::Guide(g) => assert!(g.starts_with("'/m' is not a git repository.")),
        _ => panic!("expected the guide"),
    }
    let (_, a) = sync::step(s, SyncEvent::Printed, dir);
    assert!(matches!(a, SyncAction::Done(Err(StoreError::Stpl(StplError::NotAGitRepo(_))))));

    let (s, a) = sync::step(SyncState::Pulling, git_fail("CONFLICT", true), dir);
    assert_eq!(args(&a), vec!["ls-files", "--unmerged"]);
    let (_, a) = sync::step(s, git_fail("", false), dir);
    assert!(matches!(a, SyncAction::Done(Err(StoreError::Stpl(StplError::MergeConflict(_))))));

    let (s, _) = sync::step(SyncState::Pulling, git_fail("  fatal: no remote\n", true), dir);
    let (_, a) = sync::step(s, git_ok(), dir);
    match a {
        SyncAction::Done(Err(StoreError::Message(m))) => assert_eq!(m, "git pull failed: fatal: no remote"),
        _ => panic!("expected a failure"),
    }
    let (_, a) = sync::step(SyncState::Pushing, git_fail(" ", true), dir);
    match a {
        SyncAction::Done(Err(StoreError::Message(m))) => assert_eq!(m, "git push failed (exit status: 1)"),
        _ => panic!("expected a failure"),
    }
    let (_, a) = sync::step(SyncState::Adding, SyncEvent::Launch("not found".to_string()), dir);
    match a {
        SyncAction::Done(Err(StoreError::Message(m))) => {
            assert_eq!(m, "failed to run git (is it installed and on $PATH?): not found")
        }
        _ => panic!("expected a failure"),
    }
    let (s, a) = sync::step(SyncState::Diffing, git_ok(), dir);
    assert!(matches!(s, SyncState::Announcing));
    match a {
        SyncAction::Say(m) => assert_eq!(m, "nothing to commit"),
        _ => panic!("expected a message"),
    }
}

#[test]
fn del_prompt_confirmation_and_report() {
    let mut m = memo("Note", day(2026, 6, 1), &[]);
    assert_eq!(del::prompt(&PLAIN, &m), "Delete Note[/m/2026/24/note.md]? [y/N] ");
    assert!(del::confirmed(" Y\n"));
    assert!(del::confirmed("yes"));
    assert!(!del::confirmed("no"));
    assert!(!del::confirmed(""));
    let ((p, is_dir), notice) = del::run(&m).ok().unwrap();
    assert_eq!(p, "/m/2026/24/note.md");
    assert!(!is_dir);
    assert_eq!(notice, "deleted memo /m/2026/24/note.md");
    m.kind = MemoKind::Project;
    m.path = "/m/2026/24/2026-06-01-note/project.md".to_string();
    assert_eq!(
        del::prompt(&PLAIN, &m),
        "Delete project Note[/m/2026/24/2026-06-01-note/project.md] and its entire directory /m/2026/24/2026-06-01-note? [y/N] "
    );
    let ((p, is_dir), notice) = del::run(&m).ok().unwrap();
    assert_eq!(p, "/m/2026/24/2026-06-01-note");
    assert!(is_dir);
    assert_eq!(notice, "deleted project /m/2026/24/2026-06-01-note/project.md");
}

#[test]
fn show_path_new_and_init() {
    assert_eq!(show::run("---\nt: x\n---\n\nbody", true), "body\n");
    assert_eq!(show::run("a\n", false), "a\n");
    assert_eq!(show::run("", false), "\n");
    let m = memo("Note", day(2026, 6, 1), &[]);
    assert_eq!(path::run(&m, false), "/m/2026/24/note.md");
    assert_eq!(path::run(&m, true), "/m/2026/24");
    let (plan, notice) = new::run("/m", day(2026, 6, 14), "Standup Notes", Some("blocked")).unwrap();
    assert_eq!(plan.path, "/m/2026/24/2026-06-14-standup-notes.md");
    assert_eq!(notice.unwrap(), "created /m/2026/24/2026-06-14-standup-notes.md");
    let (_, notice) = new::run("/m", day(2026, 6, 14), "Standup Notes", None).unwrap();
    assert!(notice.is_none());
    assert!(matches!(new::run("/m", day(2026, 6, 14), "???", None), Err(StplError::InvalidTitle(_))));
    assert_eq!(init::run("/c/stpl.toml", false).unwrap(), "created config at /c/stpl.toml");
    assert!(matches!(init::run("/c/stpl.toml", true), Err(StplError::ConfigExists(_))));
}

#[test]
fn append_tag_untag_reports() {
    let m = memo("Log", day(2026, 6, 1), &["a"]);
    let content = "---\ntags: [a]\n---\n\nfirst\n";
    let (c, notice) = append::run(&m, content, "second");
    assert_eq!(c, "---\ntags: [a]\n---\n\nfirst\n\nsecond\n");
    assert_eq!(notice, "appended to 'Log'");
    let (c, all, notice) = tag::run(&m, content, &strings(&["b", "a"]));
    assert_eq!(all, vec!["a", "b"]);
    assert_eq!(c, "---\ntags: [a, b]\n---\n\nfirst\n");
    assert_eq!(notice, "tagged 'Log' \u{2014} tags: [a, b]");
    let (c, rest, notice) = untag::run(&m, content, &strings(&["A"]));
    assert!(rest.is_empty());
    assert_eq!(c, "---\ntags: []\n---\n\nfirst\n");
    assert_eq!(notice, "untagged 'Log' \u{2014} tags: []");
}

#[test]
fn rename_expand_and_edit_reports() {
    let m = Memo {
        title: "Old Name".to_string(),
        slug: "old-name".to_string(),
        date: day(2026, 6, 14),
        year: 2026,
        week: 24,
        path: "/m/2026/24/2026-06-14-old-name.md".to_string(),
        kind: MemoKind::File,
        tags: Vec::new(),
    };
    let (plan, notice) = rename::run(&m, "New Name").ok().unwrap();
    assert_eq!(plan.new_path, "/m/2026/24/2026-06-14-new-name.md");
    assert_eq!(notice, "renamed 'Old Name' -> 'New Name' (/m/2026/24/2026-06-14-new-name.md)");
    let (plan, notice) = expand::run(&m).ok().unwrap();
    assert_eq!(plan.target, "/m/2026/24/2026-06-14-old-name/project.md");
    assert_eq!(notice, "expanded into project /m/2026/24/2026-06-14-old-name/project.md");
    assert_eq!(
        edit::run(&m, "nvim -p").unwrap(),
        vec!["nvim", "-p", "/m/2026/24/2026-06-14-old-name.md"]
    );
    assert!(edit::run(&m, "   ").is_none());
}

#[test]
fn del_decides_from_flag_terminal_and_answer() {
    assert_eq!(del::decide(true, false, None), del::DelDecision::Delete);
    assert_eq!(del::decide(true, true, Some("n")), del::DelDecision::Delete);
    assert_eq!(del::decide(false, false, None), del::DelDecision::Refuse);
    assert_eq!(del::decide(false, false, Some("y")), del::DelDecision::Refuse);
    assert_eq!(del::decide(false, true, None), del::DelDecision::Ask);
    assert_eq!(del::decide(false, true, Some(" YES\n")), del::DelDecision::Delete);
    assert_eq!(del::decide(false, true, Some("y\n")), del::DelDecision::Delete);
    assert_eq!(del::decide(false, true, Some("\n")), del::DelDecision::Abort);
    assert_eq!(del::decide(false, true, Some("nope\n")), del::DelDecision::Abort);
    assert_eq!(
        del::refusal(),
        "refusing to delete without confirmation; pass -y/--yes to delete non-interactively"
    );
    assert_eq!(del::aborted(), "aborted; nothing deleted");
}

#[test]
fn collisions_refuse_plans() {
    let c = CreatePlan { path: "/m/a.md".to_string(), dir: "/m".to_string(), body: String::new() };
    assert!(store::check_create(&c, false).is_ok());
    assert!(matches!(store::check_create(&c, true), Err(StplError::Collision(p)) if p == "/m/a.md"));
    let r = RenamePlan {
        new_slug: "b".to_string(),
        source: "/m/a.md".to_string(),
        target: "/m/b.md".to_string(),
        moves: true,
        new_path: "/m/b.md".to_string(),
    };
    assert!(store::check_rename(&r, false).is_ok());
    assert!(matches!(store::check_rename(&r, true), Err(StplError::Collision(p)) if p == "/m/b.md"));
    let same = RenamePlan { moves: false, ..r };
    assert!(store::check_rename(&same, true).is_ok());
    let e = ExpandPlan { project_dir: "/m/a".to_string(), target: "/m/a/project.md".to_string() };
    assert!(store::check_expand(&e, false, false).is_ok());
    assert!(matches!(store::check_expand(&e, true, true), Err(StplError::Collision(p)) if p == "/m/a"));
    assert!(
        matches!(store::check_expand(&e, false, true), Err(StplError::Collision(p)) if p == "/m/a/project.md")
    );
}

#[test]
fn date_bounds_are_checked_alone() {
    assert!(matches!(
        overview::bounds(Some("2026-13-01"), Some("nope")),
        Err(StoreError::Stpl(StplError::InvalidDate(q))) if q == "2026-13-01"
    ));
    assert!(matches!(
        overview::bounds(None, Some("nope")),
        Err(StoreError::Stpl(StplError::InvalidDate(q))) if q == "nope"
    ));
    assert!(matches!(
        overview::bounds(Some("2026-06-02"), Some("2026-06-01")),
        Err(StoreError::Message(m)) if m == "invalid range: after 2026-06-02 is later than before 2026-06-01"
    ));
    let (a, b) = overview::bounds(Some("2026-06-01"), None).unwrap();
    assert_eq!(a, Some(day(2026, 6, 1)));
    assert_eq!(b, None);
}
