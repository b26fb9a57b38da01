use stpl::date::Date;
use stpl::error::StplError;
use stpl::memo::{rewrite_title, Memo, MemoKind};
use stpl::store::{
    add_tags, append, create, delete, expand, remove_tags, rename, render_template, tag_counts,
    StoreError,
};

fn day(y: i32, m: u32, d: u32) -> Date {
    Date::from_ymd(y, m, d).unwrap()
}

fn strings(v: &[&str]) -> Vec<String> {
    v.iter().map(|s| s.to_string()).collect()
}

#[test]
fn render_template_no_content() {
    let date = day(2026, 6, 14);
    let out = render_template("My Note", date, None);
    assert_eq!(out, "---\ntitle: My Note\ndate: 2026-06-14\ntags: []\n---\n\n# My Note\n");
}

#[test]
fn render_template_with_content() {
    let date = day(2026, 6, 14);
    let out = render_template("My Note", date, Some("hello body"));
    assert_eq!(
        out,
        "---\ntitle: My Note\ndate: 2026-06-14\ntags: []\n---\n\n# My Note\n\nhello body\n"
    );
}

#[test]
fn render_template_keeps_trailing_newline_of_content() {
    let out = render_template("T", day(2026, 6, 14), Some("x\n"));
    assert_eq!(out, "---\ntitle: T\ndate: 2026-06-14\ntags: []\n---\n\n# T\n\nx\n");
}

#[test]
fn create_plans_path_and_lists_back() {
    let date = day(2026, 6, 14);
    let plan = create("/tmp/stpl-test", date, "my-note", "My Note", None);
    assert_eq!(plan.path, "/tmp/stpl-test/2026/24/2026-06-14-my-note.md");
    assert_eq!(plan.dir, "/tmp/stpl-test/2026/24");
    let memo = Memo::from_path(&plan.path, Some(&plan.body)).unwrap();
    assert_eq!(memo.slug, "my-note");
    assert!(memo.tags.is_empty());
    let (target, is_dir) = delete(&memo).ok().unwrap();
    assert_eq!(target, plan.path);
    assert!(!is_dir);
}

#[test]
fn add_tags_merges_and_dedupes() {
    let date = day(2026, 6, 14);
    let plan = create("/tmp/stpl-tags", date, "my-note", "My Note", None);
    let path = plan.path.clone();

    let memo = Memo::from_path(&path, Some(&plan.body)).unwrap();
    let (content, all) = add_tags(&memo, &plan.body, &strings(&["work", "urgent"]));
    assert_eq!(all, vec!["work", "urgent"]);

    let memo = Memo::from_path(&path, Some(&content)).unwrap();
    assert_eq!(memo.tags, vec!["work", "urgent"]);
    let (content, all) = add_tags(&memo, &content, &strings(&["work", " ", "home", "home"]));
    assert_eq!(all, vec!["work", "urgent", "home"]);

    assert_eq!(
        Memo::from_path(&path, Some(&content)).unwrap().tags,
        vec!["work", "urgent", "home"]
    );
}

#[test]
fn append_adds_line_with_blank_separator() {
    let date = day(2026, 6, 14);
    let plan = create("/tmp/stpl-append", date, "log", "Log", Some("first"));
    let content = append(&plan.body, "second");
    assert_eq!(
        content,
        "---\ntitle: Log\ndate: 2026-06-14\ntags: []\n---\n\n# Log\n\nfirst\n\nsecond\n"
    );
}

#[test]
fn append_to_blank_and_unterminated_content() {
    assert_eq!(append("", "x"), "\nx\n");
    assert_eq!(append("a", "b\n\n"), "a\n\nb\n");
}

#[test]
fn remove_tags_is_case_insensitive_and_ignores_missing() {
    let date = day(2026, 6, 14);
    let plan = create("/tmp/stpl-untag", date, "n", "N", None);
    let memo = Memo::from_path(&plan.path, Some(&plan.body)).unwrap();
    let (content, _) = add_tags(&memo, &plan.body, &strings(&["work", "urgent"]));

    let memo = Memo::from_path(&plan.path, Some(&content)).unwrap();
    let (content, remaining) = remove_tags(&memo, &content, &strings(&["WORK", "missing"]));
    assert_eq!(remaining, vec!["urgent"]);
    assert_eq!(Memo::from_path(&plan.path, Some(&content)).unwrap().tags, vec!["urgent"]);
}

#[test]
fn tag_counts_aggregates_and_sorts() {
    let date = day(2026, 6, 14);
    let pa = create("/tmp/stpl-tagcount", date, "a", "A", None);
    let a = Memo::from_path(&pa.path, Some(&pa.body)).unwrap();
    let (ca, _) = add_tags(&a, &pa.body, &strings(&["work", "home"]));
    let pb = create("/tmp/stpl-tagcount", date, "b", "B", None);
    let b = Memo::from_path(&pb.path, Some(&pb.body)).unwrap();
    let (cb, _) = add_tags(&b, &pb.body, &strings(&["work"]));

    let memos = vec![
        Memo::from_path(&pa.path, Some(&ca)).unwrap(),
        Memo::from_path(&pb.path, Some(&cb)).unwrap(),
    ];
    assert_eq!(tag_counts(&memos), vec![("work".to_string(), 2), ("home".to_string(), 1)]);
}

#[test]
fn rename_file_moves_and_rewrites_title() {
    let date = day(2026, 6, 14);
    let plan = create("/tmp/stpl-rename", date, "old-name", "Old Name", Some("body"));
    let memo = Memo::from_path(&plan.path, Some(&plan.body)).unwrap();

    let r = rename(&memo, "New Name").ok().unwrap();
    assert_eq!(r.new_slug, "new-name");
    assert!(r.moves);
    assert_eq!(r.source, plan.path);
    assert_eq!(r.new_path, "/tmp/stpl-rename/2026/24/2026-06-14-new-name.md");

    let content = rewrite_title(&plan.body, "New Name");
    let renamed = Memo::from_path(&r.new_path, Some(&content)).unwrap();
    assert_eq!(renamed.title, "New Name");
    assert!(content.contains("title: New Name"));
    assert!(content.contains("# New Name"));
}

#[test]
fn rename_project_moves_directory() {
    let date = day(2026, 6, 14);
    let plan = create("/tmp/stpl-renameproj", date, "old-proj", "Old Proj", Some("body"));
    let file = Memo::from_path(&plan.path, Some(&plan.body)).unwrap();
    let project_md = expand(&file).ok().unwrap().target;
    let project = Memo::from_path(&project_md, Some(&plan.body)).unwrap();

    let r = rename(&project, "New Proj").ok().unwrap();
    assert_eq!(r.new_path, "/tmp/stpl-renameproj/2026/24/2026-06-14-new-proj/project.md");
    assert_eq!(r.source, "/tmp/stpl-renameproj/2026/24/2026-06-14-old-proj");
    assert_eq!(r.target, "/tmp/stpl-renameproj/2026/24/2026-06-14-new-proj");

    let renamed = Memo::from_path(&r.new_path, None).unwrap();
    assert_eq!(renamed.kind, MemoKind::Project);
    assert_eq!(renamed.slug, "new-proj");
    assert_eq!(renamed.title, "New Proj");
}

#[test]
fn rename_to_same_title_does_not_move() {
    let date = day(2026, 6, 14);
    let plan = create("/tmp/stpl-same", date, "same", "Same", None);
    let memo = Memo::from_path(&plan.path, Some(&plan.body)).unwrap();
    let r = rename(&memo, "Same").ok().unwrap();
    assert!(!r.moves);
    assert_eq!(r.target, plan.path);
}

#[test]
fn rename_refuses_title_without_slug() {
    let date = day(2026, 6, 14);
    let plan = create("/tmp/stpl-bad", date, "x", "X", None);
    let memo = Memo::from_path(&plan.path, Some(&plan.body)).unwrap();
    match rename(&memo, "!!!") {
        Err(StoreError::Stpl(StplError::InvalidTitle(t))) => assert_eq!(t, "!!!"),
        _ => panic!("expected InvalidTitle"),
    }
}

#[test]
fn expand_moves_file_into_project() {
    let date = day(2026, 6, 14);
    let plan = create("/tmp/stpl-expand", date, "big-thing", "Big Thing", Some("body"));
    let memo = Memo::from_path(&plan.path, Some(&plan.body)).unwrap();
    assert_eq!(memo.kind, MemoKind::File);

    let e = expand(&memo).ok().unwrap();
    assert_eq!(e.project_dir, "/tmp/stpl-expand/2026/24/2026-06-14-big-thing");
    assert_eq!(e.target, "/tmp/stpl-expand/2026/24/2026-06-14-big-thing/project.md");

    let project = Memo::from_path(&e.target, Some(&plan.body)).unwrap();
    assert_eq!(project.kind, MemoKind::Project);
    assert_eq!(project.slug, "big-thing");

    match expand(&project) {
        Err(StoreError::Message(m)) => assert_eq!(m, "'Big Thing' is already a project"),
        _ => panic!("expected a refusal"),
    }
    let (dir, is_dir) = delete(&project).ok().unwrap();
    assert_eq!(dir, "/tmp/stpl-expand/2026/24/2026-06-14-big-thing");
    assert!(is_dir);
}

#[test]
fn untag_after_tag_restores_the_tags() {
    let date = day(2026, 6, 14);
    let plan = create("/tmp/stpl-undo", date, "n", "N", None);
    let memo = Memo::from_path(&plan.path, Some(&plan.body)).unwrap();
    let (c1, _) = add_tags(&memo, &plan.body, &strings(&["work"]));
    let memo = Memo::from_path(&plan.path, Some(&c1)).unwrap();
    let (c2, _) = add_tags(&memo, &c1, &strings(&[" Home "]));
    let memo = Memo::from_path(&plan.path, Some(&c2)).unwrap();
    assert_eq!(memo.tags, vec!["work", "Home"]);
    let (c3, rest) = remove_tags(&memo, &c2, &strings(&[" Home "]));
    assert_eq!(rest, vec!["work"]);
    assert_eq!(c3, c1);
}

#[test]
fn written_paths_read_back_as_their_memo() {
    let date = day(2026, 6, 14);
    let plan = create("/srv/notes", date, "release-plan", "Release Plan", None);
    let memo = Memo::from_path(&plan.path, None).unwrap();
    assert_eq!(memo.date, date);
    assert_eq!(memo.slug, "release-plan");
    assert_eq!(memo.kind, MemoKind::File);
    let e = expand(&memo).ok().unwrap();
    let project = Memo::from_path(&e.target, None).unwrap();
    assert_eq!(project.kind, MemoKind::Project);
    assert_eq!(project.date, date);
    let r = rename(&project, "Launch Plan").ok().unwrap();
    let renamed = Memo::from_path(&r.new_path, None).unwrap();
    assert_eq!(renamed.date, date);
    assert_eq!(renamed.slug, "launch-plan");
    assert_eq!(renamed.kind, MemoKind::Project);
}
