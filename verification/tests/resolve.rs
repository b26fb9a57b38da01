use stpl::date::Date;
use stpl::error::StplError;
use stpl::memo::{Memo, MemoKind};
use stpl::resolve::{pick_match, resolve_one};

fn memo(title: &str, slug: &str) -> Memo {
    Memo {
        title: title.to_string(),
        slug: slug.to_string(),
        date: Date::from_ymd(2026, 6, 14).unwrap(),
        year: 2026,
        week: 24,
        path: format!("/m/2026/24/2026-06-14-{slug}.md"),
        kind: MemoKind::File,
        tags: Vec::new(),
    }
}

fn titles(ms: &[Memo]) -> Vec<String> {
    ms.iter().map(|m| m.title.clone()).collect()
}

#[test]
fn exact_title_or_slug_wins_case_insensitively() {
    let memos = vec![memo("Standup Notes", "standup-notes"), memo("Release Plan", "release-plan")];
    let m = resolve_one(&memos, "STANDUP notes").ok().unwrap();
    assert_eq!(m.title, "Standup Notes");
    let m = resolve_one(&memos, "release-plan").ok().unwrap();
    assert_eq!(m.title, "Release Plan");
}

#[test]
fn exact_match_wins_over_closer_fuzzy_scores() {
    let memos = vec![memo("Plan B Extended", "plan-b-extended"), memo("Plan", "plan")];
    let m = resolve_one(&memos, "plan").ok().unwrap();
    assert_eq!(m.title, "Plan");
}

#[test]
fn fuzzy_match_and_not_found() {
    let memos = vec![memo("Standup Notes", "standup-notes"), memo("Release Plan", "release-plan")];
    let m = resolve_one(&memos, "stndp").ok().unwrap();
    assert_eq!(m.title, "Standup Notes");
    match resolve_one(&memos, "qqqq") {
        Err(StplError::NotFound(q)) => assert_eq!(q, "qqqq"),
        _ => panic!("expected NotFound"),
    }
    assert!(matches!(resolve_one(&[], "x"), Err(StplError::NotFound(_))));
}

#[test]
fn close_fuzzy_matches_are_ambiguous() {
    let memos = vec![memo("Alpha One", "alpha-one"), memo("Alpha Two", "alpha-two")];
    match resolve_one(&memos, "alpha") {
        Err(StplError::Ambiguous { query, matches }) => {
            assert_eq!(query, "alpha");
            assert_eq!(titles(&matches), vec!["Alpha One", "Alpha Two"]);
        }
        _ => panic!("expected Ambiguous"),
    }
}

#[test]
fn pick_match_decides_by_margin() {
    let memos = vec![memo("A", "a"), memo("B", "b"), memo("C", "c")];
    let m = pick_match(&memos, &[Some(10), Some(5), None], "q").ok().unwrap();
    assert_eq!(m.title, "A");
    let m = pick_match(&memos, &[Some(4), Some(15), Some(10)], "q").ok().unwrap();
    assert_eq!(m.title, "B");
    match pick_match(&memos, &[Some(10), Some(9), Some(6)], "q") {
        Err(StplError::Ambiguous { matches, .. }) => assert_eq!(titles(&matches), vec!["A", "B"]),
        _ => panic!("expected Ambiguous"),
    }
    match pick_match(&memos, &[Some(9), Some(10), Some(9)], "q") {
        Err(StplError::Ambiguous { matches, .. }) => {
            assert_eq!(titles(&matches), vec!["B", "A", "C"])
        }
        _ => panic!("expected Ambiguous"),
    }
    let m = pick_match(&memos, &[Some(0), Some(-3), Some(1)], "q").ok().unwrap();
    assert_eq!(m.title, "C");
    assert!(matches!(pick_match(&memos, &[None, Some(0), None], "q"), Err(StplError::NotFound(_))));
}
