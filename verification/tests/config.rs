use std::path::{Path, PathBuf};

use stpl::config::{default_memo_directory, expand_tilde, Config};
use stpl::editor::{command_line, editor_command, env_nonempty};

#[test]
fn default_memo_directory_is_absolute() {
    // When a home dir is available it must be absolute and end in `stpls`.
    if let Some(home) = dirs::home_dir() {
        let home = home.to_str().unwrap().to_string();
        let dir = PathBuf::from(default_memo_directory(Some(&home)));
        assert!(dir.is_absolute());
        assert!(dir.ends_with("stpls"));
    }
}

#[test]
fn expand_tilde_expands_leading_tilde() {
    if let Some(home) = dirs::home_dir() {
        let h = home.to_str().unwrap().to_string();
        assert_eq!(PathBuf::from(expand_tilde("~/stpls", Some(&h))), home.join("stpls"));
        assert_eq!(PathBuf::from(expand_tilde("~", Some(&h))), home.clone());
    }
    // Absolute paths pass through unchanged.
    assert_eq!(PathBuf::from(expand_tilde("/var/notes", None)), PathBuf::from("/var/notes"));
}

#[test]
fn expand_tilde_exact_text() {
    assert_eq!(expand_tilde("~/stpls", Some("/home/u")), "/home/u/stpls");
    assert_eq!(expand_tilde("~//a/b", Some("/home/u/")), "/home/u/a/b");
    assert_eq!(expand_tilde("~", Some("/home/u")), "/home/u/");
    assert_eq!(expand_tilde("~user/x", Some("/home/u")), "~user/x");
    assert_eq!(expand_tilde("/var/~/x", Some("/home/u")), "/var/~/x");
    assert_eq!(expand_tilde("~/stpls", None), "~/stpls");
}

#[test]
fn default_config_and_paths() {
    assert_eq!(default_memo_directory(Some("/home/u")), "/home/u/stpls");
    assert_eq!(default_memo_directory(None), "stpls");
    let c = Config::default_in(Some("/home/u"));
    assert_eq!(c.memo_directory, "/home/u/stpls");
    assert!(!c.disable_color && !c.disable_emoji);
    assert_eq!(Config::path(Some("/home/u/.config")).unwrap(), "/home/u/.config/stpl.toml");
    assert!(Config::path(None).is_none());
    let e = Config { memo_directory: "~/notes".to_string(), disable_color: true, disable_emoji: false }
        .expanded(Some("/home/u"));
    assert_eq!(e.memo_directory, "/home/u/notes");
    assert!(e.disable_color);
    assert!(Path::new(&e.memo_directory).is_absolute());
}

#[test]
fn editor_prefers_editor_then_visual_then_vi() {
    assert_eq!(editor_command(Some("nvim"), Some("code")).unwrap(), "nvim");
    assert_eq!(editor_command(Some("  \t"), Some("code -w")).unwrap(), "code -w");
    assert_eq!(editor_command(None, Some("")).unwrap(), "vi");
    assert_eq!(editor_command(None, None).unwrap(), "vi");
    assert_eq!(env_nonempty(Some(" x ")).unwrap(), " x ");
    assert!(env_nonempty(Some(" \n")).is_none());
    assert!(env_nonempty(None).is_none());
}

#[test]
fn editor_command_line_splits_words() {
    assert_eq!(
        command_line("  code  -w ", "/m/a b.md").unwrap(),
        vec!["code", "-w", "/m/a b.md"]
    );
    assert_eq!(command_line("vi", "/m/x.md").unwrap(), vec!["vi", "/m/x.md"]);
    assert!(command_line(" \t ", "/m/x.md").is_none());
}

#[test]
fn expand_tilde_normalises_the_rest_as_strip_prefix_does() {
    assert_eq!(expand_tilde("~/stpls/", Some("/home/u")), "/home/u/stpls");
    assert_eq!(expand_tilde("~/./x", Some("/home/u")), "/home/u/x");
    assert_eq!(expand_tilde("~/a/./", Some("/home/u")), "/home/u/a");
    assert_eq!(expand_tilde("~/.", Some("/home/u")), "/home/u/");
    assert_eq!(expand_tilde("~/a/..", Some("/home/u")), "/home/u/a/..");
    assert_eq!(expand_tilde("~/a/./b", Some("/home/u")), "/home/u/a/./b");
    assert_eq!(expand_tilde("~/.hidden/", Some("/home/u")), "/home/u/.hidden");
    // The same text as std's `strip_prefix` and `join` give.
    for p in ["~/stpls/", "~/./x", "~//a//b//", "~/.", "~/./a/./", "~", "~/", "~/a/../b/."] {
        let rest = Path::new(p).strip_prefix("~").unwrap();
        let want = Path::new("/home/u").join(rest);
        assert_eq!(expand_tilde(p, Some("/home/u")), want.to_str().unwrap(), "{p}");
    }
}
