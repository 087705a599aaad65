use hitch::update::{
    format_skill_root, installed_skill_paths, npm_dist_tag, outdated_skill_warning,
    registry_latest_version, select_dist_tag, update_cache_fresh, update_cache_stale, update_refresh_needed,
    update_warning, SkillFile, UpdateCache,
};

fn cache(checked_at: u64, source: &str, latest: Option<&str>) -> UpdateCache {
    UpdateCache::new(checked_at, source.to_string(), latest.map(|s| s.to_string()))
}

#[test]
fn cache_freshness_and_staleness() {
    let c = cache(1000, "npm", Some("0.3.0"));
    assert!(update_cache_fresh(&c, 1000));
    assert!(update_cache_fresh(&c, 1000 + 21599));
    assert!(!update_cache_fresh(&c, 1000 + 21600));
    assert!(!update_cache_fresh(&c, 999));
    assert!(update_cache_stale("npm", None, 5));
    assert!(update_cache_stale("brew", Some(&c), 1000));
    assert!(!update_cache_stale("npm", Some(&c), 1000));
    assert!(update_refresh_needed("npm", None, 5));
    assert!(!update_refresh_needed("cargo", None, 5));
}

#[test]
fn update_warning_only_for_newer_npm_release() {
    let c = cache(1000, "npm", Some("0.3.0"));
    assert_eq!(
        update_warning("npm", "0.2.9", Some(&c), 1001),
        Some("update available 0.2.9 -> 0.3.0, run `npm install -g hitch-cli`".to_string())
    );
    assert_eq!(update_warning("npm", "0.3.0", Some(&c), 1001), None);
    assert_eq!(update_warning("cargo", "0.2.9", Some(&c), 1001), None);
    assert_eq!(update_warning("npm", "0.2.9", Some(&c), 1000 + 21600), None);
    assert_eq!(update_warning("npm", "0.2.9", None, 1001), None);
    let none = cache(1000, "npm", None);
    assert_eq!(update_warning("npm", "0.2.9", Some(&none), 1001), None);
}

#[test]
fn dist_tags_follow_prereleases() {
    assert_eq!(npm_dist_tag("0.2.0"), "latest");
    assert_eq!(npm_dist_tag("0.3.0-beta.1"), "beta");
    assert_eq!(
        select_dist_tag(Some(Some("1.0.0-beta.2".to_string())), Some(Some("0.9.0".to_string()))),
        Some("1.0.0-beta.2".to_string())
    );
    assert_eq!(select_dist_tag(None, Some(Some("0.9.0".to_string()))), Some("0.9.0".to_string()));
    assert_eq!(select_dist_tag(Some(None), Some(Some("0.9.0".to_string()))), None);
    assert_eq!(select_dist_tag(None, None), None);
}

#[test]
fn skill_files_are_looked_for_here_then_at_home() {
    assert_eq!(
        installed_skill_paths(Some("/w"), Some("/h")),
        vec![
            "/w/.agents/skills/hitch/SKILL.md".to_string(),
            "/h/.agents/skills/hitch/SKILL.md".to_string(),
        ]
    );
    assert_eq!(installed_skill_paths(None, None), Vec::<String>::new());
}

#[test]
fn skill_roots_are_shown_relative() {
    assert_eq!(
        format_skill_root("/w/.agents/skills/hitch/SKILL.md", Some("/w"), Some("/h")),
        "./.agents/skills"
    );
    assert_eq!(
        format_skill_root("/h/.agents/skills/hitch/SKILL.md", Some("/w"), Some("/h")),
        "~/.agents/skills"
    );
    assert_eq!(
        format_skill_root("/w/hitch/SKILL.md", Some("/w"), None),
        "."
    );
    assert_eq!(format_skill_root("/o/s/hitch/SKILL.md", None, None), "/o/s");
}

#[test]
fn outdated_skill_warning_names_first_old_skill() {
    let files = vec![
        SkillFile { path: "/w/.agents/skills/hitch/SKILL.md".to_string(), contents: None },
        SkillFile { path: "/h/x/SKILL.md".to_string(), contents: Some("---\nname: hitch\n---\n".to_string()) },
        SkillFile { path: "/h/.agents/skills/hitch/SKILL.md".to_string(), contents: Some("version: 0\n".to_string()) },
    ];
    assert_eq!(
        outdated_skill_warning(&files, Some("/w"), Some("/h")),
        Some("agent skill in \"~/.agents/skills\" is outdated, run `hitch setup` to update".to_string())
    );
    let current = vec![SkillFile { path: "/x/SKILL.md".to_string(), contents: Some("version: 1\n".to_string()) }];
    assert_eq!(outdated_skill_warning(&current, None, None), None);
}

#[test]
fn registry_answer_gives_the_build_tag() {
    let raw = r#"{"name":"hitch-cli","dist-tags":{"latest":"0.4.0","beta":"0.5.0-beta.1"}}"#;
    assert_eq!(registry_latest_version(raw, "0.3.0"), Some("0.4.0".to_string()));
    assert_eq!(registry_latest_version(raw, "0.3.0-beta.2"), Some("0.5.0-beta.1".to_string()));
    let no_beta = r#"{"dist-tags":{"latest":"0.4.0"}}"#;
    assert_eq!(registry_latest_version(no_beta, "0.3.0-beta.2"), Some("0.4.0".to_string()));
    let odd = r#"{"dist-tags":{"latest":7,"beta":"0.5.0"}}"#;
    assert_eq!(registry_latest_version(odd, "0.3.0"), None);
    assert_eq!(registry_latest_version("not json", "0.3.0"), None);
    assert_eq!(registry_latest_version(r#"{"versions":{}}"#, "0.3.0"), None);
}
