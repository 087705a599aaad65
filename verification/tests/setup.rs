use hitch::setup::{
    backup_file_name, detect_shell, essential_shell_integration, fish_prompt_block,
    has_hitch_marked_block, home_file, p10k_config_update, p10k_prompt_block, rc_file_update, shell_integration_state,
    shell_kind, skill_version, upsert_marked_block, upsert_marked_block_before, version_less_than,
    zsh_prompt_block, ShellIntegrationState, ShellKind,
};

#[test]
fn reads_skill_version_from_frontmatter() {
    assert_eq!(
        skill_version("---\nname: hitch\nversion: 3\n---\n"),
        Some("3".to_string())
    );
    assert_eq!(
        skill_version("---\nversion: \"12\"\n---\n"),
        Some("12".to_string())
    );
    assert_eq!(skill_version("---\nname: hitch\n---\n"), None);
}

#[test]
fn compares_dotted_versions_numerically() {
    assert!(version_less_than("0.2.5", "0.2.6"));
    assert!(version_less_than("0.2.9", "0.2.10"));
    assert!(!version_less_than("0.10.0", "0.2.0"));
    assert!(!version_less_than("1.0.0", "1.0.0"));
}

#[test]
fn prerelease_versions_compare_with_numeric_parts() {
    assert!(version_less_than("1.0.0-beta.1", "1.0.0-beta.2"));
    assert!(!version_less_than("1.0.0-beta.2", "1.0.0-beta.1"));
}

#[test]
fn inserts_marked_block_into_empty_or_existing_rc_file() {
    let block = "# >>> hitch shell integration >>>\nnew\n# <<< hitch shell integration <<<";

    assert_eq!(upsert_marked_block("", block), format!("{block}\n"));
    assert_eq!(
        upsert_marked_block("export PATH=/bin\n", block),
        format!("export PATH=/bin\n\n{block}\n")
    );
}

#[test]
fn replaces_existing_hitch_block_without_touching_surrounding_content() {
    let old = "before\n\n# >>> hitch shell integration >>>\nold\n# <<< hitch shell integration <<<\n\nafter\n";
    let block = "# >>> hitch shell integration >>>\nnew\n# <<< hitch shell integration <<<";

    assert_eq!(
        upsert_marked_block(old, block),
        "before\n\n# >>> hitch shell integration >>>\nnew\n# <<< hitch shell integration <<<\n\nafter\n"
    );
}

#[test]
fn inserts_marked_block_before_anchor() {
    let block = "# >>> hitch shell integration >>>\nnew\n# <<< hitch shell integration <<<";

    assert_eq!(
        upsert_marked_block_before("before\nANCHOR\nafter\n", block, "ANCHOR"),
        "before\n\n# >>> hitch shell integration >>>\nnew\n# <<< hitch shell integration <<<\n\nANCHOR\nafter\n"
    );
}

#[test]
fn upsert_twice_changes_nothing_more() {
    let block = "# >>> hitch shell integration >>>\nnew\n# <<< hitch shell integration <<<";
    for raw in ["", "export A=1\n", "x\n# >>> hitch shell integration >>>\nold\n# <<< hitch shell integration <<<\ny\n"] {
        let once = upsert_marked_block(raw, block);
        assert_eq!(upsert_marked_block(&once, block), once);
    }
}

#[test]
fn old_prompt_block_is_replaced_by_shell_block() {
    let old = "a\n# >>> hitch prompt integration >>>\nold\n# <<< hitch prompt integration <<<\nb\n";
    let block = "# >>> hitch shell integration >>>\nnew\n# <<< hitch shell integration <<<";
    assert!(has_hitch_marked_block(old));
    assert_eq!(
        upsert_marked_block(old, block),
        "a\n# >>> hitch shell integration >>>\nnew\n# <<< hitch shell integration <<<\nb\n"
    );
}

#[test]
fn version_with_quotes_and_missing_parts() {
    assert_eq!(skill_version("version: '4'\n"), Some("4".to_string()));
    assert_eq!(skill_version("version:\nversion: 2\n"), Some("2".to_string()));
    assert!(version_less_than("1", "1.0.1"));
    assert!(!version_less_than("1.0.0", "1"));
    assert!(version_less_than("x", "1"));
}

#[test]
fn shell_detection_and_kinds() {
    assert_eq!(detect_shell(Some("/usr/bin/zsh")), "zsh");
    assert_eq!(detect_shell(Some("/bin/")), "bin");
    assert_eq!(detect_shell(Some("/")), "unknown");
    assert_eq!(detect_shell(None), "unknown");
    assert_eq!(shell_kind("zsh"), ShellKind::Zsh);
    assert_eq!(shell_kind("bash"), ShellKind::Bash);
    assert_eq!(shell_kind("fish"), ShellKind::Fish);
    assert_eq!(shell_kind("nu"), ShellKind::Unsupported);
}

#[test]
fn home_files_and_integration_targets() {
    assert_eq!(home_file(Some("/home/u"), ".zshrc"), Some("/home/u/.zshrc".to_string()));
    assert_eq!(home_file(None, ".zshrc"), None);
    assert_eq!(
        essential_shell_integration("fish", Some("/h")),
        Some(("/h/.config/fish/conf.d/hitch.fish".to_string(), fish_prompt_block()))
    );
    assert_eq!(essential_shell_integration("zsh", None), None);
    assert_eq!(essential_shell_integration("tcsh", Some("/h")), None);
}

#[test]
fn integration_state_of_rc_files() {
    let block = zsh_prompt_block();
    assert_eq!(shell_integration_state("export A=1\n", block), ShellIntegrationState::Missing);
    let current = upsert_marked_block("export A=1\n", block);
    assert_eq!(shell_integration_state(&current, block), ShellIntegrationState::Current);
    let outdated = "# >>> hitch shell integration >>>\nold\n# <<< hitch shell integration <<<\n";
    assert_eq!(shell_integration_state(outdated, block), ShellIntegrationState::Outdated);
    assert_eq!(rc_file_update(&current, block), None);
    assert_eq!(rc_file_update("", block), Some(format!("{block}\n")));
}

#[test]
fn backup_names_use_file_name_and_time() {
    assert_eq!(backup_file_name("/home/u/.zshrc", 1700000000), ".zshrc.1700000000");
    assert_eq!(backup_file_name("/", 5), "config.5");
}

#[test]
fn p10k_config_gets_segment_and_function() {
    let raw = "  typeset -g POWERLEVEL9K_LEFT_PROMPT_ELEMENTS=(\n    dir\n  )\n  # Transient prompt works similarly\n";
    let updated = p10k_config_update(raw).unwrap();
    assert!(updated.contains("    hitch                   # hitch terminal id"));
    assert!(updated.contains("function prompt_hitch()"));
    assert_eq!(p10k_config_update(&updated).unwrap(), updated);
    let missing = p10k_config_update("nothing here\n").unwrap_err();
    assert_eq!(
        missing.to_string(),
        "could not find POWERLEVEL9K_LEFT_PROMPT_ELEMENTS in ~/.p10k.zsh"
    );
}

#[test]
fn indented_block_goes_in_once() {
    let block = p10k_prompt_block();
    let anchor = "  # Example of a user-defined prompt segment.";
    let raw = "x=1\n  # Example of a user-defined prompt segment.\ny=2\n";
    let once = upsert_marked_block_before(raw, block, anchor);
    assert_eq!(upsert_marked_block_before(&once, block, anchor), once);
    assert_eq!(upsert_marked_block(&once, block), once);
    let fresh = upsert_marked_block("", block);
    assert_eq!(upsert_marked_block(&fresh, block), fresh);
}

#[test]
fn block_marker_present_after_upsert() {
    for raw in ["", "a\n", "# >>> hitch shell integration >>>\nold\n", "x\n  # Transient prompt works similarly\n"] {
        let out = upsert_marked_block_before(raw, zsh_prompt_block(), "  # Transient prompt works similarly");
        assert!(has_hitch_marked_block(&out));
    }
}
