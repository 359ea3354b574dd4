//! The scaffolder's pure pieces: name validation, the generated tree, the
//! module path, and username cleaning.

use xg::cli::create_go_app::GoArgs;
use xg::cli::create_go_app::RestFramework;
use xg::cli::Cli;
use xg::cli::Commands;
use xg::scaffold::{
    cleaned_username, default_config, module_name, scaffold_dirs, scaffold_files, trimmed,
};
use xg::validation::is_project_name_valid;

#[test]
fn ordinary_names_are_valid() {
    assert!(is_project_name_valid("widget"));
    assert!(is_project_name_valid("my-project_1"));
    assert!(is_project_name_valid("A1-b_2"));
}

#[test]
fn unicode_letters_are_valid() {
    assert!(is_project_name_valid("naïve"));
    assert!(is_project_name_valid("projekt-übung"));
}

#[test]
fn path_separators_are_rejected() {
    assert!(!is_project_name_valid("a/b"));
    assert!(!is_project_name_valid("a\\b"));
    assert!(!is_project_name_valid("/leading"));
}

#[test]
fn traversal_sequences_are_rejected() {
    assert!(!is_project_name_valid(".."));
    assert!(!is_project_name_valid("a..b"));
}

#[test]
fn blank_names_are_rejected() {
    assert!(!is_project_name_valid(""));
    assert!(!is_project_name_valid("   "));
    assert!(!is_project_name_valid(" \t\n"));
}

#[test]
fn disallowed_characters_are_rejected() {
    assert!(!is_project_name_valid("a b"));
    assert!(!is_project_name_valid("a.b"));
    assert!(!is_project_name_valid("a!"));
}

#[test]
fn scaffold_tree_paths() {
    assert_eq!(
        scaffold_dirs("widget"),
        vec![
            "widget".to_string(),
            "widget/cmd".to_string(),
            "widget/config".to_string(),
            "widget/internal/config".to_string(),
        ]
    );
    assert_eq!(
        scaffold_files("widget"),
        vec![
            "widget/config/config.development.json".to_string(),
            "widget/config/config.production.json".to_string(),
            "widget/cmd/main.go".to_string(),
            "widget/internal/config/config.go".to_string(),
        ]
    );
}

#[test]
fn sample_config_values() {
    let cfg = default_config("development");
    assert_eq!(cfg.environment, "development");
    assert_eq!(cfg.server.host, "localhost");
    assert_eq!(cfg.server.port, 8000);
}

#[test]
fn module_path_uses_username_when_known() {
    assert_eq!(
        module_name(Some("alice"), "widget"),
        "github.com/alice/widget"
    );
    assert_eq!(module_name(None, "widget"), "widget");
}

#[test]
fn trimming_strips_both_ends_only() {
    assert_eq!(trimmed("  bob \n"), "bob");
    assert_eq!(trimmed("a b"), "a b");
    assert_eq!(trimmed(""), "");
    assert_eq!(trimmed(" \t "), "");
}

#[test]
fn username_cleaning_drops_blank_output() {
    assert_eq!(cleaned_username("alice\n"), Some("alice".to_string()));
    assert_eq!(cleaned_username("   \n"), None);
    assert_eq!(cleaned_username(""), None);
}

#[test]
fn command_line_values_carry_their_fields() {
    let cli = Cli {
        command: Commands::CreateGoApp(GoArgs {
            project: "widget".to_string(),
            rest_framework: RestFramework::Echo,
        }),
    };
    match cli.command {
        Commands::CreateGoApp(args) => {
            assert_eq!(args.project, "widget");
            assert!(args.rest_framework == RestFramework::Echo);
        },
    }
}
