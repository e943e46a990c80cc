use i18n_hero::setup_project::ProjectSetting as SetupProject;
use i18n_hero::init::{check_prompted_dir, FILE_NAME};
use i18n_hero::loaders::LoadersKind;
use i18n_hero::utils::args::{validate_dir, validate_file, validate_relative_dir, validate_workspace};
use i18n_hero::utils::join_relate_to_cwd;
use i18n_hero::utils::project::Projects;
use i18n_hero::utils::project_config::{resolve_project_name, ProjectSetting, ProjectsConfig};
use i18n_hero::lsp::quote::Quote;
use i18n_hero::lsp::types::Position;

#[test]
fn relative_paths_join_the_working_directory() {
    assert_eq!(join_relate_to_cwd("/home/u", "."), "/home/u");
    assert_eq!(join_relate_to_cwd("/home/u", "./src"), "/home/u/src");
    assert_eq!(join_relate_to_cwd("/home/u", "src"), "/home/u/src");
    assert_eq!(join_relate_to_cwd("/home/u", ".\\src"), "/home/u/src");
    assert_eq!(join_relate_to_cwd("/home/u", "/abs"), "/abs");
}

#[test]
fn directory_checks() {
    assert_eq!(validate_dir("d", true, true), Ok("d".to_string()));
    assert_eq!(validate_dir("d", true, false), Err("Path is not a directory: d".to_string()));
    assert_eq!(validate_dir("d", false, false), Err("Directory does not exist: d".to_string()));
    assert_eq!(validate_file("f", true, true), Ok("f".to_string()));
    assert_eq!(validate_file("f", true, false), Err("Path is not a file: f".to_string()));
    assert_eq!(validate_file("f", false, false), Err("File does not exist: f".to_string()));
    assert_eq!(validate_relative_dir("d", "/w", true, true), Ok("d".to_string()));
    assert_eq!(
        validate_relative_dir("d", "/w", true, false),
        Err("Path is not a directory: d".to_string())
    );
    assert_eq!(
        validate_relative_dir("d", "/w", false, false),
        Err("Directory does not exist: d, path must be relative to /w".to_string())
    );
}

#[test]
fn workspace_needs_its_config_file() {
    assert_eq!(validate_workspace("ws", "/w", true, true, true), Ok("ws".to_string()));
    assert_eq!(
        validate_workspace("ws", "/w", true, true, false),
        Err("Cannot start lsp, config file do not exists in: /w/ws".to_string())
    );
    assert_eq!(
        validate_workspace("ws", "/w", false, false, true),
        Err("Directory does not exist: ws".to_string())
    );
}

#[test]
fn prompted_directory_checks() {
    assert_eq!(check_prompted_dir("d", true, true), Ok("d".to_string()));
    assert_eq!(check_prompted_dir("d", true, false), Err("Path is not a directory: d ".to_string()));
    assert_eq!(
        check_prompted_dir("d", false, false),
        Err("Directory does not exist: d, path must be relative to cwd".to_string())
    );
    assert_eq!(FILE_NAME, "i18n-hero.toml");
}

#[test]
fn loader_label() {
    assert_eq!(LoadersKind::RustI18n.label(), "rust-i18n");
}

#[test]
fn project_setting_fields() {
    let p = ProjectSetting::new("app", "./app", LoadersKind::RustI18n, "./locales");
    assert_eq!(p.name, "app");
    assert_eq!(p.root, "./app");
    assert_eq!(p.loader, LoadersKind::RustI18n);
    assert_eq!(p.locales, "./locales");
}

#[test]
fn projects_are_found_by_path_prefix() {
    let config = ProjectsConfig {
        project: vec![
            ProjectSetting::new("a", "./a", LoadersKind::RustI18n, "l"),
            ProjectSetting::new("root", ".", LoadersKind::RustI18n, "l"),
        ],
    };
    let projects = Projects::from_config(config, "/w");
    assert_eq!(projects.projects.len(), 2);
    assert_eq!(projects.projects[0].start_path, "/w/a");
    assert_eq!(projects.projects[1].start_path, "/w");
    assert_eq!(projects.get_project("/w/a/main.rs").unwrap().start_path, "/w/a");
    assert_eq!(projects.get_project("/w/b.rs").unwrap().start_path, "/w");
    assert!(projects.get_project("/x/y.rs").is_none());
    let p = projects.get_project("/w/a/main.rs").unwrap();
    let q = Quote { text: "Hello.World".to_string(), start: 2, end: 5, quote: '"', complete: true };
    let h = p.completion.get_hover(&q, Position { line: 0, character: 5 }).unwrap();
    assert_eq!(h.contents.value, "**hello.world**\n\n- **en**: This is a test \n- **fr**: - \n");
}

#[test]
fn placeholder_names_take_the_directory_name() {
    assert_eq!(resolve_project_name("my-project", Some("shop")), "shop");
    assert_eq!(resolve_project_name("my_project", Some("shop")), "shop");
    assert_eq!(resolve_project_name("my_project", None), "my_project");
    assert_eq!(resolve_project_name("app", Some("shop")), "app");
}

#[test]
fn setup_tool_names_placeholder_projects_after_the_directory() {
    let p = SetupProject::new("my-project", "./src", LoadersKind::RustI18n, Some("shop"));
    assert_eq!(p.name, "shop");
    assert_eq!(p.root, "./src");
    assert!(p.loader == LoadersKind::RustI18n);
    let q = SetupProject::new("app", "./src", LoadersKind::RustI18n, Some("shop"));
    assert_eq!(q.name, "app");
    let r = SetupProject::new("my_project", "", LoadersKind::RustI18n, None);
    assert_eq!(r.name, "my_project");
}
