use git_ignore::cli::select_mode;
use git_ignore::cli::usage_line;
use git_ignore::cli::CliOpt;
use git_ignore::resolve::fix_path;
use git_ignore::resolve::resolve_explicit;
use git_ignore::resolve::resolve_global;
use git_ignore::resolve::resolve_internal;
use git_ignore::resolve::resolve_root;
use git_ignore::resolve::ConfigLookup;
use git_ignore::resolve::ResolveError;
use git_ignore::resolve::TargetMode;

#[test]
fn explicit_file_joins_onto_cwd() {
    assert_eq!(resolve_explicit("/work/project", "my.ignore"), "/work/project/my.ignore");
}

#[test]
fn explicit_absolute_file_stands_alone() {
    assert_eq!(resolve_explicit("/work/project", "/etc/ignore"), "/etc/ignore");
}

#[test]
fn global_uses_configured_value_verbatim() {
    let r = resolve_global(ConfigLookup::Found("/home/u/my-excludes".to_string()), None);
    let t = r.unwrap();
    assert_eq!(t.path, "/home/u/my-excludes");
    assert!(t.create_dir.is_none());
}

#[test]
fn global_falls_back_to_config_dir() {
    let r = resolve_global(ConfigLookup::Missing, Some("/home/u/.config".to_string()));
    let t = r.unwrap();
    assert_eq!(t.path, "/home/u/.config/git/ignore");
    assert_eq!(t.create_dir, Some("/home/u/.config/git".to_string()));
}

#[test]
fn global_without_config_dir_fails() {
    let r = resolve_global(ConfigLookup::Missing, None);
    assert!(matches!(r, Err(ResolveError::NoConfigDir)));
}

#[test]
fn global_propagates_store_failure() {
    let r = resolve_global(ConfigLookup::Failed("store broken".to_string()), None);
    match r {
        Err(ResolveError::ConfigStore(m)) => assert_eq!(m, "store broken"),
        _ => panic!("expected a propagated store error"),
    }
}

#[test]
fn internal_appends_info_exclude() {
    let t = resolve_internal("/repo/.git/");
    assert_eq!(t.path, "/repo/.git/info/exclude");
    assert_eq!(t.create_dir, Some("/repo/.git/info".to_string()));
}

#[test]
fn internal_repairs_separator_artifacts() {
    let t = resolve_internal("/repo//.git/");
    assert_eq!(t.path, "/repo/.git/info/exclude");
}

#[test]
fn root_appends_gitignore_to_workdir() {
    let r = resolve_root(Some("/repo/".to_string()));
    assert_eq!(r.unwrap(), "/repo/.gitignore");
}

#[test]
fn root_fails_on_bare_repository() {
    let r = resolve_root(None);
    assert!(matches!(r, Err(ResolveError::BareRepository)));
}

#[test]
fn fix_path_collapses_and_trims_separators() {
    assert_eq!(fix_path("/a//b/"), "/a/b");
    assert_eq!(fix_path("c/d"), "c/d");
    assert_eq!(fix_path(""), "");
    assert_eq!(fix_path("/"), "/");
}

#[test]
fn mode_defaults_to_gitignore_in_cwd() {
    let m = select_mode(&Vec::new());
    match m {
        TargetMode::ExplicitFile(name) => assert_eq!(name, ".gitignore"),
        _ => panic!("expected the explicit default file"),
    }
}

#[test]
fn last_mode_flag_wins() {
    let m = select_mode(&vec![CliOpt::Global, CliOpt::Root]);
    assert!(matches!(m, TargetMode::Root));
    let m = select_mode(&vec![
        CliOpt::File("x".to_string()),
        CliOpt::Global,
        CliOpt::File("y".to_string()),
    ]);
    match m {
        TargetMode::ExplicitFile(name) => assert_eq!(name, "y"),
        _ => panic!("expected the last explicit file"),
    }
}

#[test]
fn usage_line_names_the_program() {
    assert_eq!(
        usage_line("git-ignore"),
        "Usage: git-ignore [-h] [-gir] [-f FILE] pattern [pattern ...]"
    );
}
