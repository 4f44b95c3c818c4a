use nexcore_fs::dirs::{
    choose_base_dir, home_subdir, use_home_dir, use_runtime_dir, variable_name, BaseDir, DirChoice,
};

#[test]
fn variable_names() {
    assert_eq!(variable_name(BaseDir::Data), "XDG_DATA_HOME");
    assert_eq!(variable_name(BaseDir::Config), "XDG_CONFIG_HOME");
    assert_eq!(variable_name(BaseDir::Cache), "XDG_CACHE_HOME");
}

#[test]
fn home_defaults() {
    assert_eq!(home_subdir(BaseDir::Data, false), ".local/share");
    assert_eq!(home_subdir(BaseDir::Config, false), ".config");
    assert_eq!(home_subdir(BaseDir::Cache, false), ".cache");
    assert_eq!(home_subdir(BaseDir::Data, true), "Library/Application Support");
    assert_eq!(home_subdir(BaseDir::Config, true), "Library/Application Support");
    assert_eq!(home_subdir(BaseDir::Cache, true), "Library/Caches");
}

#[test]
fn absolute_variable_wins_outside_macos() {
    assert_eq!(choose_base_dir(BaseDir::Data, false, Some(true), Some(true)), DirChoice::Variable);
    assert_eq!(choose_base_dir(BaseDir::Cache, false, Some(true), None), DirChoice::Variable);
}

#[test]
fn macos_ignores_the_variable() {
    assert_eq!(
        choose_base_dir(BaseDir::Data, true, Some(true), Some(true)),
        DirChoice::UnderHome("Library/Application Support")
    );
    assert_eq!(
        choose_base_dir(BaseDir::Cache, true, Some(true), Some(true)),
        DirChoice::UnderHome("Library/Caches")
    );
    assert_eq!(choose_base_dir(BaseDir::Config, true, Some(true), None), DirChoice::Unknown);
}

#[test]
fn relative_or_missing_variable_falls_back_to_home() {
    assert_eq!(
        choose_base_dir(BaseDir::Data, false, Some(false), Some(true)),
        DirChoice::UnderHome(".local/share")
    );
    assert_eq!(choose_base_dir(BaseDir::Config, false, None, Some(true)), DirChoice::UnderHome(".config"));
    assert_eq!(choose_base_dir(BaseDir::Cache, false, None, None), DirChoice::Unknown);
    assert_eq!(choose_base_dir(BaseDir::Data, false, Some(false), None), DirChoice::Unknown);
}

#[test]
fn relative_home_is_not_used() {
    assert_eq!(choose_base_dir(BaseDir::Data, false, None, Some(false)), DirChoice::Unknown);
    assert_eq!(choose_base_dir(BaseDir::Cache, true, Some(true), Some(false)), DirChoice::Unknown);
    assert!(use_home_dir(Some(true)));
    assert!(!use_home_dir(Some(false)));
    assert!(!use_home_dir(None));
}

#[test]
fn runtime_dir_needs_an_absolute_variable_outside_macos() {
    assert!(use_runtime_dir(false, Some(true)));
    assert!(!use_runtime_dir(false, Some(false)));
    assert!(!use_runtime_dir(false, None));
    assert!(!use_runtime_dir(true, Some(true)));
}
