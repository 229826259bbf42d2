use xleak::config::Config;

#[test]
fn test_default_config() {
    let config = Config::default();
    assert_eq!(config.theme.default, "Default");
    assert_eq!(config.ui.max_rows, 50);
    assert_eq!(config.keybindings.profile, "default");
}

#[test]
fn default_config_has_no_custom_bindings() {
    let config = Config::default();
    assert!(config.keybindings.custom.is_empty());
    assert_eq!(config.ui.column_width, 30);
}

#[test]
fn example_toml_lists_every_section() {
    let text = Config::example_toml();
    assert!(text.contains("[theme]"));
    assert!(text.contains("[ui]"));
    assert!(text.contains("[keybindings]"));
    assert!(text.contains("profile = \"default\""));
}
