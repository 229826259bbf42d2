//! Application configuration: the theme, UI and keybinding settings the
//! interactive layer reads.  Loading from disk and keybinding resolution
//! live outside the library; the model and its defaults live here.

use std::collections::HashMap;
use vstd::prelude::*;

verus! {

/// Application configuration.
#[derive(Debug, Clone, PartialEq)]
pub struct Config {
    pub theme: ThemeConfig,
    pub ui: UiConfig,
    pub keybindings: KeybindingsConfig,
}

/// Theme configuration.
#[derive(Debug, Clone, PartialEq)]
pub struct ThemeConfig {
    /// Default theme to use on startup.
    pub default: String,
}

/// UI configuration.
#[derive(Debug, Clone, PartialEq)]
pub struct UiConfig {
    /// Default maximum rows to display in non-interactive mode.
    pub max_rows: usize,
    /// Default maximum column width.
    pub column_width: usize,
}

/// Keybindings configuration.
#[derive(Debug, Clone, PartialEq)]
pub struct KeybindingsConfig {
    /// Keybinding profile: "default", "vim", or "custom".
    pub profile: String,
    /// Custom keybindings (override the profile).
    pub custom: HashMap<String, String>,
}

impl core::default::Default for ThemeConfig {
    fn default() -> (r: ThemeConfig)
        ensures
            r.default@ == "Default"@,
    {
        ThemeConfig { default: "Default".to_owned() }
    }
}

impl core::default::Default for UiConfig {
    fn default() -> (r: UiConfig)
        ensures
            r.max_rows == 50,
            r.column_width == 30,
    {
        UiConfig { max_rows: 50, column_width: 30 }
    }
}

impl core::default::Default for KeybindingsConfig {
    fn default() -> (r: KeybindingsConfig)
        ensures
            r.profile@ == "default"@,
            r.custom@ == Map::<String, String>::empty(),
    {
        KeybindingsConfig { profile: "default".to_owned(), custom: HashMap::new() }
    }
}

impl core::default::Default for Config {
    fn default() -> (r: Config)
        ensures
            r.theme.default@ == "Default"@,
            r.ui.max_rows == 50,
            r.ui.column_width == 30,
            r.keybindings.profile@ == "default"@,
            r.keybindings.custom@ == Map::<String, String>::empty(),
    {
        Config {
            theme: ThemeConfig::default(),
            ui: UiConfig::default(),
            keybindings: KeybindingsConfig::default(),
        }
    }
}

impl Config {
    /// The example configuration written next to the default config path.
    pub fn example_toml() -> (r: String)
        ensures
            r@ == "# xleak configuration file\n# Location: $XDG_CONFIG_HOME/xleak/config.toml (usually ~/.config/xleak/config.toml)\n\n[theme]\n# Default theme to use on startup\n# Options: \"Default\", \"Dracula\", \"Solarized Dark\", \"Solarized Light\", \"GitHub Dark\", \"Nord\"\ndefault = \"Default\"\n\n[ui]\n# Default maximum rows to display in non-interactive mode (0 = all)\nmax_rows = 50\n# Default maximum column width in characters\ncolumn_width = 30\n\n[keybindings]\n# Keybinding profile: \"default\" or \"vim\"\nprofile = \"default\"\n\n# Custom keybindings (optional - overrides profile)\n# Uncomment and modify to customize individual keys\n# [keybindings.custom]\n# quit = \"q\"\n# help = \"?\"\n# theme_toggle = \"t\"\n# search = \"/\"\n# next_match = \"n\"\n# prev_match = \"N\"\n# copy_cell = \"c\"\n# copy_row = \"C\"\n# jump = \"Ctrl+g\"\n# show_cell_detail = \"Enter\"\n\n# VIM-style navigation (when profile = \"vim\")\n# up = \"k\"\n# down = \"j\"\n# left = \"h\"\n# right = \"l\"\n# page_up = \"Ctrl+u\"\n# page_down = \"Ctrl+d\"\n# jump_to_top = \"g\"\n# jump_to_bottom = \"G\"\n# jump_to_row_start = \"0\"\n# jump_to_row_end = \"$\"\n"@,
    {
        "# xleak configuration file\n# Location: $XDG_CONFIG_HOME/xleak/config.toml (usually ~/.config/xleak/config.toml)\n\n[theme]\n# Default theme to use on startup\n# Options: \"Default\", \"Dracula\", \"Solarized Dark\", \"Solarized Light\", \"GitHub Dark\", \"Nord\"\ndefault = \"Default\"\n\n[ui]\n# Default maximum rows to display in non-interactive mode (0 = all)\nmax_rows = 50\n# Default maximum column width in characters\ncolumn_width = 30\n\n[keybindings]\n# Keybinding profile: \"default\" or \"vim\"\nprofile = \"default\"\n\n# Custom keybindings (optional - overrides profile)\n# Uncomment and modify to customize individual keys\n# [keybindings.custom]\n# quit = \"q\"\n# help = \"?\"\n# theme_toggle = \"t\"\n# search = \"/\"\n# next_match = \"n\"\n# prev_match = \"N\"\n# copy_cell = \"c\"\n# copy_row = \"C\"\n# jump = \"Ctrl+g\"\n# show_cell_detail = \"Enter\"\n\n# VIM-style navigation (when profile = \"vim\")\n# up = \"k\"\n# down = \"j\"\n# left = \"h\"\n# right = \"l\"\n# page_up = \"Ctrl+u\"\n# page_down = \"Ctrl+d\"\n# jump_to_top = \"g\"\n# jump_to_bottom = \"G\"\n# jump_to_row_start = \"0\"\n# jump_to_row_end = \"$\"\n".to_owned()
    }
}

} // verus!
