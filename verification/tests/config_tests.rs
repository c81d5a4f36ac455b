use rust_tree::color::{
    basic_file_color, extended_file_color, node_style, should_use_colors, suffix_of, ColorMode,
    ColorScheme, TextStyle, Tint,
};
use rust_tree::common_excludes::{common_patterns, nodejs_patterns, python_patterns, rust_patterns};
use rust_tree::config::{Config, OutputFormat, ProgressConfig, SortBy};
use rust_tree::models::{FsNode, FsNodeType};
use rust_tree::sorting::SortField;

#[test]
fn test_sort_by_conversion() {
    assert_eq!(SortField::from(SortBy::Name), SortField::Name);
    assert_eq!(SortField::from(SortBy::Size), SortField::Size);
    assert_eq!(SortField::from(SortBy::Type), SortField::Type);
}

#[test]
fn test_output_format_values() {
    let formats = [OutputFormat::Tree, OutputFormat::Json, OutputFormat::Table];
    assert_eq!(formats.len(), 3);
}

#[test]
fn test_rust_patterns() {
    let patterns = rust_patterns();
    assert!(patterns.contains(&".git"));
    assert!(patterns.contains(&"target"));
}

#[test]
fn test_other_pattern_sets() {
    assert_eq!(
        nodejs_patterns(),
        vec![".git", "node_modules", "package-lock.json", "yarn.lock", "*.log"]
    );
    assert_eq!(
        python_patterns(),
        vec![".git", "__pycache__", "*.pyc", ".venv", "venv", "*.egg-info", ".pytest_cache"]
    );
    assert_eq!(
        common_patterns(),
        vec![".git", ".svn", ".hg", "*.log", "*.tmp", "*.bak", "*.swp", "*~"]
    );
    assert_eq!(rust_patterns(), vec![".git", "target", "*.rlib", "*.rmeta"]);
}

#[test]
fn test_progress_config_default() {
    let config = ProgressConfig::default();
    assert!(!config.enabled);
    assert!(config.clear_on_finish);
}

#[test]
fn test_config_default() {
    let config = Config::default();
    assert_eq!(config.path, ".");
    assert_eq!(config.max_depth, 0);
    assert_eq!(config.format, OutputFormat::Tree);
    assert!(!config.show_size);
    assert!(!config.show_hidden);
    assert_eq!(config.sort_by, SortBy::Name);
    assert!(!config.reverse);
    assert!(!config.show_stats);
    assert!(!config.follow_symlinks);
    assert_eq!(config.top_files, 10);
}

#[test]
fn test_to_walk_config_couples_hidden_rule() {
    let mut config = Config::default();
    config.max_depth = 3;
    config.sort_by = SortBy::Size;
    config.reverse = true;
    let walk = config.to_walk_config();
    assert_eq!(walk.max_depth, 3);
    assert_eq!(walk.sort_by, SortField::Size);
    assert!(walk.reverse);
    assert!(!walk.show_hidden);
    assert!(walk.filter.exclude_hidden);
    assert!(walk.filter.exclude_patterns.is_empty());
    assert!(walk.filter.include_pattern.is_none());

    config.show_hidden = true;
    let walk = config.to_walk_config();
    assert!(walk.show_hidden);
    assert!(!walk.filter.exclude_hidden);
}

#[test]
fn test_should_show_stats() {
    let mut config = Config::default();
    assert!(!config.should_show_stats());
    config.show_stats = true;
    assert!(config.should_show_stats());
    config.show_stats = false;
    config.format = OutputFormat::Json;
    assert!(config.should_show_stats());
    config.format = OutputFormat::Table;
    assert!(config.should_show_stats());
}

#[test]
fn test_top_files_count_minimum() {
    let mut config = Config::default();
    assert_eq!(config.top_files_count(), 10);
    config.top_files = 0;
    assert_eq!(config.top_files_count(), 1);
    config.top_files = 25;
    assert_eq!(config.top_files_count(), 25);
}

#[test]
fn test_should_use_colors() {
    assert!(should_use_colors(ColorMode::Always, false));
    assert!(!should_use_colors(ColorMode::Never, true));
    assert!(should_use_colors(ColorMode::Auto, true));
    assert!(!should_use_colors(ColorMode::Auto, false));
    assert_eq!(ColorMode::default(), ColorMode::Auto);
    assert_eq!(ColorScheme::default(), ColorScheme::Plain);
}

#[test]
fn test_suffix_of() {
    assert_eq!(suffix_of("main.rs"), "rs");
    assert_eq!(suffix_of("archive.tar.gz"), "gz");
    assert_eq!(suffix_of("README"), "README");
    assert_eq!(suffix_of("trailing."), "");
}

#[test]
fn test_file_colors() {
    assert_eq!(basic_file_color("rs"), Tint::Green);
    assert_eq!(basic_file_color("json"), Tint::Yellow);
    assert_eq!(basic_file_color("md"), Tint::White);
    assert_eq!(basic_file_color("lock"), Tint::BrightBlack);
    assert_eq!(basic_file_color("bin"), Tint::Plain);
    assert_eq!(extended_file_color("rs"), Tint::BrightGreen);
    assert_eq!(extended_file_color("py"), Tint::Green);
    assert_eq!(extended_file_color("tsx"), Tint::Yellow);
    assert_eq!(extended_file_color("hpp"), Tint::Blue);
    assert_eq!(extended_file_color("go"), Tint::Cyan);
    assert_eq!(extended_file_color("php"), Tint::Magenta);
    assert_eq!(extended_file_color("yml"), Tint::BrightYellow);
    assert_eq!(extended_file_color("xml"), Tint::Yellow);
    assert_eq!(extended_file_color("conf"), Tint::BrightBlack);
    assert_eq!(extended_file_color("adoc"), Tint::White);
    assert_eq!(extended_file_color("txt"), Tint::BrightWhite);
    assert_eq!(extended_file_color("lock"), Tint::BrightBlack);
    assert_eq!(extended_file_color("svg"), Tint::BrightMagenta);
    assert_eq!(extended_file_color("7z"), Tint::Red);
    assert_eq!(extended_file_color("bin"), Tint::Plain);
}

#[test]
fn test_node_style_by_kind() {
    let dir = FsNode::new("test_dir".into(), "/test".into(), FsNodeType::Directory, 0, 0);
    assert_eq!(
        node_style(&dir, ColorScheme::Basic),
        TextStyle { tint: Tint::Blue, bold: true, italic: false }
    );
    let link = FsNode::new("link".into(), "/test/link".into(), FsNodeType::Symlink, 0, 0);
    assert_eq!(
        node_style(&link, ColorScheme::Basic),
        TextStyle { tint: Tint::Cyan, bold: false, italic: true }
    );
    let file = FsNode::new("main.rs".into(), "/test/main.rs".into(), FsNodeType::File, 100, 0);
    assert_eq!(
        node_style(&file, ColorScheme::Basic),
        TextStyle { tint: Tint::Green, bold: false, italic: false }
    );
    assert_eq!(
        node_style(&file, ColorScheme::Extended),
        TextStyle { tint: Tint::BrightGreen, bold: false, italic: false }
    );
    assert_eq!(
        node_style(&file, ColorScheme::Plain),
        TextStyle { tint: Tint::Plain, bold: false, italic: false }
    );
}
