//! Run configuration: what to walk, how to order it, and which output to produce.

use crate::filter::{FilterConfig, FilterModel};
use crate::sorting::SortField;
use crate::walker::{WalkConfig, WalkModel};
use vstd::prelude::*;
use vstd::std_specs::convert::FromSpecImpl;

verus! {

/// Output format options.
#[derive(Debug, Clone, Copy, PartialEq, Eq, Structural)]
pub enum OutputFormat {
    /// Tree-style output
    Tree,
    /// JSON format (includes both tree and statistics)
    Json,
    /// Table format showing statistics
    Table,
}

/// Sort field options.
#[derive(Debug, Clone, Copy, PartialEq, Eq, Structural)]
pub enum SortBy {
    /// Sort by file or directory name
    Name,
    /// Sort by file size
    Size,
    /// Sort by file type (extension)
    Type,
}

/// The sort field that a sort option stands for.
pub open spec fn sort_field_of(sort_by: SortBy) -> SortField {
    match sort_by {
        SortBy::Name => SortField::Name,
        SortBy::Size => SortField::Size,
        SortBy::Type => SortField::Type,
    }
}

impl From<SortBy> for SortField {
    fn from(sort_by: SortBy) -> (field: SortField) {
        match sort_by {
            SortBy::Name => SortField::Name,
            SortBy::Size => SortField::Size,
            SortBy::Type => SortField::Type,
        }
    }
}

impl FromSpecImpl<SortBy> for SortField {
    open spec fn obeys_from_spec() -> bool {
        true
    }

    open spec fn from_spec(sort_by: SortBy) -> SortField {
        sort_field_of(sort_by)
    }
}

/// Settings of one run.
#[derive(Debug, Clone)]
pub struct Config {
    /// Target directory path
    pub path: String,
    /// Maximum recursion depth (0 means unlimited)
    pub max_depth: usize,
    /// Output format
    pub format: OutputFormat,
    /// Show file sizes
    pub show_size: bool,
    /// Show hidden files (starting with a dot)
    pub show_hidden: bool,
    /// Sort by field
    pub sort_by: SortBy,
    /// Reverse sort order
    pub reverse: bool,
    /// Show the statistics summary with tree output
    pub show_stats: bool,
    /// Follow symbolic links
    pub follow_symlinks: bool,
    /// Number of largest files to show in statistics
    pub top_files: usize,
}

impl Config {
    /// The walk configuration of this run: depth, order and link handling as set, and a
    /// filter without patterns that hides hidden files unless they are to be shown.
    pub fn to_walk_config(&self) -> (config: WalkConfig)
        ensures
            config@ == (WalkModel {
                max_depth: self.max_depth as nat,
                show_hidden: self.show_hidden,
                follow_symlinks: self.follow_symlinks,
                sort_by: sort_field_of(self.sort_by),
                reverse: self.reverse,
                filter: FilterModel {
                    exclude: Seq::empty(),
                    include_only: None,
                    exclude_hidden: !self.show_hidden,
                },
            }),
    {
        let mut filter = FilterConfig::new();
        filter.exclude_hidden = !self.show_hidden;
        assert(filter@.exclude =~= Seq::empty());
        WalkConfig {
            max_depth: self.max_depth,
            show_hidden: self.show_hidden,
            follow_symlinks: self.follow_symlinks,
            sort_by: SortField::from(self.sort_by),
            reverse: self.reverse,
            filter,
        }
    }

    /// Whether statistics are displayed: on request, and always with JSON and table output.
    pub fn should_show_stats(&self) -> (b: bool)
        ensures
            b == (self.show_stats || self.format == OutputFormat::Json || self.format
                == OutputFormat::Table),
    {
        self.show_stats || self.format == OutputFormat::Json || self.format == OutputFormat::Table
    }

    /// The effective number of largest files to show: at least one.
    pub fn top_files_count(&self) -> (count: usize)
        ensures
            count == if self.top_files < 1 {
                1
            } else {
                self.top_files
            },
    {
        if self.top_files < 1 {
            1
        } else {
            self.top_files
        }
    }
}

impl Default for Config {
    fn default() -> (config: Self)
        ensures
            config.path@ == "."@,
            config.max_depth == 0,
            config.format == OutputFormat::Tree,
            !config.show_size,
            !config.show_hidden,
            config.sort_by == SortBy::Name,
            !config.reverse,
            !config.show_stats,
            !config.follow_symlinks,
            config.top_files == 10,
    {
        Config {
            path: String::from_str("."),
            max_depth: 0,
            format: OutputFormat::Tree,
            show_size: false,
            show_hidden: false,
            sort_by: SortBy::Name,
            reverse: false,
            show_stats: false,
            follow_symlinks: false,
            top_files: 10,
        }
    }
}

/// Settings of the progress display.
#[derive(Debug, Clone)]
pub struct ProgressConfig {
    /// Show a progress bar
    pub enabled: bool,
    /// Progress style template
    pub template: String,
    /// Clear the progress bar when complete
    pub clear_on_finish: bool,
}

impl Default for ProgressConfig {
    fn default() -> (config: Self)
        ensures
            !config.enabled,
            config.template@ == "[{elapsed_precise}] [{bar:40.cyan/blue}] {pos}/{len} {msg}"@,
            config.clear_on_finish,
    {
        Self {
            enabled: false,
            template: String::from_str(
                "[{elapsed_precise}] [{bar:40.cyan/blue}] {pos}/{len} {msg}",
            ),
            clear_on_finish: true,
        }
    }
}

} // verus!
