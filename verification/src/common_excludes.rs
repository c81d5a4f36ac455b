//! Predefined exclude patterns for common kinds of projects.

use vstd::prelude::*;

verus! {

/// Common exclude patterns for Rust projects.
pub fn rust_patterns() -> (patterns: Vec<&'static str>)
    ensures
        patterns@ == seq![".git", "target", "*.rlib", "*.rmeta"],
{
    vec![".git", "target", "*.rlib", "*.rmeta"]
}

/// Common exclude patterns for Node.js projects.
pub fn nodejs_patterns() -> (patterns: Vec<&'static str>)
    ensures
        patterns@ == seq![".git", "node_modules", "package-lock.json", "yarn.lock", "*.log"],
{
    vec![".git", "node_modules", "package-lock.json", "yarn.lock", "*.log"]
}

/// Common exclude patterns for Python projects.
pub fn python_patterns() -> (patterns: Vec<&'static str>)
    ensures
        patterns@ == seq![
            ".git",
            "__pycache__",
            "*.pyc",
            ".venv",
            "venv",
            "*.egg-info",
            ".pytest_cache",
        ],
{
    vec![".git", "__pycache__", "*.pyc", ".venv", "venv", "*.egg-info", ".pytest_cache"]
}

/// Common exclude patterns for general development.
pub fn common_patterns() -> (patterns: Vec<&'static str>)
    ensures
        patterns@ == seq![".git", ".svn", ".hg", "*.log", "*.tmp", "*.bak", "*.swp", "*~"],
{
    vec![".git", ".svn", ".hg", "*.log", "*.tmp", "*.bak", "*.swp", "*~"]
}

} // verus!
