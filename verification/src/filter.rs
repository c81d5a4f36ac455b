//! Filter engine: hidden-name, exclude-pattern and include-pattern rules over glob patterns.

use crate::text::{base_name, is_hidden_name, name_is_hidden, path_base_name};
use vstd::prelude::*;

verus! {

/// `glob::Pattern`, a compiled shell-style pattern; its inside is not visible here.
#[verifier::external_type_specification]
#[verifier::external_body]
pub struct ExPattern(glob::Pattern);

/// `glob::PatternError`, the error of a pattern that does not compile.
#[verifier::external_type_specification]
#[verifier::external_body]
pub struct ExPatternError(glob::PatternError);

/// The text that a compiled pattern was made from, which `glob::Pattern::as_str` hands
/// out.
pub uninterp spec fn pattern_text(pattern: glob::Pattern) -> Seq<char>;

/// Whether `glob::Pattern::new` accepts the text as a pattern.
pub uninterp spec fn is_valid_pattern(text: Seq<char>) -> bool;

/// Whether the pattern compiled from `pattern` matches `text` under glob's default match
/// options, as `glob::Pattern::matches` decides it.
pub uninterp spec fn glob_matches(pattern: Seq<char>, text: Seq<char>) -> bool;

/// `glob::Pattern::new` compiles a pattern text. It fails exactly on the texts that are no
/// valid pattern, and a compiled pattern keeps the text it was made from. It does not panic.
pub assume_specification[ glob::Pattern::new ](pattern: &str) -> (r: Result<
    glob::Pattern,
    glob::PatternError,
>)
    ensures
        r is Ok <==> is_valid_pattern(pattern@),
        r matches Ok(p) ==> pattern_text(p) == pattern@,
;

/// `glob::Pattern::matches` matches a text against the compiled pattern with the default
/// options. The compiled form is derived from the pattern text alone, so the answer is a
/// function of the pattern text and the matched text (and of the path separators of the
/// platform the crate is built for, which decide where `**` may match).
pub assume_specification[ glob::Pattern::matches ](pattern: &glob::Pattern, str: &str) -> (r:
    bool)
    ensures
        r == glob_matches(pattern_text(*pattern), str@),
;

/// `glob::Pattern::as_str` hands out the text that the pattern was made from.
pub assume_specification<'a>[ glob::Pattern::as_str ](pattern: &'a glob::Pattern) -> (r: &'a str)
    ensures
        r@ == pattern_text(*pattern),
;

/// Renders a pattern error as text, through its `Display` implementation. Nothing is
/// claimed of the text.
#[verifier::external_body]
fn pattern_error_text(error: &glob::PatternError) -> (r: String) {
    error.to_string()
}

/// Filter configuration.
#[derive(Debug, Clone)]
pub struct FilterConfig {
    /// Patterns to exclude
    pub exclude_patterns: Vec<glob::Pattern>,
    /// Pattern to include only (if set, only matching paths are included)
    pub include_pattern: Option<glob::Pattern>,
    /// Exclude hidden files
    pub exclude_hidden: bool,
}

/// Mathematical view of a [`FilterConfig`]: the pattern texts and the hidden-file rule.
pub ghost struct FilterModel {
    pub exclude: Seq<Seq<char>>,
    pub include_only: Option<Seq<char>>,
    pub exclude_hidden: bool,
}

impl View for FilterConfig {
    type V = FilterModel;

    open spec fn view(&self) -> FilterModel {
        FilterModel {
            exclude: Seq::new(
                self.exclude_patterns@.len(),
                |i: int| pattern_text(self.exclude_patterns@[i]),
            ),
            include_only: match self.include_pattern {
                Some(p) => Some(pattern_text(p)),
                None => None,
            },
            exclude_hidden: self.exclude_hidden,
        }
    }
}

/// Whether a pattern matches the full path or the base name of a path.
pub open spec fn matches_path_or_name(pattern: Seq<char>, path: Seq<char>) -> bool {
    glob_matches(pattern, path) || glob_matches(pattern, base_name(path))
}

impl FilterModel {
    /// The hidden-file rule: it is on and the base name starts with a dot.
    pub open spec fn hides(self, path: Seq<char>) -> bool {
        self.exclude_hidden && is_hidden_name(base_name(path))
    }

    /// The exclude rule: some exclude pattern matches the full path or the base name.
    pub open spec fn excludes_by_pattern(self, path: Seq<char>) -> bool {
        exists|i: int|
            0 <= i < self.exclude.len() && #[trigger] matches_path_or_name(self.exclude[i], path)
    }

    /// The include rule: an include pattern is set and matches neither the full path nor
    /// the base name.
    pub open spec fn misses_include(self, path: Seq<char>) -> bool {
        self.include_only matches Some(p) && !matches_path_or_name(p, path)
    }

    /// Whether a path is excluded: by the hidden-file rule, by an exclude pattern, or by
    /// missing the include pattern.
    pub open spec fn excludes(self, path: Seq<char>) -> bool {
        self.hides(path) || self.excludes_by_pattern(path) || self.misses_include(path)
    }
}

/// Decides exclusion from the outcome of the three rules: whether the name is hidden
/// under the hidden-file rule, whether an exclude pattern matched, and, where an include
/// pattern is set, whether it matched. The first rule that applies excludes.
pub fn exclusion_verdict(hidden: bool, excluded: bool, included: Option<bool>) -> (r: bool)
    ensures
        r == (hidden || excluded || included == Some(false)),
{
    if hidden {
        true
    } else if excluded {
        true
    } else {
        match included {
            Some(hit) => !hit,
            None => false,
        }
    }
}

impl FilterConfig {
    /// Creates a filter that excludes nothing.
    pub fn new() -> (filter: Self)
        ensures
            filter@ == (FilterModel {
                exclude: Seq::empty(),
                include_only: None,
                exclude_hidden: false,
            }),
    {
        let filter = Self {
            exclude_patterns: Vec::new(),
            include_pattern: None,
            exclude_hidden: false,
        };
        assert(filter@.exclude =~= Seq::empty());
        filter
    }

    /// Adds an exclude pattern. An invalid pattern is refused with its error text and
    /// leaves the filter as it was.
    pub fn add_exclude(&mut self, pattern: &str) -> (r: Result<(), String>)
        ensures
            r is Ok <==> is_valid_pattern(pattern@),
            r is Ok ==> final(self)@ == (FilterModel {
                exclude: old(self)@.exclude.push(pattern@),
                ..old(self)@
            }),
            r is Err ==> final(self)@ == old(self)@,
    {
        match glob::Pattern::new(pattern) {
            Ok(p) => {
                self.exclude_patterns.push(p);
                assert(self@.exclude =~= old(self)@.exclude.push(pattern@));
                Ok(())
            },
            Err(e) => Err(pattern_error_text(&e)),
        }
    }

    /// Sets the include pattern. An invalid pattern is refused with its error text and
    /// leaves the filter as it was.
    pub fn set_include(&mut self, pattern: &str) -> (r: Result<(), String>)
        ensures
            r is Ok <==> is_valid_pattern(pattern@),
            r is Ok ==> final(self)@ == (FilterModel { include_only: Some(pattern@), ..old(self)@ }),
            r is Err ==> final(self)@ == old(self)@,
    {
        match glob::Pattern::new(pattern) {
            Ok(p) => {
                self.include_pattern = Some(p);
                assert(self@.exclude =~= old(self)@.exclude);
                Ok(())
            },
            Err(e) => Err(pattern_error_text(&e)),
        }
    }

    /// The texts of the exclude patterns, in the order in which they were added.
    pub fn exclude_texts(&self) -> (texts: Vec<String>)
        ensures
            texts@.len() == self@.exclude.len(),
            forall|i: int| 0 <= i < texts@.len() ==> (#[trigger] texts@[i])@ == self@.exclude[i],
    {
        let mut texts: Vec<String> = Vec::new();
        let mut i: usize = 0;
        while i < self.exclude_patterns.len()
            invariant
                i <= self.exclude_patterns.len(),
                texts@.len() == i,
                forall|k: int| 0 <= k < i ==> (#[trigger] texts@[k])@ == self@.exclude[k],
            decreases self.exclude_patterns.len() - i,
        {
            texts.push(self.exclude_patterns[i].as_str().to_owned());
            i = i + 1;
        }
        texts
    }

    /// The text of the include pattern, where one is set.
    pub fn include_text(&self) -> (text: Option<String>)
        ensures
            match text {
                Some(t) => self@.include_only == Some(t@),
                None => self@.include_only is None,
            },
    {
        match &self.include_pattern {
            Some(pattern) => Some(pattern.as_str().to_owned()),
            None => None,
        }
    }

    /// Decides whether a path is excluded. The rules are tried in order: hidden name,
    /// exclude patterns, include pattern.
    pub fn should_exclude(&self, path: &str) -> (r: bool)
        ensures
            r == self@.excludes(path@),
    {
        let name = path_base_name(path);
        let hidden = self.exclude_hidden && name_is_hidden(name);
        let excluded = !hidden && self.matches_exclude(path, name);
        let included = if hidden || excluded {
            None
        } else {
            match &self.include_pattern {
                Some(pattern) => Some(pattern.matches(path) || pattern.matches(name)),
                None => None,
            }
        };
        exclusion_verdict(hidden, excluded, included)
    }

    /// Tells whether some exclude pattern matches the path or its base name.
    fn matches_exclude(&self, path: &str, name: &str) -> (r: bool)
        requires
            name@ == base_name(path@),
        ensures
            r == self@.excludes_by_pattern(path@),
    {
        let mut i: usize = 0;
        while i < self.exclude_patterns.len()
            invariant
                i <= self.exclude_patterns.len(),
                name@ == base_name(path@),
                forall|k: int| 0 <= k < i ==> !matches_path_or_name(self@.exclude[k], path@),
            decreases self.exclude_patterns.len() - i,
        {
            let pattern = &self.exclude_patterns[i];
            if pattern.matches(path) || pattern.matches(name) {
                assert(matches_path_or_name(self@.exclude[i as int], path@));
                return true;
            }
            i = i + 1;
        }
        false
    }
}

impl Default for FilterConfig {
    fn default() -> (filter: Self)
        ensures
            filter@ == (FilterModel {
                exclude: Seq::empty(),
                include_only: None,
                exclude_hidden: false,
            }),
    {
        Self::new()
    }
}

} // verus!
