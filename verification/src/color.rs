//! Color selection: which style a name is drawn in, and when colors are used at all.

use crate::models::{FsNode, FsNodeType};
use crate::text::{find_last, last_index_of, lemma_last_index_of, str_equal};
use vstd::prelude::*;

verus! {

/// Color scheme options.
#[derive(Debug, Clone, Copy, PartialEq, Eq, Structural)]
pub enum ColorScheme {
    /// No colors
    Plain,
    /// Basic color scheme
    Basic,
    /// Extended color scheme (more file types)
    Extended,
}

impl Default for ColorScheme {
    fn default() -> (scheme: Self)
        ensures
            scheme == ColorScheme::Plain,
    {
        ColorScheme::Plain
    }
}

/// When to use colors.
#[derive(Debug, Clone, Copy, PartialEq, Eq, Structural)]
pub enum ColorMode {
    /// Always use colors
    Always,
    /// Never use colors
    Never,
    /// Use colors where the output is a terminal
    Auto,
}

impl Default for ColorMode {
    fn default() -> (mode: Self)
        ensures
            mode == ColorMode::Auto,
    {
        ColorMode::Auto
    }
}

/// Decides whether colors are used: as the mode says, and in the automatic mode where
/// standard output is a terminal.
pub fn should_use_colors(mode: ColorMode, stdout_is_terminal: bool) -> (b: bool)
    ensures
        b == match mode {
            ColorMode::Always => true,
            ColorMode::Never => false,
            ColorMode::Auto => stdout_is_terminal,
        },
{
    match mode {
        ColorMode::Always => true,
        ColorMode::Never => false,
        ColorMode::Auto => stdout_is_terminal,
    }
}

/// The colors that names are drawn in.
#[derive(Debug, Clone, Copy, PartialEq, Eq, Structural)]
pub enum Tint {
    /// The terminal's own color
    Plain,
    Blue,
    Cyan,
    Green,
    Yellow,
    White,
    Magenta,
    Red,
    BrightBlack,
    BrightGreen,
    BrightYellow,
    BrightWhite,
    BrightMagenta,
}

/// How a name is drawn.
#[derive(Debug, Clone, Copy, PartialEq, Eq, Structural)]
pub struct TextStyle {
    /// Color of the text
    pub tint: Tint,
    /// Bold face
    pub bold: bool,
    /// Italic face
    pub italic: bool,
}

/// What follows the last dot of a name; the whole name where it holds no dot.
pub open spec fn name_suffix(name: Seq<char>) -> Seq<char> {
    name.skip(last_index_of(name, '.') + 1)
}

/// Views of a list of words.
pub open spec fn words_view(words: Seq<&'static str>) -> Seq<Seq<char>> {
    Seq::new(words.len(), |i: int| words[i]@)
}

/// Suffixes drawn green in the basic scheme: source code.
pub open spec fn basic_source() -> Seq<Seq<char>> {
    seq!["rs"@, "py"@, "js"@, "ts"@, "java"@, "c"@, "cpp"@, "go"@, "rb"@, "php"@]
}

/// Suffixes drawn yellow in the basic scheme: configuration and data.
pub open spec fn basic_config() -> Seq<Seq<char>> {
    seq!["toml"@, "yaml"@, "yml"@, "json"@, "xml"@]
}

/// Suffixes drawn white in the basic scheme: documentation.
pub open spec fn basic_docs() -> Seq<Seq<char>> {
    seq!["md"@, "txt"@, "rst"@]
}

/// The color of a file name with the given suffix in the basic scheme.
pub open spec fn basic_tint(suffix: Seq<char>) -> Tint {
    if basic_source().contains(suffix) {
        Tint::Green
    } else if basic_config().contains(suffix) {
        Tint::Yellow
    } else if basic_docs().contains(suffix) {
        Tint::White
    } else if suffix == "lock"@ {
        Tint::BrightBlack
    } else {
        Tint::Plain
    }
}

/// The color of a file name with the given suffix in the extended scheme.
pub open spec fn extended_tint(suffix: Seq<char>) -> Tint {
    if suffix == "rs"@ {
        Tint::BrightGreen
    } else if suffix == "py"@ {
        Tint::Green
    } else if seq!["js"@, "ts"@, "tsx"@, "jsx"@].contains(suffix) {
        Tint::Yellow
    } else if seq!["java"@, "c"@, "cpp"@, "h"@, "hpp"@].contains(suffix) {
        Tint::Blue
    } else if suffix == "go"@ {
        Tint::Cyan
    } else if seq!["rb"@, "php"@].contains(suffix) {
        Tint::Magenta
    } else if seq!["toml"@, "yaml"@, "yml"@].contains(suffix) {
        Tint::BrightYellow
    } else if seq!["json"@, "xml"@].contains(suffix) {
        Tint::Yellow
    } else if seq!["ini"@, "cfg"@, "conf"@].contains(suffix) {
        Tint::BrightBlack
    } else if seq!["md"@, "rst"@, "adoc"@].contains(suffix) {
        Tint::White
    } else if suffix == "txt"@ {
        Tint::BrightWhite
    } else if suffix == "lock"@ {
        Tint::BrightBlack
    } else if seq!["png"@, "jpg"@, "jpeg"@, "gif"@, "svg"@, "ico"@].contains(suffix) {
        Tint::BrightMagenta
    } else if seq!["zip"@, "tar"@, "gz"@, "rar"@, "7z"@].contains(suffix) {
        Tint::Red
    } else {
        Tint::Plain
    }
}

/// The style of a name: directories bold and blue, links italic and cyan, files by the
/// suffix of their name as the scheme says.
pub open spec fn style_of(kind: FsNodeType, name: Seq<char>, scheme: ColorScheme) -> TextStyle {
    match kind {
        FsNodeType::Directory => TextStyle { tint: Tint::Blue, bold: true, italic: false },
        FsNodeType::Symlink => TextStyle { tint: Tint::Cyan, bold: false, italic: true },
        FsNodeType::File => TextStyle {
            tint: match scheme {
                ColorScheme::Plain => Tint::Plain,
                ColorScheme::Basic => basic_tint(name_suffix(name)),
                ColorScheme::Extended => extended_tint(name_suffix(name)),
            },
            bold: false,
            italic: false,
        },
    }
}

/// Tells whether a word is one of the given words.
fn is_one_of(word: &str, words: &Vec<&'static str>) -> (b: bool)
    ensures
        b == words_view(words@).contains(word@),
{
    let mut i: usize = 0;
    while i < words.len()
        invariant
            i <= words.len(),
            forall|k: int| 0 <= k < i ==> words_view(words@)[k] != word@,
        decreases words.len() - i,
    {
        if str_equal(words[i], word) {
            assert(words_view(words@)[i as int] == word@);
            return true;
        }
        i = i + 1;
    }
    false
}

/// Returns what follows the last dot of a name.
pub fn suffix_of(name: &str) -> (r: &str)
    ensures
        r@ == name_suffix(name@),
{
    let n = name.unicode_len();
    proof {
        lemma_last_index_of(name@, '.');
    }
    match find_last(name, '.') {
        Some(k) => {
            let r = name.substring_char(k + 1, n);
            assert(name@.subrange(k + 1, n as int) =~= name@.skip(k + 1));
            r
        },
        None => {
            assert(name@.skip(0) =~= name@);
            name
        },
    }
}

/// Picks the color of a file name in the basic scheme.
pub fn basic_file_color(suffix: &str) -> (tint: Tint)
    ensures
        tint == basic_tint(suffix@),
{
    let source = vec!["rs", "py", "js", "ts", "java", "c", "cpp", "go", "rb", "php"];
    let config = vec!["toml", "yaml", "yml", "json", "xml"];
    let docs = vec!["md", "txt", "rst"];
    assert(words_view(source@) =~= basic_source());
    assert(words_view(config@) =~= basic_config());
    assert(words_view(docs@) =~= basic_docs());
    if is_one_of(suffix, &source) {
        Tint::Green
    } else if is_one_of(suffix, &config) {
        Tint::Yellow
    } else if is_one_of(suffix, &docs) {
        Tint::White
    } else if str_equal(suffix, "lock") {
        Tint::BrightBlack
    } else {
        Tint::Plain
    }
}

/// Picks the color of a file name in the extended scheme.
pub fn extended_file_color(suffix: &str) -> (tint: Tint)
    ensures
        tint == extended_tint(suffix@),
{
    let script = vec!["js", "ts", "tsx", "jsx"];
    let compiled = vec!["java", "c", "cpp", "h", "hpp"];
    let web = vec!["rb", "php"];
    let settings = vec!["toml", "yaml", "yml"];
    let data = vec!["json", "xml"];
    let plain = vec!["ini", "cfg", "conf"];
    let docs = vec!["md", "rst", "adoc"];
    let images = vec!["png", "jpg", "jpeg", "gif", "svg", "ico"];
    let archives = vec!["zip", "tar", "gz", "rar", "7z"];
    assert(words_view(script@) =~= seq!["js"@, "ts"@, "tsx"@, "jsx"@]);
    assert(words_view(compiled@) =~= seq!["java"@, "c"@, "cpp"@, "h"@, "hpp"@]);
    assert(words_view(web@) =~= seq!["rb"@, "php"@]);
    assert(words_view(settings@) =~= seq!["toml"@, "yaml"@, "yml"@]);
    assert(words_view(data@) =~= seq!["json"@, "xml"@]);
    assert(words_view(plain@) =~= seq!["ini"@, "cfg"@, "conf"@]);
    assert(words_view(docs@) =~= seq!["md"@, "rst"@, "adoc"@]);
    assert(words_view(images@) =~= seq!["png"@, "jpg"@, "jpeg"@, "gif"@, "svg"@, "ico"@]);
    assert(words_view(archives@) =~= seq!["zip"@, "tar"@, "gz"@, "rar"@, "7z"@]);
    if str_equal(suffix, "rs") {
        Tint::BrightGreen
    } else if str_equal(suffix, "py") {
        Tint::Green
    } else if is_one_of(suffix, &script) {
        Tint::Yellow
    } else if is_one_of(suffix, &compiled) {
        Tint::Blue
    } else if str_equal(suffix, "go") {
        Tint::Cyan
    } else if is_one_of(suffix, &web) {
        Tint::Magenta
    } else if is_one_of(suffix, &settings) {
        Tint::BrightYellow
    } else if is_one_of(suffix, &data) {
        Tint::Yellow
    } else if is_one_of(suffix, &plain) {
        Tint::BrightBlack
    } else if is_one_of(suffix, &docs) {
        Tint::White
    } else if str_equal(suffix, "txt") {
        Tint::BrightWhite
    } else if str_equal(suffix, "lock") {
        Tint::BrightBlack
    } else if is_one_of(suffix, &images) {
        Tint::BrightMagenta
    } else if is_one_of(suffix, &archives) {
        Tint::Red
    } else {
        Tint::Plain
    }
}

/// Picks the style of a name of the given kind.
pub fn name_style(kind: FsNodeType, name: &str, scheme: ColorScheme) -> (style: TextStyle)
    ensures
        style == style_of(kind, name@, scheme),
{
    match kind {
        FsNodeType::Directory => TextStyle { tint: Tint::Blue, bold: true, italic: false },
        FsNodeType::Symlink => TextStyle { tint: Tint::Cyan, bold: false, italic: true },
        FsNodeType::File => {
            let tint = match scheme {
                ColorScheme::Plain => Tint::Plain,
                ColorScheme::Basic => basic_file_color(suffix_of(name)),
                ColorScheme::Extended => extended_file_color(suffix_of(name)),
            };
            TextStyle { tint, bold: false, italic: false }
        },
    }
}

/// Picks the style that a node's name is drawn in.
pub fn node_style(node: &FsNode, scheme: ColorScheme) -> (style: TextStyle)
    ensures
        style == style_of(node@.kind, node@.name, scheme),
{
    name_style(node.node_type, node.name.as_str(), scheme)
}

} // verus!
