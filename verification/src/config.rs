//! Settings: where the bookmarks live and how links are checked.
use crate::importer::{is_sep, join_path, join_path_string, main_separator};
use vstd::prelude::*;

verus! {

/// General settings.
#[derive(Debug, Clone)]
pub struct GeneralConfig {
    pub bookmark_dir: String,
}

/// Link checker settings.
#[derive(Debug, Clone)]
pub struct CheckerConfig {
    pub concurrency: usize,
    pub timeout_secs: u64,
    pub follow_redirects: bool,
}

/// All settings.
#[derive(Debug, Clone)]
pub struct Config {
    pub general: GeneralConfig,
    pub checker: CheckerConfig,
}

/// The directory of this application under a base directory: `<base>/bookmark-shelf`, with
/// `sep` as the separator.
pub open spec fn app_dir(base: Seq<char>, sep: char) -> Seq<char> {
    join_path(base, "bookmark-shelf"@, sep)
}

/// The base directory used where the platform gives none.
pub open spec fn fallback_base() -> Seq<char> {
    "."@
}

/// The base directory, or the fallback.
pub open spec fn base_or_fallback(base: Option<String>) -> Seq<char> {
    match base {
        Some(b) => b@,
        None => fallback_base(),
    }
}

/// The platform's directory for application data (`dirs::data_dir`), as a string. It
/// depends on the platform and the environment: nothing is stated of it.
#[verifier::external_body]
fn platform_data_dir() -> Option<String> {
    dirs::data_dir().map(|p| p.to_string_lossy().into_owned())
}

/// The platform's directory for configuration (`dirs::config_dir`), as a string. It depends
/// on the platform and the environment: nothing is stated of it.
#[verifier::external_body]
fn platform_config_dir() -> Option<String> {
    dirs::config_dir().map(|p| p.to_string_lossy().into_owned())
}

/// `<base>/bookmark-shelf/bookmarks` joined with the separator `sep`, with `.` as the base
/// where there is none.
pub fn bookmark_dir_under(base: Option<String>, sep: char) -> (r: String)
    ensures
        r@ == join_path(app_dir(base_or_fallback(base), sep), "bookmarks"@, sep),
{
    let b = match base {
        Some(b) => b,
        None => String::from_str("."),
    };
    let app = join_path_string(b.as_str(), "bookmark-shelf", sep);
    join_path_string(app.as_str(), "bookmarks", sep)
}

/// `<base>/bookmark-shelf/config.toml` joined with the separator `sep`, with `.` as the base
/// where there is none.
pub fn config_file_under(base: Option<String>, sep: char) -> (r: String)
    ensures
        r@ == join_path(app_dir(base_or_fallback(base), sep), "config.toml"@, sep),
{
    let b = match base {
        Some(b) => b,
        None => String::from_str("."),
    };
    let app = join_path_string(b.as_str(), "bookmark-shelf", sep);
    join_path_string(app.as_str(), "config.toml", sep)
}

/// A path that ends with `bookmark-shelf`, a separator (`/` or `\`) and `leaf`.
pub open spec fn in_app_dir(path: Seq<char>, leaf: Seq<char>) -> bool {
    exists|prefix: Seq<char>, sep: char|
        (sep == '/' || sep == '\\') && path == prefix + "bookmark-shelf"@ + seq![sep] + leaf
}

pub proof fn lemma_in_app_dir(base: Seq<char>, leaf: Seq<char>, sep: char)
    requires
        sep == '/' || sep == '\\',
        leaf.len() > 0,
        !is_sep(leaf[0], sep),
    ensures
        in_app_dir(join_path(app_dir(base, sep), leaf, sep), leaf),
{
    reveal_strlit("bookmark-shelf");
    let a = app_dir(base, sep);
    let shelf = "bookmark-shelf"@;
    let prefix = if base.len() == 0 || is_sep(base.last(), sep) {
        base
    } else {
        base + seq![sep]
    };
    assert(shelf[0] == 'b');
    assert(a == prefix + shelf);
    assert(a.last() == 'f');
    assert(join_path(a, leaf, sep) == a + seq![sep] + leaf);
    assert(join_path(a, leaf, sep) == prefix + "bookmark-shelf"@ + seq![sep] + leaf);
}

/// The default bookmark directory: `bookmark-shelf/bookmarks` in the platform's directory
/// for application data (macOS: `~/Library/Application Support/bookmark-shelf/bookmarks`,
/// Windows: `%APPDATA%\bookmark-shelf\bookmarks`, Linux: `~/.local/share/bookmark-shelf/bookmarks`),
/// joined with the platform's separator, under `.` where there is none.
pub fn default_bookmark_dir() -> (r: String)
    ensures
        in_app_dir(r@, "bookmarks"@),
{
    let base = platform_data_dir();
    let sep = main_separator();
    proof {
        reveal_strlit("bookmarks");
        lemma_in_app_dir(base_or_fallback(base), "bookmarks"@, sep);
    }
    bookmark_dir_under(base, sep)
}

impl Config {
    /// Where the settings are stored: `bookmark-shelf/config.toml` in the platform's
    /// directory for configuration, joined with the platform's separator, under `.` where
    /// there is none.
    pub fn config_path() -> (r: String)
        ensures
            in_app_dir(r@, "config.toml"@),
    {
        let base = platform_config_dir();
        let sep = main_separator();
        proof {
            reveal_strlit("config.toml");
            lemma_in_app_dir(base_or_fallback(base), "config.toml"@, sep);
        }
        config_file_under(base, sep)
    }
}

impl Default for Config {
    /// The default settings: the default bookmark directory, 20 links checked at a time, a
    /// 10 second timeout, redirects followed.
    fn default() -> (r: Self)
        ensures
            in_app_dir(r.general.bookmark_dir@, "bookmarks"@),
            r.checker.concurrency == 20,
            r.checker.timeout_secs == 10,
            r.checker.follow_redirects,
    {
        Config {
            general: GeneralConfig { bookmark_dir: default_bookmark_dir() },
            checker: CheckerConfig { concurrency: 20, timeout_secs: 10, follow_redirects: true },
        }
    }
}

} // verus!
