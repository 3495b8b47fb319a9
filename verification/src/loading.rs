//! Where the configuration is kept, and what to make of it.

use crate::invoking_user::{
    borrowed_path, optional_path, InvocationContext, InvocationContextView,
};
use crate::path::{joined, shown_text, FilePath};
use crate::platform::Platform;
use crate::text::concat;
use vstd::prelude::*;
use vstd::utf8::encode_utf8;

verus! {

/// The configuration home for a home directory and an explicit setting.
/// `has_xdg_config` tells whether `.config/elio` under the home directory holds
/// configuration files; it matters on macOS only.
pub open spec fn platform_home(
    platform: Platform,
    xdg_home: Option<Seq<u8>>,
    home: Option<Seq<u8>>,
    has_xdg_config: bool,
) -> Option<Seq<u8>> {
    match (xdg_home, home) {
        (Some(xdg_home), _) => Some(xdg_home),
        (None, None) => None,
        (None, Some(home)) => if platform == Platform::MacOs && !has_xdg_config {
            Some(joined(home, encode_utf8("Library/Application Support"@)))
        } else {
            Some(joined(home, encode_utf8(".config"@)))
        },
    }
}

pub fn platform_config_home(
    platform: Platform,
    xdg_home: Option<&FilePath>,
    home: Option<&FilePath>,
    has_xdg_config: bool,
) -> (r: Option<FilePath>)
    ensures
        optional_path(r) == platform_home(
            platform,
            borrowed_path(xdg_home),
            borrowed_path(home),
            has_xdg_config,
        ),
{
    if let Some(xdg_home) = xdg_home {
        return Some(xdg_home.copy());
    }
    match home {
        None => None,
        Some(home) => if platform == Platform::MacOs && !has_xdg_config {
            Some(home.join("Library/Application Support".as_bytes()))
        } else {
            Some(home.join(".config".as_bytes()))
        },
    }
}

/// The files whose presence makes macOS prefer `.config` under a home directory.
pub fn xdg_config_files(home: &FilePath) -> (r: (FilePath, FilePath))
    ensures
        ({
            let dir = joined(joined(home@, encode_utf8(".config"@)), encode_utf8("elio"@));
            &&& r.0@ == joined(dir, encode_utf8("config.toml"@))
            &&& r.1@ == joined(dir, encode_utf8("theme.toml"@))
        }),
{
    let dir: FilePath = home.join(".config".as_bytes()).join("elio".as_bytes());
    (dir.join("config.toml".as_bytes()), dir.join("theme.toml".as_bytes()))
}

/// The configuration home of whom the program acts for. An elevated program
/// follows the invoking user's settings, never those of its own process.
pub open spec fn context_home(
    platform: Platform,
    context: InvocationContextView,
    process_xdg_home: Option<Seq<u8>>,
    process_home: Option<Seq<u8>>,
    has_xdg_config: bool,
) -> Option<Seq<u8>> {
    match context {
        InvocationContextView::Normal | InvocationContextView::RootSession => platform_home(
            platform,
            process_xdg_home,
            process_home,
            has_xdg_config,
        ),
        InvocationContextView::Elevated(user) => platform_home(
            platform,
            user.xdg_config_home,
            Some(user.home),
            has_xdg_config,
        ),
        InvocationContextView::ElevatedUnresolved => None,
    }
}

pub fn config_home_for_context(
    platform: Platform,
    context: &InvocationContext,
    process_xdg_home: Option<&FilePath>,
    process_home: Option<&FilePath>,
    has_xdg_config: bool,
) -> (r: Option<FilePath>)
    ensures
        optional_path(r) == context_home(
            platform,
            context@,
            borrowed_path(process_xdg_home),
            borrowed_path(process_home),
            has_xdg_config,
        ),
{
    match context {
        InvocationContext::Normal | InvocationContext::RootSession => platform_config_home(
            platform,
            process_xdg_home,
            process_home,
            has_xdg_config,
        ),
        InvocationContext::Elevated(user) => platform_config_home(
            platform,
            user.xdg_config_home.as_ref(),
            Some(&user.home),
            has_xdg_config,
        ),
        InvocationContext::ElevatedUnresolved => None,
    }
}

/// What the process itself would use.
#[derive(Debug)]
pub struct ProcessPaths {
    /// The value of `XDG_CONFIG_HOME`.
    pub xdg_config_home: Option<FilePath>,
    pub home: Option<FilePath>,
    /// The native configuration directory, used on Windows only.
    pub config_dir: Option<FilePath>,
}

pub open spec fn config_home_of(
    platform: Platform,
    context: InvocationContextView,
    process: ProcessPaths,
    has_xdg_config: bool,
) -> Option<Seq<u8>> {
    if platform.unix() {
        context_home(
            platform,
            context,
            optional_path(process.xdg_config_home),
            optional_path(process.home),
            has_xdg_config,
        )
    } else if process.xdg_config_home is Some {
        optional_path(process.xdg_config_home)
    } else {
        optional_path(process.config_dir)
    }
}

pub fn config_home(
    platform: Platform,
    context: &InvocationContext,
    process: &ProcessPaths,
    has_xdg_config: bool,
) -> (r: Option<FilePath>)
    ensures
        optional_path(r) == config_home_of(platform, context@, *process, has_xdg_config),
{
    if platform.is_unix() {
        return config_home_for_context(
            platform,
            context,
            process.xdg_config_home.as_ref(),
            process.home.as_ref(),
            has_xdg_config,
        );
    }
    match (&process.xdg_config_home, &process.config_dir) {
        (Some(path), _) => Some(path.copy()),
        (None, Some(path)) => Some(path.copy()),
        (None, None) => None,
    }
}

/// A path under another that may be absent.
pub open spec fn under(home: Option<Seq<u8>>, name: Seq<char>) -> Option<Seq<u8>> {
    match home {
        Some(home) => Some(joined(home, encode_utf8(name))),
        None => None,
    }
}

/// The directory that holds the configuration.
pub fn config_dir(home: Option<&FilePath>) -> (r: Option<FilePath>)
    ensures
        optional_path(r) == under(borrowed_path(home), "elio"@),
{
    match home {
        Some(home) => Some(home.join("elio".as_bytes())),
        None => None,
    }
}

/// The configuration file.
pub fn config_path(home: Option<&FilePath>) -> (r: Option<FilePath>)
    ensures
        optional_path(r) == under(under(borrowed_path(home), "elio"@), "config.toml"@),
{
    match config_dir(home) {
        Some(dir) => Some(dir.join("config.toml".as_bytes())),
        None => None,
    }
}

/// What an attempt to read the configuration file gave.
#[derive(Debug)]
pub enum ConfigRead {
    Contents(String),
    NotFound,
    Failed(String),
}

/// What configuration to use: the built-in one, the built-in one after a
/// warning, or what a text says.
#[derive(Debug)]
pub enum ConfigChoice {
    BuiltIn,
    Warn(String),
    Parse(String),
}

pub open spec fn read_warning(path: Seq<u8>, platform: Platform, error: Seq<char>) -> Seq<char> {
    "elio: failed to read config from "@ + shown_text(path, platform) + ": "@ + error
}

pub open spec fn parse_warning(path: Seq<u8>, platform: Platform, error: Seq<char>) -> Seq<char> {
    "elio: failed to load config from "@ + shown_text(path, platform) + ": "@ + error
}

fn warning(what: &str, path: &FilePath, platform: Platform, error: &str) -> (r: String)
    ensures
        r@ == what@ + shown_text(path@, platform) + ": "@ + error@,
{
    let place: String = path.display(platform);
    let with_place: String = concat(what, place.as_str());
    let with_colon: String = concat(with_place.as_str(), ": ");
    concat(with_colon.as_str(), error)
}

/// Chooses the configuration from what reading its file gave. A file that does
/// not exist is no reason for a warning.
pub fn load_config(path: &FilePath, platform: Platform, read: ConfigRead) -> (r: ConfigChoice)
    ensures
        match (read, r) {
            (ConfigRead::Contents(contents), ConfigChoice::Parse(text)) => text@ == contents@,
            (ConfigRead::NotFound, ConfigChoice::BuiltIn) => true,
            (ConfigRead::Failed(error), ConfigChoice::Warn(text)) => text@ == read_warning(
                path@,
                platform,
                error@,
            ),
            _ => false,
        },
{
    match read {
        ConfigRead::Contents(contents) => ConfigChoice::Parse(contents),
        ConfigRead::NotFound => ConfigChoice::BuiltIn,
        ConfigRead::Failed(error) => ConfigChoice::Warn(
            warning("elio: failed to read config from ", path, platform, error.as_str()),
        ),
    }
}

/// The warning for a configuration that could not be understood.
pub fn config_rejected(path: &FilePath, platform: Platform, error: &str) -> (r: String)
    ensures
        r@ == parse_warning(path@, platform, error@),
{
    warning("elio: failed to load config from ", path, platform, error)
}

/// An elevated program takes nothing of its configuration home from its own
/// process, and one that acts for an unknown user has none.
pub proof fn lemma_elevated_ignores_process(
    platform: Platform,
    context: InvocationContextView,
    xdg: Option<Seq<u8>>,
    home: Option<Seq<u8>>,
    other_xdg: Option<Seq<u8>>,
    other_home: Option<Seq<u8>>,
    has_xdg_config: bool,
)
    requires
        context is Elevated || context is ElevatedUnresolved,
    ensures
        context_home(platform, context, xdg, home, has_xdg_config) == context_home(
            platform,
            context,
            other_xdg,
            other_home,
            has_xdg_config,
        ),
        context is ElevatedUnresolved ==> context_home(
            platform,
            context,
            xdg,
            home,
            has_xdg_config,
        ) is None,
{
}

} // verus!
