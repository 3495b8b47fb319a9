//! Whose directories the program uses.

use crate::invoking_user::{
    home_of, optional_path, trash_data_of, trash_home_of, InvocationContextView, InvokingUserView,
};
use crate::loading::{
    config_home_of, parse_warning, platform_home, read_warning, under, ProcessPaths,
};
use crate::ownership::{first_verdict, owned, Probe};
use crate::path::{ancestors_of, joined, lemma_parent_shorter, parent_of, shown_text};
use crate::platform::Platform;
use vstd::prelude::*;
use vstd::utf8::encode_utf8;

verus! {

/// In a normal session and in a session of root, trash is kept where the process
/// itself would keep it, and nowhere only where the process has no such place.
pub proof fn lemma_own_session_uses_own_trash(home: Option<Seq<u8>>, data_dir: Option<Seq<u8>>)
    ensures
        trash_data_of(InvocationContextView::Normal, data_dir) == data_dir,
        trash_data_of(InvocationContextView::RootSession, data_dir) == data_dir,
        trash_home_of(InvocationContextView::Normal, home) == home,
        trash_home_of(InvocationContextView::RootSession, home) == home,
{
}

/// Root that acts for a user puts trash where that user keeps it: below the data
/// directory that the user has set, else below `.local/share` of the user's home.
/// The process's own directories do not matter.
pub proof fn lemma_trash_goes_to_the_user(
    user: InvokingUserView,
    home: Option<Seq<u8>>,
    data_dir: Option<Seq<u8>>,
)
    ensures
        trash_home_of(InvocationContextView::Elevated(user), home) == Some(user.home),
        user.xdg_data_home is Some ==> trash_data_of(
            InvocationContextView::Elevated(user),
            data_dir,
        ) == user.xdg_data_home,
        user.xdg_data_home is None ==> trash_data_of(
            InvocationContextView::Elevated(user),
            data_dir,
        ) == Some(joined(user.home, encode_utf8(".local/share"@))),
{
}

/// The home directory is that of the user for whom root acts, on Unix; in any other
/// session, and on Windows, it is that of the process.
pub proof fn lemma_home_is_of_whom_root_acts_for(
    platform: Platform,
    context: InvocationContextView,
    home: Option<Seq<u8>>,
)
    ensures
        context is Elevated && platform != Platform::Windows ==> home_of(
            platform,
            context,
            home,
        ) == Some(context->Elevated_0.home),
        !(context is Elevated) ==> home_of(platform, context, home) == home,
        platform == Platform::Windows ==> home_of(platform, context, home) == home,
{
}

/// A configuration home that was set explicitly is used on every platform. Else it lies in
/// the home directory: in `.config`, but on macOS in `Library/Application Support`
/// where `.config` holds no configuration. Without either there is none.
pub proof fn lemma_configuration_lies_at_home(
    platform: Platform,
    set: Seq<u8>,
    home: Seq<u8>,
    other: Option<Seq<u8>>,
    found: bool,
)
    ensures
        platform_home(platform, Some(set), other, found) == Some(set),
        platform_home(platform, None, None, found) is None,
        platform == Platform::MacOs ==> platform_home(platform, None, Some(home), false) == Some(
            joined(home, encode_utf8("Library/Application Support"@)),
        ),
        platform != Platform::MacOs || found ==> platform_home(
            platform,
            None,
            Some(home),
            found,
        ) == Some(joined(home, encode_utf8(".config"@))),
{
}

/// On Unix the configuration is that of the session's own process, unless root acts for a
/// user: then it is that user's, and without one there is none.
pub proof fn lemma_configuration_is_of_whom_root_acts_for(
    platform: Platform,
    context: InvocationContextView,
    process: ProcessPaths,
    found: bool,
)
    requires
        platform != Platform::Windows,
    ensures
        ({
            let home = config_home_of(platform, context, process, found);
            &&& context is Normal || context is RootSession ==> home == platform_home(
                platform,
                optional_path(process.xdg_config_home),
                optional_path(process.home),
                found,
            )
            &&& context is Elevated ==> home == platform_home(
                platform,
                context->Elevated_0.xdg_config_home,
                Some(context->Elevated_0.home),
                found,
            )
            &&& context is ElevatedUnresolved ==> home is None
        }),
{
}

/// On Windows the configuration home is the one that was set explicitly, else the native
/// configuration directory.
pub proof fn lemma_configuration_on_windows(
    context: InvocationContextView,
    process: ProcessPaths,
    found: bool,
)
    ensures
        ({
            let home = config_home_of(Platform::Windows, context, process, found);
            &&& process.xdg_config_home is Some ==> home == Some(process.xdg_config_home->0@)
            &&& process.xdg_config_home is None && process.config_dir is Some ==> home == Some(
                process.config_dir->0@,
            )
            &&& process.xdg_config_home is None && process.config_dir is None ==> home is None
        }),
{
}

/// What lies in a directory is looked up there, and nowhere where there is no directory.
pub proof fn lemma_names_are_looked_up(home: Seq<u8>, name: Seq<char>)
    ensures
        under(None, name) is None,
        under(Some(home), name) == Some(joined(home, encode_utf8(name))),
{
}

/// The warnings name the file and the error.
pub proof fn lemma_warnings_name_the_file(path: Seq<u8>, platform: Platform, error: Seq<char>)
    ensures
        read_warning(path, platform, error) == "elio: failed to read config from "@ + shown_text(
            path,
            platform,
        ) + ": "@ + error,
        parse_warning(path, platform, error) == "elio: failed to load config from "@ + shown_text(
            path,
            platform,
        ) + ": "@ + error,
{
}

/// A directory is a user's exactly where its path begins at the root and the nearest
/// thing on the way up that exists is a directory of that user. Whatever is further up
/// does not matter, and where nothing is found it is nobody's.
pub proof fn lemma_nearest_existing_decides(
    path: Seq<u8>,
    probes: Seq<Probe>,
    uid: u32,
    k: int,
)
    requires
        0 <= k <= probes.len(),
        forall|i: int| 0 <= i < k ==> #[trigger] probes[i] == Probe::NotFound,
        k < probes.len() ==> probes[k] != Probe::NotFound,
    ensures
        k < probes.len() ==> (owned(path, probes, uid) <==> path.len() > 0 && path[0] == 47
            && probes[k] == (Probe::Found { is_dir: true, uid })),
        k == probes.len() ==> !owned(path, probes, uid),
{
    lemma_first_found(probes, uid, k);
}

proof fn lemma_first_found(probes: Seq<Probe>, uid: u32, k: int)
    requires
        0 <= k <= probes.len(),
        forall|i: int| 0 <= i < k ==> #[trigger] probes[i] == Probe::NotFound,
        k < probes.len() ==> probes[k] != Probe::NotFound,
    ensures
        k < probes.len() ==> (first_verdict(probes, uid) == Some(true) <==> probes[k] == (
        Probe::Found { is_dir: true, uid })),
        k < probes.len() ==> first_verdict(probes, uid) is Some,
        k == probes.len() ==> first_verdict(probes, uid) is None,
    decreases k,
{
    if k > 0 {
        let rest = probes.drop_first();
        assert(probes[0] == Probe::NotFound);
        assert forall|i: int| 0 <= i < k - 1 implies #[trigger] rest[i] == Probe::NotFound by {
            assert(rest[i] == probes[i + 1]);
        }
        if k < probes.len() {
            assert(rest[k - 1] == probes[k]);
        }
        lemma_first_found(rest, uid, k - 1);
    }
}

/// The ways up from a path are the path itself, then its parent, and so on as long as
/// there is one.
pub proof fn lemma_ways_up_are_parents(path: Seq<u8>, k: int)
    requires
        0 <= k < ancestors_of(path).len(),
    ensures
        ancestors_of(path)[0] == path,
        k + 1 < ancestors_of(path).len() ==> parent_of(ancestors_of(path)[k]) == Some(
            ancestors_of(path)[k + 1],
        ),
        k + 1 == ancestors_of(path).len() ==> parent_of(ancestors_of(path)[k]) is None,
    decreases path.len(),
{
    lemma_parent_shorter(path);
    match parent_of(path) {
        Some(parent) => {
            let rest = ancestors_of(parent);
            assert(ancestors_of(path) == seq![path] + rest);
            assert(rest.len() > 0);
            if k > 0 {
                lemma_ways_up_are_parents(parent, k - 1);
                assert(ancestors_of(path)[k] == rest[k - 1]);
                if k + 1 < ancestors_of(path).len() {
                    assert(ancestors_of(path)[k + 1] == rest[k]);
                }
            } else {
                lemma_ways_up_are_parents(parent, 0);
                assert(ancestors_of(path)[1] == rest[0]);
            }
        },
        None => {
            assert(ancestors_of(path) == seq![path]);
        },
    }
}

} // verus!
