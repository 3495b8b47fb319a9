//! Starting programs as the invoking user.

use crate::environment::{EnvChanges, EnvName};
use crate::helper_credentials::IdTriple;
use crate::invoking_user::{optional_path, InvokingUser, InvokingUserView};
use crate::path::FilePath;
use crate::platform::Platform;
use crate::user_groups::{contains_nul, holds_nul};
use vstd::prelude::*;

verus! {

/// What of the session's own directories a user keeps: the paths that
/// `XDG_CONFIG_HOME` and `XDG_CACHE_HOME` name where the user owns them, and
/// whether `XDG_RUNTIME_DIR` names the user's own directory.
#[derive(Debug)]
pub struct SessionPaths {
    pub config_home: Option<FilePath>,
    pub cache_home: Option<FilePath>,
    pub runtime_dir_is_valid: bool,
}

/// A value that is set where there is one.
pub open spec fn set_where_some(
    env: Map<EnvName, Option<Seq<u8>>>,
    name: EnvName,
    value: Option<Seq<u8>>,
) -> Map<EnvName, Option<Seq<u8>>> {
    match value {
        Some(bytes) => env.insert(name, Some(bytes)),
        None => env,
    }
}

/// The variables that a user's own program sees changed: the user's identity is
/// put in, what root's session or the way to it left behind is taken out, and
/// directories are kept only where they are the user's.
pub open spec fn user_environment(
    env: Map<EnvName, Option<Seq<u8>>>,
    user: InvokingUserView,
    session: SessionPaths,
) -> Map<EnvName, Option<Seq<u8>>> {
    let identity = env.insert(EnvName::Home, Some(user.home)).insert(
        EnvName::User,
        Some(user.name),
    ).insert(EnvName::Username, Some(user.name)).insert(EnvName::Logname, Some(user.name)).insert(
        EnvName::Shell,
        Some(user.shell),
    );
    let cleared = identity.insert(EnvName::Mail, None).insert(EnvName::Oldpwd, None).insert(
        EnvName::SudoCommand,
        None,
    ).insert(EnvName::SudoGid, None).insert(EnvName::SudoUid, None).insert(
        EnvName::SudoUser,
        None,
    ).insert(EnvName::DoasUser, None).insert(EnvName::XdgCacheHome, None).insert(
        EnvName::XdgConfigHome,
        None,
    ).insert(EnvName::XdgDataHome, None);
    let with_data = set_where_some(cleared, EnvName::XdgDataHome, user.xdg_data_home);
    let with_config = set_where_some(
        with_data,
        EnvName::XdgConfigHome,
        optional_path(session.config_home),
    );
    let with_cache = set_where_some(
        with_config,
        EnvName::XdgCacheHome,
        optional_path(session.cache_home),
    );
    if session.runtime_dir_is_valid {
        with_cache
    } else {
        with_cache.insert(EnvName::XdgRuntimeDir, None)
    }
}

pub fn apply_user_environment(
    changes: &mut EnvChanges,
    user: &InvokingUser,
    session: &SessionPaths,
)
    ensures
        final(changes)@ == user_environment(old(changes)@, user@, *session),
{
    changes.set(EnvName::Home, user.home.bytes.as_slice());
    changes.set(EnvName::User, user.name.as_slice());
    changes.set(EnvName::Username, user.name.as_slice());
    changes.set(EnvName::Logname, user.name.as_slice());
    changes.set(EnvName::Shell, user.shell.as_slice());
    changes.remove(EnvName::Mail);
    changes.remove(EnvName::Oldpwd);
    changes.remove(EnvName::SudoCommand);
    changes.remove(EnvName::SudoGid);
    changes.remove(EnvName::SudoUid);
    changes.remove(EnvName::SudoUser);
    changes.remove(EnvName::DoasUser);
    changes.remove(EnvName::XdgCacheHome);
    changes.remove(EnvName::XdgConfigHome);
    changes.remove(EnvName::XdgDataHome);
    changes.set_path(EnvName::XdgDataHome, &user.xdg_data_home);
    changes.set_path(EnvName::XdgConfigHome, &session.config_home);
    changes.set_path(EnvName::XdgCacheHome, &session.cache_home);
    if !session.runtime_dir_is_valid {
        changes.remove(EnvName::XdgRuntimeDir);
    }
}

/// Whatever the environment held before, the user's program sees the user's
/// identity, and nothing of how root was reached.
pub proof fn lemma_environment_is_the_users(
    env: Map<EnvName, Option<Seq<u8>>>,
    user: InvokingUserView,
    session: SessionPaths,
)
    ensures
        ({
            let after = user_environment(env, user, session);
            &&& after.contains_pair(EnvName::Home, Some(user.home))
            &&& after.contains_pair(EnvName::User, Some(user.name))
            &&& after.contains_pair(EnvName::Username, Some(user.name))
            &&& after.contains_pair(EnvName::Logname, Some(user.name))
            &&& after.contains_pair(EnvName::Shell, Some(user.shell))
            &&& after.contains_pair(EnvName::Mail, None)
            &&& after.contains_pair(EnvName::Oldpwd, None)
            &&& after.contains_pair(EnvName::SudoCommand, None)
            &&& after.contains_pair(EnvName::SudoGid, None)
            &&& after.contains_pair(EnvName::SudoUid, None)
            &&& after.contains_pair(EnvName::SudoUser, None)
            &&& after.contains_pair(EnvName::DoasUser, None)
            &&& after.contains_pair(EnvName::XdgDataHome, user.xdg_data_home)
            &&& after.contains_pair(EnvName::XdgConfigHome, optional_path(session.config_home))
            &&& after.contains_pair(EnvName::XdgCacheHome, optional_path(session.cache_home))
            &&& !session.runtime_dir_is_valid ==> after.contains_pair(
                EnvName::XdgRuntimeDir,
                None,
            )
        }),
{
}

/// What a started program does before it becomes the user's: the ids it takes
/// on and the directory it goes to.
#[derive(Debug)]
pub struct Preparation {
    pub uid: u32,
    pub gid: u32,
    pub groups: Vec<u32>,
    pub cwd: Option<FilePath>,
}

/// A working directory that cannot be handed to the system.
#[derive(Clone, Copy, PartialEq, Eq, Structural, Debug)]
pub struct NulInWorkingDirectory;

impl NulInWorkingDirectory {
    pub fn message(&self) -> (r: &'static str)
        ensures
            r@ == "working directory contains NUL"@,
    {
        "working directory contains NUL"
    }
}

/// Prepares a program to run as the user. A working directory with a NUL byte
/// is refused before anything is changed.
pub fn prepare(
    changes: &mut EnvChanges,
    user: &InvokingUser,
    cwd: Option<&FilePath>,
    session: &SessionPaths,
) -> (r: Result<Preparation, NulInWorkingDirectory>)
    ensures
        r is Err <==> cwd is Some && holds_nul(cwd->0@),
        r is Err ==> *final(changes) == *old(changes),
        r is Ok ==> {
            &&& final(changes)@ == match cwd {
                Some(path) => user_environment(old(changes)@, user@, *session).insert(
                    EnvName::Pwd,
                    Some(path@),
                ),
                None => user_environment(old(changes)@, user@, *session),
            }
            &&& r->Ok_0.uid == user.uid
            &&& r->Ok_0.gid == user.gid
            &&& r->Ok_0.groups@ == user.groups@
            &&& optional_path(r->Ok_0.cwd) == match cwd {
                Some(path) => Some(path@),
                None => None,
            }
        },
{
    if let Some(path) = cwd {
        if contains_nul(path.bytes.as_slice()) {
            return Err(NulInWorkingDirectory);
        }
    }
    apply_user_environment(changes, user, session);
    let kept: Option<FilePath> = match cwd {
        Some(path) => {
            changes.set(EnvName::Pwd, path.bytes.as_slice());
            Some(path.copy())
        },
        None => None,
    };
    Ok(
        Preparation {
            uid: user.uid,
            gid: user.gid,
            groups: vstd::slice::slice_to_vec(user.groups.as_slice()),
            cwd: kept,
        },
    )
}

/// What a program that is about to become the user's does next.
#[derive(Clone, Copy, PartialEq, Eq, Structural, Debug)]
pub enum DropStep {
    SetGroups,
    SetGid,
    SetUid,
    CheckCredentials,
    ChangeDirectory,
    Done,
    /// Stops with the error that the system reported last.
    FailWithLastError,
    /// Stops because the ids are not the user's after all.
    FailNotPermitted,
}

/// What follows a step that went well or did not. Groups are given up before
/// the group id, and that before the user id; a failed step ends it.
pub open spec fn following_step(step: DropStep, went_well: bool, has_cwd: bool) -> DropStep {
    match step {
        DropStep::SetGroups => if went_well {
            DropStep::SetGid
        } else {
            DropStep::FailWithLastError
        },
        DropStep::SetGid => if went_well {
            DropStep::SetUid
        } else {
            DropStep::FailWithLastError
        },
        DropStep::SetUid => if went_well {
            DropStep::CheckCredentials
        } else {
            DropStep::FailWithLastError
        },
        DropStep::CheckCredentials => if !went_well {
            DropStep::FailNotPermitted
        } else if has_cwd {
            DropStep::ChangeDirectory
        } else {
            DropStep::Done
        },
        DropStep::ChangeDirectory => if went_well {
            DropStep::Done
        } else {
            DropStep::FailWithLastError
        },
        _ => step,
    }
}

pub fn drop_privileges(step: DropStep, went_well: bool, has_cwd: bool) -> (r: DropStep)
    ensures
        r == following_step(step, went_well, has_cwd),
{
    match step {
        DropStep::SetGroups => if went_well {
            DropStep::SetGid
        } else {
            DropStep::FailWithLastError
        },
        DropStep::SetGid => if went_well {
            DropStep::SetUid
        } else {
            DropStep::FailWithLastError
        },
        DropStep::SetUid => if went_well {
            DropStep::CheckCredentials
        } else {
            DropStep::FailWithLastError
        },
        DropStep::CheckCredentials => if !went_well {
            DropStep::FailNotPermitted
        } else if has_cwd {
            DropStep::ChangeDirectory
        } else {
            DropStep::Done
        },
        DropStep::ChangeDirectory => if went_well {
            DropStep::Done
        } else {
            DropStep::FailWithLastError
        },
        _ => step,
    }
}

/// The step reached after `n` steps, given which of them went well.
pub open spec fn step_after(n: nat, outcomes: spec_fn(nat) -> bool, has_cwd: bool) -> DropStep
    decreases n,
{
    if n == 0 {
        DropStep::SetGroups
    } else {
        let before = step_after((n - 1) as nat, outcomes, has_cwd);
        following_step(before, outcomes((n - 1) as nat), has_cwd)
    }
}

/// A program becomes the user's only if groups, group id and user id were given
/// up, the check held, and the directory was entered where one was asked for.
pub proof fn lemma_done_means_dropped(n: nat, outcomes: spec_fn(nat) -> bool, has_cwd: bool)
    ensures
        n <= 3 ==> step_after(n, outcomes, has_cwd) != DropStep::Done,
        step_after(n, outcomes, has_cwd) == DropStep::SetGid ==> n == 1 && outcomes(0),
        step_after(n, outcomes, has_cwd) == DropStep::SetUid ==> n == 2 && outcomes(0) && outcomes(
            1,
        ),
        step_after(n, outcomes, has_cwd) == DropStep::CheckCredentials ==> n == 3 && outcomes(0)
            && outcomes(1) && outcomes(2),
        step_after(n, outcomes, has_cwd) == DropStep::ChangeDirectory ==> n == 4 && has_cwd
            && outcomes(0) && outcomes(1) && outcomes(2) && outcomes(3),
        step_after(n, outcomes, has_cwd) == DropStep::Done ==> outcomes(0) && outcomes(1)
            && outcomes(2) && outcomes(3) && (has_cwd ==> outcomes(4)),
        step_after(n, outcomes, has_cwd) == DropStep::SetGroups ==> n == 0,
    decreases n,
{
    if n > 0 {
        lemma_done_means_dropped((n - 1) as nat, outcomes, has_cwd);
    }
}

/// Whether the system can be told of this many groups.
pub fn group_count_fits(platform: Platform, count: usize) -> (r: bool)
    ensures
        r == (platform == Platform::Linux || count <= i32::MAX),
{
    platform == Platform::Linux || count <= 2147483647
}

/// The ids of a process; the triples are absent where they could not be read.
#[derive(Clone, Copy, PartialEq, Eq, Structural, Debug)]
pub struct ProcessIds {
    pub uid: u32,
    pub euid: u32,
    pub gid: u32,
    pub egid: u32,
    pub uids: Option<IdTriple>,
    pub gids: Option<IdTriple>,
}

/// Whether a process holds no ids but the given ones.
pub open spec fn holds_only(ids: ProcessIds, platform: Platform, uid: u32, gid: u32) -> bool {
    &&& ids.uid == uid && ids.euid == uid
    &&& ids.gid == gid && ids.egid == gid
    &&& platform.saved_ids() ==> {
        &&& ids.uids is Some && ids.uids->0.all(uid)
        &&& ids.gids is Some && ids.gids->0.all(gid)
    }
}

pub fn credentials_match(ids: ProcessIds, platform: Platform, uid: u32, gid: u32) -> (r: bool)
    ensures
        r == holds_only(ids, platform, uid, gid),
{
    if ids.uid != uid || ids.euid != uid || ids.gid != gid || ids.egid != gid {
        return false;
    }
    if platform.has_saved_ids() {
        match (ids.uids, ids.gids) {
            (Some(uids), Some(gids)) => uids.are_all(uid) && gids.are_all(gid),
            _ => false,
        }
    } else {
        true
    }
}

} // verus!
