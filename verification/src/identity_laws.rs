//! For whom the program acts, and as whom it runs others.

use crate::environment::{applied, change_of, change_value, variable_name, EnvChange, EnvName};
use crate::helper_credentials::{
    credential_fault, process_fault, refusal_text, variable_id, variable_ids, CredentialError,
    EnvText, GroupReading, HelperEnvironment, HelperVariable, ProcessCredentials,
};
use crate::ids::{ids_fault, parsed_ids};
use crate::invoking_user::{
    borrowed_path, described_user, first_step, found_groups, found_user, non_root_uid,
    optional_bytes, optional_path, resolved_context, step_after_groups, step_after_uid,
    step_with_user, usable_name, InvocationContextView, InvocationStepView, InvokingUser,
    InvokingUserView, PasswdAnswer, PasswdStatus,
};
use crate::invoking_user_command::{
    following_step, holds_only, user_environment, DropStep, ProcessIds, SessionPaths,
};
use crate::path::FilePath;
use crate::platform::Platform;
use crate::text::{number_fault, parsed_u32, NumberFault};
use crate::user_groups::{filled, is_group_list};
use vstd::prelude::*;
use vstd::utf8::{decode_utf8, encode_utf8, valid_utf8};

verus! {

/// A text gives the id of a user exactly where it writes a number that is not root's.
pub proof fn lemma_root_is_no_invoking_user(text: Seq<u8>)
    ensures
        non_root_uid(None) is None,
        !valid_utf8(text) ==> non_root_uid(Some(text)) is None,
        valid_utf8(text) && parsed_u32(decode_utf8(text)) is None ==> non_root_uid(
            Some(text),
        ) is None,
        valid_utf8(text) && parsed_u32(decode_utf8(text)) == Some(0u32) ==> non_root_uid(
            Some(text),
        ) is None,
        valid_utf8(text) && parsed_u32(decode_utf8(text)) is Some && parsed_u32(
            decode_utf8(text),
        )->0 != 0 ==> non_root_uid(Some(text)) == parsed_u32(decode_utf8(text)),
{
}

/// A name can be looked up exactly where it is not empty, is not `root` and has no byte
/// that is zero.
pub proof fn lemma_names_that_can_be_looked_up(name: Seq<u8>)
    ensures
        usable_name(name) <==> name.len() > 0 && name != encode_utf8("root"@) && forall|i: int|
            0 <= i < name.len() ==> #[trigger] name[i] != 0,
{
    if exists|i: int| 0 <= i < name.len() && #[trigger] name[i] == 0 {
        let i = choose|i: int| 0 <= i < name.len() && #[trigger] name[i] == 0;
        assert(name.contains(name[i]));
    }
}

/// A record of the user database is taken exactly where it was read, is not root's, and
/// has a home and a name. Its shell is `/bin/sh` where it names none; of the groups only
/// its own is known, and of other directories nothing.
pub proof fn lemma_records_describe_users(answer: PasswdAnswer)
    ensures
        described_user(answer) is Some <==> answer.status == PasswdStatus::Success && answer.found
            && answer.uid != 0 && answer.home is Some && answer.home->0@.len() > 0
            && answer.name is Some && answer.name->0@.len() > 0,
        described_user(answer) is Some ==> ({
            let user = described_user(answer)->0;
            &&& user.uid == answer.uid
            &&& user.gid == answer.gid
            &&& user.name == answer.name->0@
            &&& user.home == answer.home->0@
            &&& answer.shell is Some && answer.shell->0@.len() > 0 ==> user.shell
                == answer.shell->0@
            &&& answer.shell is None || answer.shell->0@.len() == 0 ==> user.shell == encode_utf8(
                "/bin/sh"@,
            )
            &&& user.groups == seq![answer.gid]
            &&& user.xdg_config_home is None
            &&& user.xdg_data_home is None
        }),
{
}

/// A program that does not run as root is an ordinary one, whatever else is said.
pub proof fn lemma_ordinary_user_is_normal(
    uid: u32,
    sudo_uid: Option<Seq<u8>>,
    doas_user: Option<Seq<u8>>,
    by_uid: Option<InvokingUserView>,
    by_name: Option<InvokingUserView>,
    groups: Option<Seq<u32>>,
    data_home: Option<Seq<u8>>,
)
    requires
        uid != 0,
    ensures
        first_step(uid, sudo_uid, doas_user) == InvocationStepView::Done(
            InvocationContextView::Normal,
        ),
        resolved_context(uid, sudo_uid, doas_user, by_uid, by_name, groups, data_home)
            == InvocationContextView::Normal,
{
}

/// Root acts for the user whose id `sudo` names, where there is one; else for the one
/// whom `doas` names, where that name can be looked up and is someone's. With the groups
/// and the data directory that were found, everything else is as the record has it.
pub proof fn lemma_root_acts_for_the_invoking_user(
    sudo_uid: Option<Seq<u8>>,
    doas_user: Option<Seq<u8>>,
    by_uid: Option<InvokingUserView>,
    by_name: Option<InvokingUserView>,
    groups: Seq<u32>,
    data_home: Option<Seq<u8>>,
)
    ensures
        ({
            let context = resolved_context(
                0,
                sudo_uid,
                doas_user,
                by_uid,
                by_name,
                Some(groups),
                data_home,
            );
            let sudo = non_root_uid(sudo_uid) is Some && by_uid is Some;
            let doas = doas_user is Some && usable_name(doas_user->0) && by_name is Some;
            &&& sudo ==> context == InvocationContextView::Elevated(
                InvokingUserView { groups, xdg_data_home: data_home, ..by_uid->0 },
            )
            &&& !sudo && doas ==> context == InvocationContextView::Elevated(
                InvokingUserView { groups, xdg_data_home: data_home, ..by_name->0 },
            )
            &&& !sudo && !doas ==> context == InvocationContextView::ElevatedUnresolved
        }),
{
}

/// Without the groups of a user, root acts for nobody.
pub proof fn lemma_groups_are_needed(
    sudo_uid: Option<Seq<u8>>,
    doas_user: Option<Seq<u8>>,
    by_uid: Option<InvokingUserView>,
    by_name: Option<InvokingUserView>,
    user: InvokingUserView,
    data_home: Option<Seq<u8>>,
)
    ensures
        resolved_context(0, sudo_uid, doas_user, by_uid, by_name, None, data_home)
            == InvocationContextView::ElevatedUnresolved,
        step_after_groups(user, None) == InvocationStepView::Done(
            InvocationContextView::ElevatedUnresolved,
        ),
{
}

/// What is looked up, and in which order: the id that `sudo` names, then the name that
/// `doas` names, then the groups of whom was found, then that user's data directory.
pub proof fn lemma_lookups_follow_each_other(
    sudo_uid: Option<Seq<u8>>,
    doas_user: Option<Seq<u8>>,
    user: InvokingUserView,
    groups: Seq<u32>,
)
    ensures
        non_root_uid(sudo_uid) is Some ==> first_step(0, sudo_uid, doas_user)
            == InvocationStepView::LookUpUid(non_root_uid(sudo_uid)->0),
        non_root_uid(sudo_uid) is None ==> first_step(0, sudo_uid, doas_user) == step_after_uid(
            None,
            doas_user,
        ),
        step_after_uid(Some(user), doas_user) == InvocationStepView::ReadGroups(user),
        doas_user is Some && usable_name(doas_user->0) ==> step_after_uid(None, doas_user)
            == InvocationStepView::LookUpName(doas_user->0),
        doas_user is None || !usable_name(doas_user->0) ==> step_after_uid(None, doas_user)
            == InvocationStepView::Done(InvocationContextView::ElevatedUnresolved),
        step_with_user(Some(user)) == InvocationStepView::ReadGroups(user),
        step_with_user(None) == InvocationStepView::Done(InvocationContextView::ElevatedUnresolved),
        step_after_groups(user, Some(groups)) == InvocationStepView::CheckDataHome(
            InvokingUserView { groups, ..user },
        ),
{
}

/// The variables go by these names.
pub proof fn lemma_variables_have_names()
    ensures
        variable_name(EnvName::DoasUser) == "DOAS_USER"@,
        variable_name(EnvName::HelperGid) == "ELIO_HELPER_GID"@,
        variable_name(EnvName::HelperGroups) == "ELIO_HELPER_GROUPS"@,
        variable_name(EnvName::HelperUid) == "ELIO_HELPER_UID"@,
        variable_name(EnvName::Home) == "HOME"@,
        variable_name(EnvName::Logname) == "LOGNAME"@,
        variable_name(EnvName::Mail) == "MAIL"@,
        variable_name(EnvName::Oldpwd) == "OLDPWD"@,
        variable_name(EnvName::Pwd) == "PWD"@,
        variable_name(EnvName::Shell) == "SHELL"@,
        variable_name(EnvName::SudoCommand) == "SUDO_COMMAND"@,
        variable_name(EnvName::SudoGid) == "SUDO_GID"@,
        variable_name(EnvName::SudoUid) == "SUDO_UID"@,
        variable_name(EnvName::SudoUser) == "SUDO_USER"@,
        variable_name(EnvName::User) == "USER"@,
        variable_name(EnvName::Username) == "USERNAME"@,
        variable_name(EnvName::XdgCacheHome) == "XDG_CACHE_HOME"@,
        variable_name(EnvName::XdgConfigHome) == "XDG_CONFIG_HOME"@,
        variable_name(EnvName::XdgDataHome) == "XDG_DATA_HOME"@,
        variable_name(EnvName::XdgRuntimeDir) == "XDG_RUNTIME_DIR"@,
{
}

/// Of several changes to a variable the last one counts, and a change to one variable
/// leaves the others alone.
pub proof fn lemma_last_change_counts(changes: Seq<EnvChange>, change: EnvChange, name: EnvName)
    ensures
        change_of(applied(Seq::empty()), name) is None,
        change_of(applied(changes.push(change)), change.name) == Some(change_value(change.value)),
        name != change.name ==> change_of(applied(changes.push(change)), name) == change_of(
            applied(changes),
            name,
        ),
{
    assert(changes.push(change).drop_last() =~= changes);
}

/// Variables that have nothing to do with the user are left alone, and so is the
/// directory for runtime files where it is the user's own.
pub proof fn lemma_other_variables_are_left_alone(
    env: Map<EnvName, Option<Seq<u8>>>,
    user: InvokingUserView,
    session: SessionPaths,
    name: EnvName,
)
    requires
        name == EnvName::Pwd || name == EnvName::HelperUid || name == EnvName::HelperGid || name
            == EnvName::HelperGroups || (name == EnvName::XdgRuntimeDir
            && session.runtime_dir_is_valid),
    ensures
        change_of(user_environment(env, user, session), name) == change_of(env, name),
{
}

/// Giving up rights takes its steps in this order, each only after the one before went
/// well; entering a directory is left out where none was asked for.
pub proof fn lemma_rights_are_given_up_in_order(has_cwd: bool)
    ensures
        following_step(DropStep::SetGroups, true, has_cwd) == DropStep::SetGid,
        following_step(DropStep::SetGid, true, has_cwd) == DropStep::SetUid,
        following_step(DropStep::SetUid, true, has_cwd) == DropStep::CheckCredentials,
        following_step(DropStep::CheckCredentials, true, true) == DropStep::ChangeDirectory,
        following_step(DropStep::CheckCredentials, true, false) == DropStep::Done,
        following_step(DropStep::ChangeDirectory, true, has_cwd) == DropStep::Done,
{
}

/// A step that did not go well is the last one. It ends with the error that the system
/// reported, but a failed check with one of its own. Nothing follows an end.
pub proof fn lemma_failed_step_is_the_last(step: DropStep, went_well: bool, has_cwd: bool)
    ensures
        step == DropStep::SetGroups || step == DropStep::SetGid || step == DropStep::SetUid || step
            == DropStep::ChangeDirectory ==> following_step(step, false, has_cwd)
            == DropStep::FailWithLastError,
        following_step(DropStep::CheckCredentials, false, has_cwd) == DropStep::FailNotPermitted,
        step == DropStep::Done || step == DropStep::FailWithLastError || step
            == DropStep::FailNotPermitted ==> following_step(step, went_well, has_cwd) == step,
{
}

/// A process is the user's exactly where its real and effective ids are and, on Linux and
/// FreeBSD, all three that the system reports.
pub proof fn lemma_every_id_has_to_be_the_users(
    ids: ProcessIds,
    platform: Platform,
    uid: u32,
    gid: u32,
)
    ensures
        ({
            let plain = ids.uid == uid && ids.euid == uid && ids.gid == gid && ids.egid == gid;
            let saved = ids.uids is Some && ids.uids->0.real == uid && ids.uids->0.effective == uid
                && ids.uids->0.saved == uid && ids.gids is Some && ids.gids->0.real == gid
                && ids.gids->0.effective == gid && ids.gids->0.saved == gid;
            let has_saved = platform == Platform::Linux || platform == Platform::FreeBsd;
            holds_only(ids, platform, uid, gid) <==> plain && (has_saved ==> saved)
        }),
{
}

/// The helper runs only as a user who is not root, with that user's ids throughout and
/// exactly that user's groups.
pub proof fn lemma_helper_runs_only_as_the_user(
    process: ProcessCredentials,
    platform: Platform,
    uid: u32,
    gid: u32,
    groups: Seq<u32>,
)
    requires
        process.groups.announced >= 0,
        process.groups.written == process.groups.buffer@.len(),
    ensures
        ({
            let held = process.groups.buffer@;
            let plain = uid != 0 && process.uid == uid && process.euid == uid && process.gid == gid
                && process.egid == gid;
            let saved = process.uids is Some && process.uids->0.real == uid
                && process.uids->0.effective == uid && process.uids->0.saved == uid
                && process.gids is Some && process.gids->0.real == gid
                && process.gids->0.effective == gid && process.gids->0.saved == gid;
            let has_saved = platform == Platform::Linux || platform == Platform::FreeBsd;
            process_fault(process, platform, uid, gid, groups) is None <==> plain && (forall|id: u32|
                #[trigger] held.contains(id) <==> groups.contains(id)) && (has_saved ==> saved)
        }),
{
    let held = process.groups.buffer@;
    assert(process.groups.ids() == Some(held));
    if forall|id: u32| #[trigger] held.contains(id) <==> groups.contains(id) {
        assert(held.to_set() =~= groups.to_set());
    } else {
        let id = choose|id: u32| #[trigger] held.contains(id) != groups.contains(id);
        assert(held.to_set().contains(id) != groups.to_set().contains(id));
    }
}

/// Which fault is reported, the first of these that there is: a wrong user id, a wrong
/// group id, groups that cannot be read, wrong groups, and of the ids that the system
/// keeps those of the user that cannot be read, then of the group, then wrong ones.
pub proof fn lemma_first_fault_is_reported(
    process: ProcessCredentials,
    platform: Platform,
    uid: u32,
    gid: u32,
    groups: Seq<u32>,
)
    ensures
        ({
            let fault = process_fault(process, platform, uid, gid, groups);
            let users = uid != 0 && process.uid == uid && process.euid == uid;
            let group = process.gid == gid && process.egid == gid;
            let read = process.groups.announced >= 0 && process.groups.written >= 0;
            &&& !users <==> fault == Some(CredentialError::InvalidUid)
            &&& users && !group <==> fault == Some(CredentialError::InvalidGid)
            &&& users && group && !read <==> fault == Some(CredentialError::UnreadableGroups)
            &&& fault == Some(CredentialError::UnreadableUids) ==> process.uids is None
            &&& fault == Some(CredentialError::UnreadableGids) ==> process.uids is Some
                && process.gids is None
            &&& fault == Some(CredentialError::InvalidSavedUid) ==> process.uids is Some
                && process.gids is Some
            &&& fault == Some(CredentialError::InvalidSavedGid) ==> process.uids is Some
                && process.gids is Some && process.uids->0.real == uid
                && process.uids->0.effective == uid && process.uids->0.saved == uid
        }),
{
}

/// A helper variable that is missing, is no text or writes no number is reported as such;
/// else it gives the id, or the ids, that it writes.
pub proof fn lemma_helper_variables_are_read(value: EnvText, name: HelperVariable)
    ensures
        value is Missing ==> variable_id(value, name) == Err::<u32, CredentialError>(
            CredentialError::Missing(name),
        ) && variable_ids(value, name) == Err::<Seq<u32>, CredentialError>(
            CredentialError::Missing(name),
        ),
        value is NotUnicode ==> variable_id(value, name) == Err::<u32, CredentialError>(
            CredentialError::NotUnicode(name, value->NotUnicode_0),
        ) && variable_ids(value, name) == Err::<Seq<u32>, CredentialError>(
            CredentialError::NotUnicode(name, value->NotUnicode_0),
        ),
        value is Text && parsed_u32(value->Text_0@) is Some ==> variable_id(value, name) == Ok::<
            u32,
            CredentialError,
        >(parsed_u32(value->Text_0@)->0),
        value is Text && parsed_u32(value->Text_0@) is None ==> variable_id(value, name) == Err::<
            u32,
            CredentialError,
        >(CredentialError::NotANumber(name, number_fault(value->Text_0@)->0)),
        value is Text && parsed_ids(value->Text_0@) is Some ==> variable_ids(value, name) == Ok::<
            Seq<u32>,
            CredentialError,
        >(parsed_ids(value->Text_0@)->0),
        value is Text && parsed_ids(value->Text_0@) is None ==> variable_ids(value, name) == Err::<
            Seq<u32>,
            CredentialError,
        >(CredentialError::NotANumber(name, ids_fault(value->Text_0@)->0)),
{
}

/// The helper's variables are read before anything is compared: the user's id, the
/// group's, then the groups.
pub proof fn lemma_variables_are_read_first(
    environment: HelperEnvironment,
    process: ProcessCredentials,
    platform: Platform,
)
    ensures
        ({
            let fault = credential_fault(environment, process, platform);
            let uid = variable_id(environment.uid, HelperVariable::Uid);
            let gid = variable_id(environment.gid, HelperVariable::Gid);
            let groups = variable_ids(environment.groups, HelperVariable::Groups);
            &&& uid is Err ==> fault == Some(uid->Err_0)
            &&& uid is Ok && gid is Err ==> fault == Some(gid->Err_0)
            &&& uid is Ok && gid is Ok && groups is Err ==> fault == Some(groups->Err_0)
            &&& uid is Ok && gid is Ok && groups is Ok ==> fault == process_fault(
                process,
                platform,
                uid->Ok_0,
                gid->Ok_0,
                groups->Ok_0,
            )
        }),
{
}

/// What the helper says when it refuses to run.
pub proof fn lemma_refusals_are_told(name: HelperVariable, shown: String)
    ensures
        refusal_text(CredentialError::Missing(name)) == "environment variable not found"@,
        refusal_text(CredentialError::NotUnicode(name, shown))
            == "environment variable was not valid unicode: "@ + shown@,
        refusal_text(CredentialError::NotANumber(name, NumberFault::Empty))
            == "cannot parse integer from empty string"@,
        refusal_text(CredentialError::NotANumber(name, NumberFault::InvalidDigit))
            == "invalid digit found in string"@,
        refusal_text(CredentialError::NotANumber(name, NumberFault::TooLarge))
            == "number too large to fit in target type"@,
        refusal_text(CredentialError::InvalidUid) == "invalid helper uid"@,
        refusal_text(CredentialError::InvalidGid) == "invalid helper gid"@,
        refusal_text(CredentialError::UnreadableGroups) == "cannot read helper groups"@,
        refusal_text(CredentialError::InvalidGroups) == "invalid helper groups"@,
        refusal_text(CredentialError::UnreadableUids) == "cannot read helper uid state"@,
        refusal_text(CredentialError::UnreadableGids) == "cannot read helper gid state"@,
        refusal_text(CredentialError::InvalidSavedUid) == "invalid saved helper uid"@,
        refusal_text(CredentialError::InvalidSavedGid) == "invalid saved helper gid"@,
{
}

/// What is absent stays absent, and what is there is shown by its bytes.
pub proof fn lemma_absent_stays_absent(
    path: FilePath,
    bytes: &[u8],
    user: InvokingUser,
    groups: Vec<u32>,
)
    ensures
        optional_path(None) is None,
        optional_path(Some(path)) == Some(path@),
        borrowed_path(None) is None,
        borrowed_path(Some(&path)) == Some(path@),
        optional_bytes(None) is None,
        optional_bytes(Some(bytes)) == Some(bytes@),
        found_user(None) is None,
        found_user(Some(user)) == Some(user@),
        found_groups(None) is None,
        found_groups(Some(groups)) == Some(groups@),
{
}

/// A user's groups are those that were read and the primary one, each once and in
/// ascending order.
pub proof fn lemma_groups_are_listed_once(ids: Seq<u32>, read: Seq<u32>, primary: u32)
    requires
        is_group_list(ids, read, primary),
    ensures
        forall|id: u32| #[trigger] ids.contains(id) <==> read.contains(id) || id == primary,
        forall|i: int, j: int| 0 <= i < j < ids.len() ==> #[trigger] ids[i] < #[trigger] ids[j],
{
    assert forall|id: u32| #[trigger] ids.contains(id) <==> read.contains(id) || id == primary by {
        assert(ids.to_set().contains(id) <==> ids.contains(id));
        assert(read.to_set().insert(primary).contains(id) <==> read.contains(id) || id == primary);
    }
}

/// Of a buffer as many groups are read as it was filled with, and no more than it holds.
pub proof fn lemma_groups_are_read_from_the_front(
    buffer: Seq<u32>,
    count: int,
    reading: GroupReading,
)
    requires
        0 <= count,
    ensures
        count < buffer.len() ==> filled(buffer, count) == buffer.subrange(0, count),
        count >= buffer.len() ==> filled(buffer, count) == buffer,
        reading.announced < 0 || reading.written < 0 ==> reading.ids() is None,
        reading.announced >= 0 && 0 <= reading.written <= reading.buffer@.len() ==> reading.ids()
            == Some(reading.buffer@.subrange(0, reading.written as int)),
        reading.announced >= 0 && reading.written > reading.buffer@.len() ==> reading.ids() == Some(
            reading.buffer@,
        ),
{
    if 0 <= reading.written <= reading.buffer@.len() {
        assert(reading.buffer@.take(reading.written as int) =~= reading.buffer@.subrange(
            0,
            reading.written as int,
        ));
        assert(reading.buffer@.subrange(0, reading.buffer@.len() as int) =~= reading.buffer@);
    }
}

/// Which fault is reported of groups and of the ids that the system keeps.
pub proof fn lemma_later_faults_are_reported(
    process: ProcessCredentials,
    platform: Platform,
    uid: u32,
    gid: u32,
    groups: Seq<u32>,
)
    requires
        uid != 0,
        process.uid == uid,
        process.euid == uid,
        process.gid == gid,
        process.egid == gid,
        process.groups.ids() is Some,
    ensures
        ({
            let fault = process_fault(process, platform, uid, gid, groups);
            let same = process.groups.ids()->0.to_set() == groups.to_set();
            let saved = platform == Platform::Linux || platform == Platform::FreeBsd;
            let uids = process.uids is Some && process.uids->0.real == uid
                && process.uids->0.effective == uid && process.uids->0.saved == uid;
            let gids = process.gids is Some && process.gids->0.real == gid
                && process.gids->0.effective == gid && process.gids->0.saved == gid;
            &&& !same ==> fault == Some(CredentialError::InvalidGroups)
            &&& same && !saved ==> fault is None
            &&& same && saved && process.uids is None ==> fault == Some(
                CredentialError::UnreadableUids,
            )
            &&& same && saved && process.uids is Some && process.gids is None ==> fault == Some(
                CredentialError::UnreadableGids,
            )
            &&& same && saved && process.uids is Some && process.gids is Some && !uids ==> fault
                == Some(CredentialError::InvalidSavedUid)
            &&& same && saved && uids && process.gids is Some && !gids ==> fault == Some(
                CredentialError::InvalidSavedGid,
            )
            &&& same && saved && uids && gids ==> fault is None
        }),
{
}

} // verus!
