//! Whom the program acts for.

use crate::order::same_bytes;
use crate::path::{joined, FilePath};
use crate::platform::Platform;
use crate::text::{parse_u32, parsed_u32, utf8_text};
use crate::user_groups::{contains_nul, holds_nul};
use vstd::prelude::*;
use vstd::slice::slice_to_vec;
use vstd::utf8::{decode_utf8, encode_scalar, encode_utf8, valid_utf8};

verus! {

pub const DEFAULT_PASSWD_BUFFER: usize = 16384;

pub const MAX_PASSWD_BUFFER: usize = 1048576;

/// The user who started an elevated program.
#[derive(Debug)]
pub struct InvokingUser {
    pub uid: u32,
    pub gid: u32,
    pub name: Vec<u8>,
    pub home: FilePath,
    pub shell: Vec<u8>,
    pub groups: Vec<u32>,
    pub xdg_config_home: Option<FilePath>,
    pub xdg_data_home: Option<FilePath>,
}

pub ghost struct InvokingUserView {
    pub uid: u32,
    pub gid: u32,
    pub name: Seq<u8>,
    pub home: Seq<u8>,
    pub shell: Seq<u8>,
    pub groups: Seq<u32>,
    pub xdg_config_home: Option<Seq<u8>>,
    pub xdg_data_home: Option<Seq<u8>>,
}

/// The bytes of a path that may be absent.
pub open spec fn optional_path(path: Option<FilePath>) -> Option<Seq<u8>> {
    match path {
        Some(path) => Some(path@),
        None => None,
    }
}

/// The bytes of a borrowed path that may be absent.
pub open spec fn borrowed_path(path: Option<&FilePath>) -> Option<Seq<u8>> {
    match path {
        Some(path) => Some(path@),
        None => None,
    }
}

impl View for InvokingUser {
    type V = InvokingUserView;

    open spec fn view(&self) -> InvokingUserView {
        InvokingUserView {
            uid: self.uid,
            gid: self.gid,
            name: self.name@,
            home: self.home@,
            shell: self.shell@,
            groups: self.groups@,
            xdg_config_home: optional_path(self.xdg_config_home),
            xdg_data_home: optional_path(self.xdg_data_home),
        }
    }
}

/// How the program was started.
#[derive(Debug)]
pub enum InvocationContext {
    Normal,
    /// Root's own session, not reached from another user's.
    RootSession,
    Elevated(InvokingUser),
    /// Root acts for someone, but it is unknown for whom.
    ElevatedUnresolved,
}

pub ghost enum InvocationContextView {
    Normal,
    RootSession,
    Elevated(InvokingUserView),
    ElevatedUnresolved,
}

impl View for InvocationContext {
    type V = InvocationContextView;

    open spec fn view(&self) -> InvocationContextView {
        match *self {
            InvocationContext::Normal => InvocationContextView::Normal,
            InvocationContext::RootSession => InvocationContextView::RootSession,
            InvocationContext::Elevated(user) => InvocationContextView::Elevated(user@),
            InvocationContext::ElevatedUnresolved => InvocationContextView::ElevatedUnresolved,
        }
    }
}

/// A user who may have been found.
pub open spec fn found_user(user: Option<InvokingUser>) -> Option<InvokingUserView> {
    match user {
        Some(user) => Some(user@),
        None => None,
    }
}

/// The user id that a text denotes, unless it is root's.
pub open spec fn non_root_uid(value: Option<Seq<u8>>) -> Option<u32> {
    match value {
        Some(bytes) => if !valid_utf8(bytes) {
            None
        } else {
            match parsed_u32(decode_utf8(bytes)) {
                Some(uid) => if uid != 0 {
                    Some(uid)
                } else {
                    None
                },
                None => None,
            }
        },
        None => None,
    }
}

pub open spec fn optional_bytes(value: Option<&[u8]>) -> Option<Seq<u8>> {
    match value {
        Some(bytes) => Some(bytes@),
        None => None,
    }
}

pub fn parse_non_root_uid(value: Option<&[u8]>) -> (r: Option<u32>)
    ensures
        r == non_root_uid(optional_bytes(value)),
{
    let bytes: &[u8] = match value {
        Some(bytes) => bytes,
        None => return None,
    };
    let text: &str = match utf8_text(bytes) {
        Some(text) => text,
        None => return None,
    };
    match parse_u32(text) {
        Some(uid) => if uid != 0 {
            Some(uid)
        } else {
            None
        },
        None => None,
    }
}

/// A user name that may be looked up: not empty, not root's, without NUL.
pub open spec fn usable_name(name: Seq<u8>) -> bool {
    name.len() > 0 && name != encode_utf8("root"@) && !holds_nul(name)
}

/// Whether a user may be looked up by this name.
pub fn is_usable_name(name: &[u8]) -> (r: bool)
    ensures
        r == usable_name(name@),
{
    name.len() > 0 && !same_bytes(name, "root".as_bytes()) && !contains_nul(name)
}

/// How an attempt to read the user database ended.
#[derive(Clone, Copy, PartialEq, Eq, Structural, Debug)]
pub enum PasswdStatus {
    Success,
    BufferTooSmall,
    Failed,
}

/// What an attempt to read the user database gave. `found` tells whether there
/// is a record at all; its texts may be absent.
#[derive(Debug)]
pub struct PasswdAnswer {
    pub status: PasswdStatus,
    pub found: bool,
    pub uid: u32,
    pub gid: u32,
    pub name: Option<Vec<u8>>,
    pub home: Option<Vec<u8>>,
    pub shell: Option<Vec<u8>>,
}

/// What to do after an attempt to read the user database.
#[derive(Debug)]
pub enum PasswdStep {
    Retry(usize),
    Done(Option<InvokingUser>),
}

pub open spec fn default_shell() -> Seq<u8> {
    encode_utf8("/bin/sh"@)
}

/// The user that a record describes, if it describes one who is not root.
pub open spec fn described_user(answer: PasswdAnswer) -> Option<InvokingUserView> {
    if answer.status != PasswdStatus::Success || !answer.found || answer.uid == 0 {
        None
    } else if answer.home is None || answer.name is None || answer.home->0@.len() == 0
        || answer.name->0@.len() == 0 {
        None
    } else {
        Some(
            InvokingUserView {
                uid: answer.uid,
                gid: answer.gid,
                name: answer.name->0@,
                home: answer.home->0@,
                shell: if answer.shell is Some && answer.shell->0@.len() > 0 {
                    answer.shell->0@
                } else {
                    default_shell()
                },
                groups: seq![answer.gid],
                xdg_config_home: None,
                xdg_data_home: None,
            },
        )
    }
}

/// Judges an attempt to read the user database with a buffer of the given
/// length.
pub fn passwd(buffer_len: usize, answer: PasswdAnswer) -> (r: PasswdStep)
    ensures
        r is Retry <==> answer.status == PasswdStatus::BufferTooSmall && buffer_len < 1048576,
        match r {
            PasswdStep::Retry(next) => {
                &&& answer.status == PasswdStatus::BufferTooSmall
                &&& buffer_len < MAX_PASSWD_BUFFER
                &&& next == buffer_len * 2
            },
            PasswdStep::Done(user) => {
                &&& !(answer.status == PasswdStatus::BufferTooSmall && buffer_len
                    < MAX_PASSWD_BUFFER)
                &&& found_user(user) == described_user(answer)
            },
        },
{
    let ghost given = answer;
    match answer.status {
        PasswdStatus::BufferTooSmall => {
            if buffer_len < MAX_PASSWD_BUFFER {
                return PasswdStep::Retry(buffer_len * 2);
            }
            return PasswdStep::Done(None);
        },
        PasswdStatus::Failed => return PasswdStep::Done(None),
        PasswdStatus::Success => {},
    }
    if !answer.found || answer.uid == 0 {
        return PasswdStep::Done(None);
    }
    let home: Vec<u8> = match answer.home {
        Some(home) => home,
        None => return PasswdStep::Done(None),
    };
    let name: Vec<u8> = match answer.name {
        Some(name) => name,
        None => return PasswdStep::Done(None),
    };
    if home.len() == 0 || name.len() == 0 {
        return PasswdStep::Done(None);
    }
    let given_shell: Vec<u8> = match answer.shell {
        Some(shell) => shell,
        None => Vec::new(),
    };
    let shell: Vec<u8> = if given_shell.len() == 0 {
        slice_to_vec("/bin/sh".as_bytes())
    } else {
        given_shell
    };
    let mut groups: Vec<u32> = Vec::new();
    groups.push(answer.gid);
    let user: InvokingUser = InvokingUser {
        uid: answer.uid,
        gid: answer.gid,
        name,
        home: FilePath::from_bytes(home),
        shell,
        groups,
        xdg_config_home: None,
        xdg_data_home: None,
    };
    assert(user.groups@ =~= seq![given.gid]);
    PasswdStep::Done(Some(user))
}

/// How large a buffer to offer the user database first.
pub fn passwd_buffer_size(size: isize) -> (r: usize)
    ensures
        r == if size > 0 {
            size as int
        } else {
            DEFAULT_PASSWD_BUFFER as int
        },
        size <= 0 ==> r == 16384,
{
    if size > 0 {
        size as usize
    } else {
        DEFAULT_PASSWD_BUFFER
    }
}

/// What is still to be found out before it is known how the program was
/// started.
#[derive(Debug)]
pub enum InvocationStep {
    Done(InvocationContext),
    LookUpUid(u32),
    LookUpName(Vec<u8>),
    ReadGroups(InvokingUser),
    CheckDataHome(InvokingUser),
}

pub ghost enum InvocationStepView {
    Done(InvocationContextView),
    LookUpUid(u32),
    LookUpName(Seq<u8>),
    ReadGroups(InvokingUserView),
    CheckDataHome(InvokingUserView),
}

impl View for InvocationStep {
    type V = InvocationStepView;

    open spec fn view(&self) -> InvocationStepView {
        match *self {
            InvocationStep::Done(context) => InvocationStepView::Done(context@),
            InvocationStep::LookUpUid(uid) => InvocationStepView::LookUpUid(uid),
            InvocationStep::LookUpName(name) => InvocationStepView::LookUpName(name@),
            InvocationStep::ReadGroups(user) => InvocationStepView::ReadGroups(user@),
            InvocationStep::CheckDataHome(user) => InvocationStepView::CheckDataHome(user@),
        }
    }
}

/// What follows once a user was found, or not.
pub open spec fn step_with_user(user: Option<InvokingUserView>) -> InvocationStepView {
    match user {
        Some(user) => InvocationStepView::ReadGroups(user),
        None => InvocationStepView::Done(InvocationContextView::ElevatedUnresolved),
    }
}

/// What follows once no user was found by id.
pub open spec fn step_by_name(doas_user: Option<Seq<u8>>) -> InvocationStepView {
    match doas_user {
        Some(name) => if usable_name(name) {
            InvocationStepView::LookUpName(name)
        } else {
            InvocationStepView::Done(InvocationContextView::ElevatedUnresolved)
        },
        None => InvocationStepView::Done(InvocationContextView::ElevatedUnresolved),
    }
}

/// What follows once it was looked who has the id that `sudo` names.
pub open spec fn step_after_uid(
    found: Option<InvokingUserView>,
    doas_user: Option<Seq<u8>>,
) -> InvocationStepView {
    if found is Some {
        step_with_user(found)
    } else {
        step_by_name(doas_user)
    }
}

/// The first thing to find out.
pub open spec fn first_step(
    effective_uid: u32,
    sudo_uid: Option<Seq<u8>>,
    doas_user: Option<Seq<u8>>,
) -> InvocationStepView {
    if effective_uid != 0 {
        InvocationStepView::Done(InvocationContextView::Normal)
    } else {
        match non_root_uid(sudo_uid) {
            Some(uid) => InvocationStepView::LookUpUid(uid),
            None => step_by_name(doas_user),
        }
    }
}

pub open spec fn with_groups(user: InvokingUserView, groups: Seq<u32>) -> InvokingUserView {
    InvokingUserView { groups, ..user }
}

pub open spec fn with_data_home(
    user: InvokingUserView,
    data_home: Option<Seq<u8>>,
) -> InvokingUserView {
    InvokingUserView { xdg_data_home: data_home, ..user }
}

pub fn start(effective_uid: u32, sudo_uid: Option<&[u8]>, doas_user: Option<&[u8]>) -> (r:
    InvocationStep)
    ensures
        r@ == first_step(effective_uid, optional_bytes(sudo_uid), optional_bytes(doas_user)),
{
    if effective_uid != 0 {
        return InvocationStep::Done(InvocationContext::Normal);
    }
    match parse_non_root_uid(sudo_uid) {
        Some(uid) => InvocationStep::LookUpUid(uid),
        None => by_name(doas_user),
    }
}

fn by_name(doas_user: Option<&[u8]>) -> (r: InvocationStep)
    ensures
        r@ == step_by_name(optional_bytes(doas_user)),
{
    match doas_user {
        Some(name) => if is_usable_name(name) {
            InvocationStep::LookUpName(slice_to_vec(name))
        } else {
            InvocationStep::Done(InvocationContext::ElevatedUnresolved)
        },
        None => InvocationStep::Done(InvocationContext::ElevatedUnresolved),
    }
}

pub fn after_uid(found: Option<InvokingUser>, doas_user: Option<&[u8]>) -> (r: InvocationStep)
    ensures
        r@ == step_after_uid(found_user(found), optional_bytes(doas_user)),
{
    match found {
        Some(user) => InvocationStep::ReadGroups(user),
        None => by_name(doas_user),
    }
}

pub fn after_name(found: Option<InvokingUser>) -> (r: InvocationStep)
    ensures
        r@ == step_with_user(found_user(found)),
{
    match found {
        Some(user) => InvocationStep::ReadGroups(user),
        None => InvocationStep::Done(InvocationContext::ElevatedUnresolved),
    }
}

pub open spec fn found_groups(groups: Option<Vec<u32>>) -> Option<Seq<u32>> {
    match groups {
        Some(groups) => Some(groups@),
        None => None,
    }
}

/// What follows once a user's groups were read, or not.
pub open spec fn step_after_groups(
    user: InvokingUserView,
    groups: Option<Seq<u32>>,
) -> InvocationStepView {
    match groups {
        Some(groups) => InvocationStepView::CheckDataHome(with_groups(user, groups)),
        None => InvocationStepView::Done(InvocationContextView::ElevatedUnresolved),
    }
}

pub fn after_groups(user: InvokingUser, groups: Option<Vec<u32>>) -> (r: InvocationStep)
    ensures
        r@ == step_after_groups(user@, found_groups(groups)),
{
    match groups {
        Some(groups) => {
            let mut user: InvokingUser = user;
            user.groups = groups;
            InvocationStep::CheckDataHome(user)
        },
        None => InvocationStep::Done(InvocationContext::ElevatedUnresolved),
    }
}

pub fn after_data_home(user: InvokingUser, data_home: Option<FilePath>) -> (r: InvocationContext)
    ensures
        r@ == InvocationContextView::Elevated(
            with_data_home(user@, optional_path(data_home)),
        ),
{
    let mut user: InvokingUser = user;
    user.xdg_data_home = data_home;
    InvocationContext::Elevated(user)
}

/// The user who was looked up: by the id that `sudo` names, else by the name
/// that `doas` gives.
pub open spec fn resolved_user(
    sudo_uid: Option<Seq<u8>>,
    doas_user: Option<Seq<u8>>,
    by_uid: Option<InvokingUserView>,
    by_name: Option<InvokingUserView>,
) -> Option<InvokingUserView> {
    if non_root_uid(sudo_uid) is Some && by_uid is Some {
        by_uid
    } else if doas_user is Some && usable_name(doas_user->0) {
        by_name
    } else {
        None
    }
}

/// How the program was started, given what the lookups give.
pub open spec fn resolved_context(
    effective_uid: u32,
    sudo_uid: Option<Seq<u8>>,
    doas_user: Option<Seq<u8>>,
    by_uid: Option<InvokingUserView>,
    by_name: Option<InvokingUserView>,
    groups: Option<Seq<u32>>,
    data_home: Option<Seq<u8>>,
) -> InvocationContextView {
    if effective_uid != 0 {
        InvocationContextView::Normal
    } else {
        match (resolved_user(sudo_uid, doas_user, by_uid, by_name), groups) {
            (Some(user), Some(groups)) => InvocationContextView::Elevated(
                with_data_home(with_groups(user, groups), data_home),
            ),
            _ => InvocationContextView::ElevatedUnresolved,
        }
    }
}

/// What the system answers when it is asked about the invoking user.
#[derive(Debug)]
pub struct InvocationFacts {
    pub by_uid: Option<InvokingUser>,
    pub by_name: Option<InvokingUser>,
    pub groups: Option<Vec<u32>>,
    pub data_home: Option<FilePath>,
}

/// Decides how the program was started, with every answer at hand.
pub fn invocation_context(
    effective_uid: u32,
    sudo_uid: Option<&[u8]>,
    doas_user: Option<&[u8]>,
    facts: InvocationFacts,
) -> (r: InvocationContext)
    ensures
        r@ == resolved_context(
            effective_uid,
            optional_bytes(sudo_uid),
            optional_bytes(doas_user),
            found_user(facts.by_uid),
            found_user(facts.by_name),
            found_groups(facts.groups),
            optional_path(facts.data_home),
        ),
{
    let mut step: InvocationStep = start(effective_uid, sudo_uid, doas_user);
    if let InvocationStep::LookUpUid(_) = step {
        step = after_uid(facts.by_uid, doas_user);
    }
    if let InvocationStep::LookUpName(_) = step {
        step = after_name(facts.by_name);
    }
    match step {
        InvocationStep::Done(context) => context,
        InvocationStep::ReadGroups(user) => match after_groups(user, facts.groups) {
            InvocationStep::CheckDataHome(user) => after_data_home(user, facts.data_home),
            _ => InvocationContext::ElevatedUnresolved,
        },
        _ => InvocationContext::ElevatedUnresolved,
    }
}

/// Root that acts for an unknown user, or for a user whose groups are unknown,
/// is never taken for an ordinary session, whatever the lookups give.
pub proof fn lemma_elevation_is_never_normal(
    sudo_uid: Option<Seq<u8>>,
    doas_user: Option<Seq<u8>>,
    by_uid: Option<InvokingUserView>,
    by_name: Option<InvokingUserView>,
    groups: Option<Seq<u32>>,
    data_home: Option<Seq<u8>>,
)
    ensures
        ({
            let context = resolved_context(
                0,
                sudo_uid,
                doas_user,
                by_uid,
                by_name,
                groups,
                data_home,
            );
            context is Elevated || context is ElevatedUnresolved
        }),
        resolved_user(sudo_uid, doas_user, by_uid, by_name) is None ==> resolved_context(
            0,
            sudo_uid,
            doas_user,
            by_uid,
            by_name,
            groups,
            data_home,
        ) is ElevatedUnresolved,
{
}

/// Records of the user database never resolve to root.
pub proof fn lemma_invoking_user_is_not_root(
    sudo_uid: Option<Seq<u8>>,
    doas_user: Option<Seq<u8>>,
    uid_answer: PasswdAnswer,
    name_answer: PasswdAnswer,
    groups: Option<Seq<u32>>,
    data_home: Option<Seq<u8>>,
)
    ensures
        resolved_context(
            0,
            sudo_uid,
            doas_user,
            described_user(uid_answer),
            described_user(name_answer),
            groups,
            data_home,
        ) matches InvocationContextView::Elevated(user) ==> user.uid != 0 && user.home.len() > 0
            && user.name.len() > 0 && user.shell.len() > 0,
{
    reveal_strlit("/bin/sh");
    let shell = "/bin/sh"@;
    assert(default_shell() == encode_scalar(shell[0] as u32) + encode_utf8(shell.drop_first()));
    assert(encode_scalar(shell[0] as u32).len() > 0);
}

/// The home directory of whom the program acts for.
pub open spec fn home_of(
    platform: Platform,
    context: InvocationContextView,
    process_home: Option<Seq<u8>>,
) -> Option<Seq<u8>> {
    match context {
        InvocationContextView::Elevated(user) => if platform.unix() {
            Some(user.home)
        } else {
            process_home
        },
        _ => process_home,
    }
}

fn copied(path: Option<&FilePath>) -> (r: Option<FilePath>)
    ensures
        optional_path(r) == borrowed_path(path),
{
    match path {
        Some(path) => Some(path.copy()),
        None => None,
    }
}

/// `process_home` is the home directory that the process itself would use.
pub fn home_dir(
    platform: Platform,
    context: &InvocationContext,
    process_home: Option<&FilePath>,
) -> (r: Option<FilePath>)
    ensures
        optional_path(r) == home_of(platform, context@, borrowed_path(process_home)),
        context is Elevated && platform != Platform::Windows ==> r is Some && r->0@
            == context->Elevated_0.home@,
        !(context is Elevated && platform != Platform::Windows) ==> (r is Some
            <==> process_home is Some) && (r is Some ==> r->0@ == process_home->0@),
{
    if platform.is_unix() {
        if let InvocationContext::Elevated(user) = context {
            return Some(user.home.copy());
        }
    }
    copied(process_home)
}

/// The home directory under which trash is kept, where trash follows the
/// invoking user.
pub open spec fn trash_home_of(
    context: InvocationContextView,
    process_home: Option<Seq<u8>>,
) -> Option<Seq<u8>> {
    match context {
        InvocationContextView::Normal | InvocationContextView::RootSession => process_home,
        InvocationContextView::Elevated(user) => Some(user.home),
        InvocationContextView::ElevatedUnresolved => None,
    }
}

pub fn trash_home_for_context(
    context: &InvocationContext,
    process_home: Option<&FilePath>,
) -> (r: Option<FilePath>)
    ensures
        optional_path(r) == trash_home_of(context@, borrowed_path(process_home)),
        context is Normal || context is RootSession ==> (r is Some <==> process_home is Some) && (
        r is Some ==> r->0@ == process_home->0@),
        context is Elevated ==> r is Some && r->0@ == context->Elevated_0.home@,
        context is ElevatedUnresolved ==> r is None,
{
    match context {
        InvocationContext::Normal | InvocationContext::RootSession => copied(process_home),
        InvocationContext::Elevated(user) => Some(user.home.copy()),
        InvocationContext::ElevatedUnresolved => None,
    }
}

pub fn trash_home_dir(
    platform: Platform,
    context: &InvocationContext,
    process_home: Option<&FilePath>,
) -> (r: Option<FilePath>)
    ensures
        optional_path(r) == if platform.unix() && platform != Platform::MacOs {
            trash_home_of(context@, borrowed_path(process_home))
        } else {
            borrowed_path(process_home)
        },
{
    if platform.is_unix() && platform != Platform::MacOs {
        trash_home_for_context(context, process_home)
    } else {
        copied(process_home)
    }
}

pub open spec fn local_share() -> Seq<u8> {
    encode_utf8(".local/share"@)
}

/// The data directory under which trash is kept.
pub open spec fn trash_data_of(
    context: InvocationContextView,
    process_data_dir: Option<Seq<u8>>,
) -> Option<Seq<u8>> {
    match context {
        InvocationContextView::Normal | InvocationContextView::RootSession => process_data_dir,
        InvocationContextView::Elevated(user) => if user.xdg_data_home is Some {
            user.xdg_data_home
        } else {
            Some(joined(user.home, local_share()))
        },
        InvocationContextView::ElevatedUnresolved => None,
    }
}

/// `process_data_dir` is the data directory that the process itself would use.
pub fn trash_data_dir(
    context: &InvocationContext,
    process_data_dir: Option<&FilePath>,
) -> (r: Option<FilePath>)
    ensures
        optional_path(r) == trash_data_of(context@, borrowed_path(process_data_dir)),
        context is Normal || context is RootSession ==> (r is Some <==> process_data_dir is Some)
            && (r is Some ==> r->0@ == process_data_dir->0@),
        context is Elevated ==> r is Some,
        context is ElevatedUnresolved ==> r is None,
{
    match context {
        InvocationContext::Normal | InvocationContext::RootSession => copied(process_data_dir),
        InvocationContext::Elevated(user) => match &user.xdg_data_home {
            Some(path) => Some(path.copy()),
            None => Some(user.home.join(".local/share".as_bytes())),
        },
        InvocationContext::ElevatedUnresolved => None,
    }
}

/// Where it is unknown for whom root acts, there is no place for trash: root's
/// own is not used instead.
pub proof fn lemma_unresolved_has_no_trash(
    process_home: Option<Seq<u8>>,
    process_data_dir: Option<Seq<u8>>,
)
    ensures
        trash_home_of(InvocationContextView::ElevatedUnresolved, process_home) is None,
        trash_data_of(InvocationContextView::ElevatedUnresolved, process_data_dir) is None,
{
}

} // verus!
