//! Who the helper may run as.

use crate::ids::{
    ids_fault, lemma_listed_ids_round_trip, listed_ids, parse_ids, parsed_ids, same_ids,
};
use crate::platform::Platform;
use crate::text::{
    concat, decimal, lemma_decimal_round_trip, number_fault, parsed_u32, read_u32, NumberFault,
};
use vstd::prelude::*;
use vstd::string::StringExecFns;

verus! {

/// A variable of the environment.
#[derive(Debug)]
pub enum EnvText {
    Missing,
    /// The value is not text. It comes as the system shows it: in quotation marks,
    /// with escapes for what is not text.
    NotUnicode(String),
    Text(String),
}

/// The variables that say whom the helper stands for.
#[derive(Clone, Copy, PartialEq, Eq, Structural, Debug)]
pub enum HelperVariable {
    Uid,
    Gid,
    Groups,
}

/// What the helper was told: the values of `ELIO_HELPER_UID`, `ELIO_HELPER_GID`
/// and `ELIO_HELPER_GROUPS`.
#[derive(Debug)]
pub struct HelperEnvironment {
    pub uid: EnvText,
    pub gid: EnvText,
    pub groups: EnvText,
}

/// A list of supplementary groups as the system hands it out: how many it
/// announced, how many it then wrote, and the buffer it wrote to. A negative
/// number stands for a failed call.
#[derive(Debug)]
pub struct GroupReading {
    pub announced: i32,
    pub written: i32,
    pub buffer: Vec<u32>,
}

impl GroupReading {
    /// The groups that were read, where both calls went well.
    pub open spec fn ids(&self) -> Option<Seq<u32>> {
        if self.announced < 0 || self.written < 0 {
            None
        } else if self.written < self.buffer@.len() {
            Some(self.buffer@.take(self.written as int))
        } else {
            Some(self.buffer@)
        }
    }

    pub fn read(&self) -> (r: Option<Vec<u32>>)
        ensures
            match r {
                Some(ids) => self.ids() == Some(ids@),
                None => self.ids() is None,
            },
    {
        if self.announced < 0 || self.written < 0 {
            return None;
        }
        let count: usize = self.written as usize;
        let mut ids: Vec<u32> = Vec::new();
        let mut i: usize = 0;
        while i < self.buffer.len() && i < count
            invariant
                count == self.written,
                i <= self.buffer@.len(),
                i <= count,
                ids@ == self.buffer@.take(i as int),
            decreases self.buffer@.len() - i,
        {
            ids.push(self.buffer[i]);
            i = i + 1;
            assert(ids@ =~= self.buffer@.take(i as int));
        }
        assert(self.buffer@.take(self.buffer@.len() as int) =~= self.buffer@);
        Some(ids)
    }
}

/// A real, an effective and a saved id.
#[derive(Clone, Copy, PartialEq, Eq, Structural, Debug)]
pub struct IdTriple {
    pub real: u32,
    pub effective: u32,
    pub saved: u32,
}

impl IdTriple {
    pub open spec fn all(self, id: u32) -> bool {
        self.real == id && self.effective == id && self.saved == id
    }

    pub fn are_all(self, id: u32) -> (r: bool)
        ensures
            r == self.all(id),
    {
        self.real == id && self.effective == id && self.saved == id
    }
}

/// Whom the system says the process runs as. The triples are absent where they
/// could not be read; they matter only where the platform has saved ids.
#[derive(Debug)]
pub struct ProcessCredentials {
    pub uid: u32,
    pub euid: u32,
    pub gid: u32,
    pub egid: u32,
    pub groups: GroupReading,
    pub uids: Option<IdTriple>,
    pub gids: Option<IdTriple>,
}

/// Why the helper refuses to run.
#[derive(PartialEq, Eq, Debug)]
pub enum CredentialError {
    Missing(HelperVariable),
    /// With the value, as the system shows it.
    NotUnicode(HelperVariable, String),
    NotANumber(HelperVariable, NumberFault),
    InvalidUid,
    InvalidGid,
    UnreadableGroups,
    InvalidGroups,
    UnreadableUids,
    UnreadableGids,
    InvalidSavedUid,
    InvalidSavedGid,
}

/// The text that describes a refusal.
pub open spec fn refusal_text(error: CredentialError) -> Seq<char> {
    match error {
        CredentialError::Missing(_) => "environment variable not found"@,
        CredentialError::NotUnicode(_, shown) => "environment variable was not valid unicode: "@
            + shown@,
        CredentialError::NotANumber(_, fault) => fault.text(),
        CredentialError::InvalidUid => "invalid helper uid"@,
        CredentialError::InvalidGid => "invalid helper gid"@,
        CredentialError::UnreadableGroups => "cannot read helper groups"@,
        CredentialError::InvalidGroups => "invalid helper groups"@,
        CredentialError::UnreadableUids => "cannot read helper uid state"@,
        CredentialError::UnreadableGids => "cannot read helper gid state"@,
        CredentialError::InvalidSavedUid => "invalid saved helper uid"@,
        CredentialError::InvalidSavedGid => "invalid saved helper gid"@,
    }
}

impl CredentialError {
    pub fn message(&self) -> (r: String)
        ensures
            r@ == refusal_text(*self),
    {
        let text: &'static str = match self {
            CredentialError::NotUnicode(_, shown) => {
                return concat("environment variable was not valid unicode: ", shown.as_str());
            },
            CredentialError::Missing(_) => "environment variable not found",
            CredentialError::NotANumber(_, fault) => fault.message(),
            CredentialError::InvalidUid => "invalid helper uid",
            CredentialError::InvalidGid => "invalid helper gid",
            CredentialError::UnreadableGroups => "cannot read helper groups",
            CredentialError::InvalidGroups => "invalid helper groups",
            CredentialError::UnreadableUids => "cannot read helper uid state",
            CredentialError::UnreadableGids => "cannot read helper gid state",
            CredentialError::InvalidSavedUid => "invalid saved helper uid",
            CredentialError::InvalidSavedGid => "invalid saved helper gid",
        };
        String::from_str(text)
    }
}

/// The text of a variable, or why there is none.
pub open spec fn variable_text(value: EnvText, name: HelperVariable) -> Result<
    Seq<char>,
    CredentialError,
> {
    match value {
        EnvText::Missing => Err(CredentialError::Missing(name)),
        EnvText::NotUnicode(shown) => Err(CredentialError::NotUnicode(name, shown)),
        EnvText::Text(text) => Ok(text@),
    }
}

/// The id that a variable holds.
pub open spec fn variable_id(value: EnvText, name: HelperVariable) -> Result<
    u32,
    CredentialError,
> {
    match variable_text(value, name) {
        Err(error) => Err(error),
        Ok(text) => match parsed_u32(text) {
            Some(id) => Ok(id),
            None => Err(CredentialError::NotANumber(name, number_fault(text)->0)),
        },
    }
}

/// The ids that a variable lists.
pub open spec fn variable_ids(value: EnvText, name: HelperVariable) -> Result<
    Seq<u32>,
    CredentialError,
> {
    match variable_text(value, name) {
        Err(error) => Err(error),
        Ok(text) => match parsed_ids(text) {
            Some(ids) => Ok(ids),
            None => Err(CredentialError::NotANumber(name, ids_fault(text)->0)),
        },
    }
}

/// Why a process may not act for the given ids, where it may not.
pub open spec fn process_fault(
    process: ProcessCredentials,
    platform: Platform,
    uid: u32,
    gid: u32,
    groups: Seq<u32>,
) -> Option<CredentialError> {
    if uid == 0 || process.uid != uid || process.euid != uid {
        Some(CredentialError::InvalidUid)
    } else if process.gid != gid || process.egid != gid {
        Some(CredentialError::InvalidGid)
    } else if process.groups.ids() is None {
        Some(CredentialError::UnreadableGroups)
    } else if process.groups.ids()->0.to_set() != groups.to_set() {
        Some(CredentialError::InvalidGroups)
    } else if !platform.saved_ids() {
        None
    } else if process.uids is None {
        Some(CredentialError::UnreadableUids)
    } else if process.gids is None {
        Some(CredentialError::UnreadableGids)
    } else if !process.uids->0.all(uid) {
        Some(CredentialError::InvalidSavedUid)
    } else if !process.gids->0.all(gid) {
        Some(CredentialError::InvalidSavedGid)
    } else {
        None
    }
}

/// Why the helper may not run, where it may not.
pub open spec fn credential_fault(
    environment: HelperEnvironment,
    process: ProcessCredentials,
    platform: Platform,
) -> Option<CredentialError> {
    match variable_id(environment.uid, HelperVariable::Uid) {
        Err(error) => Some(error),
        Ok(uid) => match variable_id(environment.gid, HelperVariable::Gid) {
            Err(error) => Some(error),
            Ok(gid) => match variable_ids(environment.groups, HelperVariable::Groups) {
                Err(error) => Some(error),
                Ok(groups) => process_fault(process, platform, uid, gid, groups),
            },
        },
    }
}

/// Reads the id that a variable holds.
pub fn read_id(value: &EnvText, name: HelperVariable) -> (r: Result<u32, CredentialError>)
    ensures
        r == variable_id(*value, name),
{
    match value {
        EnvText::Missing => Err(CredentialError::Missing(name)),
        EnvText::NotUnicode(shown) => Err(CredentialError::NotUnicode(name, shown.clone())),
        EnvText::Text(text) => match read_u32(text.as_str()) {
            Ok(id) => Ok(id),
            Err(fault) => Err(CredentialError::NotANumber(name, fault)),
        },
    }
}

/// Reads the ids that a variable lists.
pub fn read_ids(value: &EnvText, name: HelperVariable) -> (r: Result<Vec<u32>, CredentialError>)
    ensures
        match r {
            Ok(ids) => variable_ids(*value, name) == Ok::<Seq<u32>, CredentialError>(ids@),
            Err(error) => variable_ids(*value, name) == Err::<Seq<u32>, CredentialError>(error),
        },
{
    match value {
        EnvText::Missing => Err(CredentialError::Missing(name)),
        EnvText::NotUnicode(shown) => Err(CredentialError::NotUnicode(name, shown.clone())),
        EnvText::Text(text) => match parse_ids(text.as_str()) {
            Ok(ids) => Ok(ids),
            Err(fault) => Err(CredentialError::NotANumber(name, fault)),
        },
    }
}

/// Lets the helper run only as the user it was started for, who is not root,
/// with exactly that user's groups.
pub fn validate_credentials(
    environment: &HelperEnvironment,
    process: &ProcessCredentials,
    platform: Platform,
) -> (r: Result<(), CredentialError>)
    ensures
        match r {
            Ok(()) => credential_fault(*environment, *process, platform) is None,
            Err(error) => credential_fault(*environment, *process, platform) == Some(error),
        },
{
    let uid: u32 = match read_id(&environment.uid, HelperVariable::Uid) {
        Ok(uid) => uid,
        Err(error) => return Err(error),
    };
    let gid: u32 = match read_id(&environment.gid, HelperVariable::Gid) {
        Ok(gid) => gid,
        Err(error) => return Err(error),
    };
    let expected: Vec<u32> = match read_ids(&environment.groups, HelperVariable::Groups) {
        Ok(groups) => groups,
        Err(error) => return Err(error),
    };
    if uid == 0 || process.uid != uid || process.euid != uid {
        return Err(CredentialError::InvalidUid);
    }
    if process.gid != gid || process.egid != gid {
        return Err(CredentialError::InvalidGid);
    }
    let groups: Vec<u32> = match process.groups.read() {
        Some(groups) => groups,
        None => return Err(CredentialError::UnreadableGroups),
    };
    if !same_ids(groups, expected) {
        return Err(CredentialError::InvalidGroups);
    }
    if platform.has_saved_ids() {
        let uids: IdTriple = match process.uids {
            Some(uids) => uids,
            None => return Err(CredentialError::UnreadableUids),
        };
        let gids: IdTriple = match process.gids {
            Some(gids) => gids,
            None => return Err(CredentialError::UnreadableGids),
        };
        if !uids.are_all(uid) {
            return Err(CredentialError::InvalidSavedUid);
        }
        if !gids.are_all(gid) {
            return Err(CredentialError::InvalidSavedGid);
        }
    }
    Ok(())
}

/// Whether variables announce a user in the notation that a caller of the
/// helper writes.
pub open spec fn announces(
    environment: HelperEnvironment,
    uid: u32,
    gid: u32,
    groups: Seq<u32>,
) -> bool {
    &&& environment.uid matches EnvText::Text(text) && text@ == decimal(uid as nat)
    &&& environment.gid matches EnvText::Text(text) && text@ == decimal(gid as nat)
    &&& environment.groups matches EnvText::Text(text) && text@ == listed_ids(groups)
}

/// A helper that was told whom it stands for is judged by exactly those ids.
pub proof fn lemma_announced_user_is_judged(
    environment: HelperEnvironment,
    process: ProcessCredentials,
    platform: Platform,
    uid: u32,
    gid: u32,
    groups: Seq<u32>,
)
    requires
        announces(environment, uid, gid, groups),
        groups.len() > 0,
    ensures
        credential_fault(environment, process, platform) == process_fault(
            process,
            platform,
            uid,
            gid,
            groups,
        ),
{
    lemma_decimal_round_trip(uid);
    lemma_decimal_round_trip(gid);
    lemma_listed_ids_round_trip(groups);
}

/// A helper that runs does not run as root, and holds no id and no group but
/// those it was told.
pub proof fn lemma_accepted_helper_is_the_user(
    environment: HelperEnvironment,
    process: ProcessCredentials,
    platform: Platform,
)
    requires
        credential_fault(environment, process, platform) is None,
    ensures
        process.uid != 0 && process.euid != 0,
        variable_id(environment.uid, HelperVariable::Uid) == Ok::<u32, CredentialError>(
            process.uid,
        ),
        process.euid == process.uid,
        variable_id(environment.gid, HelperVariable::Gid) == Ok::<u32, CredentialError>(
            process.gid,
        ),
        process.egid == process.gid,
        variable_ids(environment.groups, HelperVariable::Groups) is Ok,
        process.groups.ids() is Some,
        process.groups.ids()->0.to_set() == variable_ids(
            environment.groups,
            HelperVariable::Groups,
        )->Ok_0.to_set(),
        platform.saved_ids() ==> process.uids->0.all(process.uid) && process.gids->0.all(
            process.gid,
        ),
{
}

} // verus!
