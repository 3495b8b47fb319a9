//! Changes to the environment of a program that is about to be started.

use crate::path::FilePath;
use vstd::prelude::*;
use vstd::slice::slice_to_vec;

verus! {

/// The variables that are set or taken away.
#[derive(Clone, Copy, PartialEq, Eq, Structural, Debug)]
pub enum EnvName {
    DoasUser,
    HelperGid,
    HelperGroups,
    HelperUid,
    Home,
    Logname,
    Mail,
    Oldpwd,
    Pwd,
    Shell,
    SudoCommand,
    SudoGid,
    SudoUid,
    SudoUser,
    User,
    Username,
    XdgCacheHome,
    XdgConfigHome,
    XdgDataHome,
    XdgRuntimeDir,
}

pub open spec fn variable_name(name: EnvName) -> Seq<char> {
    match name {
        EnvName::DoasUser => "DOAS_USER"@,
        EnvName::HelperGid => "ELIO_HELPER_GID"@,
        EnvName::HelperGroups => "ELIO_HELPER_GROUPS"@,
        EnvName::HelperUid => "ELIO_HELPER_UID"@,
        EnvName::Home => "HOME"@,
        EnvName::Logname => "LOGNAME"@,
        EnvName::Mail => "MAIL"@,
        EnvName::Oldpwd => "OLDPWD"@,
        EnvName::Pwd => "PWD"@,
        EnvName::Shell => "SHELL"@,
        EnvName::SudoCommand => "SUDO_COMMAND"@,
        EnvName::SudoGid => "SUDO_GID"@,
        EnvName::SudoUid => "SUDO_UID"@,
        EnvName::SudoUser => "SUDO_USER"@,
        EnvName::User => "USER"@,
        EnvName::Username => "USERNAME"@,
        EnvName::XdgCacheHome => "XDG_CACHE_HOME"@,
        EnvName::XdgConfigHome => "XDG_CONFIG_HOME"@,
        EnvName::XdgDataHome => "XDG_DATA_HOME"@,
        EnvName::XdgRuntimeDir => "XDG_RUNTIME_DIR"@,
    }
}

impl EnvName {
    pub fn as_str(self) -> (r: &'static str)
        ensures
            r@ == variable_name(self),
    {
        match self {
            EnvName::DoasUser => "DOAS_USER",
            EnvName::HelperGid => "ELIO_HELPER_GID",
            EnvName::HelperGroups => "ELIO_HELPER_GROUPS",
            EnvName::HelperUid => "ELIO_HELPER_UID",
            EnvName::Home => "HOME",
            EnvName::Logname => "LOGNAME",
            EnvName::Mail => "MAIL",
            EnvName::Oldpwd => "OLDPWD",
            EnvName::Pwd => "PWD",
            EnvName::Shell => "SHELL",
            EnvName::SudoCommand => "SUDO_COMMAND",
            EnvName::SudoGid => "SUDO_GID",
            EnvName::SudoUid => "SUDO_UID",
            EnvName::SudoUser => "SUDO_USER",
            EnvName::User => "USER",
            EnvName::Username => "USERNAME",
            EnvName::XdgCacheHome => "XDG_CACHE_HOME",
            EnvName::XdgConfigHome => "XDG_CONFIG_HOME",
            EnvName::XdgDataHome => "XDG_DATA_HOME",
            EnvName::XdgRuntimeDir => "XDG_RUNTIME_DIR",
        }
    }
}

/// A variable and its new value, or that it is taken away.
#[derive(Debug)]
pub struct EnvChange {
    pub name: EnvName,
    pub value: Option<Vec<u8>>,
}

/// Changes in the order in which they are made: the last one to a variable
/// counts.
#[derive(Debug)]
pub struct EnvChanges {
    pub changes: Vec<EnvChange>,
}

pub open spec fn change_value(value: Option<Vec<u8>>) -> Option<Seq<u8>> {
    match value {
        Some(bytes) => Some(bytes@),
        None => None,
    }
}

/// What a sequence of changes comes to.
pub open spec fn applied(changes: Seq<EnvChange>) -> Map<EnvName, Option<Seq<u8>>>
    decreases changes.len(),
{
    if changes.len() == 0 {
        Map::empty()
    } else {
        applied(changes.drop_last()).insert(
            changes.last().name,
            change_value(changes.last().value),
        )
    }
}

impl View for EnvChanges {
    type V = Map<EnvName, Option<Seq<u8>>>;

    open spec fn view(&self) -> Map<EnvName, Option<Seq<u8>>> {
        applied(self.changes@)
    }
}

/// The change to one variable, if there is one.
pub open spec fn change_of(changes: Map<EnvName, Option<Seq<u8>>>, name: EnvName) -> Option<
    Option<Seq<u8>>,
> {
    if changes.dom().contains(name) {
        Some(changes[name])
    } else {
        None
    }
}

impl EnvChanges {
    pub fn new() -> (r: EnvChanges)
        ensures
            r@ == Map::<EnvName, Option<Seq<u8>>>::empty(),
    {
        EnvChanges { changes: Vec::new() }
    }

    /// Sets a variable.
    pub fn set(&mut self, name: EnvName, value: &[u8])
        ensures
            final(self)@ == old(self)@.insert(name, Some(value@)),
    {
        let ghost before = self.changes@;
        self.changes.push(EnvChange { name, value: Some(slice_to_vec(value)) });
        assert(self.changes@.drop_last() =~= before);
    }

    /// Takes a variable away.
    pub fn remove(&mut self, name: EnvName)
        ensures
            final(self)@ == old(self)@.insert(name, None),
    {
        let ghost before = self.changes@;
        self.changes.push(EnvChange { name, value: None });
        assert(self.changes@.drop_last() =~= before);
    }

    /// Sets a variable to a path, where there is one.
    pub fn set_path(&mut self, name: EnvName, path: &Option<FilePath>)
        ensures
            final(self)@ == match *path {
                Some(path) => old(self)@.insert(name, Some(path@)),
                None => old(self)@,
            },
    {
        if let Some(path) = path {
            self.set(name, path.bytes.as_slice());
        }
    }

    /// The change to one variable: none, taken away, or its new value.
    pub fn get(&self, name: EnvName) -> (r: Option<Option<Vec<u8>>>)
        ensures
            match r {
                None => change_of(self@, name) is None,
                Some(value) => change_of(self@, name) == Some(change_value(value)),
            },
    {
        let mut i: usize = self.changes.len();
        assert(self.changes@.take(i as int) =~= self.changes@);
        while i > 0
            invariant
                i <= self.changes@.len(),
                change_of(self@, name) == change_of(applied(self.changes@.take(i as int)), name),
            decreases i,
        {
            let ghost before = self.changes@.take(i as int);
            i = i - 1;
            assert(before.drop_last() =~= self.changes@.take(i as int));
            assert(before.last() == self.changes@[i as int]);
            let change: &EnvChange = &self.changes[i];
            if change.name == name {
                return match &change.value {
                    Some(bytes) => Some(Some(slice_to_vec(bytes.as_slice()))),
                    None => Some(None),
                };
            }
        }
        None
    }
}

} // verus!
