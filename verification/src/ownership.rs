//! Whether a directory belongs to a user, judged by what exists on the way to it.

use crate::path::{ancestors_of, is_absolute, FilePath};
use crate::platform::Platform;
use vstd::prelude::*;

verus! {

/// What the file system says of a path.
#[derive(Clone, Copy, PartialEq, Eq, Structural, Debug)]
pub enum Probe {
    Found { is_dir: bool, uid: u32 },
    NotFound,
    Failed,
}

/// What a probe decides about ownership; a path that does not exist decides
/// nothing.
pub open spec fn probe_verdict(probe: Probe, uid: u32) -> Option<bool> {
    match probe {
        Probe::Found { is_dir, uid: owner } => Some(is_dir && owner == uid),
        Probe::NotFound => None,
        Probe::Failed => Some(false),
    }
}

/// The verdict of the first probe that gives one.
pub open spec fn first_verdict(probes: Seq<Probe>, uid: u32) -> Option<bool>
    decreases probes.len(),
{
    if probes.len() == 0 {
        None
    } else {
        match probe_verdict(probes[0], uid) {
            Some(verdict) => Some(verdict),
            None => first_verdict(probes.drop_first(), uid),
        }
    }
}

/// Whether a path belongs to a user, or which ancestor has to be probed next.
#[derive(Debug)]
pub enum Ownership {
    Decided(bool),
    Probe(FilePath),
}

/// Whether a path belongs to a user, given probes of the path and its
/// ancestors. Where the probes leave it open, it does not.
pub open spec fn owned(path: Seq<u8>, probes: Seq<Probe>, uid: u32) -> bool {
    is_absolute(path) && first_verdict(probes, uid) == Some(true)
}

/// Judges a path by the nearest ancestor that exists. `probes` are the answers
/// for the path, its parent and so on, as far as they were asked for.
pub fn valid_owned_absolute_path(path: &FilePath, probes: &[Probe], uid: u32) -> (r: Ownership)
    ensures
        match r {
            Ownership::Decided(verdict) => {
                &&& verdict == owned(path@, probes@, uid)
                &&& !is_absolute(path@) || first_verdict(probes@, uid) is Some || probes@.len()
                    >= ancestors_of(path@).len()
            },
            Ownership::Probe(ancestor) => {
                &&& is_absolute(path@)
                &&& first_verdict(probes@, uid) is None
                &&& probes@.len() < ancestors_of(path@).len()
                &&& ancestor@ == ancestors_of(path@)[probes@.len() as int]
            },
        },
{
    if !path.is_absolute() {
        return Ownership::Decided(false);
    }
    let mut i: usize = 0;
    assert(probes@.skip(0) =~= probes@);
    while i < probes.len()
        invariant
            i <= probes@.len(),
            is_absolute(path@),
            first_verdict(probes@, uid) == first_verdict(probes@.skip(i as int), uid),
        decreases probes@.len() - i,
    {
        assert(probes@.skip(i as int)[0] == probes@[i as int]);
        assert(probes@.skip(i as int).drop_first() =~= probes@.skip(i + 1));
        match probes[i] {
            Probe::Found { is_dir, uid: owner } => return Ownership::Decided(
                is_dir && owner == uid,
            ),
            Probe::Failed => return Ownership::Decided(false),
            Probe::NotFound => {},
        }
        i = i + 1;
    }
    let ancestors: Vec<FilePath> = path.ancestors();
    if probes.len() < ancestors.len() {
        Ownership::Probe(ancestors[probes.len()].copy())
    } else {
        Ownership::Decided(false)
    }
}

/// A path to keep, or which ancestor has to be probed next.
#[derive(Debug)]
pub enum KeptPath {
    Decided(Option<FilePath>),
    Probe(FilePath),
}

/// Keeps a path that the environment names where it belongs to the user.
pub fn keep_owned_path(value: Option<&FilePath>, probes: &[Probe], uid: u32) -> (r: KeptPath)
    ensures
        match r {
            KeptPath::Decided(Some(path)) => {
                &&& value is Some
                &&& path@ == value->0@
                &&& owned(value->0@, probes@, uid)
            },
            KeptPath::Decided(None) => {
                value is Some ==> {
                    &&& !owned(value->0@, probes@, uid)
                    &&& !is_absolute(value->0@) || first_verdict(probes@, uid) is Some
                        || probes@.len() >= ancestors_of(value->0@).len()
                }
            },
            KeptPath::Probe(ancestor) => {
                &&& value is Some
                &&& is_absolute(value->0@)
                &&& first_verdict(probes@, uid) is None
                &&& probes@.len() < ancestors_of(value->0@).len()
                &&& ancestor@ == ancestors_of(value->0@)[probes@.len() as int]
            },
        },
{
    match value {
        None => KeptPath::Decided(None),
        Some(path) => match valid_owned_absolute_path(path, probes, uid) {
            Ownership::Decided(true) => KeptPath::Decided(Some(path.copy())),
            Ownership::Decided(false) => KeptPath::Decided(None),
            Ownership::Probe(ancestor) => KeptPath::Probe(ancestor),
        },
    }
}

/// The data directory that the environment names, where it is the user's own.
/// macOS keeps none.
pub fn validated_xdg_data_home(
    platform: Platform,
    value: Option<&FilePath>,
    probes: &[Probe],
    uid: u32,
) -> (r: KeptPath)
    ensures
        match r {
            KeptPath::Decided(Some(path)) => {
                &&& platform != Platform::MacOs
                &&& value is Some
                &&& path@ == value->0@
                &&& owned(value->0@, probes@, uid)
            },
            KeptPath::Decided(None) => {
                platform != Platform::MacOs && value is Some ==> {
                    &&& !owned(value->0@, probes@, uid)
                    &&& !is_absolute(value->0@) || first_verdict(probes@, uid) is Some
                        || probes@.len() >= ancestors_of(value->0@).len()
                }
            },
            KeptPath::Probe(ancestor) => {
                &&& platform != Platform::MacOs
                &&& value is Some
                &&& is_absolute(value->0@)
                &&& first_verdict(probes@, uid) is None
                &&& probes@.len() < ancestors_of(value->0@).len()
                &&& ancestor@ == ancestors_of(value->0@)[probes@.len() as int]
            },
        },
{
    if platform == Platform::MacOs {
        KeptPath::Decided(None)
    } else {
        keep_owned_path(value, probes, uid)
    }
}

/// Whether a directory for runtime files is absolute, there and the user's own.
pub fn valid_runtime_dir(path: Option<&FilePath>, probe: Probe, uid: u32) -> (r: bool)
    ensures
        r == (path is Some && is_absolute(path->0@) && probe_verdict(probe, uid) == Some(true)),
{
    match path {
        None => false,
        Some(path) => path.is_absolute() && match probe {
            Probe::Found { is_dir, uid: owner } => is_dir && owner == uid,
            _ => false,
        },
    }
}

/// Once probes decide, further probes change nothing.
pub proof fn lemma_verdict_stays(probes: Seq<Probe>, more: Seq<Probe>, uid: u32)
    requires
        first_verdict(probes, uid) is Some,
    ensures
        first_verdict(probes + more, uid) == first_verdict(probes, uid),
    decreases probes.len(),
{
    assert((probes + more)[0] == probes[0]);
    if probe_verdict(probes[0], uid) is None {
        lemma_verdict_stays(probes.drop_first(), more, uid);
        assert((probes + more).drop_first() =~= probes.drop_first() + more);
    }
}

/// A path that does not exist is judged as its parent is.
pub proof fn lemma_missing_leaf(probes: Seq<Probe>, uid: u32)
    ensures
        first_verdict(seq![Probe::NotFound] + probes, uid) == first_verdict(probes, uid),
{
    assert((seq![Probe::NotFound] + probes).drop_first() =~= probes);
}

} // verus!
