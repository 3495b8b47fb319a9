//! The operating systems whose rules differ.

use vstd::prelude::*;

verus! {

#[derive(Clone, Copy, PartialEq, Eq, Structural, Debug)]
pub enum Platform {
    Linux,
    FreeBsd,
    MacOs,
    OtherUnix,
    Windows,
}

impl Platform {
    pub open spec fn unix(self) -> bool {
        self != Platform::Windows
    }

    /// Whether saved user and group ids can be read.
    pub open spec fn saved_ids(self) -> bool {
        self == Platform::Linux || self == Platform::FreeBsd
    }

    pub fn is_unix(self) -> (r: bool)
        ensures
            r == self.unix(),
            r <==> self != Platform::Windows,
    {
        self != Platform::Windows
    }

    pub fn has_saved_ids(self) -> (r: bool)
        ensures
            r == self.saved_ids(),
            r <==> self == Platform::Linux || self == Platform::FreeBsd,
    {
        self == Platform::Linux || self == Platform::FreeBsd
    }
}

} // verus!
