//! The operating systems, as far as the rules differ between them.
use vstd::prelude::*;

verus! {

/// An operating system.
#[derive(Clone, Copy, Debug, PartialEq, Eq, Structural)]
pub enum Platform {
    /// Linux.
    Linux,
    /// macOS.
    MacOs,
    /// Any other Unix.
    OtherUnix,
    /// Windows.
    Windows,
}

impl Platform {
    /// Whether this is Windows.
    pub open spec fn spec_is_windows(self) -> bool {
        self == Platform::Windows
    }

    /// Whether this is Windows.
    #[verifier::when_used_as_spec(spec_is_windows)]
    pub fn is_windows(self) -> (r: bool)
        ensures
            r == self.is_windows(),
    {
        match self {
            Platform::Windows => true,
            _ => false,
        }
    }
}

/// Of the systems, only Windows is Windows.
pub proof fn law_only_windows_is_windows(platform: Platform)
    ensures
        platform.is_windows() <==> platform == Platform::Windows,
        !Platform::Linux.is_windows() && !Platform::MacOs.is_windows()
            && !Platform::OtherUnix.is_windows() && Platform::Windows.is_windows(),
{
}

} // verus!
