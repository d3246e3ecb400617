use vstd::prelude::*;

verus! {

/// The traversal policy of one walk.
#[derive(Clone, Copy, Debug, PartialEq, Eq, Structural)]
pub struct Config {
    /// Symbolic links are followed when directories are opened, and a
    /// directory is examined a second time through them.
    pub follow_symlinks: bool,
    /// Loops are looked for strictly. Relaxing this is only meaningful when
    /// symbolic links are followed.
    pub strict_loop: bool,
}

/// Why a policy is refused.
#[derive(Clone, Copy, Debug, PartialEq, Eq, Structural)]
pub enum ConfigError {
    /// The search for loops was relaxed although symbolic links are not
    /// followed.
    RelaxedLoopNeedsFollow,
}

/// How one path component is opened: always read-only and as a directory.
#[derive(Clone, Copy, Debug, PartialEq, Eq, Structural)]
pub struct OpenMode {
    pub read_only: bool,
    pub directory_only: bool,
    pub no_follow: bool,
}

impl Config {
    /// A policy is valid unless it relaxes the search for loops without
    /// following symbolic links.
    pub open spec fn valid(&self) -> bool {
        self.follow_symlinks || self.strict_loop
    }

    /// The policy with these two switches, or the reason why it is refused.
    pub fn new(follow_symlinks: bool, strict_loop: bool) -> (r: Result<Config, ConfigError>)
        ensures
            r is Ok <==> follow_symlinks || strict_loop,
            r is Ok ==> r->Ok_0 == (Config { follow_symlinks, strict_loop }),
            r is Err ==> r->Err_0 == ConfigError::RelaxedLoopNeedsFollow,
    {
        if !follow_symlinks && !strict_loop {
            Err(ConfigError::RelaxedLoopNeedsFollow)
        } else {
            Ok(Config { follow_symlinks, strict_loop })
        }
    }

    /// Whether the policy is valid.
    pub fn is_valid(&self) -> (r: bool)
        ensures
            r == self.valid(),
    {
        self.follow_symlinks || self.strict_loop
    }

    /// The mode in which a path component is opened. The first component,
    /// the root, is never entered through a symbolic link; the others follow
    /// the policy.
    pub fn open_mode(&self, first: bool) -> (r: OpenMode)
        ensures
            r.read_only,
            r.directory_only,
            r.no_follow == (first || !self.follow_symlinks),
    {
        OpenMode { read_only: true, directory_only: true, no_follow: first || !self.follow_symlinks }
    }
}

} // verus!
