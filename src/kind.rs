use vstd::prelude::*;

verus! {

/// How a package is pulled into its parent, ordered from weakest to strongest.
#[derive(Clone, Copy, Debug, PartialEq, Eq, Structural)]
pub enum DepKind {
    Development,
    Build,
    Normal,
}

impl DepKind {
    /// Strength of the kind: `Development < Build < Normal`.
    pub open spec fn rank(self) -> nat {
        match self {
            DepKind::Development => 0,
            DepKind::Build => 1,
            DepKind::Normal => 2,
        }
    }

    /// The weaker of two kinds.
    pub open spec fn spec_weakest(self, other: DepKind) -> DepKind {
        if self.rank() <= other.rank() {
            self
        } else {
            other
        }
    }

    /// The stronger of two kinds.
    pub open spec fn spec_strongest(self, other: DepKind) -> DepKind {
        if self.rank() >= other.rank() {
            self
        } else {
            other
        }
    }

    /// Strength as a small integer, consistent with `rank`.
    pub fn strength(&self) -> (r: u8)
        ensures
            r as nat == self.rank(),
    {
        match self {
            DepKind::Development => 0,
            DepKind::Build => 1,
            DepKind::Normal => 2,
        }
    }

    /// The weaker of `self` and `other`: a path is never stronger than its weakest link.
    pub fn weakest(&self, other: &DepKind) -> (r: DepKind)
        ensures
            r == self.spec_weakest(*other),
    {
        if self.strength() <= other.strength() {
            *self
        } else {
            *other
        }
    }

    /// The stronger of `self` and `other`.
    pub fn strongest(&self, other: &DepKind) -> (r: DepKind)
        ensures
            r == self.spec_strongest(*other),
    {
        if self.strength() >= other.strength() {
            *self
        } else {
            *other
        }
    }

    /// Whether `self` is strictly stronger than `other`.
    pub fn is_stronger_than(&self, other: &DepKind) -> (r: bool)
        ensures
            r == (self.rank() > other.rank()),
    {
        self.strength() > other.strength()
    }
}

/// Which dependency kinds, besides normal ones, a graph takes in.
#[derive(Clone, Copy, Debug, PartialEq, Eq, Structural)]
pub enum ExtraDeps {
    All,
    Build,
    Dev,
    NoMore,
}

impl ExtraDeps {
    /// Normal edges are always allowed; the policy adds build, development,
    /// both, or neither.
    pub open spec fn spec_allows(self, dep: DepKind) -> bool {
        match (self, dep) {
            (_, DepKind::Normal) => true,
            (ExtraDeps::All, _) => true,
            (ExtraDeps::Build, DepKind::Build) => true,
            (ExtraDeps::Dev, DepKind::Development) => true,
            _ => false,
        }
    }

    pub fn allows(&self, dep: DepKind) -> (r: bool)
        ensures
            r == self.spec_allows(dep),
    {
        match (self, dep) {
            (_, DepKind::Normal) => true,
            (ExtraDeps::All, _) => true,
            (ExtraDeps::Build, DepKind::Build) => true,
            (ExtraDeps::Dev, DepKind::Development) => true,
            _ => false,
        }
    }
}

/// The header that groups a subtree reached through a non-normal edge.
pub fn get_kind_group_name(dep_kind: DepKind) -> (r: Option<&'static str>)
    ensures
        dep_kind == DepKind::Normal ==> r.is_none(),
        dep_kind == DepKind::Build ==> r == Some("[build-dependencies]"),
        dep_kind == DepKind::Development ==> r == Some("[dev-dependencies]"),
{
    match dep_kind {
        DepKind::Normal => None,
        DepKind::Build => Some("[build-dependencies]"),
        DepKind::Development => Some("[dev-dependencies]"),
    }
}

} // verus!
