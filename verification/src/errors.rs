//! Error taxonomy: decode errors (the configuration is structurally
//! invalid) and build errors (the one-time build phase failed).

use vstd::prelude::*;

verus! {

/// A decode error: the configuration value is structurally invalid. Raised
/// while the configuration is decoded, before any build step runs.
#[derive(Clone, Debug, PartialEq, Eq)]
pub enum DecodeError {
    /// A branch sequence was exhausted before any element decoded as a label.
    MissingNextLabel,
    /// A further element followed the branch's label.
    ExtraElementAfterLabel,
    /// The element at this position decoded as neither an
    /// action-configuration nor a label.
    InvalidBranchElement(usize),
    /// A rule record held this unrecognized key.
    UnknownField(String),
    /// A rule record held this recognized key more than once.
    DuplicateField(String),
    /// A rule record held no matcher-configuration.
    MissingMatcher,
    /// The value under the matcher key did not decode as a
    /// matcher-configuration.
    InvalidMatcher,
    /// A rule configuration was not a record.
    ExpectedRecord,
    /// A branch configuration was not a list.
    ExpectedSequence,
}

/// A build error: the one-time build phase failed. The startup sequence must
/// abort; no partially built object is ever put into service.
#[derive(Clone, Debug, PartialEq, Eq)]
pub enum BuildError {
    /// A domain-set resource still names this file path: reading files is
    /// the caller's affair, and the caller did not replace the entry with
    /// the file's text before building.
    UnresolvedFile(String),
    /// This line of a domain-set source passed the character filter but is
    /// not a structurally valid domain name.
    InvalidDomainName(String),
}

/// A branch build error: the build of the action-configuration at this
/// position failed.
#[derive(Clone, Debug, PartialEq, Eq)]
pub struct BranchBuildError {
    /// The position, within the branch's action sequence, of the
    /// configuration whose build failed.
    pub pos: usize,
    /// The underlying build error.
    pub source: BuildError,
}

/// A rule build error: which of the rule's components failed to build, with
/// the underlying error.
#[derive(Clone, Debug, PartialEq, Eq)]
pub enum RuleBuildError {
    /// The matcher-configuration failed to build.
    Matcher(BuildError),
    /// The branch taken on a match failed to build.
    OnMatch(BranchBuildError),
    /// The branch taken on no match failed to build.
    NoMatch(BranchBuildError),
}

} // verus!
