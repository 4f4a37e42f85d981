//! Core of a rule-based DNS query router.
//!
//! A textual configuration is decoded into builder values (rules made of a
//! matcher and two branches, and domain-set loaders), and a one-time build
//! phase turns those builders into immutable runtime objects: label-linked
//! rules and a domain-suffix matcher.

use vstd::prelude::*;

mod actions;
mod builders;
mod domain;
mod errors;
mod label;
mod name;
mod rule;
mod value;

pub use actions::{Query, QueryBuilder};
pub use builders::{ActionBuilder, Matcher, MatcherBuilder};
pub use domain::{into_dnames, Domain, DomainBuilder, ResourceType};
pub use errors::{BranchBuildError, BuildError, DecodeError, RuleBuildError};
pub use label::Label;
pub use name::DomainName;
pub use rule::{BranchBuilder, Rule, RuleBuilder};
pub use value::{Field, Value};

verus! {

} // verus!
