//! Builder interfaces: the factory abstraction that turns a decoded
//! configuration value into a runtime matcher or action.
//!
//! Builders are consumed exactly once by a fallible build step; the objects
//! they yield are immutable afterwards and shared read-only by every
//! concurrent query evaluation.

use vstd::prelude::*;

use crate::errors::BuildError;
use crate::value::Value;

verus! {

/// A runtime matcher: a pure, total predicate on the queried name that
/// decides on-match versus no-match routing. It never fails and holds no
/// mutable state, so concurrent evaluations may share it freely.
pub trait Matcher {
    /// Well-formedness of the matcher's internal structure. The builder
    /// establishes it; nothing mutates a built matcher, so it holds for the
    /// matcher's whole life.
    spec fn wf(&self) -> bool;

    /// The language of the matcher: which queried names it accepts.
    spec fn matches_spec(&self, name: Seq<char>) -> bool;

    /// Decide whether the queried name is accepted.
    fn matches(&self, name: &str) -> (r: bool)
        requires
            self.wf(),
        ensures
            r == self.matches_spec(name@),
    ;
}

/// A matcher-configuration: decoded from a configuration value, consumed
/// once by a fallible build step that yields the runtime matcher.
pub trait MatcherBuilder: Sized {
    /// The runtime matcher this configuration builds.
    type Built: Matcher;

    /// Which configuration values decode as a matcher-configuration.
    spec fn decodable(v: Value) -> bool;

    /// How a decoded matcher-configuration relates to the value it was
    /// decoded from.
    spec fn is_decoding_of(self, v: Value) -> bool;

    /// Attempt to decode a configuration value as a matcher-configuration.
    fn try_decode(v: &Value) -> (r: Option<Self>)
        ensures
            r matches Some(b) ==> Self::decodable(*v) && b.is_decoding_of(*v),
            r is None ==> !Self::decodable(*v),
    ;

    /// Whether this configuration's build step is owed success.
    spec fn build_succeeds(self) -> bool;

    /// How a built matcher relates to the configuration it was built from.
    spec fn builds_to(self, m: Self::Built) -> bool;

    /// Build the runtime matcher; consumed exactly once.
    fn build(self) -> (r: Result<Self::Built, BuildError>)
        ensures
            self.build_succeeds() ==> r is Ok,
            r matches Ok(m) ==> self.builds_to(m) && m.wf(),
    ;
}

/// An action-configuration: decoded from a configuration value, consumed
/// once by a fallible build step that yields the runtime action. What a
/// built action does when executed is the action subsystem's contract, not
/// this core's.
pub trait ActionBuilder: Sized {
    /// The runtime action this configuration builds.
    type Built;

    /// Which configuration values decode as an action-configuration.
    spec fn decodable(v: Value) -> bool;

    /// How a decoded action-configuration relates to the value it was
    /// decoded from.
    spec fn is_decoding_of(self, v: Value) -> bool;

    /// Attempt to decode a configuration value as an action-configuration.
    fn try_decode(v: &Value) -> (r: Option<Self>)
        ensures
            r matches Some(b) ==> Self::decodable(*v) && b.is_decoding_of(*v),
            r is None ==> !Self::decodable(*v),
    ;

    /// Whether this configuration's build step is owed success.
    spec fn build_succeeds(self) -> bool;

    /// How a built action relates to the configuration it was built from.
    spec fn builds_to(self, a: Self::Built) -> bool;

    /// Build the runtime action; consumed exactly once.
    fn build(self) -> (r: Result<Self::Built, BuildError>)
        ensures
            self.build_succeeds() ==> r is Ok,
            r matches Ok(a) ==> self.builds_to(a),
    ;
}

} // verus!
