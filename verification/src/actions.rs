//! A built-in action kind: forwarding the query to a named upstream.
//!
//! What an action does when a branch runs it belongs to the action
//! subsystem; this core only decodes, orders and builds the
//! configurations. One concrete kind ships with the core so the branch
//! and rule machinery can be exercised end to end.

use vstd::prelude::*;

use crate::builders::ActionBuilder;
use crate::errors::BuildError;
use crate::value::Value;

verus! {

/// The configuration of a query action: a one-key record, `query`, naming
/// the upstream the query is forwarded to.
pub struct QueryBuilder {
    upstream: String,
}

/// The built query action: carries the upstream tag the routing table's
/// action runner forwards to.
pub struct Query {
    upstream: String,
}

impl QueryBuilder {
    /// The named upstream.
    pub closed spec fn upstream_spec(&self) -> Seq<char> {
        self.upstream@
    }

    /// Create a query action-configuration directly.
    pub fn new(upstream: String) -> (r: Self)
        ensures
            r.upstream_spec() == upstream@,
    {
        QueryBuilder { upstream }
    }
}

impl Query {
    /// The named upstream.
    pub closed spec fn upstream_spec(&self) -> Seq<char> {
        self.upstream@
    }

    /// The upstream tag this action forwards to.
    pub fn upstream(&self) -> (r: &String)
        ensures
            r@ == self.upstream_spec(),
    {
        &self.upstream
    }
}

impl ActionBuilder for QueryBuilder {
    type Built = Query;

    /// A query action-configuration is the one-key record
    /// `{"query": "<upstream>"}`.
    open spec fn decodable(v: Value) -> bool {
        match v {
            Value::Record(fs) => fs@.len() == 1 && fs@[0].key@ == "query"@ && fs@[0].value
                matches Value::Str(_),
            _ => false,
        }
    }

    closed spec fn is_decoding_of(self, v: Value) -> bool {
        Self::decodable(v) && (match v {
            Value::Record(fs) => match fs@[0].value {
                Value::Str(s) => self.upstream@ == s@,
                _ => false,
            },
            _ => false,
        })
    }

    fn try_decode(v: &Value) -> (r: Option<Self>) {
        match v {
            Value::Record(fs) => {
                if fs.len() == 1 {
                    let f = &fs[0];
                    if f.key == "query".to_owned() {
                        match &f.value {
                            Value::Str(s) => Some(QueryBuilder { upstream: s.clone() }),
                            _ => None,
                        }
                    } else {
                        None
                    }
                } else {
                    None
                }
            },
            _ => None,
        }
    }

    /// Building a query action never fails: it only captures the tag.
    open spec fn build_succeeds(self) -> bool {
        true
    }

    closed spec fn builds_to(self, a: Query) -> bool {
        a.upstream@ == self.upstream@
    }

    fn build(self) -> (r: Result<Query, BuildError>) {
        Ok(Query { upstream: self.upstream })
    }
}

} // verus!
