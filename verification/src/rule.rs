//! Branches and rules: the structural decoder that turns configuration
//! values into builders, and the one-time build step that turns builders
//! into immutable, label-linked rules.

use vstd::prelude::*;

use crate::builders::{ActionBuilder, Matcher, MatcherBuilder};
use crate::errors::{BranchBuildError, DecodeError, RuleBuildError};
use crate::label::{end_label, Label};
use crate::value::{Field, Value};

verus! {

/// The shape of a branch configuration from position `i` on: each value is
/// tried as an action-configuration first, then as a label. The first
/// label ends the action collection and becomes the branch's `next`; it
/// must be the last element, and the sequence must not run out before it.
pub open spec fn branch_shape<A: ActionBuilder>(elems: Seq<Value>, i: int) -> Result<
    (Seq<Value>, Seq<char>),
    DecodeError,
>
    recommends
        0 <= i <= elems.len(),
    decreases elems.len() - i,
{
    if i >= elems.len() {
        Err(DecodeError::MissingNextLabel)
    } else if A::decodable(elems[i]) {
        match branch_shape::<A>(elems, i + 1) {
            Ok(r) => Ok((seq![elems[i]] + r.0, r.1)),
            Err(e) => Err(e),
        }
    } else {
        match elems[i] {
            Value::Str(s) => if i == elems.len() - 1 {
                Ok((Seq::empty(), s@))
            } else {
                Err(DecodeError::ExtraElementAfterLabel)
            },
            _ => Err(DecodeError::InvalidBranchElement(i as usize)),
        }
    }
}

/// A branch under decode: an ordered sequence of action-configurations and
/// the label of the next rule, always last.
pub struct BranchBuilder<A: ActionBuilder> {
    seq: Vec<A>,
    next: Label,
}

impl<A: ActionBuilder> BranchBuilder<A> {
    /// The queued action-configurations, in declaration order.
    pub closed spec fn seq_spec(&self) -> Seq<A> {
        self.seq@
    }

    /// The captured next label.
    pub closed spec fn next_spec(&self) -> Seq<char> {
        self.next@
    }

    /// The captured next label.
    pub fn next_label(&self) -> (r: &Label)
        ensures
            r@ == self.next_spec(),
    {
        &self.next
    }

    /// How many action-configurations are queued.
    pub fn action_count(&self) -> (r: usize)
        ensures
            r == self.seq_spec().len(),
    {
        self.seq.len()
    }

    /// Create a branch builder from a sequence of action-configurations
    /// and the destination label.
    pub fn new(seq: Vec<A>, next: Label) -> (r: Self)
        ensures
            r.seq_spec() == seq@,
            r.next_spec() == next@,
    {
        BranchBuilder { seq, next }
    }

    /// Decode a branch from a sequence of configuration values, exactly as
    /// `branch_shape` reads it: every collected builder is a decoding of
    /// its element, in order.
    #[verifier::loop_isolation(false)]
    pub fn decode(elems: &Vec<Value>) -> (r: Result<Self, DecodeError>)
        ensures
            match branch_shape::<A>(elems@, 0) {
                Ok(p) => r matches Ok(b) && b.next_spec() == p.1 && b.seq_spec().len()
                    == p.0.len() && (forall|k: int|
                    0 <= k < p.0.len() ==> (#[trigger] b.seq_spec()[k]).is_decoding_of(p.0[k])),
                Err(e) => r == Err::<Self, DecodeError>(e),
            },
    {
        let mut acc: Vec<A> = Vec::new();
        let mut i: usize = 0;
        proof {
            assert(elems@.take(0) =~= Seq::<Value>::empty());
        }
        loop
            invariant
                0 <= i <= elems@.len(),
                acc@.len() == i,
                forall|k: int| 0 <= k < i ==> A::decodable(#[trigger] elems@[k]),
                forall|k: int|
                    0 <= k < i ==> (#[trigger] acc@[k]).is_decoding_of(elems@[k]),
                branch_shape::<A>(elems@, 0) == (match branch_shape::<A>(elems@, i as int) {
                    Ok(p) => Ok::<_, DecodeError>((elems@.take(i as int) + p.0, p.1)),
                    Err(e) => Err::<(Seq<Value>, Seq<char>), DecodeError>(e),
                }),
            decreases elems@.len() - i,
        {
            if i == elems.len() {
                return Err(DecodeError::MissingNextLabel);
            }
            match A::try_decode(&elems[i]) {
                Some(b) => {
                    proof {
                        assert(elems@.take(i + 1) =~= elems@.take(i as int).push(
                            elems@[i as int],
                        ));
                        if let Ok(p) = branch_shape::<A>(elems@, i + 1) {
                            assert(elems@.take(i as int) + (seq![elems@[i as int]] + p.0)
                                =~= elems@.take(i + 1) + p.0);
                        }
                    }
                    acc.push(b);
                },
                None => {
                    match &elems[i] {
                        Value::Str(s) => {
                            if i == elems.len() - 1 {
                                proof {
                                    assert(elems@.take(i as int) + Seq::<Value>::empty()
                                        =~= elems@.take(i as int));
                                }
                                return Ok(
                                    BranchBuilder { seq: acc, next: Label::new(s.clone()) },
                                );
                            } else {
                                return Err(DecodeError::ExtraElementAfterLabel);
                            }
                        },
                        _ => {
                            return Err(DecodeError::InvalidBranchElement(i));
                        },
                    }
                },
            }
            i += 1;
        }
    }

    /// Build the branch: every queued action-configuration is built in
    /// declaration order, fail-fast, with the failing position attached.
    /// The built instances stand in declaration order — it determines
    /// side-effect ordering at evaluation time.
    pub fn build(self) -> (r: Result<(Vec<A::Built>, Label), BranchBuildError>)
        ensures
            (forall|k: int|
                0 <= k < self.seq_spec().len() ==> (
                #[trigger] self.seq_spec()[k]).build_succeeds()) ==> r is Ok,
            r matches Ok(p) ==> p.1@ == self.next_spec() && p.0@.len() == self.seq_spec().len()
                && (forall|k: int|
                0 <= k < p.0@.len() ==> self.seq_spec()[k].builds_to(#[trigger] p.0@[k])),
            r matches Err(e) ==> e.pos < self.seq_spec().len() && !self.seq_spec()[
                e.pos as int
            ].build_succeeds(),
    {
        let BranchBuilder { seq, next } = self;
        let ghost seq0 = seq@;
        let mut rest = seq;
        let mut built: Vec<A::Built> = Vec::new();
        while rest.len() > 0
            invariant
                built@.len() + rest@.len() == seq0.len(),
                rest@ == seq0.skip(built@.len() as int),
                seq0 == self.seq_spec(),
                forall|k: int|
                    0 <= k < built@.len() ==> seq0[k].builds_to(#[trigger] built@[k]),
            decreases rest@.len(),
        {
            let ghost done = built@.len() as int;
            let a = rest.remove(0);
            proof {
                assert(a == seq0[done]);
                assert(seq0.skip(done).remove(0) =~= seq0.skip(done + 1));
            }
            match a.build() {
                Ok(x) => {
                    built.push(x);
                },
                Err(e) => {
                    return Err(BranchBuildError { pos: built.len(), source: e });
                },
            }
        }
        Ok((built, next))
    }
}

impl<A: ActionBuilder> Default for BranchBuilder<A> {
    /// The branch an omitted configuration stands for: no actions, and the
    /// reserved terminal `"end"` as the next label.
    fn default() -> (r: Self)
        ensures
            r.seq_spec() == Seq::<A>::empty(),
            r.next_spec() == end_label(),
    {
        BranchBuilder { seq: Vec::new(), next: Label::end() }
    }
}

/// Walk a rule record's fields with the three slots seen so far: each key
/// must be one of `if`, `then`, `else`, at most once each.
pub open spec fn rule_fields(
    fs: Seq<Field>,
    i: int,
    mv: Option<Value>,
    tv: Option<Value>,
    ev: Option<Value>,
) -> Result<(Option<Value>, Option<Value>, Option<Value>), DecodeError>
    recommends
        0 <= i <= fs.len(),
    decreases fs.len() - i,
{
    if i >= fs.len() {
        Ok((mv, tv, ev))
    } else {
        let f = fs[i];
        if f.key@ == "if"@ {
            if mv is Some {
                Err(DecodeError::DuplicateField(f.key))
            } else {
                rule_fields(fs, i + 1, Some(f.value), tv, ev)
            }
        } else if f.key@ == "then"@ {
            if tv is Some {
                Err(DecodeError::DuplicateField(f.key))
            } else {
                rule_fields(fs, i + 1, mv, Some(f.value), ev)
            }
        } else if f.key@ == "else"@ {
            if ev is Some {
                Err(DecodeError::DuplicateField(f.key))
            } else {
                rule_fields(fs, i + 1, mv, tv, Some(f.value))
            }
        } else {
            Err(DecodeError::UnknownField(f.key))
        }
    }
}

/// The three parts of a rule configuration: the matcher value and the two
/// optional branch values. Only a record with recognized keys and a
/// matcher present passes — the schema is strict.
pub open spec fn rule_parts(v: Value) -> Result<
    (Value, Option<Value>, Option<Value>),
    DecodeError,
> {
    match v {
        Value::Record(fs) => match rule_fields(fs@, 0, None, None, None) {
            Err(e) => Err(e),
            Ok(slots) => match slots.0 {
                Some(m) => Ok((m, slots.1, slots.2)),
                None => Err(DecodeError::MissingMatcher),
            },
        },
        _ => Err(DecodeError::ExpectedRecord),
    }
}

/// What an optional branch value decodes to: an omitted branch stands for
/// no actions targeting `"end"`; a present one must be a list and is read
/// by `branch_shape`.
pub open spec fn branch_conf_shape<A: ActionBuilder>(ov: Option<Value>) -> Result<
    (Seq<Value>, Seq<char>),
    DecodeError,
> {
    match ov {
        None => Ok((Seq::empty(), end_label())),
        Some(v) => match v {
            Value::List(vs) => branch_shape::<A>(vs@, 0),
            _ => Err(DecodeError::ExpectedSequence),
        },
    }
}

/// A decoded branch builder carries a decoding of each action value, in
/// order, and the label.
pub open spec fn branch_decodes_to<A: ActionBuilder>(
    b: BranchBuilder<A>,
    acts: Seq<Value>,
    l: Seq<char>,
) -> bool {
    b.next_spec() == l && b.seq_spec().len() == acts.len() && (forall|k: int|
        0 <= k < acts.len() ==> (#[trigger] b.seq_spec()[k]).is_decoding_of(acts[k]))
}

/// A rule under decode: a matcher-configuration and the two branches,
/// taken on match and on no match.
pub struct RuleBuilder<M: MatcherBuilder, A: ActionBuilder> {
    /// The matcher the rule uses.
    pub matcher: M,
    /// The branch taken when the matcher matches. Defaults to no actions
    /// targeting `"end"`.
    pub on_match: BranchBuilder<A>,
    /// The branch taken when it does not. Defaults likewise.
    pub no_match: BranchBuilder<A>,
}

/// Spec view of an optional borrowed value.
pub open spec fn opt_value(o: Option<&Value>) -> Option<Value> {
    match o {
        Some(v) => Some(*v),
        None => None,
    }
}

impl<M: MatcherBuilder, A: ActionBuilder> RuleBuilder<M, A> {
    /// Create a rule builder from its three parts.
    pub fn new(matcher: M, on_match: BranchBuilder<A>, no_match: BranchBuilder<A>) -> (r: Self)
        ensures
            r.matcher == matcher,
            r.on_match == on_match,
            r.no_match == no_match,
    {
        RuleBuilder { matcher, on_match, no_match }
    }

    /// Decode a rule from a configuration value: a record with exactly the
    /// keys `if`, `then`, `else` — anything else is rejected. Missing
    /// branches default to no actions targeting `"end"`.
    #[verifier::loop_isolation(false)]
    pub fn decode(v: &Value) -> (r: Result<Self, DecodeError>)
        ensures
            match rule_parts(*v) {
                Err(e) => r == Err::<Self, DecodeError>(e),
                Ok(parts) => if !M::decodable(parts.0) {
                    r == Err::<Self, DecodeError>(DecodeError::InvalidMatcher)
                } else {
                    match branch_conf_shape::<A>(parts.1) {
                        Err(e) => r == Err::<Self, DecodeError>(e),
                        Ok(t) => match branch_conf_shape::<A>(parts.2) {
                            Err(e) => r == Err::<Self, DecodeError>(e),
                            Ok(u) => r matches Ok(rb) && rb.matcher.is_decoding_of(parts.0)
                                && branch_decodes_to::<A>(rb.on_match, t.0, t.1)
                                && branch_decodes_to::<A>(rb.no_match, u.0, u.1),
                        },
                    }
                },
            },
    {
        let fs = match v {
            Value::Record(fs) => fs,
            _ => {
                return Err(DecodeError::ExpectedRecord);
            },
        };
        let mut mv: Option<&Value> = None;
        let mut tv: Option<&Value> = None;
        let mut ev: Option<&Value> = None;
        let mut i: usize = 0;
        while i < fs.len()
            invariant
                0 <= i <= fs@.len(),
                rule_fields(fs@, 0, None, None, None) == rule_fields(
                    fs@,
                    i as int,
                    opt_value(mv),
                    opt_value(tv),
                    opt_value(ev),
                ),
            decreases fs@.len() - i,
        {
            let f = &fs[i];
            if f.key == "if".to_owned() {
                if mv.is_some() {
                    return Err(DecodeError::DuplicateField(f.key.clone()));
                }
                mv = Some(&f.value);
            } else if f.key == "then".to_owned() {
                if tv.is_some() {
                    return Err(DecodeError::DuplicateField(f.key.clone()));
                }
                tv = Some(&f.value);
            } else if f.key == "else".to_owned() {
                if ev.is_some() {
                    return Err(DecodeError::DuplicateField(f.key.clone()));
                }
                ev = Some(&f.value);
            } else {
                return Err(DecodeError::UnknownField(f.key.clone()));
            }
            i += 1;
        }
        let mval = match mv {
            Some(m) => m,
            None => {
                return Err(DecodeError::MissingMatcher);
            },
        };
        let matcher = match M::try_decode(mval) {
            Some(m) => m,
            None => {
                return Err(DecodeError::InvalidMatcher);
            },
        };
        let on_match = match tv {
            None => BranchBuilder::default(),
            Some(bv) => match bv {
                Value::List(vs) => match BranchBuilder::<A>::decode(vs) {
                    Ok(b) => b,
                    Err(e) => {
                        return Err(e);
                    },
                },
                _ => {
                    return Err(DecodeError::ExpectedSequence);
                },
            },
        };
        let no_match = match ev {
            None => BranchBuilder::default(),
            Some(bv) => match bv {
                Value::List(vs) => match BranchBuilder::<A>::decode(vs) {
                    Ok(b) => b,
                    Err(e) => {
                        return Err(e);
                    },
                },
                _ => {
                    return Err(DecodeError::ExpectedSequence);
                },
            },
        };
        Ok(RuleBuilder { matcher, on_match, no_match })
    }

    /// Build the rule: the matcher, then both branches, fail-fast, each
    /// failure wrapped with the component it came from.
    pub fn build(self) -> (r: Result<Rule<M::Built, A::Built>, RuleBuildError>)
        ensures
            (self.matcher.build_succeeds() && (forall|k: int|
                0 <= k < self.on_match.seq_spec().len() ==> (
                #[trigger] self.on_match.seq_spec()[k]).build_succeeds()) && (forall|k: int|
                0 <= k < self.no_match.seq_spec().len() ==> (
                #[trigger] self.no_match.seq_spec()[k]).build_succeeds())) ==> r is Ok,
            r matches Ok(rule) ==> {
                &&& self.matcher.builds_to(rule.matcher)
                &&& rule.matcher.wf()
                &&& rule.on_match.1@ == self.on_match.next_spec()
                &&& rule.on_match.0@.len() == self.on_match.seq_spec().len()
                &&& (forall|k: int|
                    0 <= k < rule.on_match.0@.len() ==> self.on_match.seq_spec()[k].builds_to(
                        #[trigger] rule.on_match.0@[k],
                    ))
                &&& rule.no_match.1@ == self.no_match.next_spec()
                &&& rule.no_match.0@.len() == self.no_match.seq_spec().len()
                &&& (forall|k: int|
                    0 <= k < rule.no_match.0@.len() ==> self.no_match.seq_spec()[k].builds_to(
                        #[trigger] rule.no_match.0@[k],
                    ))
            },
            r matches Err(RuleBuildError::Matcher(_)) ==> !self.matcher.build_succeeds(),
            r matches Err(RuleBuildError::OnMatch(e)) ==> e.pos < self.on_match.seq_spec().len()
                && !self.on_match.seq_spec()[e.pos as int].build_succeeds(),
            r matches Err(RuleBuildError::NoMatch(e)) ==> e.pos < self.no_match.seq_spec().len()
                && !self.no_match.seq_spec()[e.pos as int].build_succeeds(),
    {
        let RuleBuilder { matcher, on_match, no_match } = self;
        let built_matcher = match matcher.build() {
            Ok(m) => m,
            Err(e) => {
                return Err(RuleBuildError::Matcher(e));
            },
        };
        let built_on = match on_match.build() {
            Ok(b) => b,
            Err(e) => {
                return Err(RuleBuildError::OnMatch(e));
            },
        };
        let built_no = match no_match.build() {
            Ok(b) => b,
            Err(e) => {
                return Err(RuleBuildError::NoMatch(e));
            },
        };
        Ok(Rule::new(built_matcher, built_on, built_no))
    }
}

/// A built rule: an immutable matcher plus two built branches, each an
/// ordered action list and the next label. Shared read-only by every
/// concurrent query evaluation; nothing mutates it after the build.
pub struct Rule<M: Matcher, T> {
    /// The matcher deciding which branch a query takes.
    pub matcher: M,
    /// The branch taken when the matcher matches.
    pub on_match: (Vec<T>, Label),
    /// The branch taken when it does not.
    pub no_match: (Vec<T>, Label),
}

impl<M: Matcher, T> Rule<M, T> {
    /// Assemble a rule from a built matcher and two built branches.
    pub fn new(matcher: M, on_match: (Vec<T>, Label), no_match: (Vec<T>, Label)) -> (r: Self)
        ensures
            r.matcher == matcher,
            r.on_match == on_match,
            r.no_match == no_match,
    {
        Rule { matcher, on_match, no_match }
    }

    /// Select the branch the matcher's verdict picks for a queried name:
    /// `on_match` exactly when the matcher accepts it.
    pub fn route(&self, name: &str) -> (r: &(Vec<T>, Label))
        requires
            self.matcher.wf(),
        ensures
            *r == if self.matcher.matches_spec(name@) {
                self.on_match
            } else {
                self.no_match
            },
    {
        if self.matcher.matches(name) {
            &self.on_match
        } else {
            &self.no_match
        }
    }
}

/// A branch sequence in which every element decodes as an
/// action-configuration is exhausted without a label: it fails with
/// `MissingNextLabel`.
pub proof fn lemma_branch_missing_label<A: ActionBuilder>(elems: Seq<Value>, i: int)
    requires
        0 <= i <= elems.len(),
        forall|k: int| i <= k < elems.len() ==> A::decodable(#[trigger] elems[k]),
    ensures
        branch_shape::<A>(elems, i) == Err::<(Seq<Value>, Seq<char>), DecodeError>(
            DecodeError::MissingNextLabel,
        ),
    decreases elems.len() - i,
{
    if i < elems.len() {
        lemma_branch_missing_label::<A>(elems, i + 1);
    }
}

/// Nothing may follow the label: if the element at `j` decodes as the
/// label while further elements follow it, the branch fails with
/// `ExtraElementAfterLabel`.
pub proof fn lemma_branch_extra_element<A: ActionBuilder>(elems: Seq<Value>, i: int, j: int)
    requires
        0 <= i <= j,
        j + 1 < elems.len(),
        forall|k: int| i <= k < j ==> A::decodable(#[trigger] elems[k]),
        !A::decodable(elems[j]),
        elems[j] matches Value::Str(_),
    ensures
        branch_shape::<A>(elems, i) == Err::<(Seq<Value>, Seq<char>), DecodeError>(
            DecodeError::ExtraElementAfterLabel,
        ),
    decreases j - i,
{
    if i < j {
        lemma_branch_extra_element::<A>(elems, i + 1, j);
    }
}

/// Valid action-configurations followed by one label decode to exactly
/// those configurations, in order, with that label as `next`.
pub proof fn lemma_branch_actions_then_label<A: ActionBuilder>(elems: Seq<Value>, i: int)
    requires
        0 <= i < elems.len(),
        forall|k: int| i <= k < elems.len() - 1 ==> A::decodable(#[trigger] elems[k]),
        !A::decodable(elems.last()),
        elems.last() matches Value::Str(_),
    ensures
        branch_shape::<A>(elems, i) matches Ok(p) && p.0 == elems.subrange(i, elems.len() - 1)
            && p.1 == (match elems.last() {
            Value::Str(s) => s@,
            _ => Seq::<char>::empty(),
        }),
    decreases elems.len() - i,
{
    if i == elems.len() - 1 {
        assert(elems.subrange(i, elems.len() - 1) =~= Seq::<Value>::empty());
    } else {
        lemma_branch_actions_then_label::<A>(elems, i + 1);
        assert(seq![elems[i]] + elems.subrange(i + 1, elems.len() - 1) =~= elems.subrange(
            i,
            elems.len() - 1,
        ));
    }
}

/// The text of a configuration value read as a label, if it is one.
pub open spec fn label_of(v: Value) -> Option<Seq<char>> {
    match v {
        Value::Str(s) => Some(s@),
        _ => None,
    }
}

/// Omitting a branch entirely is equivalent to supplying `[]` targeting
/// `"end"`: the list holding just the label `"end"` decodes to the same
/// branch as no list at all.
pub proof fn lemma_omitted_branch_default<A: ActionBuilder>(bv: Value)
    requires
        bv matches Value::List(es) && es@.len() == 1 && label_of(es@[0]) == Some(end_label())
            && !A::decodable(es@[0]),
    ensures
        branch_conf_shape::<A>(Some(bv)) == branch_conf_shape::<A>(None),
{
}

} // verus!
