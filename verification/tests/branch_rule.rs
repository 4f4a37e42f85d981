//! Branch and rule decoding and building.

use droute::{
    BranchBuilder, DecodeError, DomainBuilder, Field, QueryBuilder, ResourceType, RuleBuildError,
    RuleBuilder, Value,
};

fn s(x: &str) -> Value {
    Value::Str(x.to_string())
}

fn rec(key: &str, v: Value) -> Value {
    Value::Record(vec![Field { key: key.to_string(), value: v }])
}

fn query(tag: &str) -> Value {
    rec("query", s(tag))
}

fn field(key: &str, v: Value) -> Field {
    Field { key: key.to_string(), value: v }
}

type RB = RuleBuilder<DomainBuilder, QueryBuilder>;

#[test]
fn branch_actions_then_label_built_in_order() {
    let elems = vec![query("domestic"), query("overseas"), s("next_rule")];
    let b = BranchBuilder::<QueryBuilder>::decode(&elems).ok().unwrap();
    assert_eq!(b.action_count(), 2);
    assert_eq!(b.next_label().text().as_str(), "next_rule");
    let (acts, next) = b.build().ok().unwrap();
    assert_eq!(acts.len(), 2);
    assert_eq!(acts[0].upstream().as_str(), "domestic");
    assert_eq!(acts[1].upstream().as_str(), "overseas");
    assert_eq!(next.text().as_str(), "next_rule");
}

#[test]
fn branch_label_alone_is_empty_branch() {
    let elems = vec![s("end")];
    let b = BranchBuilder::<QueryBuilder>::decode(&elems).ok().unwrap();
    assert_eq!(b.action_count(), 0);
    assert!(b.next_label().is_end());
}

#[test]
fn branch_without_label_fails() {
    let r = BranchBuilder::<QueryBuilder>::decode(&vec![query("a")]);
    assert!(matches!(r, Err(DecodeError::MissingNextLabel)));
}

#[test]
fn branch_empty_sequence_fails() {
    let r = BranchBuilder::<QueryBuilder>::decode(&vec![]);
    assert!(matches!(r, Err(DecodeError::MissingNextLabel)));
}

#[test]
fn branch_element_after_label_fails() {
    let r = BranchBuilder::<QueryBuilder>::decode(&vec![query("a"), s("end"), query("b")]);
    assert!(matches!(r, Err(DecodeError::ExtraElementAfterLabel)));
}

#[test]
fn branch_invalid_element_fails_with_position() {
    let r = BranchBuilder::<QueryBuilder>::decode(&vec![query("a"), Value::List(vec![])]);
    assert!(matches!(r, Err(DecodeError::InvalidBranchElement(1))));
}

#[test]
fn rule_unknown_key_fails_to_decode() {
    let conf = Value::Record(vec![
        field("if", Value::List(vec![rec("qname", s("example.com"))])),
        field("unless", Value::List(vec![s("end")])),
    ]);
    match RB::decode(&conf) {
        Err(DecodeError::UnknownField(k)) => assert_eq!(k.as_str(), "unless"),
        _ => panic!("expected an unknown-field decode error"),
    }
}

#[test]
fn rule_duplicate_key_fails_to_decode() {
    let conf = Value::Record(vec![
        field("if", Value::List(vec![rec("qname", s("example.com"))])),
        field("if", Value::List(vec![])),
    ]);
    match RB::decode(&conf) {
        Err(DecodeError::DuplicateField(k)) => assert_eq!(k.as_str(), "if"),
        _ => panic!("expected a duplicate-field decode error"),
    }
}

#[test]
fn rule_missing_matcher_fails_to_decode() {
    let conf = Value::Record(vec![field("then", Value::List(vec![s("end")]))]);
    assert!(matches!(RB::decode(&conf), Err(DecodeError::MissingMatcher)));
}

#[test]
fn rule_bad_matcher_value_fails_to_decode() {
    let conf = Value::Record(vec![field("if", s("example.com"))]);
    assert!(matches!(RB::decode(&conf), Err(DecodeError::InvalidMatcher)));
    let conf2 = Value::Record(vec![field("if", Value::List(vec![rec("bogus", s("x"))]))]);
    assert!(matches!(RB::decode(&conf2), Err(DecodeError::InvalidMatcher)));
}

#[test]
fn rule_non_record_fails_to_decode() {
    assert!(matches!(RB::decode(&s("x")), Err(DecodeError::ExpectedRecord)));
}

#[test]
fn rule_branch_not_a_list_fails_to_decode() {
    let conf = Value::Record(vec![
        field("if", Value::List(vec![rec("qname", s("example.com"))])),
        field("then", s("end")),
    ]);
    assert!(matches!(RB::decode(&conf), Err(DecodeError::ExpectedSequence)));
}

#[test]
fn omitted_branch_equals_empty_branch_to_end() {
    let omitted = Value::Record(vec![field("if", Value::List(vec![rec("qname", s("a.test"))]))]);
    let explicit = Value::Record(vec![
        field("if", Value::List(vec![rec("qname", s("a.test"))])),
        field("then", Value::List(vec![s("end")])),
        field("else", Value::List(vec![s("end")])),
    ]);
    let r1 = match RB::decode(&omitted) {
        Ok(rb) => rb,
        Err(e) => panic!("decode failed: {:?}", e),
    };
    let r2 = match RB::decode(&explicit) {
        Ok(rb) => rb,
        Err(e) => panic!("decode failed: {:?}", e),
    };
    assert_eq!(r1.on_match.action_count(), 0);
    assert!(r1.on_match.next_label().is_end());
    assert_eq!(r1.no_match.action_count(), 0);
    assert!(r1.no_match.next_label().is_end());
    assert_eq!(r2.on_match.action_count(), 0);
    assert!(r2.on_match.next_label().is_end());
    assert_eq!(r2.no_match.action_count(), 0);
    assert!(r2.no_match.next_label().is_end());
}

#[test]
fn rule_matcher_build_failure_is_wrapped() {
    let conf = Value::Record(vec![field(
        "if",
        Value::List(vec![rec("file", s("/no/such/list"))]),
    )]);
    let rb = match RB::decode(&conf) {
        Ok(rb) => rb,
        Err(e) => panic!("decode failed: {:?}", e),
    };
    match rb.build() {
        Err(RuleBuildError::Matcher(droute::BuildError::UnresolvedFile(p))) => {
            assert_eq!(p.as_str(), "/no/such/list")
        },
        _ => panic!("expected the matcher's build failure, wrapped"),
    }
}

#[test]
fn builder_constructors_carry_their_parts() {
    let b = BranchBuilder::new(
        vec![QueryBuilder::new("up".to_string())],
        droute::Label::new("next".to_string()),
    );
    assert_eq!(b.action_count(), 1);
    assert_eq!(b.next_label().text().as_str(), "next");
    let rb: RB = RuleBuilder::new(
        DomainBuilder::new().add_qnmae("a.test".to_string()),
        BranchBuilder::default(),
        BranchBuilder::default(),
    );
    assert_eq!(
        rb.matcher.resources(),
        &vec![ResourceType::Qname("a.test".to_string())]
    );
    assert!(rb.on_match.next_label().is_end());
    assert_eq!(rb.on_match.action_count(), 0);
}
