//! The domain-suffix matcher, its loader, and end-to-end routing.

use droute::{
    BuildError, Domain, DomainBuilder, DomainName, Field, Matcher, MatcherBuilder, QueryBuilder,
    ResourceType, RuleBuilder, Value,
};

fn s(x: &str) -> Value {
    Value::Str(x.to_string())
}

fn rec(key: &str, v: Value) -> Value {
    Value::Record(vec![Field { key: key.to_string(), value: v }])
}

fn field(key: &str, v: Value) -> Field {
    Field { key: key.to_string(), value: v }
}

fn qname_matcher(text: &str) -> Domain {
    match Domain::new(vec![ResourceType::Qname(text.to_string())]) {
        Ok(m) => m,
        Err(e) => panic!("matcher build failed: {:?}", e),
    }
}

#[test]
fn suffix_matching_on_one_entry() {
    let m = qname_matcher("example.com");
    assert!(m.matches("example.com"));
    assert!(m.matches("sub.example.com"));
    assert!(!m.matches("notexample.com"));
    assert!(!m.matches("com"));
}

#[test]
fn deeper_subdomains_and_absolute_form_match() {
    let m = qname_matcher("example.com");
    assert!(m.matches("a.b.c.example.com"));
    assert!(m.matches("example.com."));
    assert!(!m.matches("example.org"));
    assert!(!m.matches("example"));
}

#[test]
fn unparseable_query_name_returns_false() {
    let m = qname_matcher("example.com");
    assert!(!m.matches(""));
    assert!(!m.matches("bad..name"));
    assert!(!m.matches("."));
}

#[test]
fn inserting_twice_behaves_as_once() {
    let once = qname_matcher("example.com");
    let twice = qname_matcher("example.com\nexample.com");
    let probes = [
        "example.com",
        "sub.example.com",
        "notexample.com",
        "com",
        "example.org",
    ];
    for p in probes {
        assert_eq!(once.matches(p), twice.matches(p));
    }
}

#[test]
fn covering_entry_makes_finer_entry_redundant() {
    let coarse = qname_matcher("example.com");
    let both = qname_matcher("example.com\nsub.example.com");
    let probes = ["example.com", "sub.example.com", "x.sub.example.com", "com"];
    for p in probes {
        assert_eq!(coarse.matches(p), both.matches(p));
    }
}

#[test]
fn line_with_space_is_silently_dropped() {
    let m = qname_matcher("exa mple.com\nexample.org");
    assert!(!m.matches("exa mple.com"));
    assert!(m.matches("example.org"));
}

#[test]
fn blank_lines_are_skipped() {
    let m = qname_matcher("\n\nexample.org\n\n");
    assert!(m.matches("example.org"));
    assert!(!m.matches(""));
}

#[test]
fn invalid_kept_line_aborts_the_build() {
    let long_label = "a".repeat(64);
    let text = format!("example.org\n{}.com", long_label);
    match Domain::new(vec![ResourceType::Qname(text)]) {
        Err(BuildError::InvalidDomainName(l)) => {
            assert_eq!(l, format!("{}.com", long_label))
        },
        _ => panic!("expected the offending line in a build error"),
    }
    match Domain::new(vec![ResourceType::Qname("a..b".to_string())]) {
        Err(BuildError::InvalidDomainName(l)) => assert_eq!(l.as_str(), "a..b"),
        _ => panic!("expected the offending line in a build error"),
    }
}

#[test]
fn file_resource_must_be_resolved_by_the_caller() {
    let r = Domain::new(vec![ResourceType::File("/etc/blocklist.gz".to_string())]);
    match r {
        Err(BuildError::UnresolvedFile(p)) => assert_eq!(p.as_str(), "/etc/blocklist.gz"),
        _ => panic!("expected an unresolved-file build error"),
    }
}

#[test]
fn into_dnames_filters_and_parses() {
    let v = match droute::into_dnames("example.com\n\nexa mple.com\nsub.example.org") {
        Ok(v) => v,
        Err(e) => panic!("into_dnames failed: {:?}", e),
    };
    assert_eq!(v.len(), 2);
    assert_eq!(v[0].label_count(), 2);
    assert_eq!(v[0].label_at(0).as_str(), "example");
    assert_eq!(v[0].label_at(1).as_str(), "com");
    assert_eq!(v[1].label_count(), 3);
    assert_eq!(v[1].label_at(0).as_str(), "sub");
}

#[test]
fn structural_name_parsing() {
    let d = DomainName::parse("sub.example.com").unwrap();
    assert_eq!(d.label_count(), 3);
    assert_eq!(d.label_at(0).as_str(), "sub");
    assert_eq!(d.label_at(1).as_str(), "example");
    assert_eq!(d.label_at(2).as_str(), "com");
    let absolute = DomainName::parse("example.com.").unwrap();
    assert_eq!(absolute.label_count(), 2);
    assert!(DomainName::parse("").is_none());
    assert!(DomainName::parse(".").is_none());
    assert!(DomainName::parse("a..b").is_none());
    let max = "a".repeat(63);
    assert!(DomainName::parse(&format!("{}.com", max)).is_some());
    let over = "a".repeat(64);
    assert!(DomainName::parse(&format!("{}.com", over)).is_none());
}

#[test]
fn labels_reserved_terminal() {
    assert!(droute::Label::end().is_end());
    assert_eq!(droute::Label::end().text().as_str(), "end");
    assert!(!droute::Label::new("other".to_string()).is_end());
}

#[test]
fn domain_builder_gathers_resources() {
    let b = DomainBuilder::new()
        .add_qnmae("example.com".to_string())
        .add_file("/tmp/list".to_string());
    assert_eq!(
        b.resources(),
        &vec![
            ResourceType::Qname("example.com".to_string()),
            ResourceType::File("/tmp/list".to_string()),
        ]
    );
    let empty = DomainBuilder::default();
    assert_eq!(empty.resources().len(), 0);
}

#[test]
fn matcher_builder_decodes_and_builds() {
    let conf = Value::List(vec![rec("qname", s("blocked.test"))]);
    let b = DomainBuilder::try_decode(&conf).unwrap();
    assert_eq!(
        b.resources(),
        &vec![ResourceType::Qname("blocked.test".to_string())]
    );
    let m = match b.build() {
        Ok(m) => m,
        Err(e) => panic!("build failed: {:?}", e),
    };
    assert!(m.matches("blocked.test"));
    assert!(!m.matches("other.test"));
}

#[test]
fn end_to_end_rule_routes_by_domain() {
    let conf = Value::Record(vec![
        field("if", Value::List(vec![rec("qname", s("blocked.test"))])),
        field("then", Value::List(vec![s("end")])),
        field("else", Value::List(vec![s("end")])),
    ]);
    let rb = match RuleBuilder::<DomainBuilder, QueryBuilder>::decode(&conf) {
        Ok(rb) => rb,
        Err(e) => panic!("decode failed: {:?}", e),
    };
    let rule = match rb.build() {
        Ok(r) => r,
        Err(e) => panic!("build failed: {:?}", e),
    };
    assert!(rule.matcher.matches("blocked.test"));
    let on = rule.route("blocked.test");
    assert_eq!(on.0.len(), 0);
    assert!(on.1.is_end());
    assert!(!rule.matcher.matches("other.test"));
    let off = rule.route("other.test");
    assert_eq!(off.0.len(), 0);
    assert!(off.1.is_end());
}

#[test]
fn rule_branches_are_distinguished_by_the_matcher() {
    let conf = Value::Record(vec![
        field("if", Value::List(vec![rec("qname", s("blocked.test"))])),
        field(
            "then",
            Value::List(vec![rec("query", s("sinkhole")), s("audit")]),
        ),
        field("else", Value::List(vec![rec("query", s("resolver")), s("end")])),
    ]);
    let rule = RuleBuilder::<DomainBuilder, QueryBuilder>::decode(&conf)
        .ok()
        .and_then(|rb| rb.build().ok())
        .unwrap_or_else(|| panic!("rule did not build"));
    let on = rule.route("sub.blocked.test");
    assert_eq!(on.0.len(), 1);
    assert_eq!(on.0[0].upstream().as_str(), "sinkhole");
    assert_eq!(on.1.text().as_str(), "audit");
    let off = rule.route("clean.test");
    assert_eq!(off.0.len(), 1);
    assert_eq!(off.0[0].upstream().as_str(), "resolver");
    assert!(off.1.is_end());
}
