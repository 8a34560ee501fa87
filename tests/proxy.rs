use dns_proxy::admission::AdmissionGate;
use dns_proxy::matcher::{Matcher, Pattern, PatternError};
use dns_proxy::protocol::{
    Message, Name, ParseError, Rdata, Record, RecordClass, RecordType, Ttl, TYPE_A,
};
use dns_proxy::proxy::{handle_query, relay_reply, Action, Rule, RuleTable};

fn query_for(id: u16, name: &str) -> Vec<u8> {
    let mut out = vec![(id >> 8) as u8, id as u8, 0x01, 0x00, 0, 1, 0, 0, 0, 0, 0, 0];
    for label in name.split('.') {
        out.push(label.len() as u8);
        out.extend_from_slice(label.as_bytes());
    }
    out.push(0);
    out.extend_from_slice(&[0, 1, 0, 1]);
    out
}

fn blocked_rule() -> (Rule, Record) {
    let record = Record::new(
        Name::from_str("blocked.example.com").unwrap(),
        RecordType::new(TYPE_A),
        RecordClass::new(1),
        Ttl::new(60),
        Rdata::A { ip: [0, 0, 0, 0] },
    )
    .unwrap();
    let rule = Rule::new(
        Matcher::Exact { name: b"blocked.example.com".to_vec() },
        vec![record.clone()],
    )
    .unwrap();
    (rule, record)
}

#[test]
fn exact_matcher_matches_only_its_name() {
    let m = Matcher::Exact { name: b"example.com".to_vec() };
    assert!(m.matches(b"example.com"));
    assert!(!m.matches(b"Example.com"));
    assert!(!m.matches(b"a.example.com"));
    assert!(!m.matches(b""));
}

#[test]
fn members_matcher_matches_only_members() {
    let m = Matcher::Members { names: vec![b"a.com".to_vec(), b"b.org".to_vec()] };
    assert!(m.matches(b"a.com"));
    assert!(m.matches(b"b.org"));
    assert!(!m.matches(b"c.net"));
    assert!(!m.matches(b"a.co"));
    let empty = Matcher::Members { names: vec![] };
    assert!(!empty.matches(b"a.com"));
}

#[test]
fn wildcard_matcher_matches_subdomains_only() {
    let m = Matcher::Wildcard { pattern: b"*.example.com".to_vec() };
    assert!(m.matches(b"a.example.com"));
    assert!(m.matches(b"a.b.example.com"));
    assert!(!m.matches(b"example.com"));
    assert!(!m.matches(b".example.com"));
    assert!(!m.matches(b"aexample.com"));
    let plain = Matcher::Wildcard { pattern: b"example.com".to_vec() };
    assert!(plain.matches(b"example.com"));
    assert!(!plain.matches(b"a.example.com"));
}

#[test]
fn regex_matcher_follows_the_pattern() {
    let m = Matcher::Regex { regex: Pattern::new(r"^ads?\.".to_string()).unwrap() };
    assert!(m.matches(b"ads.example.com"));
    assert!(m.matches(b"ad.example.com"));
    assert!(!m.matches(b"bads.example.com"));
    let anywhere = Pattern::new("track".to_string()).unwrap();
    assert!(anywhere.is_match(b"x.tracker.net"));
    assert!(!anywhere.is_match(b"x.trace.net"));
}

#[test]
fn invalid_regex_is_refused() {
    assert!(matches!(Pattern::new("foo(bar".to_string()), Err(PatternError::Invalid)));
}

#[test]
fn rule_takes_at_most_65535_records() {
    let (_, record) = blocked_rule();
    let parsed = Record::parse(&[0, 0, 1, 0, 1, 0, 0, 0, 0, 0, 4, 1, 2, 3, 4], &mut 0).unwrap();
    assert!(Rule::new(Matcher::Exact { name: b"x".to_vec() }, vec![parsed]).is_some());
    assert!(Rule::new(Matcher::Exact { name: b"x".to_vec() }, vec![record.clone(); 65535]).is_some());
    assert!(Rule::new(Matcher::Exact { name: b"x".to_vec() }, vec![record; 65536]).is_none());
}

#[test]
fn matching_query_is_answered_locally() {
    let (rule, record) = blocked_rule();
    let table = RuleTable::new(vec![rule]);
    let query = query_for(0x1234, "blocked.example.com");
    match handle_query(&table, &query) {
        Action::Reply { bytes } => {
            let reply = Message::parse(&bytes).unwrap();
            assert_eq!(reply.id(), 0x1234);
            assert!(reply.flags().is_reply());
            assert_eq!(reply.answers(), &vec![record]);
            assert_eq!(reply.questions(), Message::parse(&query).unwrap().questions());
            assert!(reply.authority_records().is_empty());
            assert!(reply.additional_records().is_empty());
        },
        _ => panic!("expected a local reply"),
    }
}

#[test]
fn first_matching_rule_wins() {
    let (rule, _) = blocked_rule();
    let other = Record::new(
        Name::from_str("blocked.example.com").unwrap(),
        RecordType::new(TYPE_A),
        RecordClass::new(1),
        Ttl::new(60),
        Rdata::A { ip: [9, 9, 9, 9] },
    )
    .unwrap();
    let catch_all = Rule::new(
        Matcher::Wildcard { pattern: b"*.example.com".to_vec() },
        vec![other.clone()],
    )
    .unwrap();
    let table = RuleTable::new(vec![catch_all, rule]);
    assert_eq!(table.lookup(b"blocked.example.com"), Some(0));
    assert_eq!(table.lookup(b"example.org"), None);
    match handle_query(&table, &query_for(7, "blocked.example.com")) {
        Action::Reply { bytes } => {
            assert_eq!(Message::parse(&bytes).unwrap().answers(), &vec![other]);
        },
        _ => panic!("expected a local reply"),
    }
}

#[test]
fn unmatched_query_is_forwarded_verbatim() {
    let (rule, _) = blocked_rule();
    let table = RuleTable::new(vec![rule]);
    let query = query_for(0x4242, "xkcd.com");
    match handle_query(&table, &query) {
        Action::Forward { bytes } => assert_eq!(bytes, query),
        _ => panic!("expected a forward"),
    }
    let mut upstream = query.clone();
    upstream[2] |= 0x80;
    assert_eq!(relay_reply(&upstream), Ok(upstream.clone()));
}

#[test]
fn query_without_questions_is_forwarded() {
    let (rule, _) = blocked_rule();
    let table = RuleTable::new(vec![rule]);
    let query = vec![0, 1, 0, 0, 0, 0, 0, 0, 0, 0, 0, 0];
    match handle_query(&table, &query) {
        Action::Forward { bytes } => assert_eq!(bytes, query),
        _ => panic!("expected a forward"),
    }
}

#[test]
fn undecodable_query_is_dropped() {
    let table = RuleTable::new(vec![]);
    match handle_query(&table, &[1, 2, 3]) {
        Action::Drop { error } => assert_eq!(error, ParseError::Truncated),
        _ => panic!("expected a drop"),
    }
    assert_eq!(relay_reply(&[0; 5]), Err(ParseError::Truncated));
}

#[test]
fn gate_delays_the_request_over_capacity() {
    let mut gate = AdmissionGate::new(2);
    assert!(gate.arrive(1));
    assert!(gate.arrive(2));
    assert!(!gate.arrive(3));
    assert!(!gate.arrive(4));
    assert_eq!(gate.in_flight(), 2);
    assert_eq!(gate.queued(), 2);
    assert!(gate.contains(3));
    assert_eq!(gate.release(1), Some(3));
    assert_eq!(gate.in_flight(), 2);
    assert_eq!(gate.queued(), 1);
    assert_eq!(gate.release(3), Some(4));
    assert_eq!(gate.release(2), None);
    assert_eq!(gate.release(4), None);
    assert_eq!(gate.in_flight(), 0);
    assert!(!gate.contains(4));
    assert!(gate.arrive(5));
}

#[test]
fn gate_of_capacity_zero_admits_nobody() {
    let mut gate = AdmissionGate::new(0);
    assert!(!gate.arrive(1));
    assert_eq!(gate.in_flight(), 0);
    assert_eq!(gate.queued(), 1);
}

#[test]
fn gate_tells_holders_from_waiters() {
    let mut gate = AdmissionGate::new(1);
    assert!(gate.arrive(10));
    assert!(!gate.arrive(11));
    assert!(gate.holds(10));
    assert!(!gate.holds(11));
    assert!(gate.contains(11));
    assert_eq!(gate.capacity(), 1);
}

#[test]
fn exact_any_case_matcher_folds_ascii_letters() {
    let m = Matcher::ExactAnyCase { name: b"Example.COM".to_vec() };
    assert!(m.matches(b"example.com"));
    assert!(m.matches(b"EXAMPLE.com"));
    assert!(!m.matches(b"example.org"));
    assert!(!m.matches(b"example.co"));
    let non_ascii = Matcher::ExactAnyCase { name: vec![0xc9] };
    assert!(!non_ascii.matches(&[0xe9]));
}
