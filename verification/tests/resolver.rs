use dnsrust::error::DnsError;
use dnsrust::header::ResultCode;
use dnsrust::packets::DnsPacket;
use dnsrust::record::{DnsQuestion, DnsRecord, Ipv4Address, QueryType};
use dnsrust::resolver::{examine, root_server, Resolver, Step, Verdict};
use dnsrust::resolver::{MAX_DEPTH, MAX_HOPS, QUERY_ID};
use dnsrust::server::{read_request, respond, take_question, write_response, Outcome};
use dnsrust::packets::build_query;

fn a_record(domain: &str, addr: [u8; 4]) -> DnsRecord {
    DnsRecord::A {
        domain: domain.to_string(),
        addr: Ipv4Address::new(addr[0], addr[1], addr[2], addr[3]),
        ttl: 60,
    }
}

fn ns_record(domain: &str, host: &str) -> DnsRecord {
    DnsRecord::NS { domain: domain.to_string(), host: host.to_string(), ttl: 60 }
}

fn delegation(zone: &str, host: &str, glue: Option<[u8; 4]>) -> DnsPacket {
    let mut p = DnsPacket::new();
    p.header.response = true;
    p.authorities.push(ns_record(zone, host));
    if let Some(addr) = glue {
        p.resources.push(a_record(host, addr));
    }
    p
}

fn answer(name: &str, addr: [u8; 4]) -> DnsPacket {
    let mut p = DnsPacket::new();
    p.header.response = true;
    p.answers.push(a_record(name, addr));
    p
}

fn query_of(step: &Step) -> (Ipv4Address, String, QueryType) {
    match step {
        Step::Query { server, query } => {
            assert_eq!(query.header.id, QUERY_ID);
            assert!(!query.header.recursion_desired);
            assert_eq!(query.questions.len(), 1);
            (*server, query.questions[0].name.clone(), query.questions[0].qtype)
        }
        other => panic!("not a query: {:?}", other),
    }
}

#[test]
fn first_address_is_the_first_in_the_list() {
    let mut p = DnsPacket::new();
    assert_eq!(p.get_random_a(), None);
    p.answers.push(DnsRecord::CNAME { domain: "a".to_string(), host: "b".to_string(), ttl: 1 });
    assert_eq!(p.get_random_a(), None);
    p.answers.push(a_record("b", [1, 1, 1, 1]));
    p.answers.push(a_record("b", [2, 2, 2, 2]));
    assert_eq!(p.get_random_a(), Some(Ipv4Address::new(1, 1, 1, 1)));
    p.resources.push(a_record("b", [3, 3, 3, 3]));
    assert_eq!(p.get_random_a(), Some(Ipv4Address::new(1, 1, 1, 1)));
}

#[test]
fn name_servers_are_filtered_by_zone() {
    let mut p = DnsPacket::new();
    p.authorities.push(ns_record("org", "ns.org"));
    p.authorities.push(a_record("com", [9, 9, 9, 9]));
    p.authorities.push(ns_record("com", "a.gtld-servers.net"));
    p.authorities.push(ns_record("om", "bad.example"));
    p.authorities.push(ns_record("", "root.example"));
    p.authorities.push(ns_record("example.com", "ns.example.com"));
    assert_eq!(
        p.get_ns("example.com"),
        vec![
            ("com", "a.gtld-servers.net"),
            ("", "root.example"),
            ("example.com", "ns.example.com")
        ]
    );
    assert_eq!(p.get_ns("example.net"), vec![("", "root.example")]);
}

#[test]
fn glued_name_server_is_resolved() {
    let with_glue = delegation("com", "a.gtld-servers.net", Some([192, 5, 6, 30]));
    assert_eq!(with_glue.get_resolved_ns("example.com"), Some(Ipv4Address::new(192, 5, 6, 30)));
    assert_eq!(with_glue.get_unresolved_ns("example.com"), Some("a.gtld-servers.net"));
    let without = delegation("com", "a.gtld-servers.net", None);
    assert_eq!(without.get_resolved_ns("example.com"), None);
    assert_eq!(without.get_unresolved_ns("example.com"), Some("a.gtld-servers.net"));
    assert_eq!(without.get_unresolved_ns("example.org"), None);
    assert_eq!(with_glue.get_resolved_ns("example.org"), None);
}

#[test]
fn glue_is_taken_for_the_first_server_that_has_any() {
    let mut p = DnsPacket::new();
    p.authorities.push(ns_record("com", "a.example"));
    p.authorities.push(ns_record("com", "b.example"));
    p.resources.push(a_record("c.example", [3, 3, 3, 3]));
    p.resources.push(a_record("b.example", [2, 2, 2, 2]));
    p.resources.push(a_record("b.example", [4, 4, 4, 4]));
    assert_eq!(p.get_resolved_ns("x.com"), Some(Ipv4Address::new(2, 2, 2, 2)));
    assert_eq!(p.glue_for("b.example"), Some(Ipv4Address::new(2, 2, 2, 2)));
    assert_eq!(p.glue_for("a.example"), None);
    assert_eq!(p.get_unresolved_ns("x.com"), Some("a.example"));
    p.resources.push(a_record("a.example", [1, 1, 1, 1]));
    assert_eq!(p.get_resolved_ns("x.com"), Some(Ipv4Address::new(1, 1, 1, 1)));
}

#[test]
fn examine_tells_the_five_cases_apart() {
    assert_eq!(examine(&answer("example.com", [1, 2, 3, 4]), "example.com"), Verdict::Answer);
    let mut nx = DnsPacket::new();
    nx.header.rescode = ResultCode::NXDOMAIN;
    assert_eq!(examine(&nx, "example.com"), Verdict::NameError);
    assert_eq!(
        examine(&delegation("com", "a.gtld-servers.net", Some([192, 5, 6, 30])), "example.com"),
        Verdict::NextServer(Ipv4Address::new(192, 5, 6, 30))
    );
    assert_eq!(
        examine(&delegation("com", "a.gtld-servers.net", None), "example.com"),
        Verdict::SubLookup("a.gtld-servers.net".to_string())
    );
    assert_eq!(examine(&DnsPacket::new(), "example.com"), Verdict::Exhausted);
    // Answers under an error code are no answer.
    let mut failed = answer("example.com", [1, 2, 3, 4]);
    failed.header.rescode = ResultCode::SERVFAIL;
    assert_eq!(examine(&failed, "example.com"), Verdict::Exhausted);
    // A name error with answers is still a name error.
    let mut odd = answer("example.com", [1, 2, 3, 4]);
    odd.header.rescode = ResultCode::NXDOMAIN;
    assert_eq!(examine(&odd, "example.com"), Verdict::NameError);
}

#[test]
fn lookup_starts_at_the_root() {
    assert_eq!(root_server(), Ipv4Address::new(198, 41, 0, 4));
    let (resolver, step) = Resolver::start("example.com", QueryType::MX);
    assert!(resolver.is_active());
    assert_eq!(resolver.hops, 1);
    assert_eq!(query_of(&step), (root_server(), "example.com".to_string(), QueryType::MX));
}

#[test]
fn name_error_ends_the_lookup_at_once() {
    let (mut resolver, _) = Resolver::start("nosuch.example", QueryType::A);
    let mut nx = DnsPacket::new();
    nx.header.rescode = ResultCode::NXDOMAIN;
    nx.header.id = 42;
    nx.authorities.push(ns_record("example", "ns.example"));
    match resolver.on_reply(nx.clone()) {
        Step::Done(reply) => {
            assert_eq!(reply.header, nx.header);
            assert_eq!(reply.authorities, nx.authorities);
            assert!(reply.answers.is_empty());
        }
        other => panic!("not done: {:?}", other),
    }
    assert!(!resolver.is_active());
    assert_eq!(resolver.hops, 1);
}

#[test]
fn glue_leads_to_the_next_server_and_on_to_the_answer() {
    let (mut resolver, _) = Resolver::start("example.com", QueryType::A);
    let step = resolver.on_reply(delegation("com", "a.gtld-servers.net", Some([192, 5, 6, 30])));
    assert_eq!(
        query_of(&step),
        (Ipv4Address::new(192, 5, 6, 30), "example.com".to_string(), QueryType::A)
    );
    let step = resolver.on_reply(delegation("example.com", "ns.example.com", Some([10, 0, 0, 1])));
    assert_eq!(
        query_of(&step),
        (Ipv4Address::new(10, 0, 0, 1), "example.com".to_string(), QueryType::A)
    );
    assert_eq!(resolver.hops, 3);
    match resolver.on_reply(answer("example.com", [93, 184, 216, 34])) {
        Step::Done(reply) => {
            assert_eq!(reply.get_random_a(), Some(Ipv4Address::new(93, 184, 216, 34)))
        }
        other => panic!("not done: {:?}", other),
    }
    assert!(!resolver.is_active());
}

#[test]
fn unglued_server_is_looked_up_first() {
    let (mut resolver, _) = Resolver::start("example.com", QueryType::MX);
    let step = resolver.on_reply(delegation("com", "ns.other.net", None));
    assert_eq!(query_of(&step), (root_server(), "ns.other.net".to_string(), QueryType::A));
    assert_eq!(resolver.frames.len(), 2);
    let step = resolver.on_reply(delegation("net", "x.net", Some([7, 7, 7, 7])));
    assert_eq!(
        query_of(&step),
        (Ipv4Address::new(7, 7, 7, 7), "ns.other.net".to_string(), QueryType::A)
    );
    let step = resolver.on_reply(answer("ns.other.net", [8, 8, 4, 4]));
    assert_eq!(
        query_of(&step),
        (Ipv4Address::new(8, 8, 4, 4), "example.com".to_string(), QueryType::MX)
    );
    assert_eq!(resolver.frames.len(), 1);
    assert_eq!(resolver.hops, 4);
}

#[test]
fn sub_lookup_without_address_returns_the_held_reply() {
    let (mut resolver, _) = Resolver::start("example.com", QueryType::A);
    let mut held = delegation("com", "ns.other.net", None);
    held.header.id = 777;
    let _ = resolver.on_reply(held);
    let mut nx = DnsPacket::new();
    nx.header.rescode = ResultCode::NXDOMAIN;
    match resolver.on_reply(nx) {
        Step::Done(reply) => {
            assert_eq!(reply.header.id, 777);
            assert_eq!(reply.authorities, vec![ns_record("com", "ns.other.net")]);
        }
        other => panic!("not done: {:?}", other),
    }
    assert!(!resolver.is_active());
}

#[test]
fn reply_that_leads_nowhere_is_the_result() {
    let (mut resolver, _) = Resolver::start("example.com", QueryType::A);
    let mut empty = DnsPacket::new();
    empty.header.id = 5;
    empty.authorities.push(ns_record("org", "ns.org"));
    match resolver.on_reply(empty) {
        Step::Done(reply) => assert_eq!(reply.header.id, 5),
        other => panic!("not done: {:?}", other),
    }
}

#[test]
fn hops_are_limited() {
    let (mut resolver, step) = Resolver::start("example.com", QueryType::A);
    let mut last = step;
    let mut queries = 1;
    loop {
        match last {
            Step::Query { .. } => {
                last = resolver.on_reply(delegation("com", "a.example", Some([1, 2, 3, 4])));
                if let Step::Query { .. } = last {
                    queries += 1;
                }
            }
            Step::Failed(e) => {
                assert_eq!(e, DnsError::NoDelegationProgress);
                break;
            }
            Step::Done(_) => panic!("a loop of delegations cannot be done"),
        }
    }
    assert_eq!(queries, MAX_HOPS);
    assert_eq!(resolver.hops, MAX_HOPS);
    assert!(!resolver.is_active());
}

#[test]
fn depth_is_limited() {
    let (mut resolver, _) = Resolver::start("a.com", QueryType::A);
    let mut step = resolver.on_reply(delegation("com", "b.com", None));
    let mut depth = 2;
    while let Step::Query { .. } = step {
        assert_eq!(resolver.frames.len(), depth);
        assert!(depth <= MAX_DEPTH);
        step = resolver.on_reply(delegation("com", "b.com", None));
        depth += 1;
    }
    match step {
        Step::Failed(e) => assert_eq!(e, DnsError::NoDelegationProgress),
        other => panic!("not failed: {:?}", other),
    }
    assert_eq!(depth, MAX_DEPTH + 1);
    assert!(!resolver.is_active());
}

#[test]
fn transport_failure_ends_the_lookup() {
    let (mut resolver, _) = Resolver::start("example.com", QueryType::A);
    match resolver.on_failure(DnsError::TransportFailure) {
        Step::Failed(e) => assert_eq!(e, DnsError::TransportFailure),
        other => panic!("not failed: {:?}", other),
    }
    assert!(!resolver.is_active());
    match resolver.on_reply(answer("example.com", [1, 2, 3, 4])) {
        Step::Failed(e) => assert_eq!(e, DnsError::NoDelegationProgress),
        other => panic!("not failed: {:?}", other),
    }
}

#[test]
fn request_without_question_is_a_format_error() {
    let mut request = DnsPacket::new();
    request.header.id = 0x1234;
    assert_eq!(take_question(&mut request), None);
    let response = respond(request.header.id, Outcome::NoQuestion);
    assert_eq!(response.header.id, 0x1234);
    assert!(response.header.response);
    assert!(response.header.recursion_desired);
    assert!(response.header.recursion_available);
    assert_eq!(response.header.rescode, ResultCode::FORMERR);
    assert!(response.questions.is_empty() && response.answers.is_empty());
}

#[test]
fn failed_lookup_is_a_server_failure() {
    let response = respond(9, Outcome::Failed);
    assert_eq!(response.header.id, 9);
    assert!(response.header.response);
    assert_eq!(response.header.rescode, ResultCode::SERVFAIL);
    assert!(response.questions.is_empty() && response.answers.is_empty());
    assert!(response.authorities.is_empty() && response.resources.is_empty());
}

#[test]
fn result_of_lookup_is_copied_into_the_response() {
    let mut request = DnsPacket::new();
    request.header.id = 77;
    request.questions.push(DnsQuestion::new("first.example".to_string(), QueryType::NS));
    request.questions.push(DnsQuestion::new("example.com".to_string(), QueryType::A));
    let question = take_question(&mut request).unwrap();
    assert_eq!(question, DnsQuestion::new("example.com".to_string(), QueryType::A));
    assert_eq!(request.questions.len(), 1);
    let mut result = answer("example.com", [93, 184, 216, 34]);
    result.header.rescode = ResultCode::NXDOMAIN;
    result.authorities.push(ns_record("com", "a.gtld-servers.net"));
    result.resources.push(a_record("a.gtld-servers.net", [192, 5, 6, 30]));
    let mut response =
        respond(77, Outcome::Resolved { question: question.clone(), result: result.clone() });
    assert_eq!(response.header.id, 77);
    assert_eq!(response.header.rescode, ResultCode::NXDOMAIN);
    assert_eq!(response.questions, vec![question]);
    assert_eq!(response.answers, result.answers);
    assert_eq!(response.authorities, result.authorities);
    assert_eq!(response.resources, result.resources);
    let bytes = response.encode().unwrap();
    assert_eq!(&bytes[0..4], &[0, 77, 0x81, 0x83]);
    assert_eq!(&bytes[4..12], &[0, 1, 0, 1, 0, 1, 0, 1]);
}

#[test]
fn request_is_read_from_a_datagram() {
    let mut query = build_query("example.com", QueryType::A, 0x0102, true);
    let bytes = query.encode().unwrap();
    assert_eq!(
        read_request(&bytes),
        Ok((0x0102, Some(DnsQuestion::new("example.com".to_string(), QueryType::A))))
    );
    assert_eq!(read_request(&[0, 9, 0, 0, 0, 0, 0, 0, 0, 0, 0, 0]), Ok((9, None)));
    assert_eq!(
        read_request(&[0, 9, 0, 0, 0, 1, 0, 0, 0, 0, 0, 0, 0xC0, 12]),
        Err(DnsError::MalformedName)
    );
}

#[test]
fn response_is_written_to_bytes() {
    assert_eq!(
        write_response(0x0102, Outcome::NoQuestion),
        Ok(vec![1, 2, 0x81, 0x81, 0, 0, 0, 0, 0, 0, 0, 0])
    );
    assert_eq!(
        write_response(0x0102, Outcome::Failed),
        Ok(vec![1, 2, 0x81, 0x82, 0, 0, 0, 0, 0, 0, 0, 0])
    );
    let question = DnsQuestion::new("a".to_string(), QueryType::A);
    let result = answer("a", [1, 2, 3, 4]);
    let bytes = write_response(3, Outcome::Resolved { question, result }).unwrap();
    let back = DnsPacket::decode(&bytes).unwrap();
    assert_eq!(back.header.id, 3);
    assert_eq!(back.header.rescode, ResultCode::NOERROR);
    assert_eq!(back.questions.len(), 1);
    assert_eq!(back.answers, vec![a_record("a", [1, 2, 3, 4])]);
    let long = DnsQuestion::new("x".repeat(64), QueryType::A);
    assert_eq!(
        write_response(3, Outcome::Resolved { question: long, result: DnsPacket::new() }),
        Err(DnsError::LabelTooLong)
    );
}
