use rdns::cidr::{
    bulk_may_proceed, from_cidr, needs_confirmation, network_size, CidrParseError, NetworkSize,
    MAX_SAFE,
};
use rdns::ip::IpAddress;
use rdns::ptr_name::{generate_ptr_domain, generate_ptr_domain_string};
use rdns::range::AddressRangeEnumerator;
use rdns::resolver::{QueryOutcome, ResolverState, ResolverStep};

fn run_resolver(outcomes: Vec<QueryOutcome>) -> (Option<String>, usize) {
    let mut state = ResolverState::new();
    let mut attempts = 0;
    for outcome in outcomes {
        attempts += 1;
        match state.step(outcome) {
            ResolverStep::Finished(r) => return (r, attempts),
            ResolverStep::Retry(next) => state = next,
        }
    }
    (None, attempts)
}

#[test]
fn v4_ptr_name_reverses_octets() {
    assert_eq!(
        generate_ptr_domain_string("1.2.3.4"),
        Some(String::from("4.3.2.1.in-addr.arpa."))
    );
    assert_eq!(
        generate_ptr_domain(IpAddress::V4([192, 168, 0, 1])),
        Some(String::from("1.0.168.192.in-addr.arpa."))
    );
    assert_eq!(
        generate_ptr_domain_string("255.0.10.99"),
        Some(String::from("99.10.0.255.in-addr.arpa."))
    );
}

#[test]
fn v6_ptr_name_loopback() {
    let mut expected = String::from("1.");
    for _ in 0..31 {
        expected.push_str("0.");
    }
    expected.push_str("ip6.arpa.");
    assert_eq!(generate_ptr_domain_string("::1"), Some(expected));
}

#[test]
fn v6_ptr_name_zero_padded_nibbles() {
    // the reverse-name example of the IPv6 DNS specification, with every
    // group needing zero padding
    assert_eq!(
        generate_ptr_domain_string("4321:0:1:2:3:4:567:89ab"),
        Some(String::from(
            "b.a.9.8.7.6.5.0.4.0.0.0.3.0.0.0.2.0.0.0.1.0.0.0.0.0.0.0.1.2.3.4.ip6.arpa."
        ))
    );
}

#[test]
fn v6_ptr_name_small_byte_padded() {
    let d = generate_ptr_domain(IpAddress::V6([
        0x20, 0x01, 0x0d, 0xb8, 0, 0, 0, 0, 0, 0, 0, 0, 0, 0, 0, 0x0f,
    ]))
    .unwrap();
    assert!(d.starts_with("f.0.0.0."));
    assert!(d.ends_with("8.b.d.0.1.0.0.2.ip6.arpa."));
    assert_eq!(d.len(), 73);
}

#[test]
fn unparsable_address_gives_no_name() {
    assert_eq!(generate_ptr_domain_string("not an ip"), None);
    assert_eq!(generate_ptr_domain_string(""), None);
    assert_eq!(generate_ptr_domain_string("1.2.3"), None);
    assert_eq!(generate_ptr_domain_string("1.2.3.256"), None);
    assert_eq!(generate_ptr_domain_string("01.2.3.4"), None);
}

#[test]
fn v6_text_forms() {
    // equal addresses through different compressions
    let full = generate_ptr_domain_string("0:0:0:0:0:0:0:1").unwrap();
    let compressed = generate_ptr_domain_string("::1").unwrap();
    assert_eq!(full, compressed);
    assert!(generate_ptr_domain_string("::").is_some());
    assert!(generate_ptr_domain_string("1::").is_some());
    assert!(generate_ptr_domain_string("1::2").is_some());
    assert!(generate_ptr_domain_string("2001:db8::ff00:42:8329").is_some());
    assert_eq!(generate_ptr_domain_string(":::"), None);
    assert_eq!(generate_ptr_domain_string("1:2"), None);
    assert_eq!(generate_ptr_domain_string("12345::"), None);
    assert_eq!(generate_ptr_domain_string("1::2::3"), None);
    assert_eq!(generate_ptr_domain_string("::1:2:3:4:5:6:7:8"), None);
    assert_eq!(generate_ptr_domain_string("1:"), None);
}

#[test]
fn cidr_24_enumerates_256_ascending() {
    let net = from_cidr("192.168.0.0/24").unwrap();
    assert_eq!(network_size(&net), NetworkSize::Count(256));
    let mut e = AddressRangeEnumerator::from_network(&net);
    let mut seen: Vec<IpAddress> = Vec::new();
    while let Some(a) = e.next_address() {
        seen.push(a);
    }
    assert_eq!(seen.len(), 256);
    assert_eq!(seen[0], IpAddress::V4([192, 168, 0, 0]));
    assert_eq!(seen[255], IpAddress::V4([192, 168, 0, 255]));
    for k in 0..256 {
        assert_eq!(seen[k], IpAddress::V4([192, 168, 0, k as u8]));
    }
    for k in 1..256 {
        assert!(seen[k - 1] != seen[k]);
    }
    assert_eq!(e.next_address(), None);
}

#[test]
fn cidr_base_is_masked() {
    let net = from_cidr("192.168.0.7/30").unwrap();
    let mut e = AddressRangeEnumerator::from_network(&net);
    assert_eq!(e.next_address(), Some(IpAddress::V4([192, 168, 0, 4])));
    assert_eq!(e.next_address(), Some(IpAddress::V4([192, 168, 0, 5])));
    assert_eq!(e.next_address(), Some(IpAddress::V4([192, 168, 0, 6])));
    assert_eq!(e.next_address(), Some(IpAddress::V4([192, 168, 0, 7])));
    assert_eq!(e.next_address(), None);
}

#[test]
fn cidr_single_address_block() {
    let net = from_cidr("9.9.9.9/32").unwrap();
    assert_eq!(network_size(&net), NetworkSize::Count(1));
    let mut e = AddressRangeEnumerator::from_network(&net);
    assert_eq!(e.next_address(), Some(IpAddress::V4([9, 9, 9, 9])));
    assert_eq!(e.next_address(), None);
}

#[test]
fn v6_small_block_enumerates() {
    let net = from_cidr("::/126").unwrap();
    assert_eq!(network_size(&net), NetworkSize::Count(4));
    let mut e = AddressRangeEnumerator::from_network(&net);
    let mut last_byte = Vec::new();
    while let Some(a) = e.next_address() {
        match a {
            IpAddress::V6(o) => last_byte.push(o[15]),
            IpAddress::V4(_) => panic!("wrong family"),
        }
    }
    assert_eq!(last_byte, vec![0, 1, 2, 3]);
}

#[test]
fn v6_full_space_is_distinguished() {
    let net = from_cidr("::/0").unwrap();
    assert_eq!(network_size(&net), NetworkSize::Full128);
    assert!(needs_confirmation(&net));
}

#[test]
fn v6_full_space_enumerates_lazily() {
    // the whole space cannot be materialized; the first addresses come
    // on demand all the same
    let net = from_cidr("::/0").unwrap();
    let mut e = AddressRangeEnumerator::from_network(&net);
    assert_eq!(e.next_address(), Some(IpAddress::V6([0; 16])));
    let mut one = [0u8; 16];
    one[15] = 1;
    assert_eq!(e.next_address(), Some(IpAddress::V6(one)));
    let mut two = [0u8; 16];
    two[15] = 2;
    assert_eq!(e.next_address(), Some(IpAddress::V6(two)));
}

#[test]
fn name_from_bytes_and_from_text_agree() {
    let by_text = generate_ptr_domain_string("2001:db8::1").unwrap();
    let by_value = generate_ptr_domain(IpAddress::V6([
        0x20, 0x01, 0x0d, 0xb8, 0, 0, 0, 0, 0, 0, 0, 0, 0, 0, 0, 1,
    ]))
    .unwrap();
    assert_eq!(by_text, by_value);
}

#[test]
fn prefix_33_is_validation_error() {
    assert_eq!(
        from_cidr("192.168.0.0/33"),
        Err(CidrParseError::Validation)
    );
    assert_eq!(from_cidr("1.2.3.4/999"), Err(CidrParseError::Validation));
    assert_eq!(from_cidr("::/129"), Err(CidrParseError::Validation));
}

#[test]
fn cidr_error_kinds() {
    assert_eq!(from_cidr("192.168.0.0"), Err(CidrParseError::Syntax));
    assert_eq!(from_cidr("1.2.3.4/5/6"), Err(CidrParseError::Syntax));
    assert_eq!(from_cidr(""), Err(CidrParseError::Syntax));
    assert_eq!(from_cidr("foo/24"), Err(CidrParseError::Address));
    assert_eq!(from_cidr("1.2.3.256/8"), Err(CidrParseError::Address));
    assert_eq!(from_cidr("/24"), Err(CidrParseError::Address));
    assert_eq!(from_cidr("1.2.3.4/x"), Err(CidrParseError::Prefix));
    assert_eq!(from_cidr("1.2.3.4/"), Err(CidrParseError::Prefix));
    assert_eq!(from_cidr("1.2.3.4/2 4"), Err(CidrParseError::Prefix));
}

#[test]
fn gate_at_threshold_does_not_trigger() {
    let net = from_cidr("10.0.0.0/16").unwrap();
    assert_eq!(network_size(&net), NetworkSize::Count(65536));
    assert_eq!(NetworkSize::Count(65536), NetworkSize::Count(MAX_SAFE));
    assert!(!needs_confirmation(&net));
}

#[test]
fn gate_above_threshold_triggers() {
    let net = from_cidr("10.0.0.0/15").unwrap();
    assert_eq!(network_size(&net), NetworkSize::Count(131072));
    assert!(needs_confirmation(&net));
}

#[test]
fn gate_decision_rules() {
    assert!(bulk_may_proceed(false, None));
    assert!(bulk_may_proceed(false, Some(false)));
    assert!(bulk_may_proceed(true, Some(true)));
    assert!(!bulk_may_proceed(true, Some(false)));
    assert!(!bulk_may_proceed(true, None));
}

#[test]
fn resolver_empty_answer_single_attempt() {
    let outcomes = vec![
        QueryOutcome::EmptyAnswer,
        QueryOutcome::TransportFailure,
        QueryOutcome::TransportFailure,
    ];
    assert_eq!(run_resolver(outcomes), (None, 1));
}

#[test]
fn resolver_non_ptr_answer_single_attempt() {
    let outcomes = vec![QueryOutcome::NonPtrAnswer, QueryOutcome::TransportFailure];
    assert_eq!(run_resolver(outcomes), (None, 1));
}

#[test]
fn resolver_transport_failure_four_attempts() {
    let outcomes = vec![
        QueryOutcome::TransportFailure,
        QueryOutcome::TransportFailure,
        QueryOutcome::TransportFailure,
        QueryOutcome::TransportFailure,
        QueryOutcome::PtrAnswer(String::from("never.reached.example.")),
    ];
    assert_eq!(run_resolver(outcomes), (None, 4));
}

#[test]
fn resolver_success_after_retries() {
    let outcomes = vec![
        QueryOutcome::TransportFailure,
        QueryOutcome::TransportFailure,
        QueryOutcome::PtrAnswer(String::from("host.example.")),
    ];
    assert_eq!(
        run_resolver(outcomes),
        (Some(String::from("host.example.")), 3)
    );
}
