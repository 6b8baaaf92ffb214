use external_dns_webhook_timeweb::grouping::group_records;
use external_dns_webhook_timeweb::model::Endpoint;
use external_dns_webhook_timeweb::provider::{validate_endpoint, ProviderError};
use external_dns_webhook_timeweb::targets::{
    canonical_target, change_from_endpoint, find_zone, parse_mx_target, parse_srv_target, same_record_identity,
    srv_service_protocol, ttl_changed,
};
use external_dns_webhook_timeweb::timeweb::{DnsRecordData, DnsRecordResponse, RemoteRecord, TimewebError};

fn endpoint(record_type: &str, dns_name: &str, targets: &[&str]) -> Endpoint {
    Endpoint {
        dns_name: dns_name.to_owned(),
        targets: targets.iter().map(|target| (*target).to_owned()).collect(),
        record_type: record_type.to_owned(),
        set_identifier: String::new(),
        record_ttl: 300,
        labels: Default::default(),
        provider_specific: Vec::new(),
    }
}

fn text(error: ProviderError) -> String {
    error.message()
}

#[test]
fn groups_remote_records_without_losing_distinct_targets() {
    let first = endpoint("A", "www.example.com", &["192.0.2.1"]);
    let second = endpoint("A", "www.example.com", &["192.0.2.2"]);
    let records = group_records(vec![
        RemoteRecord {
            id: 1,
            zone: "example.com".to_owned(),
            endpoint: first,
        },
        RemoteRecord {
            id: 2,
            zone: "example.com".to_owned(),
            endpoint: second,
        },
    ]);
    assert_eq!(records.len(), 1);
    assert_eq!(records[0].targets, ["192.0.2.1", "192.0.2.2"]);
}

#[test]
fn parses_timeweb_record_target_formats() -> Result<(), String> {
    assert_eq!(
        parse_mx_target("10 mail.example.com.").map_err(text)?,
        (10, "mail.example.com".to_owned())
    );
    assert_eq!(
        parse_srv_target("10 0 443 service.example.com.").map_err(text)?,
        (10, 0, 443, "service.example.com".to_owned())
    );
    assert_eq!(
        canonical_target("CNAME", "target.example.com."),
        "target.example.com"
    );
    Ok(())
}

#[test]
fn creates_timeweb_mx_payload() -> Result<(), String> {
    let endpoint = endpoint("MX", "example.com", &["10 mail.example.com"]);
    let change =
        change_from_endpoint(&endpoint, &endpoint.targets[0], "example.com").map_err(text)?;
    assert_eq!(change.record_type, "MX");
    assert_eq!(change.priority, Some(10));
    assert_eq!(change.value, "mail.example.com");
    Ok(())
}

#[test]
fn rejects_non_zero_srv_weight() {
    let endpoint = endpoint(
        "SRV",
        "_sip._tcp.example.com",
        &["10 5 443 service.example.com"],
    );
    let error = change_from_endpoint(&endpoint, &endpoint.targets[0], "example.com");
    assert!(matches!(error, Err(ProviderError::InvalidEndpoint(_))));
}

fn refusal<T>(result: Result<T, ProviderError>) -> String {
    match result {
        Ok(_) => String::new(),
        Err(error) => error.message(),
    }
}

fn invalid(message: &str) -> String {
    format!("invalid ExternalDNS endpoint: {message}")
}

#[test]
fn grouping_merges_by_name_and_type() {
    let record = |id, record_type: &str, name: &str, target: &str, ttl| {
        let mut endpoint = endpoint(record_type, name, &[target]);
        endpoint.record_ttl = ttl;
        RemoteRecord {
            id,
            zone: "example.com".to_owned(),
            endpoint,
        }
    };
    let endpoints = group_records(vec![
        record(1, "TXT", "www.example.com", "t", 60),
        record(2, "A", "www.example.com", "192.0.2.9", 300),
        record(3, "A", "api.example.com", "192.0.2.3", 60),
        record(4, "A", "www.example.com", "192.0.2.1", 300),
        record(5, "A", "www.example.com", "192.0.2.9", 300),
        record(6, "A", "api.example.com", "192.0.2.4", 61),
    ]);
    let found: Vec<(&str, &str, Vec<&str>, i64)> = endpoints
        .iter()
        .map(|endpoint| {
            (
                endpoint.dns_name.as_str(),
                endpoint.record_type.as_str(),
                endpoint.targets.iter().map(String::as_str).collect(),
                endpoint.record_ttl,
            )
        })
        .collect();
    assert_eq!(
        found,
        [
            ("api.example.com", "A", vec!["192.0.2.3", "192.0.2.4"], 0),
            ("www.example.com", "A", vec!["192.0.2.1", "192.0.2.9"], 300),
            ("www.example.com", "TXT", vec!["t"], 60),
        ]
    );
}

#[test]
fn targets_are_compared_in_canonical_form() {
    assert_eq!(canonical_target("txt", "Keep It."), "Keep It.");
    assert_eq!(canonical_target("A", "192.0.2.1"), "192.0.2.1");
    assert_eq!(canonical_target("aaaa", "2001:DB8::1"), "2001:db8::1");
    assert_eq!(canonical_target("mx", " 10\tMail.Example.com. "), "10 mail.example.com");
    assert_eq!(canonical_target("MX", "10"), "10 ");
    assert_eq!(
        canonical_target("SRV", "1 2 3 Host. extra"),
        "1 2 3 host"
    );
    assert_eq!(canonical_target("SRV", "1"), "1   ");
}

#[test]
fn reading_targets_says_what_is_wrong() {
    for (target, message) in [
        ("", "invalid MX target: "),
        ("x host", "invalid MX priority in target: x host"),
        ("10", "invalid MX target: 10"),
        ("10 a b", "invalid MX target: 10 a b"),
    ] {
        assert_eq!(refusal(parse_mx_target(target)), invalid(message));
    }
    for (target, message) in [
        ("", "invalid SRV target: "),
        ("x", "invalid SRV priority in target: x"),
        ("1", "invalid SRV target: 1"),
        ("1 x", "invalid SRV weight in target: 1 x"),
        ("1 2 x", "invalid SRV port in target: 1 2 x"),
        ("1 2 3", "invalid SRV target: 1 2 3"),
        ("1 2 3 a b", "invalid SRV target: 1 2 3 a b"),
    ] {
        assert_eq!(refusal(parse_srv_target(target)), invalid(message));
    }
    assert_eq!(
        parse_srv_target("+1 02 3 a.").map_err(text),
        Ok((1, 2, 3, "a".to_owned()))
    );
}

#[test]
fn reads_services_from_names() {
    assert_eq!(
        srv_service_protocol("_sip._tcp.sub.example.com.", "example.com").map_err(text),
        Ok(("_sip".to_owned(), "_tcp".to_owned()))
    );
    assert_eq!(
        srv_service_protocol("_sip._udp.other.org", "example.com").map_err(text),
        Ok(("_sip".to_owned(), "_udp".to_owned()))
    );
    for name in ["example.com", "www.example.com", "_sip.example.com", "_sip.tcp.example.com"] {
        assert_eq!(
            refusal(srv_service_protocol(name, "example.com")),
            invalid(&format!(
                "SRV DNS name must start with service and protocol labels: {name}"
            ))
        );
    }
}

#[test]
fn finds_the_longest_zone() {
    let zones: Vec<String> = ["example.com", "sub.example.com", "example.org"]
        .iter()
        .map(|zone| (*zone).to_owned())
        .collect();
    assert_eq!(find_zone(&zones, "WWW.sub.example.com."), Some("sub.example.com"));
    assert_eq!(find_zone(&zones, "www.example.com"), Some("example.com"));
    assert_eq!(find_zone(&zones, "sub.example.com"), Some("sub.example.com"));
    assert_eq!(find_zone(&zones, "badexample.com"), None);
    let equal = vec!["EXAMPLE.com".to_owned(), "example.COM".to_owned()];
    assert_eq!(find_zone(&equal, "example.com"), Some("example.COM"));
}

#[test]
fn writes_every_type() -> Result<(), String> {
    let written = |record_type: &str, name: &str, target: &str| {
        change_from_endpoint(&endpoint(record_type, name, &[target]), target, "example.com").map_err(text)
    };
    let change = written(" a ", "WWW.example.com.", "192.0.2.1")?;
    assert_eq!(change.record_type, "A");
    assert_eq!(change.subdomain.as_deref(), Some("www.example.com"));
    assert_eq!(change.value, "192.0.2.1");
    assert_eq!(change.ttl, Some(300));
    assert_eq!(change.priority, None);

    assert_eq!(written("AAAA", "example.com", "2001:DB8::1")?.value, "2001:DB8::1");
    assert_eq!(written("AAAA", "Example.com.", "::1")?.subdomain, None);
    assert_eq!(written("TXT", "example.com", "Text. ")?.value, "Text. ");
    assert_eq!(written("CNAME", "example.com", "Host.Name..")?.value, "Host.Name");

    let service = written("SRV", "_sip._tcp.example.com", "10 0 443 host.example.com.")?;
    assert_eq!(service.value, "0 443 host.example.com");
    assert_eq!(service.priority, Some(10));
    assert_eq!(service.subdomain.as_deref(), Some("_sip._tcp.example.com"));

    let mut unset = endpoint("TXT", "example.com", &["t"]);
    unset.record_ttl = 0;
    let change = change_from_endpoint(&unset, "t", "example.com").map_err(text)?;
    assert_eq!(change.ttl, None);
    Ok(())
}

#[test]
fn refuses_targets_that_do_not_fit_the_type() {
    let message = |record_type: &str, name: &str, target: &str| {
        refusal(change_from_endpoint(
            &endpoint(record_type, name, &[target]),
            target,
            "example.com",
        ))
    };
    let name = "www.example.com";
    assert_eq!(message("A", name, "x"), invalid("A record target is not an IP address: x"));
    assert_eq!(
        message("A", name, "::1"),
        invalid("A record target is not an IPv4 address: ::1")
    );
    assert_eq!(
        message("AAAA", name, "x"),
        invalid("AAAA record target is not an IP address: x")
    );
    assert_eq!(
        message("AAAA", name, "192.0.2.1"),
        invalid("AAAA record target is not an IPv6 address: 192.0.2.1")
    );
    assert_eq!(message("MX", name, "x"), invalid("invalid MX priority in target: x"));
    assert_eq!(
        message("SRV", "_sip._tcp.example.com", "1 5 3 a"),
        invalid("Timeweb Cloud supports only SRV records with zero weight")
    );
    assert_eq!(
        message("SRV", name, "1 0 3 a"),
        invalid("SRV DNS name must start with service and protocol labels: www.example.com")
    );
    assert_eq!(
        message("ns", name, "a"),
        invalid("record type NS is not supported by Timeweb Cloud")
    );
}

#[test]
fn what_is_written_is_read_back() -> Result<(), String> {
    for (record_type, name, target) in [
        ("A", "www.example.com", "192.0.2.1"),
        ("AAAA", "example.com", "2001:DB8::1"),
        ("TXT", "Example.com", "Some Text."),
        ("CNAME", "www.example.com", "Other.example.org."),
        ("MX", "example.com", "10 Mail.example.com."),
        ("SRV", "_sip._tcp.example.com", "10 0 443 Host.example.com."),
    ] {
        let endpoint = endpoint(record_type, name, &[target]);
        let change = change_from_endpoint(&endpoint, target, "example.com").map_err(text)?;
        let listed = DnsRecordResponse {
            id: Some(1),
            record_type: change.record_type.clone(),
            fqdn: None,
            data: DnsRecordData {
                priority: change.priority,
                subdomain: change.subdomain.clone(),
                value: Some(change.value.clone()),
            },
            ttl: change.ttl,
        };
        let record = listed
            .into_remote_record("example.com")
            .map_err(|error| error.message())?;
        assert!(same_record_identity(&record.endpoint, &endpoint));
        assert_eq!(
            canonical_target(record_type, &record.endpoint.targets[0]),
            canonical_target(record_type, target)
        );
        assert_eq!(record.endpoint.record_ttl, 300);
        assert!(!ttl_changed(&record.endpoint, &endpoint));
    }
    Ok(())
}

#[test]
fn endpoints_are_checked() {
    let check = |endpoint: Endpoint, targets: bool| refusal(validate_endpoint(&endpoint, targets));
    assert_eq!(check(endpoint("a", "x", &["t"]), true), "");
    assert_eq!(check(endpoint("A", " ", &["t"]), true), invalid("dnsName must not be empty"));
    assert_eq!(
        check(endpoint("ns", "x", &["t"]), true),
        invalid("record type NS is not supported by Timeweb Cloud")
    );
    let mut with_set = endpoint("A", "x", &["t"]);
    with_set.set_identifier = "s".to_owned();
    assert_eq!(
        check(with_set, true),
        invalid("setIdentifier is not supported by Timeweb Cloud")
    );
    let mut negative = endpoint("A", "x", &["t"]);
    negative.record_ttl = -1;
    assert_eq!(check(negative, true), invalid("recordTTL must not be negative"));
    assert_eq!(check(endpoint("A", "x", &[]), true), invalid("targets must not be empty"));
    assert_eq!(check(endpoint("A", "x", &[]), false), "");
    assert_eq!(
        check(endpoint("A", "x", &["t", ""]), false),
        invalid("targets must not contain empty values")
    );
}

#[test]
fn provider_failures_have_words_and_a_status() {
    let answered = |status| {
        ProviderError::Timeweb(TimewebError::HttpStatus {
            status,
            message: "m".to_owned(),
        })
        .http_status()
    };
    for (status, expected) in [(400, 400), (404, 404), (429, 502), (499, 499), (500, 502), (302, 502)] {
        assert_eq!(answered(status), expected);
    }
    let other = ProviderError::Timeweb(TimewebError::BodyTooLarge);
    assert_eq!(other.http_status(), 502);
    assert_eq!(other.message(), "Timeweb Cloud response exceeded 16777216 bytes");
    let mismatch = ProviderError::MismatchedUpdateLists { old_len: 1, new_len: 12 };
    assert_eq!(mismatch.http_status(), 400);
    assert_eq!(
        mismatch.message(),
        "ExternalDNS update lists have different lengths: 1 and 12"
    );
    let state = ProviderError::StateMismatch {
        dns_name: "n".to_owned(),
        record_type: "A".to_owned(),
        target: "t".to_owned(),
    };
    assert_eq!(state.http_status(), 503);
    assert_eq!(state.message(), "current DNS state does not contain record A n t");
    assert_eq!(ProviderError::InvalidEndpoint("m".to_owned()).http_status(), 400);
}
