use external_dns_webhook_timeweb::timeweb::{
    owner_name, response_target, DnsRecordData, DnsRecordResponse, RequestFailure, TimewebError,
};

fn text(error: TimewebError) -> String {
    error.message()
}

#[test]
fn builds_full_owner_name_from_relative_and_absolute_subdomains() {
    assert_eq!(owner_name("example.com", None), "example.com");
    assert_eq!(owner_name("example.com", Some("www")), "www.example.com");
    assert_eq!(
        owner_name("example.com", Some("www.example.com.")),
        "www.example.com"
    );
}

#[test]
fn converts_mx_response_to_external_dns_target() -> Result<(), String> {
    let data = DnsRecordData {
        priority: Some(10),
        value: Some("mail.example.com.".to_owned()),
        ..Default::default()
    };
    assert_eq!(
        response_target("MX", &data).map_err(text)?,
        "10 mail.example.com"
    );
    Ok(())
}

#[test]
fn restores_srv_owner_name_from_v1_response() -> Result<(), String> {
    let response = DnsRecordResponse {
        id: Some(7),
        record_type: "SRV".to_owned(),
        fqdn: None,
        data: DnsRecordData {
            subdomain: Some("_sip._tcp.sub.example.com".to_owned()),
            priority: Some(10),
            value: Some("0 993 mail.example.com.".to_owned()),
        },
        ttl: Some(300),
    };

    let record = response.into_remote_record("example.com").map_err(text)?;
    assert_eq!(record.endpoint.dns_name, "_sip._tcp.sub.example.com");
    assert_eq!(record.endpoint.targets, ["10 0 993 mail.example.com"]);
    Ok(())
}

#[test]
fn restores_owner_from_subdomain_response_fqdn() -> Result<(), String> {
    let response = DnsRecordResponse {
        id: Some(91579517),
        record_type: "A".to_owned(),
        fqdn: Some("grafana.example.com".to_owned()),
        data: DnsRecordData {
            value: Some("192.0.2.1".to_owned()),
            ..Default::default()
        },
        ttl: Some(600),
    };

    let record = response
        .into_remote_record("grafana.example.com")
        .map_err(text)?;
    assert_eq!(record.endpoint.dns_name, "grafana.example.com");
    assert_eq!(record.endpoint.targets, ["192.0.2.1"]);
    assert_eq!(record.zone, "grafana.example.com");
    Ok(())
}

fn data(priority: Option<u16>, value: Option<&str>) -> DnsRecordData {
    DnsRecordData {
        priority,
        subdomain: None,
        value: value.map(str::to_owned),
    }
}

fn refusal(record_type: &str, data: DnsRecordData) -> String {
    match response_target(record_type, &data) {
        Ok(target) => panic!("{target}"),
        Err(error) => error.message(),
    }
}

#[test]
fn reads_the_targets_of_every_type() -> Result<(), String> {
    let target = |record_type: &str, data: DnsRecordData| response_target(record_type, &data).map_err(text);
    assert_eq!(target("A", data(None, Some("192.0.2.1")))?, "192.0.2.1");
    assert_eq!(target("AAAA", data(None, Some("::1")))?, "::1");
    assert_eq!(target("CNAME", data(None, Some("a.example.com..")))?, "a.example.com");
    assert_eq!(target("TXT", data(None, Some("v=spf1 ...")))?, "v=spf1 ...");
    assert_eq!(
        target("SRV", data(Some(1), Some(" 0  443 a.example.com. ")))?,
        "1 0 443 a.example.com"
    );
    Ok(())
}

#[test]
fn refuses_records_that_lack_something() {
    let invalid = |message: &str| format!("Timeweb Cloud response is invalid: {message}");
    assert_eq!(refusal("A", data(None, None)), invalid("A DNS record has no value field"));
    assert_eq!(
        refusal("MX", data(None, Some("a"))),
        invalid("MX DNS record has no priority field")
    );
    assert_eq!(
        refusal("MX", data(Some(1), None)),
        invalid("MX DNS record has no value field")
    );
    assert_eq!(
        refusal("SRV", data(None, Some("a"))),
        invalid("SRV DNS record has no priority field")
    );
    assert_eq!(
        refusal("SRV", data(Some(1), None)),
        invalid("SRV DNS record has no value field")
    );
    assert_eq!(
        refusal("NS", data(Some(1), Some("a"))),
        invalid("unsupported DNS record type NS")
    );
    for (value, message) in [
        ("", "SRV DNS record has no weight field"),
        ("x", "SRV DNS record has invalid weight"),
        ("0", "SRV DNS record has no port field"),
        ("0 70000", "SRV DNS record has invalid port"),
        ("0 443", "SRV DNS record has no host field"),
        ("0 443 a b", "SRV DNS record value has extra fields"),
    ] {
        assert_eq!(refusal("SRV", data(Some(1), Some(value))), invalid(message));
    }
}

fn response(id: Option<u64>, record_type: &str, ttl: Option<u64>) -> DnsRecordResponse {
    DnsRecordResponse {
        id,
        record_type: record_type.to_owned(),
        fqdn: None,
        data: DnsRecordData {
            priority: None,
            subdomain: Some(" @ ".to_owned()),
            value: Some("x.".to_owned()),
        },
        ttl,
    }
}

#[test]
fn reads_whole_records() -> Result<(), String> {
    let record = response(Some(3), " cname ", None)
        .into_remote_record("Example.com.")
        .map_err(text)?;
    assert_eq!(record.id, 3);
    assert_eq!(record.zone, "Example.com.");
    assert_eq!(record.endpoint.dns_name, "example.com");
    assert_eq!(record.endpoint.record_type, "CNAME");
    assert_eq!(record.endpoint.targets, ["x"]);
    assert_eq!(record.endpoint.record_ttl, 0);
    assert_eq!(record.endpoint.set_identifier, "");
    let longest = response(Some(3), "TXT", Some(9223372036854775807))
        .into_remote_record("a")
        .map_err(text)?;
    assert_eq!(longest.endpoint.record_ttl, i64::MAX);
    Ok(())
}

#[test]
fn refuses_records_without_a_number_or_with_too_long_a_ttl() {
    let message = |response: DnsRecordResponse| match response.into_remote_record("a") {
        Ok(_) => String::new(),
        Err(error) => error.message(),
    };
    for id in [None, Some(0)] {
        assert_eq!(
            message(response(id, "A", None)),
            "Timeweb Cloud response is invalid: DNS record has no valid ID"
        );
    }
    assert_eq!(
        message(response(Some(1), "A", Some(9223372036854775808))),
        "Timeweb Cloud response is invalid: DNS record TTL does not fit in int64"
    );
}

#[test]
fn failures_have_words_and_a_status() {
    let request = |timeout, connect, request| {
        TimewebError::Request(RequestFailure {
            timeout,
            connect,
            request,
            message: "m".to_owned(),
        })
    };
    assert_eq!(
        request(true, false, false).message(),
        "request to Timeweb Cloud failed: m"
    );
    assert!(request(true, false, false).is_transient());
    assert!(request(false, true, false).is_transient());
    assert!(request(false, false, true).is_transient());
    assert!(!request(false, false, false).is_transient());
    assert_eq!(request(true, true, true).status(), None);

    let answered = |status| TimewebError::HttpStatus {
        status,
        message: "m".to_owned(),
    };
    assert_eq!(answered(404).message(), "Timeweb Cloud returned HTTP 404: m");
    assert_eq!(answered(404).status(), Some(404));
    assert!(!answered(404).is_transient());
    assert!(!answered(499).is_transient());
    assert!(answered(429).is_transient());
    assert!(answered(500).is_transient());

    for (error, words) in [
        (
            TimewebError::Decode("m".to_owned()),
            "failed to decode Timeweb Cloud response: m",
        ),
        (
            TimewebError::BodyTooLarge,
            "Timeweb Cloud response exceeded 16777216 bytes",
        ),
        (
            TimewebError::Url("m".to_owned()),
            "failed to construct Timeweb Cloud URL: m",
        ),
        (
            TimewebError::InvalidResponse("m".to_owned()),
            "Timeweb Cloud response is invalid: m",
        ),
    ] {
        assert_eq!(error.message(), words);
        assert!(error.is_transient());
        assert_eq!(error.status(), None);
    }
}
