use external_dns_webhook_timeweb::answer::{
    api_status_error, status_is_success, truncate_message, ApiErrorMessage, BodyBuffer,
};
use external_dns_webhook_timeweb::client::{with_pagination, HttpTimeout, Method};
use external_dns_webhook_timeweb::listing::{
    should_stop_pagination, DnsRecordsResponse, DomainListing, DomainResponse, DomainStep, DomainsResponse,
    MetaResponse, RecordListing, RecordStep, SubdomainResponse,
};
use external_dns_webhook_timeweb::outside::UrlParts;
use external_dns_webhook_timeweb::timeweb::{
    DnsRecordChange, DnsRecordData, DnsRecordResponse, RemoteRecord, TimewebClient, TimewebError,
};

fn client(base: &str) -> TimewebClient {
    match UrlParts::parse(base) {
        Ok(url) => TimewebClient::new(url, "secret", HttpTimeout { secs: 2, nanos: 0 }),
        Err(error) => panic!("{error}"),
    }
}

fn text(error: TimewebError) -> String {
    error.message()
}

fn change() -> DnsRecordChange {
    DnsRecordChange {
        record_type: "A".to_owned(),
        subdomain: None,
        value: "192.0.2.1".to_owned(),
        ttl: None,
        priority: None,
    }
}

#[test]
fn urls_are_taken_apart() -> Result<(), String> {
    let url = UrlParts::parse("HTTPS://Example.com:443/a b?x=1#f").map_err(|error| error.to_string())?;
    assert_eq!(url.href, "https://example.com/a%20b?x=1#f");
    assert_eq!(url.scheme, "https");
    assert_eq!(url.host.as_deref(), Some("example.com"));
    assert_eq!(url.path, "/a%20b");
    assert_eq!(url.query.as_deref(), Some("x=1"));
    assert_eq!(url.fragment.as_deref(), Some("f"));
    assert!(UrlParts::parse("example.com").is_err());
    Ok(())
}

#[test]
fn paths_follow_the_path_of_the_base_url() {
    let url = |base: &str| client(base).api_url("/api/v1/domains").map_err(text);
    assert_eq!(
        url("https://api.timeweb.cloud"),
        Ok("https://api.timeweb.cloud/api/v1/domains".to_owned())
    );
    assert_eq!(
        url("http://localhost:1/proxy//?q=1#f"),
        Ok("http://localhost:1/proxy/api/v1/domains".to_owned())
    );
}

#[test]
fn pages_are_asked_for_by_limit_and_offset() {
    assert_eq!(
        with_pagination("http://h/p".to_owned(), 200).map_err(text),
        Ok("http://h/p?limit=100&offset=200".to_owned())
    );
    assert_eq!(
        with_pagination("not a url".to_owned(), 0).map_err(text),
        Err("failed to construct Timeweb Cloud URL: not a URL".to_owned())
    );
}

#[test]
fn long_urls_are_built() {
    let long = format!("/{}", "x".repeat(0x101_0000));
    assert!(client("http://h").api_url(&long).map_err(text) == Ok(format!("http://h{long}")));
    let escaped = "\u{e9}{}/../".repeat(3);
    assert_eq!(
        client("http://h/a").api_url(&format!("/{escaped}b?c")).map_err(text),
        Ok("http://h/a/b%3Fc".to_owned())
    );
    assert_eq!(
        with_pagination("http://h/p?q#f".to_owned(), 0).map_err(text),
        Ok("http://h/p?q&limit=100&offset=0#f".to_owned())
    );
}

#[test]
fn record_urls_name_the_zone() {
    let client = client("http://h/");
    assert_eq!(
        client.dns_record_url("POST", " Example.com. ", None).map_err(text),
        Ok("http://h/api/v1/domains/example.com/dns-records".to_owned())
    );
    assert_eq!(
        client.dns_record_url("PATCH", "a b", Some(7)).map_err(text),
        Ok("http://h/api/v1/domains/a%20b/dns-records/7".to_owned())
    );
    for method in ["POST", "PATCH", "DELETE"] {
        assert_eq!(
            client.dns_record_url(method, " . ", None).map_err(text),
            Err(format!(
                "Timeweb Cloud response is invalid: cannot use an empty owner FQDN for {method}"
            ))
        );
    }
}

#[test]
fn requests_carry_method_token_and_body() -> Result<(), String> {
    let client = client("http://h");
    let created = client.create_record("example.com", change()).map_err(text)?;
    assert_eq!(created.method, Method::Post);
    assert_eq!(created.url, "http://h/api/v1/domains/example.com/dns-records");
    assert_eq!(created.token, "secret");
    assert_eq!(created.body.map(|body| body.value).as_deref(), Some("192.0.2.1"));

    let updated = client.update_record("example.com", 5, change()).map_err(text)?;
    assert_eq!(updated.method, Method::Patch);
    assert_eq!(updated.url, "http://h/api/v1/domains/example.com/dns-records/5");
    assert!(updated.body.is_some());

    let deleted = client.delete_record("example.com", 5).map_err(text)?;
    assert_eq!(deleted.method, Method::Delete);
    assert_eq!(deleted.url, "http://h/api/v1/domains/example.com/dns-records/5");
    assert_eq!(deleted.token, "secret");
    assert!(deleted.body.is_none());

    assert!(client.delete_record("", 5).is_err());
    assert_eq!(client.clone().timeout(), HttpTimeout { secs: 2, nanos: 0 });
    Ok(())
}

#[test]
fn bodies_are_read_up_to_the_limit() {
    let mut body = BodyBuffer::new();
    let half = vec![7_u8; 8 * 1024 * 1024];
    assert!(body.push(&half).is_ok());
    assert!(body.push(&half).is_ok());
    assert!(body.push(&[]).is_ok());
    assert!(matches!(body.push(&[1]), Err(TimewebError::BodyTooLarge)));
    assert_eq!(body.into_bytes().len(), 16777216);

    let mut small = BodyBuffer::new();
    assert!(small.push(b"ab").is_ok());
    assert!(small.push(b"c").is_ok());
    assert_eq!(small.into_bytes(), b"abc");
}

#[test]
fn error_answers_are_put_in_words() {
    let words = |message: Option<ApiErrorMessage>, body: &[u8]| match api_status_error(404, message, body) {
        TimewebError::HttpStatus { status: 404, message } => message,
        other => other.message(),
    };
    let said = |message: &str| Some(ApiErrorMessage::Text(message.to_owned()));
    assert_eq!(words(said("no such zone"), b"{}"), "no such zone");
    assert_eq!(
        words(
            Some(ApiErrorMessage::List(vec!["a".to_owned(), "b".to_owned(), "c".to_owned()])),
            b""
        ),
        "a; b; c"
    );
    assert_eq!(words(said(""), b" body "), "body");
    assert_eq!(words(Some(ApiErrorMessage::List(Vec::new())), b"x"), "x");
    assert_eq!(words(None, b" \n "), "empty response body");
    assert_eq!(words(None, "é".as_bytes()), "é");
    assert_eq!(words(None, b"a\xffb"), "a\u{fffd}b");
    let long = "ä".repeat(2000);
    assert_eq!(words(said(&long), b""), "ä".repeat(1024));
    assert_eq!(words(None, long.as_bytes()), "ä".repeat(1024));
    assert_eq!(truncate_message("short"), "short");
}

#[test]
fn only_two_hundreds_report_success() {
    for status in [200, 204, 299] {
        assert!(status_is_success(status));
    }
    for status in [100, 199, 300, 404, 500] {
        assert!(!status_is_success(status));
        let error = api_status_error(status, None, b"why");
        assert_eq!(error.status(), Some(status));
        assert_eq!(error.message(), format!("Timeweb Cloud returned HTTP {status}: why"));
    }
}

#[test]
fn lists_end_with_a_page_that_is_not_full_or_at_the_total() {
    assert!(should_stop_pagination(0, 0, None));
    assert!(should_stop_pagination(99, 0, Some(500)));
    assert!(!should_stop_pagination(100, 0, None));
    assert!(!should_stop_pagination(100, 0, Some(101)));
    assert!(should_stop_pagination(100, 0, Some(100)));
    assert!(should_stop_pagination(100, u64::MAX, Some(u64::MAX)));
}

fn domain(fqdn: &str, below: &[&str]) -> DomainResponse {
    DomainResponse {
        fqdn: fqdn.to_owned(),
        subdomains: Some(
            below
                .iter()
                .map(|fqdn| SubdomainResponse {
                    fqdn: (*fqdn).to_owned(),
                })
                .collect(),
        ),
    }
}

fn start_domains(client: &TimewebClient) -> Result<DomainListing, String> {
    match client.list_domains().map_err(text)? {
        DomainStep::Fetch(request, listing) => {
            assert_eq!(request.url, "http://h/api/v1/domains?limit=100&offset=0");
            assert_eq!(request.method, Method::Get);
            assert_eq!(request.token, "secret");
            Ok(listing)
        }
        DomainStep::Done(_) => Err("ended".to_owned()),
    }
}

#[test]
fn domains_are_listed_page_by_page() -> Result<(), String> {
    let client = client("http://h");
    let listing = start_domains(&client)?;
    let full: Vec<DomainResponse> = (0..100).map(|n| domain(&format!("D{n:03}.org."), &[])).collect();
    let step = listing
        .page(
            &client,
            DomainsResponse {
                domains: full,
                meta: Some(MetaResponse { total: Some(101) }),
            },
        )
        .map_err(text)?;
    let listing = match step {
        DomainStep::Fetch(request, listing) => {
            assert_eq!(request.url, "http://h/api/v1/domains?limit=100&offset=100");
            listing
        }
        DomainStep::Done(_) => return Err("ended".to_owned()),
    };
    let last = DomainsResponse {
        domains: vec![
            domain("a.com", &["x.a.com", "A.com.", "", "x.a.com."]),
            domain(" . ", &["ignored.net"]),
            DomainResponse {
                fqdn: "d000.org".to_owned(),
                subdomains: None,
            },
        ],
        meta: None,
    };
    match listing.page(&client, last).map_err(text)? {
        DomainStep::Done(domains) => {
            let names: Vec<String> = domains.into_iter().map(|domain| domain.fqdn).collect();
            assert_eq!(names.len(), 102);
            assert_eq!(names[..4], ["a.com", "d000.org", "d001.org", "d002.org"]);
            assert_eq!(names[101], "x.a.com");
        }
        DomainStep::Fetch(..) => return Err("went on".to_owned()),
    }
    Ok(())
}

#[test]
fn a_subdomain_must_lie_below_its_domain() -> Result<(), String> {
    let client = client("http://h");
    let page = DomainsResponse {
        domains: vec![domain("a.com", &["www.a.com", "X.b.com"])],
        meta: None,
    };
    match start_domains(&client)?.page(&client, page) {
        Ok(_) => Err("accepted".to_owned()),
        Err(error) => {
            assert_eq!(
                error.message(),
                "Timeweb Cloud response is invalid: subdomain x.b.com does not belong to domain a.com"
            );
            Ok(())
        }
    }
}

fn record(id: u64) -> DnsRecordResponse {
    DnsRecordResponse {
        id: Some(id),
        record_type: "TXT".to_owned(),
        fqdn: None,
        data: DnsRecordData {
            priority: None,
            subdomain: None,
            value: Some("t".to_owned()),
        },
        ttl: None,
    }
}

fn start_records(client: &TimewebClient) -> Result<RecordListing, String> {
    match client.list_zone_records(" Example.com. ").map_err(text)? {
        RecordStep::Fetch(request, listing) => {
            assert_eq!(
                request.url,
                "http://h/api/v1/domains/example.com/dns-records?limit=100&offset=0"
            );
            Ok(listing)
        }
        RecordStep::Done(_) => Err("ended".to_owned()),
    }
}

#[test]
fn records_are_listed_page_by_page() -> Result<(), String> {
    let client = client("http://h");
    let full = DnsRecordsResponse {
        dns_records: (1..=100).map(record).collect(),
        meta: None,
    };
    let listing = match start_records(&client)?.page(&client, full).map_err(text)? {
        RecordStep::Fetch(request, listing) => {
            assert_eq!(
                request.url,
                "http://h/api/v1/domains/example.com/dns-records?limit=100&offset=100"
            );
            listing
        }
        RecordStep::Done(_) => return Err("ended".to_owned()),
    };
    let last = DnsRecordsResponse {
        dns_records: (101..=103).map(record).collect(),
        meta: Some(MetaResponse { total: Some(9999) }),
    };
    match listing.page(&client, last).map_err(text)? {
        RecordStep::Done(records) => {
            let ids: Vec<u64> = records.iter().map(|record| record.id).collect();
            assert_eq!(ids, (1..=103).collect::<Vec<u64>>());
            assert!(records.iter().all(|record| record.zone == "example.com"));
        }
        RecordStep::Fetch(..) => return Err("went on".to_owned()),
    }
    Ok(())
}

#[test]
fn a_record_that_makes_no_sense_ends_a_listing() -> Result<(), String> {
    let client = client("http://h");
    let page = DnsRecordsResponse {
        dns_records: vec![record(1), record(0)],
        meta: None,
    };
    match start_records(&client)?.page(&client, page) {
        Ok(_) => Err("accepted".to_owned()),
        Err(error) => {
            assert_eq!(
                error.message(),
                "Timeweb Cloud response is invalid: DNS record has no valid ID"
            );
            Ok(())
        }
    }
}

#[test]
fn an_empty_zone_is_not_listed() {
    let message = match client("http://h").list_zone_records(" . ") {
        Ok(_) => String::new(),
        Err(error) => error.message(),
    };
    assert_eq!(
        message,
        "Timeweb Cloud response is invalid: an empty zone cannot be queried"
    );
}

#[test]
fn a_zone_that_is_not_there_has_no_records() {
    let client = client("http://h");
    let answered = |status| {
        client.list_zone_records_if_exists(Err(TimewebError::HttpStatus {
            status,
            message: "m".to_owned(),
        }))
    };
    assert!(matches!(answered(404), Ok(None)));
    assert!(matches!(
        answered(403),
        Err(TimewebError::HttpStatus { status: 403, .. })
    ));
    let none: Vec<RemoteRecord> = Vec::new();
    assert!(matches!(client.list_zone_records_if_exists(Ok(none)), Ok(Some(list)) if list.is_empty()));
}
