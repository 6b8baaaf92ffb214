use external_dns_webhook_timeweb::client::HttpTimeout;
use external_dns_webhook_timeweb::domain_filter::DomainFilter;
use external_dns_webhook_timeweb::metrics::Metrics;
use external_dns_webhook_timeweb::model::{is_zero, Changes, Endpoint};
use external_dns_webhook_timeweb::outside::UrlParts;
use external_dns_webhook_timeweb::provider::{Provider, ProviderError};
use external_dns_webhook_timeweb::timeweb::TimewebClient;
use external_dns_webhook_timeweb::webhook::{
    begin_adjust, begin_changes, begin_records, changes_payload, end_adjust, end_changes, end_records, ensure_accept,
    ensure_content_type, negotiate, WebhookError, MEDIA_TYPE,
};

fn provider() -> Provider {
    match UrlParts::parse("http://127.0.0.1:1") {
        Ok(url) => Provider::new(
            TimewebClient::new(url, "token", HttpTimeout { secs: 1, nanos: 0 }),
            DomainFilter::new(Vec::new(), Vec::new(), None, None),
        ),
        Err(error) => panic!("{error}"),
    }
}

fn endpoint() -> Endpoint {
    Endpoint {
        dns_name: "www.example.com".to_owned(),
        targets: vec!["192.0.2.1".to_owned()],
        record_type: "A".to_owned(),
        set_identifier: String::new(),
        record_ttl: 60,
        labels: Default::default(),
        provider_specific: Vec::new(),
    }
}

fn refusal<T>(result: Result<T, WebhookError>) -> (u16, String) {
    match result {
        Ok(_) => (0, String::new()),
        Err(error) => (error.status, error.message),
    }
}

fn counters(metrics: &Metrics) -> Vec<u64> {
    metrics
        .render()
        .lines()
        .filter(|line| !line.starts_with('#'))
        .filter_map(|line| line.rsplit(' ').next().and_then(|number| number.parse().ok()))
        .collect()
}

#[test]
fn negotiates_external_dns_media_type() {
    let provider = provider();
    let payload = match negotiate(&provider, Some(MEDIA_TYPE.as_bytes())) {
        Ok(payload) => payload,
        Err(error) => panic!("{error:?}"),
    };
    assert!(payload.included.is_empty());
    assert!(payload.excluded.is_empty());
    assert!(payload.regex_include.is_none());
    assert!(payload.regex_exclude.is_none());
    assert_eq!(MEDIA_TYPE, "application/external.dns.webhook+json;version=1");
    assert_eq!(refusal(negotiate(&provider, Some(b"text/html"))).0, 406);
}

#[test]
fn echoes_adjust_endpoints_without_calling_timeweb() {
    let provider = provider();
    let mut metrics = Metrics::default();
    assert!(begin_adjust(&mut metrics, None, Some(MEDIA_TYPE.as_bytes())).is_ok());
    match end_adjust(&mut metrics, &provider, Ok(vec![endpoint()])) {
        Ok(adjusted) => assert_eq!(adjusted, [endpoint()]),
        Err(error) => panic!("{error:?}"),
    }
    assert_eq!(counters(&metrics), [0, 0, 1, 0, 0, 0]);
}

#[test]
fn accept_must_name_the_media_type() {
    assert!(ensure_accept(None).is_ok());
    assert!(ensure_accept(Some(MEDIA_TYPE.as_bytes())).is_ok());
    let listed = format!("text/html , {MEDIA_TYPE} ,*/*");
    assert!(ensure_accept(Some(listed.as_bytes())).is_ok());
    for other in ["", "*/*", "application/external.dns.webhook+json"] {
        assert_eq!(
            refusal(ensure_accept(Some(other.as_bytes()))),
            (406, format!("unsupported Accept media type: {other}"))
        );
    }
    for bytes in [&b"a\x00"[..], &b"\xc3\xa9"[..], &b"\x7f"[..]] {
        assert_eq!(
            refusal(ensure_accept(Some(bytes))),
            (406, "invalid Accept header".to_owned())
        );
    }
    assert_eq!(
        refusal(ensure_accept(Some(b"a\tb"))),
        (406, "unsupported Accept media type: a\tb".to_owned())
    );
}

#[test]
fn content_type_must_be_the_media_type() {
    assert!(ensure_content_type(None).is_ok());
    assert!(ensure_content_type(Some(MEDIA_TYPE.as_bytes())).is_ok());
    let more = format!("{MEDIA_TYPE};charset=utf-8");
    assert!(ensure_content_type(Some(more.as_bytes())).is_ok());
    for other in [
        "application/json".to_owned(),
        format!("{MEDIA_TYPE}0"),
        format!("{MEDIA_TYPE}, text/html"),
    ] {
        assert_eq!(
            refusal(ensure_content_type(Some(other.as_bytes()))),
            (415, format!("unsupported Content-Type media type: {other}"))
        );
    }
    assert_eq!(
        refusal(ensure_content_type(Some(b"\xff"))),
        (415, "invalid Content-Type header".to_owned())
    );
}

#[test]
fn requests_for_the_records_are_counted() {
    let mut metrics = Metrics::default();
    assert!(begin_records(&mut metrics, None).is_ok());
    match end_records(&mut metrics, Ok(vec![endpoint()])) {
        Ok(list) => assert_eq!(list, [endpoint()]),
        Err(error) => panic!("{error:?}"),
    }
    assert_eq!(counters(&metrics), [1, 0, 0, 0, 0, 0]);
    assert_eq!(refusal(begin_records(&mut metrics, Some(b"x"))).0, 406);
    assert_eq!(counters(&metrics), [2, 0, 0, 1, 0, 0]);
    assert!(begin_records(&mut metrics, None).is_ok());
    assert_eq!(
        refusal(end_records(
            &mut metrics,
            Err(ProviderError::InvalidEndpoint("m".to_owned()))
        )),
        (400, "invalid ExternalDNS endpoint: m".to_owned())
    );
    assert_eq!(counters(&metrics), [3, 0, 0, 2, 0, 0]);
}

#[test]
fn requests_to_apply_changes_are_counted() {
    let mut metrics = Metrics::default();
    assert!(begin_changes(&mut metrics, None).is_ok());
    let changes = Changes {
        create: vec![endpoint()],
        update_old: Vec::new(),
        update_new: Vec::new(),
        delete: Vec::new(),
    };
    match changes_payload(&mut metrics, Ok(changes)) {
        Ok(changes) => assert_eq!(changes.create, [endpoint()]),
        Err(error) => panic!("{error:?}"),
    }
    assert!(matches!(end_changes(&mut metrics, Ok(())), Ok(204)));
    assert_eq!(counters(&metrics), [0, 1, 0, 0, 0, 0]);

    assert_eq!(refusal(begin_changes(&mut metrics, Some(b"x"))).0, 415);
    assert_eq!(counters(&metrics), [0, 2, 0, 0, 1, 0]);
    assert_eq!(
        refusal(changes_payload(&mut metrics, Err("m".to_owned()))),
        (400, "invalid changes payload: m".to_owned())
    );
    assert_eq!(counters(&metrics), [0, 2, 0, 0, 2, 0]);
    assert_eq!(
        refusal(end_changes(
            &mut metrics,
            Err(ProviderError::MismatchedUpdateLists { old_len: 0, new_len: 1 })
        ))
        .0,
        400
    );
    assert_eq!(counters(&metrics), [0, 2, 0, 0, 3, 0]);
}

#[test]
fn requests_to_adjust_endpoints_are_counted() {
    let provider = provider();
    let mut metrics = Metrics::default();
    assert_eq!(refusal(begin_adjust(&mut metrics, Some(b"x"), Some(b"y"))).0, 406);
    assert_eq!(refusal(begin_adjust(&mut metrics, None, Some(b"y"))).0, 415);
    assert!(begin_adjust(&mut metrics, None, None).is_ok());
    assert_eq!(
        refusal(end_adjust(&mut metrics, &provider, Err("m".to_owned()))),
        (400, "invalid endpoints payload: m".to_owned())
    );
    assert_eq!(counters(&metrics), [0, 0, 3, 0, 0, 3]);
}

#[test]
fn only_a_zero_ttl_is_left_out() {
    assert!(is_zero(&0));
    assert!(!is_zero(&60));
    assert!(!is_zero(&-1));
}
