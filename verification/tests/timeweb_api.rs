use external_dns_webhook_timeweb::apply::{ApplyStep, LoadStep};
use external_dns_webhook_timeweb::client::{ApiRequest, HttpTimeout, Method};
use external_dns_webhook_timeweb::domain_filter::DomainFilter;
use external_dns_webhook_timeweb::listing::{
    DnsRecordsResponse, DomainResponse, DomainStep, DomainsResponse, MetaResponse, RecordStep, SubdomainResponse,
};
use external_dns_webhook_timeweb::model::{Changes, Endpoint};
use external_dns_webhook_timeweb::outside::UrlParts;
use external_dns_webhook_timeweb::plan::RemoteState;
use external_dns_webhook_timeweb::provider::{Provider, ProviderError};
use external_dns_webhook_timeweb::timeweb::{
    DnsRecordData, DnsRecordResponse, RemoteRecord, TimewebClient, TimewebDomain, TimewebError,
};

type Body = (String, Option<String>, String, Option<u64>, Option<u16>);

struct Seen {
    method: Method,
    path: String,
    token: String,
    body: Option<Body>,
}

/// A server that answers from memory and notes what it is asked.
struct Server {
    subdomain: bool,
    seen: Vec<Seen>,
}

impl Server {
    fn new(subdomain: bool) -> Server {
        Server {
            subdomain,
            seen: Vec::new(),
        }
    }

    fn note(&mut self, request: ApiRequest) -> String {
        let path = match request.url.strip_prefix("http://127.0.0.1:1") {
            Some(path) => path.split('?').next().unwrap_or("").to_owned(),
            None => panic!("{}", request.url),
        };
        self.seen.push(Seen {
            method: request.method,
            path: path.clone(),
            token: request.token,
            body: request.body.map(|change| {
                (
                    change.record_type,
                    change.subdomain,
                    change.value,
                    change.ttl,
                    change.priority,
                )
            }),
        });
        path
    }

    fn domains(&mut self, request: ApiRequest) -> DomainsResponse {
        assert_eq!(self.note(request), "/api/v1/domains");
        let below = if self.subdomain {
            Some(vec![SubdomainResponse {
                fqdn: "grafana.example.com".to_owned(),
            }])
        } else {
            None
        };
        DomainsResponse {
            domains: vec![DomainResponse {
                fqdn: "example.com".to_owned(),
                subdomains: below,
            }],
            meta: Some(MetaResponse { total: Some(1) }),
        }
    }

    fn records(&mut self, request: ApiRequest) -> DnsRecordsResponse {
        let path = self.note(request);
        let record = |id, record_type: &str, subdomain: Option<&str>, value: &str, priority, ttl| DnsRecordResponse {
            id: Some(id),
            record_type: record_type.to_owned(),
            fqdn: None,
            data: DnsRecordData {
                priority,
                subdomain: subdomain.map(str::to_owned),
                value: Some(value.to_owned()),
            },
            ttl: Some(ttl),
        };
        let dns_records = match (path.as_str(), self.subdomain) {
            ("/api/v1/domains/example.com/dns-records", false) => vec![
                record(1, "A", Some("www"), "192.0.2.1", None, 300),
                record(2, "MX", Some("mail"), "mx.example.com", Some(10), 300),
            ],
            ("/api/v1/domains/example.com/dns-records", true) => {
                vec![record(1, "A", None, "192.0.2.10", None, 300)]
            }
            ("/api/v1/domains/grafana.example.com/dns-records", true) => {
                let mut listed = record(3, "A", None, "192.0.2.1", None, 600);
                listed.fqdn = Some("grafana.example.com".to_owned());
                vec![listed]
            }
            _ => panic!("{path}"),
        };
        let total = dns_records.len() as u64;
        DnsRecordsResponse {
            dns_records,
            meta: Some(MetaResponse { total: Some(total) }),
        }
    }

    fn list_domains(&mut self, client: &TimewebClient) -> Result<Vec<TimewebDomain>, TimewebError> {
        let mut step = client.list_domains()?;
        loop {
            step = match step {
                DomainStep::Fetch(request, listing) => listing.page(client, self.domains(request))?,
                DomainStep::Done(domains) => return Ok(domains),
            };
        }
    }

    fn list_records(&mut self, client: &TimewebClient, zone: &str) -> Result<Vec<RemoteRecord>, TimewebError> {
        let mut step = client.list_zone_records(zone)?;
        loop {
            step = match step {
                RecordStep::Fetch(request, listing) => listing.page(client, self.records(request))?,
                RecordStep::Done(records) => return Ok(records),
            };
        }
    }

    fn load(&mut self, provider: &Provider) -> Result<RemoteState, ProviderError> {
        let mut step = provider.load_state(self.list_domains(provider.client()))?;
        loop {
            step = match step {
                LoadStep::ListRecords(loading) => {
                    let listed = self.list_records(provider.client(), loading.zone());
                    loading.listed(provider, listed)?
                }
                LoadStep::Loaded(state) => return Ok(state),
            };
        }
    }

    fn apply(&mut self, provider: &Provider, changes: Changes) -> Result<(), ProviderError> {
        let mut step = provider.apply_changes(changes);
        loop {
            step = match step {
                ApplyStep::Load(pending) => {
                    let state = self.load(provider);
                    pending.loaded(provider, state)
                }
                ApplyStep::Send(request, pending) => {
                    self.note(request);
                    pending.sent(provider, Ok(()))
                }
                ApplyStep::Done(result) => return result,
            };
        }
    }

    fn saw(&self, method: Method, path: &str) -> bool {
        self.seen.iter().any(|seen| seen.method == method && seen.path == path)
    }

    fn saw_body(&self, method: Method, path: &str, body: Body) -> bool {
        self.seen
            .iter()
            .any(|seen| seen.method == method && seen.path == path && seen.body.as_ref() == Some(&body))
    }
}

fn provider(filter: DomainFilter) -> Provider {
    match UrlParts::parse("http://127.0.0.1:1") {
        Ok(url) => Provider::new(
            TimewebClient::new(url, "test-token", HttpTimeout { secs: 2, nanos: 0 }),
            filter,
        ),
        Err(error) => panic!("{error}"),
    }
}

fn open() -> Provider {
    provider(DomainFilter::new(Vec::new(), Vec::new(), None, None))
}

fn endpoint(dns_name: &str, record_type: &str, target: &str, ttl: i64) -> Endpoint {
    Endpoint {
        dns_name: dns_name.to_owned(),
        targets: vec![target.to_owned()],
        record_type: record_type.to_owned(),
        set_identifier: String::new(),
        record_ttl: ttl,
        labels: Default::default(),
        provider_specific: Vec::new(),
    }
}

fn text(error: ProviderError) -> String {
    error.message()
}

#[test]
fn records_and_changes_use_timeweb_api_contract() -> Result<(), String> {
    let mut server = Server::new(false);
    let provider = open();

    let state = server.load(&provider);
    let records = provider.records(state).map_err(text)?;
    assert_eq!(records.len(), 2);
    assert!(records.iter().any(|endpoint| {
        endpoint.dns_name == "www.example.com"
            && endpoint.record_type == "A"
            && endpoint.targets == ["192.0.2.1"]
    }));
    assert!(records.iter().any(|endpoint| {
        endpoint.dns_name == "mail.example.com"
            && endpoint.record_type == "MX"
            && endpoint.targets == ["10 mx.example.com"]
    }));

    let changes = Changes {
        create: vec![endpoint("_acme.example.com", "TXT", "token-value", 60)],
        update_old: vec![endpoint("www.example.com", "A", "192.0.2.1", 300)],
        update_new: vec![endpoint("www.example.com", "A", "192.0.2.2", 60)],
        delete: vec![endpoint("mail.example.com", "MX", "10 mx.example.com", 300)],
    };
    server.apply(&provider, changes).map_err(text)?;

    assert!(server.seen.iter().all(|seen| seen.token == "test-token"));
    assert!(server.saw(Method::Delete, "/api/v1/domains/example.com/dns-records/2"));
    assert!(server.saw_body(
        Method::Patch,
        "/api/v1/domains/example.com/dns-records/1",
        (
            "A".to_owned(),
            Some("www.example.com".to_owned()),
            "192.0.2.2".to_owned(),
            Some(60),
            None
        ),
    ));
    assert!(server.saw_body(
        Method::Post,
        "/api/v1/domains/example.com/dns-records",
        (
            "TXT".to_owned(),
            Some("_acme.example.com".to_owned()),
            "token-value".to_owned(),
            Some(60),
            None
        ),
    ));
    Ok(())
}

#[test]
fn records_include_records_from_timeweb_subdomains() -> Result<(), String> {
    let mut server = Server::new(true);
    let provider = open();

    let state = server.load(&provider);
    let records = provider.records(state).map_err(text)?;
    assert!(records.iter().any(|endpoint| {
        endpoint.dns_name == "grafana.example.com"
            && endpoint.record_type == "A"
            && endpoint.targets == ["192.0.2.1"]
    }));

    server
        .apply(
            &provider,
            Changes {
                create: Vec::new(),
                update_old: vec![endpoint("grafana.example.com", "A", "192.0.2.1", 600)],
                update_new: vec![endpoint("grafana.example.com", "A", "192.0.2.2", 300)],
                delete: Vec::new(),
            },
        )
        .map_err(text)?;

    assert!(server.saw(Method::Get, "/api/v1/domains/grafana.example.com/dns-records"));
    assert!(server.saw_body(
        Method::Patch,
        "/api/v1/domains/grafana.example.com/dns-records/3",
        ("A".to_owned(), None, "192.0.2.2".to_owned(), Some(300), None),
    ));
    Ok(())
}

fn no_changes() -> Changes {
    Changes {
        create: Vec::new(),
        update_old: Vec::new(),
        update_new: Vec::new(),
        delete: Vec::new(),
    }
}

#[test]
fn nothing_is_asked_for_no_changes() -> Result<(), String> {
    let mut server = Server::new(false);
    server.apply(&open(), no_changes()).map_err(text)?;
    assert!(server.seen.is_empty());
    Ok(())
}

#[test]
fn nothing_is_asked_for_changes_that_are_refused() {
    let mut server = Server::new(false);
    let uneven = Changes {
        update_new: vec![endpoint("www.example.com", "A", "192.0.2.1", 0)],
        ..no_changes()
    };
    assert_eq!(
        server.apply(&open(), uneven).map_err(text),
        Err("ExternalDNS update lists have different lengths: 0 and 1".to_owned())
    );
    let bad = || endpoint("www.example.com", "NS", "x", 0);
    let good = || endpoint("www.example.com", "A", "192.0.2.1", 0);
    for changes in [
        Changes {
            create: vec![good(), bad()],
            ..no_changes()
        },
        Changes {
            delete: vec![bad()],
            ..no_changes()
        },
        Changes {
            update_old: vec![bad()],
            update_new: vec![good()],
            ..no_changes()
        },
        Changes {
            update_old: vec![good()],
            update_new: vec![bad()],
            ..no_changes()
        },
    ] {
        assert_eq!(
            server.apply(&open(), changes).map_err(text),
            Err("invalid ExternalDNS endpoint: record type NS is not supported by Timeweb Cloud".to_owned())
        );
    }
    assert!(server.seen.is_empty());
}

#[test]
fn only_managed_zones_and_names_are_loaded() -> Result<(), String> {
    let mut server = Server::new(true);
    let below = provider(DomainFilter::new(
        vec![".example.com".to_owned()],
        Vec::new(),
        None,
        None,
    ));
    let state = server.load(&below).map_err(text)?;
    assert_eq!(state.zones, ["example.com", "grafana.example.com"]);
    let ids: Vec<u64> = state.records.iter().map(|record| record.id).collect();
    assert_eq!(ids, [3]);

    let mut server = Server::new(true);
    let none = provider(DomainFilter::new(
        vec!["example.org".to_owned()],
        Vec::new(),
        None,
        None,
    ));
    let state = server.load(&none).map_err(text)?;
    assert!(state.zones.is_empty() && state.records.is_empty());
    assert_eq!(server.seen.len(), 1);
    Ok(())
}

#[test]
fn a_request_that_fails_ends_the_work() -> Result<(), String> {
    let mut server = Server::new(false);
    let provider = open();
    let changes = Changes {
        create: vec![endpoint("new.example.com", "TXT", "t", 0)],
        delete: vec![endpoint("www.example.com", "A", "192.0.2.1", 0)],
        ..no_changes()
    };
    let pending = match provider.apply_changes(changes) {
        ApplyStep::Load(pending) => pending,
        _ => return Err("nothing to load".to_owned()),
    };
    let state = server.load(&provider);
    match pending.loaded(&provider, state) {
        ApplyStep::Send(request, pending) => {
            assert_eq!(request.method, Method::Delete);
            let failure = TimewebError::HttpStatus {
                status: 403,
                message: "no".to_owned(),
            };
            match pending.sent(&provider, Err(failure)) {
                ApplyStep::Done(Err(error)) => {
                    assert_eq!(error.http_status(), 403);
                    Ok(())
                }
                _ => Err("went on".to_owned()),
            }
        }
        _ => Err("nothing to send".to_owned()),
    }
}

#[test]
fn failures_to_load_end_the_work() {
    let provider = open();
    let failure = || TimewebError::Decode("m".to_owned());
    assert!(matches!(
        provider.load_state(Err(failure())),
        Err(ProviderError::Timeweb(TimewebError::Decode(_)))
    ));
    assert!(matches!(
        provider.records(Err(ProviderError::Timeweb(failure()))),
        Err(ProviderError::Timeweb(TimewebError::Decode(_)))
    ));
    let domains = vec![TimewebDomain {
        fqdn: "example.com".to_owned(),
    }];
    match provider.load_state(Ok(domains)) {
        Ok(LoadStep::ListRecords(loading)) => {
            assert_eq!(loading.zone(), "example.com");
            assert!(matches!(
                loading.listed(&provider, Err(failure())),
                Err(ProviderError::Timeweb(TimewebError::Decode(_)))
            ));
        }
        _ => panic!("nothing to list"),
    }
    let changes = Changes {
        create: vec![endpoint("new.example.com", "TXT", "t", 0)],
        ..no_changes()
    };
    match provider.apply_changes(changes) {
        ApplyStep::Load(pending) => assert!(matches!(
            pending.loaded(&provider, Err(ProviderError::Timeweb(failure()))),
            ApplyStep::Done(Err(ProviderError::Timeweb(TimewebError::Decode(_))))
        )),
        _ => panic!("nothing to load"),
    }
}
