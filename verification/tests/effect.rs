use external_dns_webhook_timeweb::model::{Changes, Endpoint};
use external_dns_webhook_timeweb::plan::{plan_changes, Operation, RemoteState};
use external_dns_webhook_timeweb::timeweb::{
    DnsRecordChange, DnsRecordData, DnsRecordResponse, RemoteRecord,
};

fn endpoint(name: &str, targets: &[&str], ttl: i64) -> Endpoint {
    Endpoint {
        dns_name: name.to_owned(),
        targets: targets.iter().map(|target| (*target).to_owned()).collect(),
        record_type: "CNAME".to_owned(),
        set_identifier: String::new(),
        record_ttl: ttl,
        labels: Default::default(),
        provider_specific: Vec::new(),
    }
}

fn listed(id: u64, zone: &str, change: DnsRecordChange) -> RemoteRecord {
    let response = DnsRecordResponse {
        id: Some(id),
        record_type: change.record_type,
        fqdn: None,
        data: DnsRecordData {
            priority: change.priority,
            subdomain: change.subdomain,
            value: Some(change.value),
        },
        ttl: change.ttl,
    };
    match response.into_remote_record(zone) {
        Ok(record) => record,
        Err(error) => panic!("{}", error.message()),
    }
}

/// Carries out the plan for some changes as the API would.
fn carry_out(changes: &Changes, records: Vec<RemoteRecord>) -> Vec<RemoteRecord> {
    let state = RemoteState {
        zones: vec!["example.com".to_owned()],
        records,
    };
    let plan = plan_changes(changes, &state);
    if let Some(error) = plan.failure {
        panic!("{}", error.message());
    }
    let mut records = state.records;
    for operation in plan.operations {
        match operation {
            Operation::Create { zone, change } => {
                let id = 1 + records.iter().map(|record| record.id).max().unwrap_or(0);
                records.push(listed(id, &zone, change));
            }
            Operation::Update { zone, id, change } => {
                let written = listed(id, &zone, change);
                for record in &mut records {
                    if record.id == id {
                        *record = written.clone();
                    }
                }
            }
            Operation::Delete { id, .. } => records.retain(|record| record.id != id),
        }
    }
    records
}

fn nothing() -> Changes {
    Changes {
        create: Vec::new(),
        update_old: Vec::new(),
        update_new: Vec::new(),
        delete: Vec::new(),
    }
}

fn create(name: &str, targets: &[&str]) -> Changes {
    Changes {
        create: vec![endpoint(name, targets, 60)],
        ..nothing()
    }
}

fn targets(records: &[RemoteRecord], name: &str) -> Vec<String> {
    let mut found: Vec<String> = records
        .iter()
        .filter(|record| record.endpoint.dns_name == name)
        .flat_map(|record| record.endpoint.targets.clone())
        .collect();
    found.sort();
    found
}

#[test]
fn carried_out_plans_come_to_what_is_asked_for() {
    let records = carry_out(&create("www.example.com", &["a.net", "b.net"]), Vec::new());
    let records = carry_out(&create("other.example.com", &["z.net"]), records);
    assert_eq!(targets(&records, "www.example.com"), ["a.net", "b.net"]);
    assert_eq!(targets(&records, "other.example.com"), ["z.net"]);

    for (old, new) in [
        (vec!["a.net", "b.net"], vec!["b.net", "c.net", "d.net"]),
        (vec!["b.net", "c.net", "d.net"], vec!["e.net"]),
        (vec!["e.net"], vec!["e.net"]),
        (vec!["e.net"], vec!["f.net", "f.net"]),
    ] {
        let mut records = carry_out(&create("www.example.com", &old), Vec::new());
        records = carry_out(&create("other.example.com", &["z.net"]), records);
        for ttl in [0, 60, 300] {
            let changes = Changes {
                update_old: vec![endpoint("WWW.example.com", &old, 60)],
                update_new: vec![endpoint("www.example.com", &new, ttl)],
                ..nothing()
            };
            let after = carry_out(&changes, records.clone());
            assert_eq!(targets(&after, "www.example.com"), new);
            assert_eq!(targets(&after, "other.example.com"), ["z.net"]);
        }
    }

    let changes = Changes {
        delete: vec![endpoint("www.example.com", &["A.net."], 0)],
        ..nothing()
    };
    let left = carry_out(&changes, records);
    assert_eq!(targets(&left, "www.example.com"), ["b.net"]);
    assert_eq!(targets(&left, "other.example.com"), ["z.net"]);
}

#[test]
fn a_carried_out_set_of_changes_comes_to_what_it_asks_for() {
    let mut records = Vec::new();
    for (name, names) in [
        ("deleted.example.com", vec!["a.net", "b.net"]),
        ("gone.example.com", vec!["a.net", "b.net"]),
        ("shrunk.example.com", vec!["a.net", "b.net", "c.net"]),
        ("grown.example.com", vec!["a.net"]),
        ("extended.example.com", vec!["a.net"]),
        ("other.example.com", vec!["a.net", "z.net"]),
    ] {
        records = carry_out(&create(name, &names), records);
    }
    let changes = Changes {
        create: vec![
            endpoint("extended.example.com", &["b.net"], 60),
            endpoint("new.example.com", &["c.net", "d.net"], 60),
        ],
        update_old: vec![
            endpoint("shrunk.example.com", &["a.net", "b.net", "c.net"], 60),
            endpoint("grown.example.com", &["a.net"], 60),
        ],
        update_new: vec![
            endpoint("shrunk.example.com", &["d.net"], 300),
            endpoint("grown.example.com", &["a.net", "e.net", "f.net"], 300),
        ],
        delete: vec![
            endpoint("deleted.example.com", &["B.net."], 60),
            endpoint("gone.example.com", &[], 60),
        ],
    };
    let after = carry_out(&changes, records);
    assert_eq!(targets(&after, "deleted.example.com"), ["a.net"]);
    assert!(targets(&after, "gone.example.com").is_empty());
    assert_eq!(targets(&after, "shrunk.example.com"), ["d.net"]);
    assert_eq!(targets(&after, "grown.example.com"), ["a.net", "e.net", "f.net"]);
    assert_eq!(targets(&after, "extended.example.com"), ["a.net", "b.net"]);
    assert_eq!(targets(&after, "new.example.com"), ["c.net", "d.net"]);
    assert_eq!(targets(&after, "other.example.com"), ["a.net", "z.net"]);
    assert_eq!(after.len(), 11);
}
