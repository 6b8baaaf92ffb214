use external_dns_webhook_timeweb::model::{Changes, Endpoint};
use external_dns_webhook_timeweb::plan::{plan_changes, Operation, RemoteState};
use external_dns_webhook_timeweb::timeweb::RemoteRecord;

fn endpoint(record_type: &str, dns_name: &str, targets: &[&str], ttl: i64) -> Endpoint {
    Endpoint {
        dns_name: dns_name.to_owned(),
        targets: targets.iter().map(|target| (*target).to_owned()).collect(),
        record_type: record_type.to_owned(),
        set_identifier: String::new(),
        record_ttl: ttl,
        labels: Default::default(),
        provider_specific: Vec::new(),
    }
}

fn a(targets: &[&str], ttl: i64) -> Endpoint {
    endpoint("A", "www.example.com", targets, ttl)
}

fn state(records: &[(u64, &str, &str, &str, i64)]) -> RemoteState {
    RemoteState {
        zones: vec!["example.com".to_owned(), "sub.example.com".to_owned()],
        records: records
            .iter()
            .map(|(id, record_type, name, target, ttl)| RemoteRecord {
                id: *id,
                zone: "example.com".to_owned(),
                endpoint: endpoint(record_type, name, &[target], *ttl),
            })
            .collect(),
    }
}

fn two() -> RemoteState {
    state(&[
        (1, "A", "www.example.com", "192.0.2.1", 300),
        (2, "A", "www.example.com", "192.0.2.2", 300),
    ])
}

fn nothing() -> Changes {
    Changes {
        create: Vec::new(),
        update_old: Vec::new(),
        update_new: Vec::new(),
        delete: Vec::new(),
    }
}

fn update(old: Endpoint, new: Endpoint) -> Changes {
    Changes {
        update_old: vec![old],
        update_new: vec![new],
        ..nothing()
    }
}

fn show(changes: &Changes, state: &RemoteState) -> (Vec<String>, Option<String>) {
    let plan = plan_changes(changes, state);
    let operations = plan
        .operations
        .iter()
        .map(|operation| match operation {
            Operation::Create { zone, change } => format!("create {zone} {} {}", change.record_type, change.value),
            Operation::Update { zone, id, change } => {
                format!("update {zone} {id} {} {:?}", change.value, change.ttl)
            }
            Operation::Delete { zone, id } => format!("delete {zone} {id}"),
        })
        .collect();
    (operations, plan.failure.map(|error| error.message()))
}

#[test]
fn no_changes_make_an_empty_plan() {
    assert_eq!(show(&nothing(), &two()), (vec![], None));
}

#[test]
fn deletions_take_the_named_targets_once() {
    let changes = Changes {
        delete: vec![a(&["192.0.2.1"], 0), a(&["192.0.2.1", "192.0.2.2"], 0)],
        ..nothing()
    };
    assert_eq!(
        show(&changes, &two()),
        (
            vec!["delete example.com 1".to_owned(), "delete example.com 2".to_owned()],
            None
        )
    );
    let all = Changes {
        delete: vec![endpoint("a", "WWW.example.com", &[], 0)],
        ..nothing()
    };
    assert_eq!(
        show(&all, &two()).0,
        ["delete example.com 1", "delete example.com 2"]
    );
    let unknown = Changes {
        delete: vec![a(&["192.0.2.7"], 0), endpoint("TXT", "www.example.com", &[], 0)],
        ..nothing()
    };
    assert_eq!(show(&unknown, &two()), (vec![], None));
}

#[test]
fn an_update_to_the_same_does_nothing() {
    let changes = update(
        a(&["192.0.2.1", "192.0.2.2"], 300),
        a(&["192.0.2.2", "192.0.2.1"], 300),
    );
    assert_eq!(show(&changes, &two()), (vec![], None));
    let unset = update(
        a(&["192.0.2.1", "192.0.2.2"], 300),
        a(&["192.0.2.2", "192.0.2.1"], 0),
    );
    assert_eq!(show(&unset, &two()), (vec![], None));
}

#[test]
fn another_ttl_is_written_to_what_stays() {
    let changes = update(a(&["192.0.2.1"], 300), a(&["192.0.2.1"], 60));
    assert_eq!(
        show(&changes, &two()),
        (vec!["update example.com 1 192.0.2.1 Some(60)".to_owned()], None)
    );
}

#[test]
fn updates_keep_change_create_and_delete() {
    let grow = update(
        a(&["192.0.2.1", "192.0.2.2"], 300),
        a(&["192.0.2.2", "192.0.2.3", "192.0.2.4"], 300),
    );
    assert_eq!(
        show(&grow, &two()),
        (
            vec![
                "update example.com 1 192.0.2.3 Some(300)".to_owned(),
                "create example.com A 192.0.2.4".to_owned(),
            ],
            None
        )
    );
    let shrink = update(a(&["192.0.2.1", "192.0.2.2"], 300), a(&["192.0.2.2"], 300));
    assert_eq!(show(&shrink, &two()), (vec!["delete example.com 1".to_owned()], None));
}

#[test]
fn equal_targets_are_taken_from_different_records() {
    let twice = state(&[
        (1, "A", "www.example.com", "192.0.2.1", 300),
        (2, "A", "www.example.com", "192.0.2.1", 300),
    ]);
    let changes = update(
        a(&["192.0.2.1", "192.0.2.1"], 300),
        a(&["192.0.2.8", "192.0.2.9"], 300),
    );
    assert_eq!(
        show(&changes, &twice).0,
        [
            "update example.com 1 192.0.2.8 Some(300)",
            "update example.com 2 192.0.2.9 Some(300)",
        ]
    );
}

#[test]
fn an_update_of_what_is_not_there_ends_the_plan() {
    let changes = Changes {
        delete: vec![a(&["192.0.2.1"], 0)],
        create: vec![a(&["192.0.2.5"], 0)],
        ..update(a(&["192.0.2.1"], 300), a(&["192.0.2.3"], 300))
    };
    assert_eq!(
        show(&changes, &two()),
        (
            vec!["delete example.com 1".to_owned()],
            Some("current DNS state does not contain record A www.example.com 192.0.2.1".to_owned())
        )
    );
}

#[test]
fn an_update_must_keep_the_identity() {
    let changes = update(
        a(&["192.0.2.1"], 300),
        endpoint("A", "api.example.com", &["192.0.2.1"], 300),
    );
    assert_eq!(
        show(&changes, &two()).1.as_deref(),
        Some(
            "invalid ExternalDNS endpoint: updateOld and updateNew must have the same DNS name, type and set identifier"
        )
    );
}

#[test]
fn names_outside_of_every_zone_end_the_plan() {
    let message = "invalid ExternalDNS endpoint: no Timeweb Cloud domain contains www.example.org";
    let stranger = || endpoint("A", "www.example.org", &["192.0.2.1"], 0);
    let create = Changes {
        create: vec![stranger()],
        ..nothing()
    };
    assert_eq!(show(&create, &two()), (vec![], Some(message.to_owned())));
    assert_eq!(
        show(&update(stranger(), stranger()), &two()),
        (vec![], Some(message.to_owned()))
    );
}

#[test]
fn creations_go_to_the_longest_zone_and_stop_at_a_bad_target() {
    let changes = Changes {
        create: vec![
            endpoint("A", "x.sub.example.com", &["192.0.2.1", "bad", "192.0.2.2"], 0),
            endpoint("A", "y.example.com", &["192.0.2.3"], 0),
        ],
        ..nothing()
    };
    assert_eq!(
        show(&changes, &two()),
        (
            vec!["create sub.example.com A 192.0.2.1".to_owned()],
            Some("invalid ExternalDNS endpoint: A record target is not an IP address: bad".to_owned())
        )
    );
}

#[test]
fn deletions_come_before_updates_and_creations() {
    let changes = Changes {
        create: vec![endpoint("TXT", "t.example.com", &["new"], 0)],
        delete: vec![a(&["192.0.2.1"], 0)],
        ..update(a(&["192.0.2.2"], 300), a(&["192.0.2.3"], 300))
    };
    assert_eq!(
        show(&changes, &two()).0,
        [
            "delete example.com 1",
            "update example.com 2 192.0.2.3 Some(300)",
            "create example.com TXT new",
        ]
    );
}
