use external_dns_webhook_timeweb::metrics::Metrics;

#[test]
fn counters_start_at_zero() {
    assert_eq!(
        Metrics::default().render(),
        "# HELP timeweb_webhook_requests_total Number of webhook requests.\n# TYPE timeweb_webhook_requests_total counter\ntimeweb_webhook_requests_total{operation=\"records\"} 0\ntimeweb_webhook_requests_total{operation=\"changes\"} 0\ntimeweb_webhook_requests_total{operation=\"adjustendpoints\"} 0\n# HELP timeweb_webhook_errors_total Number of webhook errors.\n# TYPE timeweb_webhook_errors_total counter\ntimeweb_webhook_errors_total{operation=\"records\"} 0\ntimeweb_webhook_errors_total{operation=\"changes\"} 0\ntimeweb_webhook_errors_total{operation=\"adjustendpoints\"} 0\n"
    );
}

#[test]
fn each_counter_has_its_own_line() {
    let mut metrics = Metrics::default();
    for _ in 0..6 {
        metrics.inc_records_requests();
    }
    for _ in 0..5 {
        metrics.inc_changes_requests();
    }
    for _ in 0..14 {
        metrics.inc_adjust_requests();
    }
    for _ in 0..3 {
        metrics.inc_records_errors();
    }
    for _ in 0..2 {
        metrics.inc_changes_errors();
    }
    metrics.inc_adjust_errors();
    assert_eq!(
        metrics.render(),
        "# HELP timeweb_webhook_requests_total Number of webhook requests.\n# TYPE timeweb_webhook_requests_total counter\ntimeweb_webhook_requests_total{operation=\"records\"} 6\ntimeweb_webhook_requests_total{operation=\"changes\"} 5\ntimeweb_webhook_requests_total{operation=\"adjustendpoints\"} 14\n# HELP timeweb_webhook_errors_total Number of webhook errors.\n# TYPE timeweb_webhook_errors_total counter\ntimeweb_webhook_errors_total{operation=\"records\"} 3\ntimeweb_webhook_errors_total{operation=\"changes\"} 2\ntimeweb_webhook_errors_total{operation=\"adjustendpoints\"} 1\n"
    );
}
