use external_dns_webhook_timeweb::client::HttpTimeout;
use external_dns_webhook_timeweb::config::{parse_duration, Config, EnvValue, Environment};
use external_dns_webhook_timeweb::error::ConfigError;

fn set(text: &str) -> EnvValue {
    EnvValue::Text(text.to_owned())
}

fn environment() -> Environment {
    Environment {
        timeweb_cloud_token: set("token"),
        timeweb_cloud_api_url: EnvValue::Missing,
        timeweb_cloud_listen_addr: EnvValue::Missing,
        timeweb_cloud_metrics_addr: EnvValue::Missing,
        timeweb_cloud_http_timeout: EnvValue::Missing,
        domain_filter: EnvValue::Missing,
        exclude_domain_filter: EnvValue::Missing,
        regexp_domain_filter: EnvValue::Missing,
        regexp_domain_filter_exclusion: EnvValue::Missing,
    }
}

fn refusal(environment: Environment) -> String {
    match Config::from_env(environment) {
        Ok(_) => "accepted".to_owned(),
        Err(ConfigError::MissingEnvironmentVariable { name }) => format!("missing {name}"),
        Err(ConfigError::EmptyEnvironmentVariable { name }) => format!("empty {name}"),
        Err(ConfigError::InvalidEnvironmentVariable { name, value }) => format!("invalid {name}: {value}"),
        Err(ConfigError::InvalidUrl { name, source }) => format!("url {name}: {source}"),
        Err(ConfigError::InvalidRegex { name, .. }) => format!("regex {name}"),
    }
}

#[test]
fn only_the_token_is_required() {
    match Config::from_env(environment()) {
        Ok(config) => {
            assert_eq!(config.token(), "token");
            assert_eq!(config.api_url().href, "https://api.timeweb.cloud/");
            assert_eq!(config.listen_addr(), "127.0.0.1:8888");
            assert_eq!(config.metrics_addr(), "0.0.0.0:8080");
            assert_eq!(config.http_timeout(), HttpTimeout { secs: 10, nanos: 0 });
            assert!(config.domain_filter().is_unrestricted());
            assert_eq!(config.clone().token(), "token");
        }
        Err(error) => panic!("{error:?}"),
    }
}

#[test]
fn every_setting_is_read() {
    let environment = Environment {
        timeweb_cloud_token: set(" spaced "),
        timeweb_cloud_api_url: set(" http://localhost:9/base "),
        timeweb_cloud_listen_addr: set("[::1]:1"),
        timeweb_cloud_metrics_addr: set("1.2.3.4:5"),
        timeweb_cloud_http_timeout: set(" 1m 2s 3ms "),
        domain_filter: set("a.com,b.com"),
        exclude_domain_filter: set("x.a.com"),
        regexp_domain_filter: set(" "),
        regexp_domain_filter_exclusion: set(""),
    };
    match Config::from_env(environment) {
        Ok(config) => {
            assert_eq!(config.token(), " spaced ");
            assert_eq!(config.api_url().href, "http://localhost:9/base");
            assert_eq!(config.listen_addr(), "[::1]:1");
            assert_eq!(config.metrics_addr(), "1.2.3.4:5");
            assert_eq!(
                config.http_timeout(),
                HttpTimeout {
                    secs: 62,
                    nanos: 3_000_000
                }
            );
            assert!(config.domain_filter().matches("y.a.com"));
            assert!(!config.domain_filter().matches("x.a.com"));
        }
        Err(error) => panic!("{error:?}"),
    }
}

#[test]
fn the_token_must_be_there() {
    let with = |token| {
        refusal(Environment {
            timeweb_cloud_token: token,
            ..environment()
        })
    };
    assert_eq!(with(EnvValue::Missing), "missing TIMEWEB_CLOUD_TOKEN");
    assert_eq!(with(set(" \t")), "empty TIMEWEB_CLOUD_TOKEN");
    assert_eq!(
        with(EnvValue::NotUnicode),
        "invalid TIMEWEB_CLOUD_TOKEN: value is not valid UTF-8"
    );
}

#[test]
fn the_url_must_be_a_base_url() {
    let with = |url: &str| {
        refusal(Environment {
            timeweb_cloud_api_url: set(url),
            ..environment()
        })
    };
    for bad in ["ftp://h", "http://h/?q", "http://h/#f", "mailto:a@b", "file:///a"] {
        assert_eq!(with(bad), format!("invalid TIMEWEB_CLOUD_API_URL: {bad}"));
    }
    assert_eq!(
        with("no url"),
        "url TIMEWEB_CLOUD_API_URL: relative URL without a base"
    );
    assert_eq!(with("http://h"), "accepted");
}

#[test]
fn addresses_must_be_addresses() {
    let listen = refusal(Environment {
        timeweb_cloud_listen_addr: set(" 127.0.0.1:1"),
        ..environment()
    });
    assert_eq!(listen, "invalid TIMEWEB_CLOUD_LISTEN_ADDR:  127.0.0.1:1");
    let metrics = refusal(Environment {
        timeweb_cloud_metrics_addr: set("localhost:1"),
        ..environment()
    });
    assert_eq!(metrics, "invalid TIMEWEB_CLOUD_METRICS_ADDR: localhost:1");
}

#[test]
fn the_timeout_must_be_a_duration_and_not_zero() {
    let with = |timeout: &str| {
        refusal(Environment {
            timeweb_cloud_http_timeout: set(timeout),
            ..environment()
        })
    };
    for zero in ["0", "0s", "0ms 0s"] {
        assert_eq!(with(zero), "invalid TIMEWEB_CLOUD_HTTP_TIMEOUT: zero duration");
    }
    for bad in ["", "10", "ten seconds", "1x", "18446744073709551615s 1000000000ns"] {
        assert_eq!(with(bad), format!("invalid TIMEWEB_CLOUD_HTTP_TIMEOUT: {bad}"));
    }
    assert_eq!(with("1ns"), "accepted");
}

#[test]
fn durations_are_read_up_to_the_last_second() {
    let read = |text: &str| match parse_duration("TIMEOUT", set(text), "1s") {
        Ok(timeout) => Some((timeout.secs, timeout.nanos)),
        Err(_) => None,
    };
    assert_eq!(read("0000000000000010s"), Some((10, 0)));
    assert_eq!(read("00000000000000000000000002m 0000000.0000000500s"), Some((120, 50)));
    assert_eq!(read("0000000000000000 0001 000ms"), Some((1, 0)));
    assert_eq!(read("1000000000000000ns"), Some((1_000_000, 0)));
    assert_eq!(read("18446744073709551615ns 1234567890123456us"), Some((19_681_311_963, 833_007_615)));
    assert_eq!(read("1h2m3s4ms5\u{b5}s6ns"), Some((3723, 4_005_006)));
    assert_eq!(read("1 h\u{2003}2 . 5 m"), Some((3750, 0)));
    assert_eq!(read("18446744073709551615s"), Some((u64::MAX, 0)));
    assert_eq!(read("18446744073709551615.5s 499999999ns"), Some((u64::MAX, 999_999_999)));
    assert_eq!(read("584542046090y 19767615s 0.5s"), Some((u64::MAX, 500_000_000)));
    // One more second, or a part that is no duration.
    assert_eq!(read("18446744073709551615s 1s"), None);
    assert_eq!(read("18446744073709551615s 1000000000ns"), None);
    assert_eq!(read("584542046090y 19767615s 0.5s 0.5s"), None);
    assert_eq!(read("584542046090y 19767615s 1 000ms"), None);
    assert_eq!(read("18446744073709551615s 1000000000.5ns"), None);
    for bad in ["1s 2", "1s x", "s1", "1s 2 .m", "1s 2\u{3bc}s", "1s, 2s"] {
        assert_eq!(read(bad), None);
    }
}

#[test]
fn filters_must_be_unicode_and_compile() {
    let not_unicode = |name: &str| format!("invalid {name}: value is not valid UTF-8");
    assert_eq!(
        refusal(Environment {
            domain_filter: EnvValue::NotUnicode,
            ..environment()
        }),
        not_unicode("DOMAIN_FILTER")
    );
    assert_eq!(
        refusal(Environment {
            exclude_domain_filter: EnvValue::NotUnicode,
            ..environment()
        }),
        not_unicode("EXCLUDE_DOMAIN_FILTER")
    );
    assert_eq!(
        refusal(Environment {
            regexp_domain_filter: set("("),
            regexp_domain_filter_exclusion: EnvValue::NotUnicode,
            ..environment()
        }),
        not_unicode("REGEXP_DOMAIN_FILTER_EXCLUSION")
    );
    assert_eq!(
        refusal(Environment {
            regexp_domain_filter: set("("),
            ..environment()
        }),
        "regex REGEXP_DOMAIN_FILTER"
    );
}

#[test]
fn the_first_thing_wrong_is_reported() {
    let wrong = Environment {
        timeweb_cloud_api_url: set("ftp://h"),
        timeweb_cloud_listen_addr: set("x"),
        timeweb_cloud_http_timeout: set("0"),
        regexp_domain_filter: set("("),
        ..environment()
    };
    assert_eq!(refusal(wrong), "invalid TIMEWEB_CLOUD_API_URL: ftp://h");
}
