use external_dns_webhook_timeweb::domain_filter::{DomainFilter, DomainRegex};
use external_dns_webhook_timeweb::error::ConfigError;

fn regex(pattern: &str) -> Result<DomainRegex, String> {
    DomainRegex::new(pattern).map_err(|error| error.to_string())
}

#[test]
fn matches_include_exclude_and_regex_filters() -> Result<(), String> {
    let filter = DomainFilter::new(
        vec!["example.com".to_owned()],
        vec!["private.example.com".to_owned()],
        None,
        None,
    );

    assert!(filter.matches("www.example.com."));
    assert!(!filter.matches("private.example.com"));
    assert!(!filter.matches("other.example.org"));

    let regex_filter = DomainFilter::new(
        Vec::new(),
        Vec::new(),
        Some(regex(r"^api\.example\.com$")?),
        None,
    );
    assert!(regex_filter.matches("api.example.com"));
    assert!(!regex_filter.matches("www.example.com"));
    Ok(())
}

#[test]
fn serializes_using_external_dns_domain_filter_keys() {
    let filter = DomainFilter::new(
        vec!["example.com".to_owned()],
        vec!["private.example.com".to_owned()],
        None,
        None,
    );

    let value = filter.payload();
    assert_eq!(value.included[0], "example.com");
    assert_eq!(value.excluded[0], "private.example.com");
    assert!(value.regex_include.is_none() && value.regex_exclude.is_none());
}

#[test]
fn regex_filter_overrides_domain_lists() -> Result<(), String> {
    let filter = DomainFilter::new(
        vec!["example.com".to_owned()],
        vec!["blocked.example.com".to_owned()],
        Some(regex(r"^api\.example\.net$")?),
        None,
    );

    assert!(filter.matches("api.example.net"));
    assert!(!filter.matches("www.example.com"));
    let value = filter.payload();
    assert!(value.included.is_empty());
    assert_eq!(value.regex_include.as_deref(), Some(r"^api\.example\.net$"));
    Ok(())
}

fn list(items: &[&str]) -> Vec<String> {
    items.iter().map(|item| (*item).to_owned()).collect()
}

#[test]
fn patterns_with_a_leading_dot_cover_only_what_lies_below() {
    let filter = DomainFilter::new(list(&[" .Example.COM. "]), Vec::new(), None, None);
    assert!(filter.matches("www.example.com"));
    assert!(!filter.matches("example.com"));
    assert!(!filter.matches("badexample.com"));
    assert_eq!(filter.payload().included, [".example.com"]);
}

#[test]
fn empty_patterns_are_dropped() {
    let filter = DomainFilter::new(list(&["", ".", " . ", "..."]), list(&["."]), None, None);
    // Of three dots the first is kept as the leading one, and the rest is empty.
    assert!(filter.is_unrestricted());
    assert!(filter.matches("anything.at.all"));
    assert!(filter.zone_may_contain("anything.at.all"));
}

#[test]
fn zones_are_kept_that_a_pattern_reaches_into() {
    let filter = DomainFilter::new(list(&["a.example.com", ".example.org"]), Vec::new(), None, None);
    assert!(filter.zone_may_contain("example.com"));
    assert!(filter.zone_may_contain("a.example.com"));
    assert!(filter.zone_may_contain("b.a.example.com."));
    assert!(!filter.zone_may_contain("b.example.com"));
    assert!(filter.zone_may_contain("example.org"));
    assert!(filter.zone_may_contain("sub.example.org"));
    assert!(!filter.zone_may_contain("example.net"));
}

#[test]
fn any_regex_keeps_every_zone() -> Result<(), String> {
    let including = DomainFilter::new(
        list(&["example.com"]),
        Vec::new(),
        Some(regex("x")?),
        None,
    );
    assert!(including.zone_may_contain("example.net"));
    assert!(!including.is_unrestricted());

    let excluding = DomainFilter::new(
        list(&["example.com"]),
        Vec::new(),
        None,
        Some(regex(r"\.internal\.")?),
    );
    assert!(excluding.matches("www.example.net"));
    assert!(!excluding.matches("db.internal.example.com"));
    assert!(excluding.zone_may_contain("example.com"));
    assert!(excluding.zone_may_contain("example.net"));
    assert!(!excluding.is_unrestricted());

    let private = DomainFilter::new(
        list(&["example.com"]),
        Vec::new(),
        None,
        Some(regex(r"^private\.")?),
    );
    assert!(private.zone_may_contain("example.org"));
    assert!(private.matches("www.example.org"));
    assert!(!private.matches("private.example.org"));
    Ok(())
}

#[test]
fn exclusion_by_regex_wins_over_inclusion() -> Result<(), String> {
    let filter = DomainFilter::new(
        Vec::new(),
        Vec::new(),
        Some(regex(r"example\.com$")?),
        Some(regex(r"^secret\.")?),
    );
    assert!(filter.matches("WWW.Example.com."));
    assert!(!filter.matches("secret.example.com"));
    assert!(!filter.matches("example.org"));
    Ok(())
}

#[test]
fn payload_lists_are_sorted() {
    let filter = DomainFilter::new(list(&["b.com", "a.com", "b.com"]), list(&["z", "y"]), None, None);
    let payload = filter.payload();
    assert_eq!(payload.included, ["a.com", "b.com", "b.com"]);
    assert_eq!(payload.excluded, ["y", "z"]);
}

#[test]
fn filters_are_read_from_four_settings() -> Result<(), String> {
    let filter = DomainFilter::from_environment(
        " example.com, ,EXAMPLE.org. ".to_owned(),
        "private.example.com".to_owned(),
        "  ".to_owned(),
        String::new(),
    )
    .map_err(|error| format!("{error:?}"))?;
    let payload = filter.payload();
    assert_eq!(payload.included, ["example.com", "example.org"]);
    assert_eq!(payload.excluded, ["private.example.com"]);
    assert!(payload.regex_include.is_none());

    let filter = DomainFilter::from_environment(
        "example.com".to_owned(),
        String::new(),
        " ^api ".to_owned(),
        "x$".to_owned(),
    )
    .map_err(|error| format!("{error:?}"))?;
    let payload = filter.payload();
    assert!(payload.included.is_empty());
    assert_eq!(payload.regex_include.as_deref(), Some("^api"));
    assert_eq!(payload.regex_exclude.as_deref(), Some("x$"));
    assert!(filter.clone().matches("api.test"));
    Ok(())
}

#[test]
fn a_regex_that_does_not_compile_is_refused() {
    let refused = |included: &str, excluded: &str| {
        let result = DomainFilter::from_environment(
            String::new(),
            String::new(),
            included.to_owned(),
            excluded.to_owned(),
        );
        match result {
            Err(ConfigError::InvalidRegex { name, .. }) => name,
            _ => "accepted",
        }
    };
    assert_eq!(refused("(", ""), "REGEXP_DOMAIN_FILTER");
    assert_eq!(refused("", "["), "REGEXP_DOMAIN_FILTER_EXCLUSION");
    assert_eq!(refused("(", "["), "REGEXP_DOMAIN_FILTER");
    assert_eq!(refused("a", "b"), "accepted");
}
