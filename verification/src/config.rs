//! The settings, as they are read from environment variables.
use crate::address::{is_socket_address, socket_address};
use crate::client::HttpTimeout;
use crate::domain_filter::{
    filter_from_settings, law_regex_settings, regex_setting_error, DomainFilter, FilterModel,
};
use crate::error::{ConfigError, ConfigErrorModel};
use crate::numbers::{digit, is_digit};
use crate::outside::{
    can_be_summed, duration_of, duration_parts, ends_in_unit, is_unit_letter, read_duration,
    sum_of_durations, url_of, UrlModel, UrlParts, DURATION_LIMIT,
};
use crate::text::{
    is_whitespace, law_trimming, same_text, to_chars, trim, trimmed, whitespace,
};
use vstd::prelude::*;
use vstd::string::*;

verus! {

// ---------------------------------------------------------------------------
// Environment
// ---------------------------------------------------------------------------

/// What an environment variable holds.
#[derive(Debug)]
pub enum EnvValue {
    Missing,
    NotUnicode,
    Text(String),
}

/// What an environment variable holds, by its text.
pub enum EnvModel {
    Missing,
    NotUnicode,
    Text(Seq<char>),
}

impl View for EnvValue {
    type V = EnvModel;

    open spec fn view(&self) -> EnvModel {
        match self {
            EnvValue::Missing => EnvModel::Missing,
            EnvValue::NotUnicode => EnvModel::NotUnicode,
            EnvValue::Text(text) => EnvModel::Text(text@),
        }
    }
}

/// The environment variables that the settings are read from.
#[derive(Debug)]
pub struct Environment {
    pub timeweb_cloud_token: EnvValue,
    pub timeweb_cloud_api_url: EnvValue,
    pub timeweb_cloud_listen_addr: EnvValue,
    pub timeweb_cloud_metrics_addr: EnvValue,
    pub timeweb_cloud_http_timeout: EnvValue,
    pub domain_filter: EnvValue,
    pub exclude_domain_filter: EnvValue,
    pub regexp_domain_filter: EnvValue,
    pub regexp_domain_filter_exclusion: EnvValue,
}

/// What is said of a variable that is not UTF-8.
pub open spec fn not_unicode(name: Seq<char>) -> ConfigErrorModel {
    ConfigErrorModel::InvalidEnvironmentVariable { name, value: "value is not valid UTF-8"@ }
}

/// A variable that must be there and not be blank.
pub open spec fn required(name: Seq<char>, value: EnvModel) -> Result<Seq<char>, ConfigErrorModel> {
    match value {
        EnvModel::Missing => Err(ConfigErrorModel::MissingEnvironmentVariable { name }),
        EnvModel::NotUnicode => Err(not_unicode(name)),
        EnvModel::Text(text) => if trimmed(text).len() == 0 {
            Err(ConfigErrorModel::EmptyEnvironmentVariable { name })
        } else {
            Ok(text)
        },
    }
}

/// A variable that stands for `default` where it is missing.
pub open spec fn or_default(name: Seq<char>, value: EnvModel, default: Seq<char>) -> Result<
    Seq<char>,
    ConfigErrorModel,
> {
    match value {
        EnvModel::Missing => Ok(default),
        EnvModel::NotUnicode => Err(not_unicode(name)),
        EnvModel::Text(text) => Ok(text),
    }
}

/// A URL that requests can be based on: by HTTP, with a host, and without a query
/// or a fragment.
pub open spec fn is_base_url(url: UrlModel) -> bool {
    &&& url.scheme == "http"@ || url.scheme == "https"@
    &&& url.host is Some
    &&& url.query is None
    &&& url.fragment is None
}

/// A base URL in a variable, white space around it left out.
pub open spec fn url_setting(name: Seq<char>, value: EnvModel, default: Seq<char>) -> Result<
    UrlModel,
    ConfigErrorModel,
> {
    match or_default(name, value, default) {
        Err(error) => Err(error),
        Ok(text) => match url_of(trimmed(text)) {
            Err(source) => Err(ConfigErrorModel::InvalidUrl { name, source }),
            Ok(url) => if is_base_url(url) {
                Ok(url)
            } else {
                Err(ConfigErrorModel::InvalidEnvironmentVariable { name, value: text })
            },
        },
    }
}

/// An address and port in a variable.
pub open spec fn address_setting(name: Seq<char>, value: EnvModel, default: Seq<char>) -> Result<
    Seq<char>,
    ConfigErrorModel,
> {
    match or_default(name, value, default) {
        Err(error) => Err(error),
        Ok(text) => if is_socket_address(text) {
            Ok(text)
        } else {
            Err(ConfigErrorModel::InvalidEnvironmentVariable { name, value: text })
        },
    }
}

/// A duration in a variable, white space around it left out. Durations that do not
/// fit together are none.
pub open spec fn duration_setting(name: Seq<char>, value: EnvModel, default: Seq<char>) -> Result<
    HttpTimeout,
    ConfigErrorModel,
> {
    match or_default(name, value, default) {
        Err(error) => Err(error),
        Ok(text) => if !can_be_summed(trimmed(text)) {
            Err(ConfigErrorModel::InvalidEnvironmentVariable { name, value: text })
        } else {
            match duration_of(trimmed(text)) {
                Ok((secs, nanos)) => Ok(HttpTimeout { secs, nanos }),
                Err(_) => Err(ConfigErrorModel::InvalidEnvironmentVariable { name, value: text }),
            }
        },
    }
}

/// Reads a variable that must be there and not be blank.
pub fn required_env(name: &'static str, value: EnvValue) -> (r: Result<String, ConfigError>)
    ensures
        match r {
            Ok(text) => required(name@, value@) == Ok::<_, ConfigErrorModel>(text@),
            Err(error) => required(name@, value@) == Err::<Seq<char>, _>(error@),
        },
{
    match value {
        EnvValue::Missing => Err(ConfigError::MissingEnvironmentVariable { name }),
        EnvValue::NotUnicode => Err(
            ConfigError::InvalidEnvironmentVariable {
                name,
                value: "value is not valid UTF-8".to_owned(),
            },
        ),
        EnvValue::Text(text) => if trim(text.as_str()).is_empty() {
            Err(ConfigError::EmptyEnvironmentVariable { name })
        } else {
            Ok(text)
        },
    }
}

/// Reads a variable that stands for `default` where it is missing.
pub fn env_or_default(name: &'static str, value: EnvValue, default: &str) -> (r: Result<
    String,
    ConfigError,
>)
    ensures
        match r {
            Ok(text) => or_default(name@, value@, default@) == Ok::<_, ConfigErrorModel>(text@),
            Err(error) => or_default(name@, value@, default@) == Err::<Seq<char>, _>(error@),
        },
{
    match value {
        EnvValue::Missing => Ok(default.to_owned()),
        EnvValue::NotUnicode => Err(
            ConfigError::InvalidEnvironmentVariable {
                name,
                value: "value is not valid UTF-8".to_owned(),
            },
        ),
        EnvValue::Text(text) => Ok(text),
    }
}

/// Reads a variable that is empty where it is missing.
pub fn optional_env(name: &'static str, value: EnvValue) -> (r: Result<String, ConfigError>)
    ensures
        match r {
            Ok(text) => or_default(name@, value@, Seq::empty()) == Ok::<_, ConfigErrorModel>(text@),
            Err(error) => or_default(name@, value@, Seq::empty()) == Err::<Seq<char>, _>(error@),
        },
{
    proof {
        reveal_strlit("");
        assert(""@ =~= Seq::empty());
    }
    env_or_default(name, value, "")
}

/// Whether requests can be based on a URL.
fn base_url(url: &UrlParts) -> (r: bool)
    ensures
        r == is_base_url(url@),
{
    (same_text(url.scheme.as_str(), "http") || same_text(url.scheme.as_str(), "https"))
        && url.host.is_some() && url.query.is_none() && url.fragment.is_none()
}

/// Reads a base URL.
pub fn parse_url(name: &'static str, value: EnvValue, default: &str) -> (r: Result<
    UrlParts,
    ConfigError,
>)
    ensures
        match r {
            Ok(url) => url_setting(name@, value@, default@) == Ok::<_, ConfigErrorModel>(url@),
            Err(error) => url_setting(name@, value@, default@) == Err::<UrlModel, _>(error@),
        },
{
    let text = match env_or_default(name, value, default) {
        Ok(text) => text,
        Err(error) => return Err(error),
    };
    match UrlParts::parse(trim(text.as_str())) {
        Ok(url) => if base_url(&url) {
            Ok(url)
        } else {
            Err(ConfigError::InvalidEnvironmentVariable { name, value: text })
        },
        Err(source) => Err(ConfigError::InvalidUrl { name, source }),
    }
}

/// Reads an address and port.
pub fn parse_socket_addr(name: &'static str, value: EnvValue, default: &str) -> (r: Result<
    String,
    ConfigError,
>)
    ensures
        match r {
            Ok(text) => address_setting(name@, value@, default@) == Ok::<_, ConfigErrorModel>(
                text@,
            ),
            Err(error) => address_setting(name@, value@, default@) == Err::<Seq<char>, _>(error@),
        },
{
    let text = match env_or_default(name, value, default) {
        Ok(text) => text,
        Err(error) => return Err(error),
    };
    if socket_address(text.as_str()) {
        Ok(text)
    } else {
        Err(ConfigError::InvalidEnvironmentVariable { name, value: text })
    }
}

/// A sum and one more duration, where there is a sum, the text is a duration, and
/// they fit together.
fn add_duration(sum: Option<u128>, part: &str) -> (r: Option<u128>)
    requires
        duration_parts(part@).len() <= 1,
    ensures
        match (sum, duration_of(part@)) {
            (Some(sum), Ok((secs, nanos))) => {
                let more = sum + secs * 1_000_000_000 + nanos;
                r == if more < DURATION_LIMIT {
                    Some(more as u128)
                } else {
                    None
                }
            },
            _ => r is None,
        },
{
    match (sum, read_duration(part)) {
        (Some(sum), Ok((secs, nanos))) => {
            let part_nanos: u128 = secs as u128 * 1_000_000_000 + nanos as u128;
            if sum < DURATION_LIMIT && sum + part_nanos < DURATION_LIMIT {
                Some(sum + part_nanos)
            } else {
                None
            }
        },
        _ => None,
    }
}

/// The letters that units are written with.
fn unit_letter(c: char) -> (r: bool)
    ensures
        r == is_unit_letter(c),
{
    ('a' <= c && c <= 'z') || ('A' <= c && c <= 'Z') || c == '\u{b5}'
}

/// A sum as it stands in a model.
spec fn opt_sum(sum: Option<u128>) -> Option<nat> {
    match sum {
        Some(sum) => Some(sum as nat),
        None => None,
    }
}

/// A single character is a part of its own.
proof fn lemma_single_part(c: char)
    ensures
        duration_parts(seq![c]) == seq![seq![c]],
        ends_in_unit(seq![c]) == (!is_whitespace(c) && is_unit_letter(c)),
{
    assert(seq![c].drop_last() =~= Seq::empty());
    assert(duration_parts(Seq::empty()).len() == 0);
    assert(!ends_in_unit(Seq::empty()));
    assert(Seq::<Seq<char>>::empty().push(seq![c]) =~= seq![seq![c]]);
}

/// Whether the parts of a duration can be added up.
fn summable(text: &str) -> (r: bool)
    ensures
        r == can_be_summed(text@),
{
    let chars = to_chars(text);
    if chars.len() == 0 {
        return true;
    }
    // The parts before the last one, and the last one.
    let ghost mut before: Seq<Seq<char>> = Seq::empty();
    let mut alone = true;
    let mut sum: Option<u128> = Some(0);
    let mut part = String::new();
    part.push(chars[0]);
    let mut in_unit = unit_letter(chars[0]);
    let mut i: usize = 1;
    proof {
        lemma_single_part(chars[0]);
        assert(text@.take(1) =~= seq![chars[0]]);
        assert(part@ =~= seq![chars[0]]);
        assert(seq![part@] =~= before.push(part@));
    }
    while i < chars.len()
        invariant
            1 <= i <= chars.len(),
            chars@ == text@,
            duration_parts(text@.take(i as int)) == before.push(part@),
            duration_parts(part@) == seq![part@],
            in_unit == ends_in_unit(part@),
            alone == (before.len() == 0),
            opt_sum(sum) == sum_of_durations(before),
        decreases chars.len() - i,
    {
        let c = chars[i];
        let ghost parts = before.push(part@);
        assert(text@.take(i + 1).drop_last() =~= text@.take(i as int));
        if digit(c) && in_unit {
            sum = add_duration(sum, part.as_str());
            proof {
                lemma_single_part(c);
                assert(parts.drop_last() =~= before);
                before = parts;
            }
            alone = false;
            part = String::new();
            part.push(c);
            assert(part@ =~= seq![c]);
            in_unit = false;
        } else {
            let ghost shorter = part@;
            part.push(c);
            assert(part@.drop_last() =~= shorter);
            assert(parts.drop_last() =~= before);
            assert(seq![shorter].drop_last().push(part@) =~= seq![part@]);
            if !whitespace(c) {
                in_unit = unit_letter(c);
            }
        }
        i += 1;
    }
    assert(text@.take(text@.len() as int) =~= text@);
    assert(before.push(part@).drop_last() =~= before);
    alone || add_duration(sum, part.as_str()).is_some()
}

/// Reads a duration.
pub fn parse_duration(name: &'static str, value: EnvValue, default: &str) -> (r: Result<
    HttpTimeout,
    ConfigError,
>)
    ensures
        match r {
            Ok(timeout) => duration_setting(name@, value@, default@) == Ok::<_, ConfigErrorModel>(
                timeout,
            ),
            Err(error) => duration_setting(name@, value@, default@) == Err::<HttpTimeout, _>(
                error@,
            ),
        },
{
    let text = match env_or_default(name, value, default) {
        Ok(text) => text,
        Err(error) => return Err(error),
    };
    if !summable(trim(text.as_str())) {
        return Err(ConfigError::InvalidEnvironmentVariable { name, value: text });
    }
    match read_duration(trim(text.as_str())) {
        Ok((secs, nanos)) => Ok(HttpTimeout { secs, nanos }),
        Err(_) => Err(ConfigError::InvalidEnvironmentVariable { name, value: text }),
    }
}

// ---------------------------------------------------------------------------
// Settings
// ---------------------------------------------------------------------------

/// The settings.
pub struct Config {
    api_url: UrlParts,
    token: String,
    listen_addr: String,
    metrics_addr: String,
    http_timeout: HttpTimeout,
    domain_filter: DomainFilter,
}

/// The settings by the models of their values.
pub struct ConfigModel {
    pub api_url: UrlModel,
    pub token: Seq<char>,
    pub listen_addr: Seq<char>,
    pub metrics_addr: Seq<char>,
    pub http_timeout: HttpTimeout,
    pub domain_filter: FilterModel,
}

impl View for Config {
    type V = ConfigModel;

    closed spec fn view(&self) -> ConfigModel {
        ConfigModel {
            api_url: self.api_url@,
            token: self.token@,
            listen_addr: self.listen_addr@,
            metrics_addr: self.metrics_addr@,
            http_timeout: self.http_timeout,
            domain_filter: self.domain_filter@,
        }
    }
}

impl Clone for Config {
    fn clone(&self) -> (r: Config)
        ensures
            r@ == self@,
    {
        Config {
            api_url: self.api_url.clone(),
            token: self.token.clone(),
            listen_addr: self.listen_addr.clone(),
            metrics_addr: self.metrics_addr.clone(),
            http_timeout: self.http_timeout,
            domain_filter: self.domain_filter.clone(),
        }
    }
}

/// The domain filter in its four variables.
pub open spec fn filter_setting(
    included: EnvModel,
    excluded: EnvModel,
    regex_include: EnvModel,
    regex_exclude: EnvModel,
) -> Result<FilterModel, ConfigErrorModel> {
    let included = or_default("DOMAIN_FILTER"@, included, Seq::empty());
    let excluded = or_default("EXCLUDE_DOMAIN_FILTER"@, excluded, Seq::empty());
    let regex_include = or_default("REGEXP_DOMAIN_FILTER"@, regex_include, Seq::empty());
    let regex_exclude = or_default("REGEXP_DOMAIN_FILTER_EXCLUSION"@, regex_exclude, Seq::empty());
    if let Err(error) = included {
        Err(error)
    } else if let Err(error) = excluded {
        Err(error)
    } else if let Err(error) = regex_include {
        Err(error)
    } else if let Err(error) = regex_exclude {
        Err(error)
    } else {
        filter_from_settings(
            included->Ok_0,
            excluded->Ok_0,
            regex_include->Ok_0,
            regex_exclude->Ok_0,
        )
    }
}

/// The timeout that requests are made with: a duration, but not zero.
pub open spec fn timeout_setting(value: EnvModel) -> Result<HttpTimeout, ConfigErrorModel> {
    let name = "TIMEWEB_CLOUD_HTTP_TIMEOUT"@;
    match duration_setting(name, value, "10s"@) {
        Err(error) => Err(error),
        Ok(timeout) => if timeout.secs == 0 && timeout.nanos == 0 {
            Err(
                ConfigErrorModel::InvalidEnvironmentVariable { name, value: "zero duration"@ },
            )
        } else {
            Ok(timeout)
        },
    }
}

/// The settings that the environment describes, or what is wrong with the first
/// of them that something is wrong with.
pub open spec fn config_of(environment: Environment) -> Result<ConfigModel, ConfigErrorModel> {
    let token = required("TIMEWEB_CLOUD_TOKEN"@, environment.timeweb_cloud_token@);
    let api_url = url_setting(
        "TIMEWEB_CLOUD_API_URL"@,
        environment.timeweb_cloud_api_url@,
        "https://api.timeweb.cloud"@,
    );
    let listen_addr = address_setting(
        "TIMEWEB_CLOUD_LISTEN_ADDR"@,
        environment.timeweb_cloud_listen_addr@,
        "127.0.0.1:8888"@,
    );
    let metrics_addr = address_setting(
        "TIMEWEB_CLOUD_METRICS_ADDR"@,
        environment.timeweb_cloud_metrics_addr@,
        "0.0.0.0:8080"@,
    );
    let http_timeout = timeout_setting(environment.timeweb_cloud_http_timeout@);
    let domain_filter = filter_setting(
        environment.domain_filter@,
        environment.exclude_domain_filter@,
        environment.regexp_domain_filter@,
        environment.regexp_domain_filter_exclusion@,
    );
    if let Err(error) = token {
        Err(error)
    } else if let Err(error) = api_url {
        Err(error)
    } else if let Err(error) = listen_addr {
        Err(error)
    } else if let Err(error) = metrics_addr {
        Err(error)
    } else if let Err(error) = http_timeout {
        Err(error)
    } else if let Err(error) = domain_filter {
        Err(error)
    } else {
        Ok(
            ConfigModel {
                api_url: api_url->Ok_0,
                token: token->Ok_0,
                listen_addr: listen_addr->Ok_0,
                metrics_addr: metrics_addr->Ok_0,
                http_timeout: http_timeout->Ok_0,
                domain_filter: domain_filter->Ok_0,
            },
        )
    }
}

/// Reads the timeout that requests are made with.
fn parse_timeout(value: EnvValue) -> (r: Result<HttpTimeout, ConfigError>)
    ensures
        match r {
            Ok(timeout) => timeout_setting(value@) == Ok::<_, ConfigErrorModel>(timeout),
            Err(error) => timeout_setting(value@) == Err::<HttpTimeout, _>(error@),
        },
{
    let timeout = match parse_duration("TIMEWEB_CLOUD_HTTP_TIMEOUT", value, "10s") {
        Ok(timeout) => timeout,
        Err(error) => return Err(error),
    };
    if timeout.secs == 0 && timeout.nanos == 0 {
        return Err(
            ConfigError::InvalidEnvironmentVariable {
                name: "TIMEWEB_CLOUD_HTTP_TIMEOUT",
                value: "zero duration".to_owned(),
            },
        );
    }
    Ok(timeout)
}

/// Reads the domain filter.
fn parse_filter(
    included: EnvValue,
    excluded: EnvValue,
    regex_include: EnvValue,
    regex_exclude: EnvValue,
) -> (r: Result<DomainFilter, ConfigError>)
    ensures
        match r {
            Ok(filter) => filter_setting(included@, excluded@, regex_include@, regex_exclude@)
                == Ok::<_, ConfigErrorModel>(filter@),
            Err(error) => filter_setting(included@, excluded@, regex_include@, regex_exclude@)
                == Err::<FilterModel, _>(error@),
        },
{
    let included = match optional_env("DOMAIN_FILTER", included) {
        Ok(text) => text,
        Err(error) => return Err(error),
    };
    let excluded = match optional_env("EXCLUDE_DOMAIN_FILTER", excluded) {
        Ok(text) => text,
        Err(error) => return Err(error),
    };
    let regex_include = match optional_env("REGEXP_DOMAIN_FILTER", regex_include) {
        Ok(text) => text,
        Err(error) => return Err(error),
    };
    let regex_exclude = match optional_env("REGEXP_DOMAIN_FILTER_EXCLUSION", regex_exclude) {
        Ok(text) => text,
        Err(error) => return Err(error),
    };
    DomainFilter::from_environment(included, excluded, regex_include, regex_exclude)
}

impl Config {
    /// Reads the settings from the environment.
    pub fn from_env(environment: Environment) -> (r: Result<Config, ConfigError>)
        ensures
            match r {
                Ok(config) => config_of(environment) == Ok::<_, ConfigErrorModel>(config@),
                Err(error) => config_of(environment) == Err::<ConfigModel, _>(error@),
            },
    {
        let token = match required_env("TIMEWEB_CLOUD_TOKEN", environment.timeweb_cloud_token) {
            Ok(token) => token,
            Err(error) => return Err(error),
        };
        let api_url = match parse_url(
            "TIMEWEB_CLOUD_API_URL",
            environment.timeweb_cloud_api_url,
            "https://api.timeweb.cloud",
        ) {
            Ok(url) => url,
            Err(error) => return Err(error),
        };
        let listen_addr = match parse_socket_addr(
            "TIMEWEB_CLOUD_LISTEN_ADDR",
            environment.timeweb_cloud_listen_addr,
            "127.0.0.1:8888",
        ) {
            Ok(address) => address,
            Err(error) => return Err(error),
        };
        let metrics_addr = match parse_socket_addr(
            "TIMEWEB_CLOUD_METRICS_ADDR",
            environment.timeweb_cloud_metrics_addr,
            "0.0.0.0:8080",
        ) {
            Ok(address) => address,
            Err(error) => return Err(error),
        };
        let http_timeout = match parse_timeout(environment.timeweb_cloud_http_timeout) {
            Ok(timeout) => timeout,
            Err(error) => return Err(error),
        };
        let domain_filter = match parse_filter(
            environment.domain_filter,
            environment.exclude_domain_filter,
            environment.regexp_domain_filter,
            environment.regexp_domain_filter_exclusion,
        ) {
            Ok(filter) => filter,
            Err(error) => return Err(error),
        };
        Ok(Config { api_url, token, listen_addr, metrics_addr, http_timeout, domain_filter })
    }

    /// Where the API is.
    pub fn api_url(&self) -> (r: &UrlParts)
        ensures
            r@ == self@.api_url,
    {
        &self.api_url
    }

    /// The token that requests to the API are made with.
    pub fn token(&self) -> (r: &str)
        ensures
            r@ == self@.token,
    {
        self.token.as_str()
    }

    /// The address that ExternalDNS is served at.
    pub fn listen_addr(&self) -> (r: &str)
        ensures
            r@ == self@.listen_addr,
    {
        self.listen_addr.as_str()
    }

    /// The address that health checks and metrics are served at.
    pub fn metrics_addr(&self) -> (r: &str)
        ensures
            r@ == self@.metrics_addr,
    {
        self.metrics_addr.as_str()
    }

    /// How long a request to the API may take.
    pub fn http_timeout(&self) -> (r: HttpTimeout)
        ensures
            r == self@.http_timeout,
    {
        self.http_timeout
    }

    /// The domains that are managed.
    pub fn domain_filter(&self) -> (r: &DomainFilter)
        ensures
            r@ == self@.domain_filter,
    {
        &self.domain_filter
    }
}

// ---------------------------------------------------------------------------
// Laws
// ---------------------------------------------------------------------------

/// Settings that were read can be worked with: the token is not blank, requests
/// can be based on the URL, both addresses are addresses, and the timeout is not
/// zero.
pub proof fn law_settings_can_be_worked_with(environment: Environment)
    requires
        config_of(environment) is Ok,
    ensures
        ({
            let config = config_of(environment)->Ok_0;
            &&& trimmed(config.token).len() > 0
            &&& is_base_url(config.api_url)
            &&& is_socket_address(config.listen_addr)
            &&& is_socket_address(config.metrics_addr)
            &&& config.http_timeout.secs > 0 || config.http_timeout.nanos > 0
        }),
{
}

/// Where only the token is set, the settings have their defaults, as far as those can
/// be read.
pub proof fn law_settings_have_defaults(environment: Environment, token: Seq<char>)
    requires
        environment.timeweb_cloud_token@ == EnvModel::Text(token),
        trimmed(token).len() > 0,
        environment.timeweb_cloud_api_url is Missing,
        environment.timeweb_cloud_listen_addr is Missing,
        environment.timeweb_cloud_metrics_addr is Missing,
        environment.timeweb_cloud_http_timeout is Missing,
        environment.domain_filter is Missing,
        environment.exclude_domain_filter is Missing,
        environment.regexp_domain_filter is Missing,
        environment.regexp_domain_filter_exclusion is Missing,
    ensures
        config_of(environment) matches Ok(config) ==> {
            &&& config.token == token
            &&& url_of("https://api.timeweb.cloud"@) == Ok::<UrlModel, url::ParseError>(
                config.api_url,
            )
            &&& config.listen_addr == "127.0.0.1:8888"@
            &&& config.metrics_addr == "0.0.0.0:8080"@
            &&& duration_of("10s"@) == Ok::<(u64, u32), humantime::DurationError>(
                (config.http_timeout.secs, config.http_timeout.nanos),
            )
            &&& config.domain_filter.is_open()
        },
{
    reveal_strlit("https://api.timeweb.cloud");
    reveal_strlit("10s");
    law_trimming(Seq::empty(), "https://api.timeweb.cloud"@, Seq::empty());
    law_trimming(Seq::empty(), "10s"@, Seq::empty());
    assert(Seq::<char>::empty() + "https://api.timeweb.cloud"@ + Seq::<char>::empty()
        =~= "https://api.timeweb.cloud"@);
    assert(Seq::<char>::empty() + "10s"@ + Seq::<char>::empty() =~= "10s"@);
    law_regex_settings(Seq::empty(), Seq::empty(), Seq::empty());
    assert(Seq::<char>::empty() + Seq::<char>::empty() + Seq::<char>::empty()
        =~= Seq::<char>::empty());
}

/// What is set is taken: each setting from its own variable.
pub proof fn law_settings_are_taken_from_their_variables(environment: Environment)
    requires
        config_of(environment) is Ok,
    ensures
        ({
            let config = config_of(environment)->Ok_0;
            &&& environment.timeweb_cloud_token@ == EnvModel::Text(config.token)
            &&& environment.timeweb_cloud_api_url@ matches EnvModel::Text(text) ==> url_of(
                trimmed(text),
            ) == Ok::<UrlModel, url::ParseError>(config.api_url)
            &&& environment.timeweb_cloud_listen_addr@ matches EnvModel::Text(text) ==> text
                == config.listen_addr
            &&& environment.timeweb_cloud_metrics_addr@ matches EnvModel::Text(text) ==> text
                == config.metrics_addr
            &&& environment.timeweb_cloud_http_timeout@ matches EnvModel::Text(text)
                ==> duration_of(trimmed(text)) == Ok::<(u64, u32), humantime::DurationError>(
                (config.http_timeout.secs, config.http_timeout.nanos),
            )
            &&& filter_from_settings(
                text_or_nothing(environment.domain_filter@),
                text_or_nothing(environment.exclude_domain_filter@),
                text_or_nothing(environment.regexp_domain_filter@),
                text_or_nothing(environment.regexp_domain_filter_exclusion@),
            ) == Ok::<FilterModel, ConfigErrorModel>(config.domain_filter)
        }),
{
}

/// The text of a variable, empty where it is missing.
pub open spec fn text_or_nothing(value: EnvModel) -> Seq<char> {
    match value {
        EnvModel::Text(text) => text,
        _ => Seq::empty(),
    }
}

/// Settings are refused if the token is missing or blank, and if any variable is not
/// Unicode; if the URL is none, or none by HTTP with a host and without query and
/// fragment; if an address is none; and if the timeout is no duration or zero.
pub proof fn law_settings_are_refused(environment: Environment, text: Seq<char>)
    ensures
        !(environment.timeweb_cloud_token is Text) ==> config_of(environment) is Err,
        environment.timeweb_cloud_token@ == EnvModel::Text(text) && trimmed(text).len() == 0
            ==> config_of(environment) is Err,
        environment.timeweb_cloud_api_url is NotUnicode || environment.timeweb_cloud_listen_addr
            is NotUnicode || environment.timeweb_cloud_metrics_addr is NotUnicode
            || environment.timeweb_cloud_http_timeout is NotUnicode || environment.domain_filter
            is NotUnicode || environment.exclude_domain_filter is NotUnicode
            || environment.regexp_domain_filter is NotUnicode
            || environment.regexp_domain_filter_exclusion is NotUnicode ==> config_of(environment)
            is Err,
        environment.timeweb_cloud_api_url@ == EnvModel::Text(text) && url_of(trimmed(text)) is Err
            ==> config_of(environment) is Err,
        environment.timeweb_cloud_api_url@ == EnvModel::Text(text) ==> (url_of(trimmed(text)) matches Ok(
            url,
        ) ==> (url.scheme != "http"@ && url.scheme != "https"@) || url.host is None || url.query
            is Some || url.fragment is Some ==> config_of(environment) is Err),
        environment.timeweb_cloud_listen_addr@ == EnvModel::Text(text) && !is_socket_address(text)
            ==> config_of(environment) is Err,
        environment.timeweb_cloud_metrics_addr@ == EnvModel::Text(text) && !is_socket_address(text)
            ==> config_of(environment) is Err,
        environment.timeweb_cloud_http_timeout@ == EnvModel::Text(text) && duration_of(
            trimmed(text),
        ) is Err ==> config_of(environment) is Err,
        environment.timeweb_cloud_http_timeout@ == EnvModel::Text(text) && duration_of(
            trimmed(text),
        ) == Ok::<(u64, u32), humantime::DurationError>((0u64, 0u32)) ==> config_of(environment)
            is Err,
{
}

/// Settings that can each be read are accepted together.
pub proof fn law_readable_settings_are_accepted(environment: Environment)
    requires
        required("TIMEWEB_CLOUD_TOKEN"@, environment.timeweb_cloud_token@) is Ok,
        ({
            &&& environment.timeweb_cloud_api_url@ matches EnvModel::Text(text)
            &&& url_of(trimmed(text)) matches Ok(url)
            &&& url.scheme == "http"@ || url.scheme == "https"@
            &&& url.host is Some
            &&& url.query is None
            &&& url.fragment is None
        }),
        ({
            &&& environment.timeweb_cloud_listen_addr@ matches EnvModel::Text(text)
            &&& is_socket_address(text)
        }),
        ({
            &&& environment.timeweb_cloud_metrics_addr@ matches EnvModel::Text(text)
            &&& is_socket_address(text)
        }),
        ({
            &&& environment.timeweb_cloud_http_timeout@ matches EnvModel::Text(text)
            &&& can_be_summed(trimmed(text))
            &&& duration_of(trimmed(text)) matches Ok(parts)
            &&& parts.0 > 0 || parts.1 > 0
        }),
        filter_setting(
            environment.domain_filter@,
            environment.exclude_domain_filter@,
            environment.regexp_domain_filter@,
            environment.regexp_domain_filter_exclusion@,
        ) is Ok,
    ensures
        config_of(environment) is Ok,
{
}

/// A variable that is required must be there, be Unicode, and hold more than white
/// space, and is then taken as it is; another one stands for its default where it is
/// missing.
pub proof fn law_variables_are_read(
    name: Seq<char>,
    value: EnvModel,
    default: Seq<char>,
    text: Seq<char>,
)
    ensures
        value == EnvModel::Text(text) && trimmed(text).len() > 0 ==> required(name, value) == Ok::<
            Seq<char>,
            ConfigErrorModel,
        >(text),
        value == EnvModel::Text(text) && trimmed(text).len() == 0 ==> required(name, value) == Err::<
            Seq<char>,
            ConfigErrorModel,
        >(ConfigErrorModel::EmptyEnvironmentVariable { name }),
        value is Missing ==> required(name, value) == Err::<Seq<char>, ConfigErrorModel>(
            ConfigErrorModel::MissingEnvironmentVariable { name },
        ),
        value is NotUnicode ==> required(name, value) is Err && or_default(name, value, default)
            is Err,
        value is Missing ==> or_default(name, value, default) == Ok::<Seq<char>, ConfigErrorModel>(
            default,
        ),
        value == EnvModel::Text(text) ==> or_default(name, value, default) == Ok::<
            Seq<char>,
            ConfigErrorModel,
        >(text),
{
}

/// Texts one behind the other.
pub open spec fn run_together(parts: Seq<Seq<char>>) -> Seq<char>
    decreases parts.len(),
{
    if parts.len() == 0 {
        Seq::empty()
    } else {
        run_together(parts.drop_last()) + parts.last()
    }
}

/// A part begins with a digit, behind one that ends in a unit.
pub open spec fn begins_behind_a_unit(parts: Seq<Seq<char>>, i: int) -> bool {
    is_digit(parts[i][0]) && ends_in_unit(parts[i - 1])
}

/// A part that does not go on with a digit behind a unit.
pub open spec fn is_one_part(part: Seq<char>) -> bool {
    &&& part.len() > 0
    &&& forall|k: int|
        0 < k < part.len() && is_digit(#[trigger] part[k]) ==> !ends_in_unit(part.take(k))
}

proof fn lemma_one_part_goes_on(part: Seq<char>, c: char)
    requires
        is_one_part(part),
        !(is_digit(c) && ends_in_unit(part)),
    ensures
        is_one_part(part.push(c)),
{
    let longer = part.push(c);
    assert forall|k: int| 0 < k < longer.len() && is_digit(#[trigger] longer[k]) implies
        !ends_in_unit(longer.take(k)) by {
        if k < part.len() {
            assert(longer[k] == part[k]);
            assert(longer.take(k) =~= part.take(k));
        } else {
            assert(longer.take(k) =~= part);
        }
    }
}

/// The parts of a duration make up its text. Each but the first begins with a digit,
/// behind a part that ends in a unit, and no part goes on with a digit behind a unit.
pub proof fn law_durations_fall_into_parts(text: Seq<char>)
    ensures
        ({
            let parts = duration_parts(text);
            &&& run_together(parts) == text
            &&& text.len() > 0 ==> parts.len() > 0
            &&& forall|i: int| 0 <= i < parts.len() ==> is_one_part(#[trigger] parts[i])
            &&& forall|i: int| 0 < i < parts.len() ==> #[trigger] begins_behind_a_unit(parts, i)
        }),
    decreases text.len(),
{
    if text.len() > 0 {
        let front = text.drop_last();
        let c = text.last();
        law_durations_fall_into_parts(front);
        let before = duration_parts(front);
        let parts = duration_parts(text);
        assert(text =~= front.push(c));
        if before.len() == 0 || (is_digit(c) && ends_in_unit(before.last())) {
            assert(parts.drop_last() =~= before);
            assert(run_together(parts) =~= text);
            assert forall|i: int| 0 <= i < parts.len() implies is_one_part(
                #[trigger] parts[i],
            ) by {
                if i < before.len() {
                    assert(parts[i] == before[i]);
                }
            }
            assert forall|i: int| 0 < i < parts.len() implies #[trigger] begins_behind_a_unit(
                parts,
                i,
            ) by {
                if i < before.len() {
                    assert(begins_behind_a_unit(before, i));
                }
            }
        } else {
            let last = before[before.len() - 1];
            assert(before.last() == last);
            lemma_one_part_goes_on(last, c);
            assert(parts.drop_last() =~= before.drop_last());
            assert(parts.last() == last.push(c));
            assert(run_together(parts) =~= text);
            assert forall|i: int| 0 <= i < parts.len() implies is_one_part(
                #[trigger] parts[i],
            ) by {
                if i < before.len() - 1 {
                    assert(parts[i] == before[i]);
                }
            }
            assert forall|i: int| 0 < i < parts.len() implies #[trigger] begins_behind_a_unit(
                parts,
                i,
            ) by {
                assert(begins_behind_a_unit(before, i));
                assert(is_one_part(before[i]));
                assert(parts[i][0] == before[i][0]);
                assert(parts[i - 1] == before[i - 1]);
            }
        }
    }
}

/// A text ends in a unit if its last character but white space is a letter of one.
pub proof fn law_units_end_a_part(text: Seq<char>, c: char)
    ensures
        is_whitespace(c) ==> ends_in_unit(text.push(c)) == ends_in_unit(text),
        !is_whitespace(c) ==> ends_in_unit(text.push(c)) == is_unit_letter(c),
        !ends_in_unit(Seq::empty()),
        is_unit_letter(c) <==> {
            ||| 97 <= c as u32 <= 122
            ||| 65 <= c as u32 <= 90
            ||| c as u32 == 0xb5
        },
{
    assert(text.push(c).drop_last() =~= text);
}

/// Durations one behind the other come to the sum of what both lists come to, while it
/// stays below the limit, and one duration comes to its own length.
pub proof fn law_durations_add_up(a: Seq<Seq<char>>, b: Seq<Seq<char>>, part: Seq<char>)
    ensures
        sum_of_durations(a + b) == (match (sum_of_durations(a), sum_of_durations(b)) {
            (Some(x), Some(y)) => if x + y < DURATION_LIMIT {
                Some(x + y)
            } else {
                None
            },
            _ => None,
        }),
        duration_of(part) is Err ==> sum_of_durations(seq![part]) is None,
        duration_of(part) matches Ok((secs, nanos)) ==> secs * 1_000_000_000 + nanos
            < DURATION_LIMIT ==> sum_of_durations(seq![part]) == Some(
            (secs * 1_000_000_000 + nanos) as nat,
        ),
    decreases b.len(),
{
    assert(seq![part].drop_last() =~= Seq::empty());
    assert(sum_of_durations(Seq::empty()) == Some(0nat));
    if b.len() == 0 {
        assert(a + b =~= a);
        lemma_sum_is_below_the_limit(a);
    } else {
        law_durations_add_up(a, b.drop_last(), part);
        assert((a + b).drop_last() =~= a + b.drop_last());
        lemma_sum_is_below_the_limit(a);
    }
}

proof fn lemma_sum_is_below_the_limit(parts: Seq<Seq<char>>)
    ensures
        sum_of_durations(parts) matches Some(sum) ==> sum < DURATION_LIMIT,
    decreases parts.len(),
{
}

/// The environment variable that a refusal is about.
pub open spec fn variable_of(error: ConfigErrorModel) -> Seq<char> {
    match error {
        ConfigErrorModel::MissingEnvironmentVariable { name } => name,
        ConfigErrorModel::EmptyEnvironmentVariable { name } => name,
        ConfigErrorModel::InvalidEnvironmentVariable { name, .. } => name,
        ConfigErrorModel::InvalidUrl { name, .. } => name,
        ConfigErrorModel::InvalidRegex { name, .. } => name,
    }
}

/// The settings are read one after the other, and the first that is refused is
/// reported, by its variable, as it would be among settings that can all be read: the
/// token, the URL, the two addresses, the timeout, the filter.
pub proof fn law_settings_are_read_in_turn(environment: Environment, other: Environment)
    requires
        config_of(other) is Ok,
    ensures
        ({
            let all = config_of(environment);
            let token = config_of(
                (Environment { timeweb_cloud_token: environment.timeweb_cloud_token, ..other }),
            );
            let url = config_of(
                (Environment { timeweb_cloud_api_url: environment.timeweb_cloud_api_url, ..other }),
            );
            let listen = config_of(
                (Environment {
                    timeweb_cloud_listen_addr: environment.timeweb_cloud_listen_addr,
                    ..other
                }),
            );
            let metrics = config_of(
                (Environment {
                    timeweb_cloud_metrics_addr: environment.timeweb_cloud_metrics_addr,
                    ..other
                }),
            );
            let timeout = config_of(
                (Environment {
                    timeweb_cloud_http_timeout: environment.timeweb_cloud_http_timeout,
                    ..other
                }),
            );
            let filter = config_of(
                (Environment {
                    domain_filter: environment.domain_filter,
                    exclude_domain_filter: environment.exclude_domain_filter,
                    regexp_domain_filter: environment.regexp_domain_filter,
                    regexp_domain_filter_exclusion: environment.regexp_domain_filter_exclusion,
                    ..other
                }),
            );
            if let Err(error) = token {
                all == token && variable_of(error) == "TIMEWEB_CLOUD_TOKEN"@
            } else if let Err(error) = url {
                all == url && variable_of(error) == "TIMEWEB_CLOUD_API_URL"@
            } else if let Err(error) = listen {
                all == listen && variable_of(error) == "TIMEWEB_CLOUD_LISTEN_ADDR"@
            } else if let Err(error) = metrics {
                all == metrics && variable_of(error) == "TIMEWEB_CLOUD_METRICS_ADDR"@
            } else if let Err(error) = timeout {
                all == timeout && variable_of(error) == "TIMEWEB_CLOUD_HTTP_TIMEOUT"@
            } else if let Err(error) = filter {
                all == filter
            } else {
                all is Ok
            }
        }),
{
}

/// A variable of the filter that is not Unicode is reported by its name, the inclusions
/// first, and then the exclusions and the two regular expressions. A regular expression
/// that is none is reported by its variable, if all four are Unicode.
pub proof fn law_filter_settings_are_read_in_turn(
    included: EnvModel,
    excluded: EnvModel,
    regex_include: EnvModel,
    regex_exclude: EnvModel,
)
    ensures
        ({
            let all = filter_setting(included, excluded, regex_include, regex_exclude);
            let include_error = regex_setting_error(text_or_nothing(regex_include));
            let exclude_error = regex_setting_error(text_or_nothing(regex_exclude));
            if included is NotUnicode {
                all is Err && variable_of(all->Err_0) == "DOMAIN_FILTER"@
            } else if excluded is NotUnicode {
                all is Err && variable_of(all->Err_0) == "EXCLUDE_DOMAIN_FILTER"@
            } else if regex_include is NotUnicode {
                all is Err && variable_of(all->Err_0) == "REGEXP_DOMAIN_FILTER"@
            } else if regex_exclude is NotUnicode {
                all is Err && variable_of(all->Err_0) == "REGEXP_DOMAIN_FILTER_EXCLUSION"@
            } else if include_error is Some {
                all is Err && variable_of(all->Err_0) == "REGEXP_DOMAIN_FILTER"@
            } else if exclude_error is Some {
                all is Err && variable_of(all->Err_0) == "REGEXP_DOMAIN_FILTER_EXCLUSION"@
            } else {
                all is Ok
            }
        }),
{
}

} // verus!
