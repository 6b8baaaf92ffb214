//! Record targets: how they are compared, read, and written to the API.
use crate::address::{ipv4, ipv6, is_ipv4, is_ipv6};
use crate::model::{Endpoint, EndpointModel};
use crate::names::{dotted, is_within, normalize_name, normalized, with_dot, within};
use crate::numbers::{decimal, push_decimal, read_u16, unsigned_number};
use crate::provider::{ProviderError, ProviderErrorModel};
use crate::text::{
    ends_with, join, join3, lower, lowercase, opt_text, same_text, split, split_on,
    split_whitespace, starts_with_char, texts, trim, trim_trailing, trimmed, upper, uppercase,
    without_trailing, words,
};
use crate::timeweb::{opt_str, ChangeModel, DnsRecordChange};
use vstd::prelude::*;
use vstd::string::*;
use vstd::utf8::*;

verus! {

// ---------------------------------------------------------------------------
// Comparing targets
// ---------------------------------------------------------------------------

/// The word at place `i` of a list of words, empty where there is none.
pub open spec fn word(parts: Seq<Seq<char>>, i: int) -> Seq<char> {
    if 0 <= i < parts.len() {
        parts[i]
    } else {
        Seq::empty()
    }
}

/// The form in which two targets of one type are compared: text records as they
/// are, mail exchangers and services word by word, and all but text in lower
/// case and without the dots at the end of the host.
pub open spec fn canonical(record_type: Seq<char>, target: Seq<char>) -> Seq<char> {
    let kind = upper(record_type);
    let parts = words(target);
    if kind == "TXT"@ {
        target
    } else if kind == "MX"@ {
        lower(word(parts, 0) + " "@ + without_trailing(word(parts, 1), '.'))
    } else if kind == "SRV"@ {
        lower(
            word(parts, 0) + " "@ + word(parts, 1) + " "@ + word(parts, 2) + " "@
                + without_trailing(word(parts, 3), '.'),
        )
    } else {
        lower(without_trailing(target, '.'))
    }
}

fn part(parts: &Vec<String>, i: usize) -> (r: &str)
    ensures
        r@ == word(texts(parts@), i as int),
{
    if i < parts.len() {
        parts[i].as_str()
    } else {
        let empty = "";
        proof {
            reveal_strlit("");
            assert(empty@ =~= Seq::empty());
        }
        empty
    }
}

/// The form in which two targets of one type are compared.
pub fn canonical_target(record_type: &str, target: &str) -> (r: String)
    ensures
        r@ == canonical(record_type@, target@),
{
    let kind = uppercase(record_type);
    if same_text(kind.as_str(), "TXT") {
        target.to_owned()
    } else if same_text(kind.as_str(), "MX") {
        let parts = split_whitespace(target);
        lowercase(join3(part(&parts, 0), " ", trim_trailing(part(&parts, 1), '.')).as_str())
    } else if same_text(kind.as_str(), "SRV") {
        let parts = split_whitespace(target);
        let mut whole = join3(part(&parts, 0), " ", part(&parts, 1));
        whole.append(" ");
        whole.append(part(&parts, 2));
        whole.append(" ");
        whole.append(trim_trailing(part(&parts, 3), '.'));
        lowercase(whole.as_str())
    } else {
        lowercase(trim_trailing(target, '.'))
    }
}

/// Two endpoints name the same records: the same name and type but for case, and
/// the same set identifier.
pub open spec fn same_identity(left: EndpointModel, right: EndpointModel) -> bool {
    &&& lower(left.dns_name) == lower(right.dns_name)
    &&& lower(left.record_type) == lower(right.record_type)
    &&& left.set_identifier == right.set_identifier
}

/// Whether two endpoints name the same records.
pub fn same_record_identity(left: &Endpoint, right: &Endpoint) -> (r: bool)
    ensures
        r == same_identity(left@, right@),
{
    crate::text::same_ignoring_case(left.dns_name.as_str(), right.dns_name.as_str())
        && crate::text::same_ignoring_case(left.record_type.as_str(), right.record_type.as_str())
        && left.set_identifier == right.set_identifier
}

/// A TTL is asked for and it is another one than there is.
pub open spec fn wants_other_ttl(current: EndpointModel, desired: EndpointModel) -> bool {
    desired.record_ttl > 0 && current.record_ttl != desired.record_ttl
}

/// Whether a TTL is asked for that is another one than there is.
pub fn ttl_changed(current: &Endpoint, desired: &Endpoint) -> (r: bool)
    ensures
        r == wants_other_ttl(current@, desired@),
{
    desired.record_ttl > 0 && current.record_ttl != desired.record_ttl
}

// ---------------------------------------------------------------------------
// Finding the zone
// ---------------------------------------------------------------------------

/// The length of a text in bytes.
pub open spec fn byte_len(s: Seq<char>) -> nat {
    encode_utf8(s).len()
}

/// The name lies in the zone, both in normal form.
pub open spec fn lies_in(name: Seq<char>, zone: Seq<char>) -> bool {
    within(normalized(name), normalized(zone))
}

/// The longest zone that the name lies in, the last one of those that are
/// equally long.
pub open spec fn best_zone(zones: Seq<Seq<char>>, name: Seq<char>) -> Option<Seq<char>>
    decreases zones.len(),
{
    if zones.len() == 0 {
        None
    } else {
        let before = best_zone(zones.drop_last(), name);
        let zone = zones.last();
        if lies_in(name, zone) && (before is None || byte_len(before->0) <= byte_len(zone)) {
            Some(zone)
        } else {
            before
        }
    }
}

/// The chosen zone is one of the zones, the name lies in it, and no zone that
/// the name lies in is longer. None is chosen only where the name lies in none.
pub proof fn law_best_zone(zones: Seq<Seq<char>>, name: Seq<char>)
    ensures
        match best_zone(zones, name) {
            Some(zone) => {
                &&& zones.contains(zone)
                &&& lies_in(name, zone)
                &&& forall|i: int|
                    0 <= i < zones.len() && lies_in(name, #[trigger] zones[i]) ==> byte_len(
                        zones[i],
                    ) <= byte_len(zone)
            },
            None => forall|i: int| 0 <= i < zones.len() ==> !lies_in(name, #[trigger] zones[i]),
        },
    decreases zones.len(),
{
    if zones.len() > 0 {
        let before = zones.drop_last();
        law_best_zone(before, name);
        assert forall|i: int| 0 <= i < before.len() implies zones[i] == #[trigger] before[i] by {}
        assert(forall|i: int| 0 <= i < zones.len() - 1 ==> #[trigger] zones[i] == before[i]);
        assert(zones.last() == zones[zones.len() - 1]);
        if let Some(zone) = best_zone(before, name) {
            let k = choose|k: int| 0 <= k < before.len() && before[k] == zone;
            assert(zones[k] == zone);
        }
    }
}

/// The longest zone that `dns_name` lies in.
pub fn find_zone<'a>(zones: &'a Vec<String>, dns_name: &str) -> (r: Option<&'a str>)
    ensures
        match r {
            Some(zone) => best_zone(texts(zones@), dns_name@) == Some(zone@),
            None => best_zone(texts(zones@), dns_name@) is None,
        },
{
    let name = normalize_name(dns_name);
    let ghost model = texts(zones@);
    let mut best: Option<&'a str> = None;
    let mut i: usize = 0;
    while i < zones.len()
        invariant
            i <= zones.len(),
            model == texts(zones@),
            name@ == normalized(dns_name@),
            match best {
                Some(zone) => best_zone(model.take(i as int), dns_name@) == Some(zone@),
                None => best_zone(model.take(i as int), dns_name@) is None,
            },
        decreases zones.len() - i,
    {
        let zone: &'a str = zones[i].as_str();
        assert(model.take(i + 1).drop_last() =~= model.take(i as int));
        assert(model.take(i + 1).last() == zone@);
        if is_within(name.as_str(), normalize_name(zone).as_str()) {
            match best {
                Some(current) => {
                    if current.as_bytes().len() <= zone.as_bytes().len() {
                        best = Some(zone);
                    }
                },
                None => {
                    best = Some(zone);
                },
            }
        }
        i += 1;
    }
    assert(model.take(model.len() as int) =~= model);
    best
}

// ---------------------------------------------------------------------------
// Reading targets
// ---------------------------------------------------------------------------

/// A number of 16 bits, where `s` stands for one.
pub open spec fn u16_of(s: Seq<char>) -> Option<u16> {
    match unsigned_number(s, u16::MAX as nat) {
        Some(n) => Some(n as u16),
        None => None,
    }
}

/// The priority and the host in the target of a mail exchanger, or what is wrong
/// with it.
pub open spec fn mx_target(target: Seq<char>) -> Result<(u16, Seq<char>), Seq<char>> {
    let parts = words(target);
    if parts.len() == 0 {
        Err("invalid MX target: "@ + target)
    } else if u16_of(parts[0]) is None {
        Err("invalid MX priority in target: "@ + target)
    } else if parts.len() != 2 {
        Err("invalid MX target: "@ + target)
    } else {
        Ok((u16_of(parts[0])->0, without_trailing(parts[1], '.')))
    }
}

/// One number in the target of a service, or what is wrong with it.
pub open spec fn srv_number(part: Option<Seq<char>>, target: Seq<char>, field: Seq<char>) -> Result<
    u16,
    Seq<char>,
> {
    match part {
        None => Err("invalid SRV target: "@ + target),
        Some(text) => match u16_of(text) {
            Some(n) => Ok(n),
            None => Err("invalid SRV "@ + field + " in target: "@ + target),
        },
    }
}

/// The word at place `i` of a list of words, if there is one.
pub open spec fn opt_word(parts: Seq<Seq<char>>, i: int) -> Option<Seq<char>> {
    if 0 <= i < parts.len() {
        Some(parts[i])
    } else {
        None
    }
}

/// The priority, the weight, the port and the host in the target of a service,
/// or what is wrong with it.
pub open spec fn srv_target(target: Seq<char>) -> Result<(u16, u16, u16, Seq<char>), Seq<char>> {
    let parts = words(target);
    match (
        srv_number(opt_word(parts, 0), target, "priority"@),
        srv_number(opt_word(parts, 1), target, "weight"@),
        srv_number(opt_word(parts, 2), target, "port"@),
    ) {
        (Err(message), _, _) => Err(message),
        (Ok(_), Err(message), _) => Err(message),
        (Ok(_), Ok(_), Err(message)) => Err(message),
        (Ok(priority), Ok(weight), Ok(port)) => if parts.len() != 4 {
            Err("invalid SRV target: "@ + target)
        } else {
            Ok((priority, weight, port, without_trailing(parts[3], '.')))
        },
    }
}

/// What of a name stands in front of a zone it lies below: nothing where it is
/// the zone, all of it where it does not lie there. Both in normal form.
pub open spec fn relative_part(name: Seq<char>, zone: Seq<char>) -> Seq<char> {
    if dotted(zone).is_suffix_of(name) {
        name.take(name.len() - dotted(zone).len())
    } else if name == zone {
        Seq::empty()
    } else {
        name
    }
}

/// The service and the protocol that the name of a service starts with, each
/// with its underscore, or what is wrong with the name.
pub open spec fn service_labels(dns_name: Seq<char>, zone: Seq<char>) -> Result<
    (Seq<char>, Seq<char>),
    Seq<char>,
> {
    let name = normalized(dns_name);
    let labels = split_on(relative_part(name, normalized(zone)), '.');
    let service = word(labels, 0);
    let protocol = word(labels, 1);
    if service.len() > 0 && service[0] == '_' && protocol.len() > 0 && protocol[0] == '_' {
        Ok((service, protocol))
    } else {
        Err("SRV DNS name must start with service and protocol labels: "@ + name)
    }
}

pub(crate) fn invalid(message: String) -> (r: ProviderError)
    ensures
        r@ == ProviderErrorModel::InvalidEndpoint(message@),
{
    ProviderError::InvalidEndpoint(message)
}

/// Reads the priority and the host from the target of a mail exchanger.
pub fn parse_mx_target(target: &str) -> (r: Result<(u16, String), ProviderError>)
    ensures
        match r {
            Ok((priority, host)) => mx_target(target@) == Ok::<_, Seq<char>>((priority, host@)),
            Err(error) => mx_target(target@) matches Err(message) && error@
                == ProviderErrorModel::InvalidEndpoint(message),
        },
{
    let parts = split_whitespace(target);
    let ghost model = words(target@);
    assert(texts(parts@).len() == parts@.len());
    if parts.len() == 0 {
        return Err(invalid(join("invalid MX target: ", target)));
    }
    assert(model[0] == parts@[0]@);
    let priority = match read_u16(parts[0].as_str()) {
        Some(priority) => priority,
        None => return Err(invalid(join("invalid MX priority in target: ", target))),
    };
    if parts.len() != 2 {
        return Err(invalid(join("invalid MX target: ", target)));
    }
    assert(model[1] == parts@[1]@);
    Ok((priority, trim_trailing(parts[1].as_str(), '.').to_owned()))
}

/// Reads one number of the target of a service.
pub fn parse_srv_number(value: Option<&str>, target: &str, field: &str) -> (r: Result<
    u16,
    ProviderError,
>)
    ensures
        match r {
            Ok(n) => srv_number(opt_str(value), target@, field@) == Ok::<_, Seq<char>>(n),
            Err(error) => srv_number(opt_str(value), target@, field@) matches Err(message) && error@
                == ProviderErrorModel::InvalidEndpoint(message),
        },
{
    match value {
        None => Err(invalid(join("invalid SRV target: ", target))),
        Some(text) => match read_u16(text) {
            Some(n) => Ok(n),
            None => {
                let mut message = join3("invalid SRV ", field, " in target: ");
                message.append(target);
                Err(invalid(message))
            },
        },
    }
}

fn opt_part(parts: &Vec<String>, i: usize) -> (r: Option<&str>)
    ensures
        opt_str(r) == opt_word(texts(parts@), i as int),
{
    if i < parts.len() {
        Some(parts[i].as_str())
    } else {
        None
    }
}

/// Reads the priority, the weight, the port and the host from the target of a
/// service.
pub fn parse_srv_target(target: &str) -> (r: Result<(u16, u16, u16, String), ProviderError>)
    ensures
        match r {
            Ok((priority, weight, port, host)) => srv_target(target@) == Ok::<_, Seq<char>>(
                (priority, weight, port, host@),
            ),
            Err(error) => srv_target(target@) matches Err(message) && error@
                == ProviderErrorModel::InvalidEndpoint(message),
        },
{
    let parts = split_whitespace(target);
    assert(texts(parts@).len() == parts@.len());
    let priority = match parse_srv_number(opt_part(&parts, 0), target, "priority") {
        Ok(priority) => priority,
        Err(error) => return Err(error),
    };
    let weight = match parse_srv_number(opt_part(&parts, 1), target, "weight") {
        Ok(weight) => weight,
        Err(error) => return Err(error),
    };
    let port = match parse_srv_number(opt_part(&parts, 2), target, "port") {
        Ok(port) => port,
        Err(error) => return Err(error),
    };
    if parts.len() != 4 {
        return Err(invalid(join("invalid SRV target: ", target)));
    }
    assert(texts(parts@)[3] == parts@[3]@);
    Ok((priority, weight, port, trim_trailing(parts[3].as_str(), '.').to_owned()))
}

/// Reads the service and the protocol that the name of a service starts with.
pub fn srv_service_protocol(dns_name: &str, zone: &str) -> (r: Result<
    (String, String),
    ProviderError,
>)
    ensures
        match r {
            Ok((service, protocol)) => service_labels(dns_name@, zone@) == Ok::<_, Seq<char>>(
                (service@, protocol@),
            ),
            Err(error) => service_labels(dns_name@, zone@) matches Err(message) && error@
                == ProviderErrorModel::InvalidEndpoint(message),
        },
{
    let name = normalize_name(dns_name);
    let zone = normalize_name(zone);
    let suffix = with_dot(zone.as_str());
    let relative: &str = if ends_with(name.as_str(), suffix.as_str()) {
        let len = name.as_str().unicode_len() - suffix.as_str().unicode_len();
        let front = name.as_str().substring_char(0, len);
        assert(front@ =~= name@.take(name@.len() - suffix@.len()));
        front
    } else if name == zone {
        let front = name.as_str().substring_char(0, 0);
        assert(front@ =~= Seq::empty());
        front
    } else {
        name.as_str()
    };
    let labels = split(relative, '.');
    let service = part(&labels, 0);
    let protocol = part(&labels, 1);
    if !starts_with_char(service, '_') || !starts_with_char(protocol, '_') {
        return Err(
            invalid(
                join("SRV DNS name must start with service and protocol labels: ", name.as_str()),
            ),
        );
    }
    Ok((service.to_owned(), protocol.to_owned()))
}

// ---------------------------------------------------------------------------
// Writing targets
// ---------------------------------------------------------------------------

/// The types that the API takes.
pub open spec fn is_supported(record_type: Seq<char>) -> bool {
    ||| record_type == "A"@
    ||| record_type == "AAAA"@
    ||| record_type == "TXT"@
    ||| record_type == "CNAME"@
    ||| record_type == "MX"@
    ||| record_type == "SRV"@
}

/// What is said of a type that the API does not take.
pub open spec fn unsupported_type(record_type: Seq<char>) -> Seq<char> {
    "record type "@ + record_type + " is not supported by Timeweb Cloud"@
}

/// The value and the priority that a target is written with, or what is wrong
/// with it. `record_type` is in upper case.
pub open spec fn written_target(
    record_type: Seq<char>,
    dns_name: Seq<char>,
    target: Seq<char>,
    zone: Seq<char>,
) -> Result<(Seq<char>, Option<u16>), Seq<char>> {
    if record_type == "A"@ {
        if is_ipv4(target) {
            Ok((target, None))
        } else if is_ipv6(target) {
            Err("A record target is not an IPv4 address: "@ + target)
        } else {
            Err("A record target is not an IP address: "@ + target)
        }
    } else if record_type == "AAAA"@ {
        if is_ipv4(target) {
            Err("AAAA record target is not an IPv6 address: "@ + target)
        } else if is_ipv6(target) {
            Ok((target, None))
        } else {
            Err("AAAA record target is not an IP address: "@ + target)
        }
    } else if record_type == "TXT"@ {
        Ok((target, None))
    } else if record_type == "CNAME"@ {
        Ok((without_trailing(target, '.'), None))
    } else if record_type == "MX"@ {
        match mx_target(target) {
            Ok((priority, host)) => Ok((host, Some(priority))),
            Err(message) => Err(message),
        }
    } else if record_type == "SRV"@ {
        match srv_target(target) {
            Err(message) => Err(message),
            Ok((priority, weight, port, host)) => if weight != 0 {
                Err("Timeweb Cloud supports only SRV records with zero weight"@)
            } else {
                match service_labels(dns_name, zone) {
                    Err(message) => Err(message),
                    Ok(_) => Ok(
                        (
                            decimal(weight as nat) + " "@ + decimal(port as nat) + " "@ + host,
                            Some(priority),
                        ),
                    ),
                }
            },
        }
    } else {
        Err(unsupported_type(record_type))
    }
}

/// The name that a record is written under: left out where it is the zone.
pub open spec fn written_subdomain(dns_name: Seq<char>, zone: Seq<char>) -> Option<Seq<char>> {
    if normalized(dns_name) == normalized(zone) {
        None
    } else {
        Some(normalized(dns_name))
    }
}

/// The record that one target of an endpoint is written as in `zone`, or what is
/// wrong with it.
pub open spec fn change_of(endpoint: EndpointModel, target: Seq<char>, zone: Seq<char>) -> Result<
    ChangeModel,
    Seq<char>,
> {
    let record_type = upper(trimmed(endpoint.record_type));
    match written_target(record_type, endpoint.dns_name, target, zone) {
        Err(message) => Err(message),
        Ok((value, priority)) => Ok(
            ChangeModel {
                record_type,
                subdomain: written_subdomain(endpoint.dns_name, zone),
                value,
                ttl: if endpoint.record_ttl > 0 {
                    Some(endpoint.record_ttl as u64)
                } else {
                    None
                },
                priority,
            },
        ),
    }
}

/// The value and the priority that a target is written with.
fn write_target(record_type: &str, dns_name: &str, target: &str, zone: &str) -> (r: Result<
    (String, Option<u16>),
    ProviderError,
>)
    ensures
        match r {
            Ok((value, priority)) => written_target(record_type@, dns_name@, target@, zone@) == Ok::<
                _,
                Seq<char>,
            >((value@, priority)),
            Err(error) => written_target(record_type@, dns_name@, target@, zone@) matches Err(
                message,
            ) && error@ == ProviderErrorModel::InvalidEndpoint(message),
        },
{
    if same_text(record_type, "A") {
        if ipv4(target) {
            Ok((target.to_owned(), None))
        } else if ipv6(target) {
            Err(invalid(join("A record target is not an IPv4 address: ", target)))
        } else {
            Err(invalid(join("A record target is not an IP address: ", target)))
        }
    } else if same_text(record_type, "AAAA") {
        if ipv4(target) {
            Err(invalid(join("AAAA record target is not an IPv6 address: ", target)))
        } else if ipv6(target) {
            Ok((target.to_owned(), None))
        } else {
            Err(invalid(join("AAAA record target is not an IP address: ", target)))
        }
    } else if same_text(record_type, "TXT") {
        Ok((target.to_owned(), None))
    } else if same_text(record_type, "CNAME") {
        Ok((trim_trailing(target, '.').to_owned(), None))
    } else if same_text(record_type, "MX") {
        match parse_mx_target(target) {
            Ok((priority, host)) => Ok((host, Some(priority))),
            Err(error) => Err(error),
        }
    } else if same_text(record_type, "SRV") {
        let (priority, weight, port, host) = match parse_srv_target(target) {
            Ok(parsed) => parsed,
            Err(error) => return Err(error),
        };
        if weight != 0 {
            return Err(
                invalid("Timeweb Cloud supports only SRV records with zero weight".to_owned()),
            );
        }
        match srv_service_protocol(dns_name, zone) {
            Ok(_) => {},
            Err(error) => return Err(error),
        }
        let mut value = String::new();
        push_decimal(&mut value, weight as u64);
        value.append(" ");
        push_decimal(&mut value, port as u64);
        value.append(" ");
        value.append(host.as_str());
        assert(value@ =~= decimal(weight as nat) + " "@ + decimal(port as nat) + " "@ + host@);
        Ok((value, Some(priority)))
    } else {
        Err(
            invalid(join3("record type ", record_type, " is not supported by Timeweb Cloud")),
        )
    }
}

/// The name that a record is written under: left out where it is the zone.
pub fn subdomain_in(dns_name: &str, zone: &str) -> (r: Option<String>)
    ensures
        opt_text(r) == written_subdomain(dns_name@, zone@),
{
    let owner = normalize_name(dns_name);
    if owner == normalize_name(zone) {
        None
    } else {
        Some(owner)
    }
}

/// The record that one target of an endpoint is written as in `zone`.
pub fn change_from_endpoint(endpoint: &Endpoint, target: &str, zone: &str) -> (r: Result<
    DnsRecordChange,
    ProviderError,
>)
    ensures
        match r {
            Ok(change) => change_of(endpoint@, target@, zone@) == Ok::<_, Seq<char>>(change@),
            Err(error) => change_of(endpoint@, target@, zone@) matches Err(message) && error@
                == ProviderErrorModel::InvalidEndpoint(message),
        },
{
    let record_type = uppercase(trim(endpoint.record_type.as_str()));
    let ttl: Option<u64> = if endpoint.record_ttl > 0 {
        Some(endpoint.record_ttl as u64)
    } else {
        None
    };
    let (value, priority) = match write_target(
        record_type.as_str(),
        endpoint.dns_name.as_str(),
        target,
        zone,
    ) {
        Ok(written) => written,
        Err(error) => return Err(error),
    };
    let subdomain = subdomain_in(endpoint.dns_name.as_str(), zone);
    Ok(DnsRecordChange { record_type, subdomain, value, ttl, priority })
}

} // verus!
