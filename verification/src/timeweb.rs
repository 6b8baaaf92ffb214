//! The Timeweb Cloud data model: the records that the API lists and takes, and
//! how they correspond to ExternalDNS endpoints.
pub use crate::client::TimewebClient;
use crate::model::{Endpoint, EndpointModel};
use crate::names::{dotted, is_within, normalize_name, normalized, with_dot, within};
use crate::numbers::{decimal, push_decimal, read_u16, unsigned_number};
use crate::text::{
    join, join3, opt_text, same_text, split_whitespace, texts, trim, trim_trailing, trimmed, uppercase, upper,
    without_trailing, words,
};
use std::collections::BTreeMap;
use vstd::prelude::*;
use vstd::string::*;

verus! {

/// No more than this many bytes of a response are read.
pub const API_BODY_LIMIT: usize = 16777216;

/// A list is asked for in pages of this size.
pub const PAGE_SIZE: u64 = 100;

// ---------------------------------------------------------------------------
// Errors
// ---------------------------------------------------------------------------

/// A request that did not get an answer, and why.
#[derive(Debug)]
pub struct RequestFailure {
    pub timeout: bool,
    pub connect: bool,
    pub request: bool,
    pub message: String,
}

/// Why a call of the API failed.
#[derive(Debug)]
#[allow(inconsistent_fields)]
pub enum TimewebError {
    Request(RequestFailure),
    HttpStatus { status: u16, message: String },
    Decode(String),
    BodyTooLarge,
    Url(String),
    InvalidResponse(String),
}

/// A failure by the values it holds.
#[allow(inconsistent_fields)]
pub enum TimewebErrorModel {
    Request { timeout: bool, connect: bool, request: bool, message: Seq<char> },
    HttpStatus { status: u16, message: Seq<char> },
    Decode(Seq<char>),
    BodyTooLarge,
    Url(Seq<char>),
    InvalidResponse(Seq<char>),
}

impl View for TimewebError {
    type V = TimewebErrorModel;

    open spec fn view(&self) -> TimewebErrorModel {
        match self {
            TimewebError::Request(failure) => TimewebErrorModel::Request {
                timeout: failure.timeout,
                connect: failure.connect,
                request: failure.request,
                message: failure.message@,
            },
            TimewebError::HttpStatus { status, message } => TimewebErrorModel::HttpStatus {
                status: *status,
                message: message@,
            },
            TimewebError::Decode(message) => TimewebErrorModel::Decode(message@),
            TimewebError::BodyTooLarge => TimewebErrorModel::BodyTooLarge,
            TimewebError::Url(message) => TimewebErrorModel::Url(message@),
            TimewebError::InvalidResponse(message) => TimewebErrorModel::InvalidResponse(message@),
        }
    }
}

impl TimewebErrorModel {
    /// The call may succeed when it is made again.
    pub open spec fn transient(self) -> bool {
        match self {
            TimewebErrorModel::Request { timeout, connect, request, .. } => timeout || connect
                || request,
            TimewebErrorModel::HttpStatus { status, .. } => status == 429 || status >= 500,
            _ => true,
        }
    }

    /// The HTTP status that the API answered with, if it did.
    pub open spec fn http_status(self) -> Option<u16> {
        match self {
            TimewebErrorModel::HttpStatus { status, .. } => Some(status),
            _ => None,
        }
    }

    /// The failure in words.
    pub open spec fn text(self) -> Seq<char> {
        match self {
            TimewebErrorModel::Request { message, .. } => "request to Timeweb Cloud failed: "@
                + message,
            TimewebErrorModel::HttpStatus { status, message } => "Timeweb Cloud returned HTTP "@
                + decimal(status as nat) + ": "@ + message,
            TimewebErrorModel::Decode(message) => "failed to decode Timeweb Cloud response: "@
                + message,
            TimewebErrorModel::BodyTooLarge =>
                "Timeweb Cloud response exceeded 16777216 bytes"@,
            TimewebErrorModel::Url(message) => "failed to construct Timeweb Cloud URL: "@ + message,
            TimewebErrorModel::InvalidResponse(message) => "Timeweb Cloud response is invalid: "@
                + message,
        }
    }
}

impl TimewebError {
    /// Whether the call may succeed when it is made again.
    pub fn is_transient(&self) -> (r: bool)
        ensures
            r == self@.transient(),
    {
        match self {
            TimewebError::Request(failure) => failure.timeout || failure.connect || failure.request,
            TimewebError::HttpStatus { status, .. } => *status == 429 || *status >= 500,
            TimewebError::Decode(_)
            | TimewebError::BodyTooLarge
            | TimewebError::Url(_)
            | TimewebError::InvalidResponse(_) => true,
        }
    }

    /// The HTTP status that the API answered with, if it did.
    pub fn status(&self) -> (r: Option<u16>)
        ensures
            r == self@.http_status(),
    {
        match self {
            TimewebError::HttpStatus { status, .. } => Some(*status),
            TimewebError::Request(_)
            | TimewebError::Decode(_)
            | TimewebError::BodyTooLarge
            | TimewebError::Url(_)
            | TimewebError::InvalidResponse(_) => None,
        }
    }

    /// The failure in words.
    pub fn message(&self) -> (r: String)
        ensures
            r@ == self@.text(),
    {
        match self {
            TimewebError::Request(failure) => join(
                "request to Timeweb Cloud failed: ",
                failure.message.as_str(),
            ),
            TimewebError::HttpStatus { status, message } => {
                let mut r = "Timeweb Cloud returned HTTP ".to_owned();
                push_decimal(&mut r, *status as u64);
                r.append(": ");
                r.append(message.as_str());
                r
            },
            TimewebError::Decode(message) => join(
                "failed to decode Timeweb Cloud response: ",
                message.as_str(),
            ),
            TimewebError::BodyTooLarge =>
                "Timeweb Cloud response exceeded 16777216 bytes".to_owned(),
            TimewebError::Url(message) => join(
                "failed to construct Timeweb Cloud URL: ",
                message.as_str(),
            ),
            TimewebError::InvalidResponse(message) => join(
                "Timeweb Cloud response is invalid: ",
                message.as_str(),
            ),
        }
    }
}

// ---------------------------------------------------------------------------
// Records
// ---------------------------------------------------------------------------

/// A record as it is written to the API. `subdomain` is the full name of its
/// owner, left out where the owner is the zone itself.
#[derive(Clone, Debug)]
pub struct DnsRecordChange {
    pub record_type: String,
    pub subdomain: Option<String>,
    pub value: String,
    pub ttl: Option<u64>,
    pub priority: Option<u16>,
}

/// A written record by the texts and numbers it holds.
pub struct ChangeModel {
    pub record_type: Seq<char>,
    pub subdomain: Option<Seq<char>>,
    pub value: Seq<char>,
    pub ttl: Option<u64>,
    pub priority: Option<u16>,
}

impl View for DnsRecordChange {
    type V = ChangeModel;

    open spec fn view(&self) -> ChangeModel {
        ChangeModel {
            record_type: self.record_type@,
            subdomain: opt_text(self.subdomain),
            value: self.value@,
            ttl: self.ttl,
            priority: self.priority,
        }
    }
}

/// A domain of the account.
#[derive(Clone, Debug)]
pub struct TimewebDomain {
    pub fqdn: String,
}

impl View for TimewebDomain {
    type V = Seq<char>;

    open spec fn view(&self) -> Seq<char> {
        self.fqdn@
    }
}

/// A record that the API lists: its number, the zone it was listed in, and the
/// endpoint it stands for.
#[derive(Clone, Debug)]
pub struct RemoteRecord {
    pub id: u64,
    pub zone: String,
    pub endpoint: Endpoint,
}

/// A listed record by the texts and numbers it holds.
pub struct RecordModel {
    pub id: u64,
    pub zone: Seq<char>,
    pub endpoint: EndpointModel,
}

impl View for RemoteRecord {
    type V = RecordModel;

    open spec fn view(&self) -> RecordModel {
        RecordModel { id: self.id, zone: self.zone@, endpoint: self.endpoint@ }
    }
}

/// A list of listed records by their models.
pub open spec fn record_models(list: Seq<RemoteRecord>) -> Seq<RecordModel> {
    list.map_values(|r: RemoteRecord| r@)
}

/// One record in an answer of the API.
#[derive(Debug)]
pub struct DnsRecordResponse {
    pub id: Option<u64>,
    pub record_type: String,
    pub fqdn: Option<String>,
    pub data: DnsRecordData,
    pub ttl: Option<u64>,
}

/// What a record in an answer of the API holds.
#[derive(Debug)]
pub struct DnsRecordData {
    pub priority: Option<u16>,
    pub subdomain: Option<String>,
    pub value: Option<String>,
}

/// What an answered record holds, by its texts.
pub struct DataModel {
    pub priority: Option<u16>,
    pub subdomain: Option<Seq<char>>,
    pub value: Option<Seq<char>>,
}

/// An answered record by the texts and numbers it holds.
pub struct ResponseModel {
    pub id: Option<u64>,
    pub record_type: Seq<char>,
    pub fqdn: Option<Seq<char>>,
    pub data: DataModel,
    pub ttl: Option<u64>,
}

impl View for DnsRecordData {
    type V = DataModel;

    open spec fn view(&self) -> DataModel {
        DataModel {
            priority: self.priority,
            subdomain: opt_text(self.subdomain),
            value: opt_text(self.value),
        }
    }
}

impl View for DnsRecordResponse {
    type V = ResponseModel;

    open spec fn view(&self) -> ResponseModel {
        ResponseModel {
            id: self.id,
            record_type: self.record_type@,
            fqdn: opt_text(self.fqdn),
            data: self.data@,
            ttl: self.ttl,
        }
    }
}

impl Default for DnsRecordData {
    fn default() -> (r: DnsRecordData)
        ensures
            r@ == (DataModel { priority: None, subdomain: None, value: None }),
    {
        DnsRecordData { priority: None, subdomain: None, value: None }
    }
}

// ---------------------------------------------------------------------------
// From an answered record to an endpoint
// ---------------------------------------------------------------------------

/// The types whose target is the value itself.
pub open spec fn is_plain_type(record_type: Seq<char>) -> bool {
    ||| record_type == "A"@
    ||| record_type == "AAAA"@
    ||| record_type == "TXT"@
    ||| record_type == "CNAME"@
}

/// A value without the dots at its end, but for text records, which keep them.
pub open spec fn target_form(record_type: Seq<char>, value: Seq<char>) -> Seq<char> {
    if record_type == "TXT"@ {
        value
    } else {
        without_trailing(value, '.')
    }
}

/// What is said of a record that lacks a field.
pub open spec fn missing_field(record_type: Seq<char>, field: Seq<char>) -> Seq<char> {
    record_type + " DNS record has no "@ + field + " field"@
}

/// The weight, the port and the host in the value of a service record, or what
/// is wrong with it.
pub open spec fn srv_value(value: Seq<char>) -> Result<(u16, u16, Seq<char>), Seq<char>> {
    let parts = words(value);
    if parts.len() < 1 {
        Err(missing_field("SRV"@, "weight"@))
    } else if unsigned_number(parts[0], u16::MAX as nat) is None {
        Err("SRV DNS record has invalid weight"@)
    } else if parts.len() < 2 {
        Err(missing_field("SRV"@, "port"@))
    } else if unsigned_number(parts[1], u16::MAX as nat) is None {
        Err("SRV DNS record has invalid port"@)
    } else if parts.len() < 3 {
        Err(missing_field("SRV"@, "host"@))
    } else if parts.len() > 3 {
        Err("SRV DNS record value has extra fields"@)
    } else {
        Ok(
            (
                unsigned_number(parts[0], u16::MAX as nat)->0 as u16,
                unsigned_number(parts[1], u16::MAX as nat)->0 as u16,
                without_trailing(parts[2], '.'),
            ),
        )
    }
}

/// The target that an answered record stands for, or what is wrong with it.
pub open spec fn target_of(record_type: Seq<char>, data: DataModel) -> Result<
    Seq<char>,
    Seq<char>,
> {
    if is_plain_type(record_type) {
        match data.value {
            Some(value) => Ok(target_form(record_type, value)),
            None => Err(missing_field(record_type, "value"@)),
        }
    } else if record_type == "MX"@ || record_type == "SRV"@ {
        match (data.priority, data.value) {
            (None, _) => Err(missing_field(record_type, "priority"@)),
            (Some(_), None) => Err(missing_field(record_type, "value"@)),
            (Some(priority), Some(value)) => if record_type == "MX"@ {
                Ok(decimal(priority as nat) + " "@ + target_form(record_type, value))
            } else {
                match srv_value(value) {
                    Ok((weight, port, host)) => Ok(
                        decimal(priority as nat) + " "@ + decimal(weight as nat) + " "@ + decimal(
                            port as nat,
                        ) + " "@ + target_form(record_type, host),
                    ),
                    Err(message) => Err(message),
                }
            },
        }
    } else {
        Err("unsupported DNS record type "@ + record_type)
    }
}

/// The owner of a record in `zone`: the zone itself where no subdomain or `@` is
/// given, the subdomain where it lies in the zone, else the subdomain below the
/// zone.
pub open spec fn owner(zone: Seq<char>, subdomain: Option<Seq<char>>) -> Seq<char> {
    match subdomain {
        None => normalized(zone),
        Some(name) => if trimmed(name).len() == 0 || trimmed(name) == "@"@ {
            normalized(zone)
        } else if within(normalized(trimmed(name)), normalized(zone)) {
            normalized(trimmed(name))
        } else {
            normalized(trimmed(name)) + dotted(normalized(zone))
        },
    }
}

/// The listed record that an answered record stands for, or what is wrong with
/// it.
pub open spec fn record_of(response: ResponseModel, zone: Seq<char>) -> Result<
    RecordModel,
    Seq<char>,
> {
    let record_type = upper(trimmed(response.record_type));
    if response.id is None || response.id == Some(0u64) {
        Err("DNS record has no valid ID"@)
    } else if let Err(message) = target_of(record_type, response.data) {
        Err(message)
    } else if response.ttl matches Some(ttl) && ttl > i64::MAX {
        Err("DNS record TTL does not fit in int64"@)
    } else {
        Ok(
            RecordModel {
                id: response.id->0,
                zone,
                endpoint: EndpointModel {
                    dns_name: owner(
                        zone,
                        if response.fqdn is Some {
                            response.fqdn
                        } else {
                            response.data.subdomain
                        },
                    ),
                    targets: seq![target_of(record_type, response.data)->Ok_0],
                    record_type,
                    set_identifier: Seq::empty(),
                    record_ttl: match response.ttl {
                        Some(ttl) => ttl as int,
                        None => 0,
                    },
                    labels: Map::empty(),
                    provider_specific: Seq::empty(),
                },
            },
        )
    }
}

/// What is said of a record that lacks a field.
pub fn missing_record_field(record_type: &str, field: &str) -> (r: TimewebError)
    ensures
        r@ == TimewebErrorModel::InvalidResponse(missing_field(record_type@, field@)),
{
    let mut message = join3(record_type, " DNS record has no ", field);
    message.append(" field");
    TimewebError::InvalidResponse(message)
}

/// An answer that makes no sense.
pub fn invalid_response(message: &str) -> (r: TimewebError)
    ensures
        r@ == TimewebErrorModel::InvalidResponse(message@),
{
    TimewebError::InvalidResponse(message.to_owned())
}

/// A value without the dots at its end, but for text records, which keep them.
pub fn normalize_target(record_type: &str, value: &str) -> (r: String)
    ensures
        r@ == target_form(record_type@, value@),
{
    if same_text(record_type, "TXT") {
        value.to_owned()
    } else {
        trim_trailing(value, '.').to_owned()
    }
}

/// Reads the weight, the port and the host from the value of a service record.
pub fn parse_srv_value(value: &str) -> (r: Result<(u16, u16, String), TimewebError>)
    ensures
        match r {
            Ok((weight, port, host)) => srv_value(value@) == Ok::<_, Seq<char>>(
                (weight, port, host@),
            ),
            Err(error) => srv_value(value@) matches Err(message) && error@
                == TimewebErrorModel::InvalidResponse(message),
        },
{
    let parts = split_whitespace(value);
    let ghost model = words(value@);
    assert(texts(parts@).len() == parts@.len());
    if parts.len() < 1 {
        return Err(missing_record_field("SRV", "weight"));
    }
    assert(model[0] == parts@[0]@);
    let weight = match read_u16(parts[0].as_str()) {
        Some(weight) => weight,
        None => return Err(invalid_response("SRV DNS record has invalid weight")),
    };
    if parts.len() < 2 {
        return Err(missing_record_field("SRV", "port"));
    }
    assert(model[1] == parts@[1]@);
    let port = match read_u16(parts[1].as_str()) {
        Some(port) => port,
        None => return Err(invalid_response("SRV DNS record has invalid port")),
    };
    if parts.len() < 3 {
        return Err(missing_record_field("SRV", "host"));
    }
    if parts.len() > 3 {
        return Err(invalid_response("SRV DNS record value has extra fields"));
    }
    assert(model[2] == parts@[2]@);
    Ok((weight, port, trim_trailing(parts[2].as_str(), '.').to_owned()))
}

/// The target that an answered record stands for.
pub fn response_target(record_type: &str, data: &DnsRecordData) -> (r: Result<String, TimewebError>)
    ensures
        match r {
            Ok(target) => target_of(record_type@, data@) == Ok::<_, Seq<char>>(target@),
            Err(error) => target_of(record_type@, data@) matches Err(message) && error@
                == TimewebErrorModel::InvalidResponse(message),
        },
{
    if same_text(record_type, "A") || same_text(record_type, "AAAA") || same_text(
        record_type,
        "TXT",
    ) || same_text(record_type, "CNAME") {
        return match &data.value {
            Some(value) => Ok(normalize_target(record_type, value.as_str())),
            None => Err(missing_record_field(record_type, "value")),
        };
    }
    let mx = same_text(record_type, "MX");
    if !mx && !same_text(record_type, "SRV") {
        return Err(
            TimewebError::InvalidResponse(join("unsupported DNS record type ", record_type)),
        );
    }
    let priority = match data.priority {
        Some(priority) => priority,
        None => return Err(missing_record_field(record_type, "priority")),
    };
    let value = match &data.value {
        Some(value) => value.as_str(),
        None => return Err(missing_record_field(record_type, "value")),
    };
    let mut target = String::new();
    push_decimal(&mut target, priority as u64);
    target.append(" ");
    if mx {
        target.append(normalize_target(record_type, value).as_str());
        assert(target@ =~= decimal(priority as nat) + " "@ + target_form(record_type@, value@));
    } else {
        let (weight, port, host) = match parse_srv_value(value) {
            Ok(parsed) => parsed,
            Err(error) => return Err(error),
        };
        push_decimal(&mut target, weight as u64);
        target.append(" ");
        push_decimal(&mut target, port as u64);
        target.append(" ");
        target.append(normalize_target(record_type, host.as_str()).as_str());
        assert(target@ =~= decimal(priority as nat) + " "@ + decimal(weight as nat) + " "@
            + decimal(port as nat) + " "@ + target_form(record_type@, host@));
    }
    Ok(target)
}

/// An optional text as its characters.
pub open spec fn opt_str(value: Option<&str>) -> Option<Seq<char>> {
    match value {
        Some(s) => Some(s@),
        None => None,
    }
}

/// The owner of a record in `zone`.
pub fn owner_name(zone: &str, subdomain: Option<&str>) -> (r: String)
    ensures
        r@ == owner(zone@, opt_str(subdomain)),
{
    let zone = normalize_name(zone);
    let subdomain = match subdomain {
        Some(subdomain) => trim(subdomain),
        None => return zone,
    };
    if subdomain.is_empty() || same_text(subdomain, "@") {
        return zone;
    }
    let name = normalize_name(subdomain);
    if is_within(name.as_str(), zone.as_str()) {
        name
    } else {
        join(name.as_str(), with_dot(zone.as_str()).as_str())
    }
}

impl DnsRecordResponse {
    /// The listed record that this answer stands for.
    pub fn into_remote_record(self, zone: &str) -> (r: Result<RemoteRecord, TimewebError>)
        ensures
            match r {
                Ok(record) => record_of(self@, zone@) == Ok::<_, Seq<char>>(record@),
                Err(error) => record_of(self@, zone@) matches Err(message) && error@
                    == TimewebErrorModel::InvalidResponse(message),
            },
    {
        let id = match self.id {
            Some(id) => id,
            None => return Err(invalid_response("DNS record has no valid ID")),
        };
        if id == 0 {
            return Err(invalid_response("DNS record has no valid ID"));
        }
        let record_type = uppercase(trim(self.record_type.as_str()));
        let target = match response_target(record_type.as_str(), &self.data) {
            Ok(target) => target,
            Err(error) => return Err(error),
        };
        let dns_name = match &self.fqdn {
            Some(fqdn) => owner_name(zone, Some(fqdn.as_str())),
            None => match &self.data.subdomain {
                Some(subdomain) => owner_name(zone, Some(subdomain.as_str())),
                None => owner_name(zone, None),
            },
        };
        let record_ttl: i64 = match self.ttl {
            Some(ttl) => {
                if ttl > i64::MAX as u64 {
                    return Err(invalid_response("DNS record TTL does not fit in int64"));
                }
                ttl as i64
            },
            None => 0,
        };
        let mut targets: Vec<String> = Vec::new();
        targets.push(target);
        let endpoint = Endpoint {
            dns_name,
            targets,
            record_type,
            set_identifier: String::new(),
            record_ttl,
            labels: BTreeMap::new(),
            provider_specific: Vec::new(),
        };
        assert(endpoint@.targets =~= seq![target@]);
        assert(endpoint@.provider_specific =~= Seq::empty());
        Ok(RemoteRecord { id, zone: zone.to_owned(), endpoint })
    }
}

// ---------------------------------------------------------------------------
// Laws
// ---------------------------------------------------------------------------

/// Nothing that a record holds is left out of its model.
pub proof fn law_record_models_are_complete(
    change: DnsRecordChange,
    response: DnsRecordResponse,
    list: Seq<RemoteRecord>,
    i: int,
)
    ensures
        change@.record_type == change.record_type@,
        change@.subdomain is Some <==> change.subdomain is Some,
        change.subdomain matches Some(name) ==> change@.subdomain == Some(name@),
        change@.value == change.value@,
        change@.ttl == change.ttl,
        change@.priority == change.priority,
        response@.id == response.id,
        response@.record_type == response.record_type@,
        response@.ttl == response.ttl,
        response@.data.priority == response.data.priority,
        response@.fqdn is Some <==> response.fqdn is Some,
        response.fqdn matches Some(name) ==> response@.fqdn == Some(name@),
        response@.data.subdomain is Some <==> response.data.subdomain is Some,
        response.data.subdomain matches Some(name) ==> response@.data.subdomain == Some(name@),
        response@.data.value is Some <==> response.data.value is Some,
        response.data.value matches Some(value) ==> response@.data.value == Some(value@),
        record_models(list).len() == list.len(),
        0 <= i < list.len() ==> record_models(list)[i].id == list[i].id && record_models(
            list,
        )[i].zone == list[i].zone@ && record_models(list)[i].endpoint == list[i].endpoint@,
{
}

/// A failure in words ends with the message that it holds, and names the status that
/// the API answered with before it.
pub proof fn law_failures_are_told(message: Seq<char>, status: u16, a: bool, b: bool, c: bool)
    ensures
        message.is_suffix_of(
            (TimewebErrorModel::Request { timeout: a, connect: b, request: c, message }).text(),
        ),
        message.is_suffix_of(TimewebErrorModel::Decode(message).text()),
        message.is_suffix_of(TimewebErrorModel::Url(message).text()),
        message.is_suffix_of(TimewebErrorModel::InvalidResponse(message).text()),
        (decimal(status as nat) + ": "@ + message).is_suffix_of(
            (TimewebErrorModel::HttpStatus { status, message }).text(),
        ),
{
    let start = "Timeweb Cloud returned HTTP "@;
    assert(start + decimal(status as nat) + ": "@ + message =~= start + (decimal(status as nat)
        + ": "@ + message));
}

} // verus!
