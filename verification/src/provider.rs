//! The provider: what it checks, and what it sends to the API for a set of
//! changes.
use crate::client::{ClientModel, TimewebClient};
use crate::domain_filter::{DomainFilter, FilterModel};
use crate::model::{endpoints, Changes, ChangesModel, Endpoint, EndpointModel};
use crate::numbers::{decimal, push_decimal};
use crate::targets::{invalid, is_supported, unsupported_type};
use crate::text::{join, join3, same_text, texts, trim, trimmed, upper, uppercase};
use crate::timeweb::{TimewebError, TimewebErrorModel};
use vstd::prelude::*;
use vstd::string::*;

verus! {

// ---------------------------------------------------------------------------
// Errors
// ---------------------------------------------------------------------------

/// Why a request of ExternalDNS failed.
#[derive(Debug)]
pub enum ProviderError {
    InvalidEndpoint(String),
    MismatchedUpdateLists { old_len: usize, new_len: usize },
    StateMismatch { dns_name: String, record_type: String, target: String },
    Timeweb(TimewebError),
}

/// A failure by the values it holds.
pub enum ProviderErrorModel {
    InvalidEndpoint(Seq<char>),
    MismatchedUpdateLists { old_len: nat, new_len: nat },
    StateMismatch { dns_name: Seq<char>, record_type: Seq<char>, target: Seq<char> },
    Timeweb(TimewebErrorModel),
}

impl View for ProviderError {
    type V = ProviderErrorModel;

    open spec fn view(&self) -> ProviderErrorModel {
        match self {
            ProviderError::InvalidEndpoint(message) => ProviderErrorModel::InvalidEndpoint(
                message@,
            ),
            ProviderError::MismatchedUpdateLists { old_len, new_len } => {
                ProviderErrorModel::MismatchedUpdateLists {
                    old_len: *old_len as nat,
                    new_len: *new_len as nat,
                }
            },
            ProviderError::StateMismatch { dns_name, record_type, target } => {
                ProviderErrorModel::StateMismatch {
                    dns_name: dns_name@,
                    record_type: record_type@,
                    target: target@,
                }
            },
            ProviderError::Timeweb(error) => ProviderErrorModel::Timeweb(error@),
        }
    }
}

impl ProviderErrorModel {
    /// The HTTP status that ExternalDNS is answered with: 400 for a request that
    /// makes no sense, 503 where the records are not as the request assumes, the
    /// API's own status where it refused the request for good, else 502.
    pub open spec fn status(self) -> u16 {
        match self {
            ProviderErrorModel::InvalidEndpoint(_) => 400,
            ProviderErrorModel::MismatchedUpdateLists { .. } => 400,
            ProviderErrorModel::StateMismatch { .. } => 503,
            ProviderErrorModel::Timeweb(error) => match error.http_status() {
                Some(status) => if 400 <= status < 500 && status != 429 {
                    status
                } else {
                    502
                },
                None => 502,
            },
        }
    }

    /// The failure in words.
    pub open spec fn text(self) -> Seq<char> {
        match self {
            ProviderErrorModel::InvalidEndpoint(message) => "invalid ExternalDNS endpoint: "@
                + message,
            ProviderErrorModel::MismatchedUpdateLists { old_len, new_len } =>
                "ExternalDNS update lists have different lengths: "@ + decimal(old_len) + " and "@
                + decimal(new_len),
            ProviderErrorModel::StateMismatch { dns_name, record_type, target } =>
                "current DNS state does not contain record "@ + record_type + " "@ + dns_name
                + " "@ + target,
            ProviderErrorModel::Timeweb(error) => error.text(),
        }
    }
}

impl ProviderError {
    /// The HTTP status that ExternalDNS is answered with.
    pub fn http_status(&self) -> (r: u16)
        ensures
            r == self@.status(),
    {
        match self {
            ProviderError::InvalidEndpoint(_) | ProviderError::MismatchedUpdateLists { .. } => 400,
            ProviderError::StateMismatch { .. } => 503,
            ProviderError::Timeweb(error) => match error.status() {
                Some(status) => if 400 <= status && status < 500 && status != 429 {
                    status
                } else {
                    502
                },
                None => 502,
            },
        }
    }

    /// The failure in words.
    pub fn message(&self) -> (r: String)
        ensures
            r@ == self@.text(),
    {
        match self {
            ProviderError::InvalidEndpoint(message) => join(
                "invalid ExternalDNS endpoint: ",
                message.as_str(),
            ),
            ProviderError::MismatchedUpdateLists { old_len, new_len } => {
                let mut r = "ExternalDNS update lists have different lengths: ".to_owned();
                push_decimal(&mut r, *old_len as u64);
                r.append(" and ");
                push_decimal(&mut r, *new_len as u64);
                r
            },
            ProviderError::StateMismatch { dns_name, record_type, target } => {
                let mut r = join3(
                    "current DNS state does not contain record ",
                    record_type.as_str(),
                    " ",
                );
                r.append(dns_name.as_str());
                r.append(" ");
                r.append(target.as_str());
                r
            },
            ProviderError::Timeweb(error) => error.message(),
        }
    }
}

// ---------------------------------------------------------------------------
// Checking a request
// ---------------------------------------------------------------------------

/// What is wrong with an endpoint.
pub open spec fn endpoint_error(endpoint: EndpointModel, require_targets: bool) -> Option<
    Seq<char>,
> {
    if trimmed(endpoint.dns_name).len() == 0 {
        Some("dnsName must not be empty"@)
    } else if !is_supported(upper(trimmed(endpoint.record_type))) {
        Some(unsupported_type(upper(trimmed(endpoint.record_type))))
    } else if endpoint.set_identifier.len() > 0 {
        Some("setIdentifier is not supported by Timeweb Cloud"@)
    } else if endpoint.record_ttl < 0 {
        Some("recordTTL must not be negative"@)
    } else if require_targets && endpoint.targets.len() == 0 {
        Some("targets must not be empty"@)
    } else if exists|i: int|
        0 <= i < endpoint.targets.len() && (#[trigger] endpoint.targets[i]).len() == 0 {
        Some("targets must not contain empty values"@)
    } else {
        None
    }
}

/// What is wrong with the first endpoint of a list that something is wrong with.
pub open spec fn list_error(list: Seq<EndpointModel>, require_targets: bool) -> Option<Seq<char>>
    decreases list.len(),
{
    if list.len() == 0 {
        None
    } else if let Some(message) = list_error(list.drop_last(), require_targets) {
        Some(message)
    } else {
        endpoint_error(list.last(), require_targets)
    }
}

/// What is wrong with a set of changes: the update lists must be equally long,
/// and every endpoint must be one that the API can hold.
pub open spec fn changes_error(changes: ChangesModel) -> Option<ProviderErrorModel> {
    if changes.update_old.len() != changes.update_new.len() {
        Some(
            ProviderErrorModel::MismatchedUpdateLists {
                old_len: changes.update_old.len(),
                new_len: changes.update_new.len(),
            },
        )
    } else if let Some(message) = list_error(changes.create, true) {
        Some(ProviderErrorModel::InvalidEndpoint(message))
    } else if let Some(message) = list_error(changes.delete, false) {
        Some(ProviderErrorModel::InvalidEndpoint(message))
    } else if let Some(message) = list_error(changes.update_old, true) {
        Some(ProviderErrorModel::InvalidEndpoint(message))
    } else if let Some(message) = list_error(changes.update_new, true) {
        Some(ProviderErrorModel::InvalidEndpoint(message))
    } else {
        None
    }
}

/// Whether some text of the list is empty.
fn any_empty(list: &Vec<String>) -> (r: bool)
    ensures
        r == (exists|i: int| 0 <= i < list@.len() && (#[trigger] texts(list@)[i]).len() == 0),
{
    let ghost model = texts(list@);
    let mut i: usize = 0;
    while i < list.len()
        invariant
            i <= list.len(),
            model == texts(list@),
            forall|j: int| 0 <= j < i ==> (#[trigger] model[j]).len() > 0,
        decreases list.len() - i,
    {
        if list[i].as_str().is_empty() {
            assert(model[i as int].len() == 0);
            return true;
        }
        i += 1;
    }
    false
}

/// Checks one endpoint.
pub fn validate_endpoint(endpoint: &Endpoint, require_targets: bool) -> (r: Result<
    (),
    ProviderError,
>)
    ensures
        match r {
            Ok(()) => endpoint_error(endpoint@, require_targets) is None,
            Err(error) => endpoint_error(endpoint@, require_targets) matches Some(message) && error@
                == ProviderErrorModel::InvalidEndpoint(message),
        },
{
    if trim(endpoint.dns_name.as_str()).is_empty() {
        return Err(invalid("dnsName must not be empty".to_owned()));
    }
    let kind = uppercase(trim(endpoint.record_type.as_str()));
    let record_type = kind.as_str();
    if !(same_text(record_type, "A") || same_text(record_type, "AAAA") || same_text(
        record_type,
        "TXT",
    ) || same_text(record_type, "CNAME") || same_text(record_type, "MX") || same_text(
        record_type,
        "SRV",
    )) {
        return Err(
            invalid(join3("record type ", record_type, " is not supported by Timeweb Cloud")),
        );
    }
    if !endpoint.set_identifier.as_str().is_empty() {
        return Err(invalid("setIdentifier is not supported by Timeweb Cloud".to_owned()));
    }
    if endpoint.record_ttl < 0 {
        return Err(invalid("recordTTL must not be negative".to_owned()));
    }
    if require_targets && endpoint.targets.is_empty() {
        return Err(invalid("targets must not be empty".to_owned()));
    }
    if any_empty(&endpoint.targets) {
        return Err(invalid("targets must not contain empty values".to_owned()));
    }
    Ok(())
}

/// Checks every endpoint of a list, in order.
fn validate_list(list: &Vec<Endpoint>, require_targets: bool) -> (r: Result<(), ProviderError>)
    ensures
        match r {
            Ok(()) => list_error(endpoints(list@), require_targets) is None,
            Err(error) => list_error(endpoints(list@), require_targets) matches Some(message)
                && error@ == ProviderErrorModel::InvalidEndpoint(message),
        },
{
    let ghost model = endpoints(list@);
    let mut i: usize = 0;
    while i < list.len()
        invariant
            i <= list.len(),
            model == endpoints(list@),
            list_error(model.take(i as int), require_targets) is None,
        decreases list.len() - i,
    {
        assert(model.take(i + 1).drop_last() =~= model.take(i as int));
        assert(model.take(i + 1).last() == list@[i as int]@);
        match validate_endpoint(&list[i], require_targets) {
            Ok(()) => {},
            Err(error) => {
                proof {
                    lemma_list_error_stays(model, i + 1, require_targets);
                }
                return Err(error);
            },
        }
        i += 1;
    }
    assert(model.take(model.len() as int) =~= model);
    Ok(())
}

/// The first error of a list is that of any of its beginnings that has one.
proof fn lemma_list_error_stays(list: Seq<EndpointModel>, n: int, require_targets: bool)
    requires
        0 <= n <= list.len(),
        list_error(list.take(n), require_targets) is Some,
    ensures
        list_error(list, require_targets) == list_error(list.take(n), require_targets),
    decreases list.len(),
{
    if n == list.len() {
        assert(list.take(n) =~= list);
    } else {
        assert(list.drop_last().take(n) =~= list.take(n));
        lemma_list_error_stays(list.drop_last(), n, require_targets);
    }
}

// ---------------------------------------------------------------------------
// The provider
// ---------------------------------------------------------------------------

/// The provider: the client it works with and the domains it manages.
pub struct Provider {
    client: TimewebClient,
    domain_filter: DomainFilter,
}

/// A provider by the models of its parts.
pub struct ProviderModel {
    pub client: ClientModel,
    pub domain_filter: FilterModel,
}

impl View for Provider {
    type V = ProviderModel;

    closed spec fn view(&self) -> ProviderModel {
        ProviderModel { client: self.client@, domain_filter: self.domain_filter@ }
    }
}

impl Clone for Provider {
    fn clone(&self) -> (r: Provider)
        ensures
            r@ == self@,
    {
        Provider { client: self.client.clone(), domain_filter: self.domain_filter.clone() }
    }
}

impl Provider {
    /// A provider for the domains that the filter lets through.
    pub fn new(client: TimewebClient, domain_filter: DomainFilter) -> (r: Provider)
        ensures
            r@ == (ProviderModel { client: client@, domain_filter: domain_filter@ }),
    {
        Provider { client, domain_filter }
    }

    /// The domains that are managed.
    pub fn domain_filter(&self) -> (r: &DomainFilter)
        ensures
            r@ == self@.domain_filter,
    {
        &self.domain_filter
    }

    /// The client that the provider works with.
    pub fn client(&self) -> (r: &TimewebClient)
        ensures
            r@ == self@.client,
    {
        &self.client
    }

    /// The endpoints as the provider would have them: just as they are.
    pub fn adjust_endpoints(&self, endpoints: Vec<Endpoint>) -> (r: Vec<Endpoint>)
        ensures
            r == endpoints,
    {
        endpoints
    }

    /// Checks a set of changes.
    pub fn validate_changes(&self, changes: &Changes) -> (r: Result<(), ProviderError>)
        ensures
            match r {
                Ok(()) => changes_error(changes@) is None,
                Err(error) => changes_error(changes@) == Some(error@),
            },
    {
        if changes.update_old.len() != changes.update_new.len() {
            return Err(
                ProviderError::MismatchedUpdateLists {
                    old_len: changes.update_old.len(),
                    new_len: changes.update_new.len(),
                },
            );
        }
        match validate_list(&changes.create, true) {
            Ok(()) => {},
            Err(error) => return Err(error),
        }
        match validate_list(&changes.delete, false) {
            Ok(()) => {},
            Err(error) => return Err(error),
        }
        match validate_list(&changes.update_old, true) {
            Ok(()) => {},
            Err(error) => return Err(error),
        }
        validate_list(&changes.update_new, true)
    }
}

// ---------------------------------------------------------------------------
// Laws
// ---------------------------------------------------------------------------

/// A failure of the API that may pass is answered with 502, so that ExternalDNS
/// tries again. No failure is answered with 429, and each is answered with an
/// error status.
pub proof fn law_transient_failures_are_answered_502(
    failure: TimewebErrorModel,
    error: ProviderErrorModel,
)
    ensures
        failure.transient() ==> ProviderErrorModel::Timeweb(failure).status() == 502,
        400 <= error.status() < 600,
        error.status() != 429,
{
}

/// A set of changes that was checked holds only endpoints of types that the API
/// takes, without set identifiers and without negative TTLs.
pub proof fn law_checked_changes_can_be_held(changes: ChangesModel, i: int)
    requires
        changes_error(changes) is None,
    ensures
        changes.update_old.len() == changes.update_new.len(),
        0 <= i < changes.create.len() ==> endpoint_error(changes.create[i], true) is None,
        0 <= i < changes.delete.len() ==> endpoint_error(changes.delete[i], false) is None,
        0 <= i < changes.update_old.len() ==> endpoint_error(changes.update_old[i], true) is None,
        0 <= i < changes.update_new.len() ==> endpoint_error(changes.update_new[i], true) is None,
{
    lemma_list_without_error(changes.create, true, i);
    lemma_list_without_error(changes.delete, false, i);
    lemma_list_without_error(changes.update_old, true, i);
    lemma_list_without_error(changes.update_new, true, i);
}

/// Where a list has no error, none of its endpoints has one.
proof fn lemma_list_without_error(list: Seq<EndpointModel>, require_targets: bool, i: int)
    requires
        list_error(list, require_targets) is None,
    ensures
        0 <= i < list.len() ==> endpoint_error(list[i], require_targets) is None,
    decreases list.len(),
{
    if list.len() > 0 {
        lemma_list_without_error(list.drop_last(), require_targets, i);
    }
}

/// An endpoint is one that the API can hold: it has a name, a type that the API
/// takes, no set identifier, no negative TTL, no empty target, and a target at all if
/// one is required.
pub open spec fn can_be_held(endpoint: EndpointModel, require_targets: bool) -> bool {
    let kind = upper(trimmed(endpoint.record_type));
    &&& trimmed(endpoint.dns_name).len() > 0
    &&& kind == "A"@ || kind == "AAAA"@ || kind == "CNAME"@ || kind == "MX"@ || kind == "SRV"@
        || kind == "TXT"@
    &&& endpoint.set_identifier.len() == 0
    &&& endpoint.record_ttl >= 0
    &&& require_targets ==> endpoint.targets.len() > 0
    &&& forall|i: int|
        0 <= i < endpoint.targets.len() ==> (#[trigger] endpoint.targets[i]).len() > 0
}

/// Nothing is wrong with an endpoint that can be held, and something is with any
/// other.
pub proof fn law_endpoints_are_checked(endpoint: EndpointModel, require_targets: bool)
    ensures
        endpoint_error(endpoint, require_targets) is None <==> can_be_held(
            endpoint,
            require_targets,
        ),
{
}

proof fn lemma_list_is_checked(list: Seq<EndpointModel>, require_targets: bool)
    ensures
        list_error(list, require_targets) is None <==> forall|i: int|
            0 <= i < list.len() ==> can_be_held(#[trigger] list[i], require_targets),
    decreases list.len(),
{
    if list.len() > 0 {
        let front = list.drop_last();
        lemma_list_is_checked(front, require_targets);
        law_endpoints_are_checked(list.last(), require_targets);
        assert(list[list.len() - 1] == list.last());
        assert(forall|i: int| 0 <= i < front.len() ==> #[trigger] front[i] == list[i]);
        if forall|i: int|
            0 <= i < list.len() ==> can_be_held(#[trigger] list[i], require_targets) {
            assert forall|i: int| 0 <= i < front.len() implies can_be_held(
                #[trigger] front[i],
                require_targets,
            ) by {
                assert(front[i] == list[i]);
            }
        } else {
            let i = choose|i: int|
                0 <= i < list.len() && !can_be_held(#[trigger] list[i], require_targets);
            if i < front.len() {
                assert(front[i] == list[i]);
            }
        }
    }
}

/// A set of changes is taken if the two lists of its updates are equally long and
/// every endpoint in it can be held, and only then. A deletion need not name targets.
pub proof fn law_changes_are_checked(changes: ChangesModel)
    ensures
        changes_error(changes) is None <==> {
            &&& changes.update_old.len() == changes.update_new.len()
            &&& forall|i: int|
                0 <= i < changes.create.len() ==> can_be_held(#[trigger] changes.create[i], true)
            &&& forall|i: int|
                0 <= i < changes.delete.len() ==> can_be_held(#[trigger] changes.delete[i], false)
            &&& forall|i: int|
                0 <= i < changes.update_old.len() ==> can_be_held(
                    #[trigger] changes.update_old[i],
                    true,
                )
            &&& forall|i: int|
                0 <= i < changes.update_new.len() ==> can_be_held(
                    #[trigger] changes.update_new[i],
                    true,
                )
        },
        changes.update_old.len() != changes.update_new.len() ==> changes_error(changes) == Some(
            ProviderErrorModel::MismatchedUpdateLists {
                old_len: changes.update_old.len(),
                new_len: changes.update_new.len(),
            },
        ),
        changes.update_old.len() == changes.update_new.len() ==> (changes_error(changes) matches Some(
            error,
        ) ==> error is InvalidEndpoint),
{
    lemma_list_is_checked(changes.create, true);
    lemma_list_is_checked(changes.delete, false);
    lemma_list_is_checked(changes.update_old, true);
    lemma_list_is_checked(changes.update_new, true);
}

/// A request that makes no sense is answered 400, and one that does not fit the
/// records 503. A status of the API in the four hundreds is handed on, but for 429;
/// every other failure of the API is answered 502.
pub proof fn law_failures_are_answered(
    error: ProviderErrorModel,
    failure: TimewebErrorModel,
    status: u16,
)
    ensures
        error is InvalidEndpoint || error is MismatchedUpdateLists ==> error.status() == 400,
        error is StateMismatch ==> error.status() == 503,
        error == ProviderErrorModel::Timeweb(failure) && failure.http_status() == Some(status)
            && status / 100 == 4 && status != 429 ==> error.status() == status,
        error == ProviderErrorModel::Timeweb(failure) && failure.http_status() == Some(status) && (
        status / 100 != 4 || status == 429) ==> error.status() == 502,
        error == ProviderErrorModel::Timeweb(failure) && failure.http_status() is None
            ==> error.status() == 502,
{
}

/// A failure in words holds what it is about.
pub proof fn law_provider_failures_are_told(
    message: Seq<char>,
    old_len: nat,
    new_len: nat,
    dns_name: Seq<char>,
    record_type: Seq<char>,
    target: Seq<char>,
    error: TimewebErrorModel,
)
    ensures
        message.is_suffix_of(ProviderErrorModel::InvalidEndpoint(message).text()),
        (decimal(old_len) + " and "@ + decimal(new_len)).is_suffix_of(
            (ProviderErrorModel::MismatchedUpdateLists { old_len, new_len }).text(),
        ),
        (record_type + " "@ + dns_name + " "@ + target).is_suffix_of(
            (ProviderErrorModel::StateMismatch { dns_name, record_type, target }).text(),
        ),
        ProviderErrorModel::Timeweb(error).text() == error.text(),
{
    let lengths = "ExternalDNS update lists have different lengths: "@;
    assert(lengths + decimal(old_len) + " and "@ + decimal(new_len) =~= lengths + (decimal(old_len)
        + " and "@ + decimal(new_len)));
    let missing = "current DNS state does not contain record "@;
    assert(missing + record_type + " "@ + dns_name + " "@ + target =~= missing + (record_type
        + " "@ + dns_name + " "@ + target));
}

/// Of a list, the first endpoint that cannot be held is reported, as it would be alone.
pub proof fn law_the_first_fault_is_told(
    list: Seq<EndpointModel>,
    require_targets: bool,
    i: int,
)
    requires
        0 <= i < list.len(),
        forall|k: int| 0 <= k < i ==> can_be_held(#[trigger] list[k], require_targets),
        !can_be_held(list[i], require_targets),
    ensures
        list_error(list, require_targets) is Some,
        list_error(list, require_targets) == endpoint_error(list[i], require_targets),
    decreases list.len(),
{
    let front = list.drop_last();
    law_endpoints_are_checked(list[i], require_targets);
    if i < front.len() {
        assert(front[i] == list[i]);
        assert forall|k: int| 0 <= k < i implies can_be_held(
            #[trigger] front[k],
            require_targets,
        ) by {
            assert(front[k] == list[k]);
        }
        law_the_first_fault_is_told(front, require_targets, i);
    } else {
        assert forall|k: int| 0 <= k < front.len() implies can_be_held(
            #[trigger] front[k],
            require_targets,
        ) by {
            assert(front[k] == list[k]);
        }
        lemma_list_is_checked(front, require_targets);
    }
}

/// What is reported of an endpoint is the first fault in this order, whatever else is
/// wrong with it: its name, its type, its set identifier, its TTL, its targets.
pub proof fn law_faults_are_told_in_turn(
    endpoint: EndpointModel,
    other: EndpointModel,
    require_targets: bool,
)
    requires
        can_be_held(other, require_targets),
    ensures
        ({
            let told = endpoint_error(endpoint, require_targets);
            let of_name = EndpointModel { dns_name: endpoint.dns_name, ..other };
            let of_type = EndpointModel { record_type: endpoint.record_type, ..other };
            let of_set = EndpointModel { set_identifier: endpoint.set_identifier, ..other };
            let of_ttl = EndpointModel { record_ttl: endpoint.record_ttl, ..other };
            let of_targets = EndpointModel { targets: endpoint.targets, ..other };
            if !can_be_held(of_name, require_targets) {
                told == endpoint_error(of_name, require_targets)
            } else if !can_be_held(of_type, require_targets) {
                told == endpoint_error(of_type, require_targets)
            } else if !can_be_held(of_set, require_targets) {
                told == endpoint_error(of_set, require_targets)
            } else if !can_be_held(of_ttl, require_targets) {
                told == endpoint_error(of_ttl, require_targets)
            } else {
                told == endpoint_error(of_targets, require_targets)
            }
        }),
{
    let of_name = EndpointModel { dns_name: endpoint.dns_name, ..other };
    let of_type = EndpointModel { record_type: endpoint.record_type, ..other };
    let of_set = EndpointModel { set_identifier: endpoint.set_identifier, ..other };
    let of_ttl = EndpointModel { record_ttl: endpoint.record_ttl, ..other };
    let of_targets = EndpointModel { targets: endpoint.targets, ..other };
    law_endpoints_are_checked(of_name, require_targets);
    law_endpoints_are_checked(of_type, require_targets);
    law_endpoints_are_checked(of_set, require_targets);
    law_endpoints_are_checked(of_ttl, require_targets);
    law_endpoints_are_checked(of_targets, require_targets);
    assert(forall|i: int|
        0 <= i < other.targets.len() ==> (#[trigger] other.targets[i]).len() > 0);
    assert(can_be_held(of_name, require_targets) <==> trimmed(endpoint.dns_name).len() > 0);
    assert(can_be_held(of_type, require_targets) <==> is_supported(
        upper(trimmed(endpoint.record_type)),
    ));
    assert(can_be_held(of_set, require_targets) <==> endpoint.set_identifier.len() == 0);
    assert(can_be_held(of_ttl, require_targets) <==> endpoint.record_ttl >= 0);
}

/// The lists of a set of changes are looked through one after the other: the creations,
/// the deletions, the old and the new forms of the updates.
pub proof fn law_lists_are_checked_in_turn(changes: ChangesModel)
    requires
        changes.update_old.len() == changes.update_new.len(),
    ensures
        ({
            let told = changes_error(changes);
            let nothing = Seq::<EndpointModel>::empty();
            let creations = ChangesModel {
                create: changes.create,
                delete: nothing,
                update_old: nothing,
                update_new: nothing,
            };
            let deletions = ChangesModel { create: nothing, delete: changes.delete, ..creations };
            &&& changes_error(creations) is Some ==> told == changes_error(creations)
            &&& changes_error(creations) is None && changes_error(deletions) is Some ==> told
                == changes_error(deletions)
            &&& changes_error(creations) is None && changes_error(deletions) is None
                && changes.update_old.len() > 0 && list_error(changes.update_old, true) is Some
                ==> told == Some(
                ProviderErrorModel::InvalidEndpoint(list_error(changes.update_old, true)->0),
            )
        }),
{
}

} // verus!
