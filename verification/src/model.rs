//! The ExternalDNS data model: endpoints and the changes asked for.
use crate::text::texts;
use std::collections::BTreeMap;
use vstd::prelude::*;

verus! {

/// One DNS name with the targets of one record type.
#[derive(Clone, Debug, PartialEq, Eq)]
pub struct Endpoint {
    pub dns_name: String,
    pub targets: Vec<String>,
    pub record_type: String,
    pub set_identifier: String,
    pub record_ttl: i64,
    pub labels: BTreeMap<String, String>,
    pub provider_specific: Vec<ProviderSpecificProperty>,
}

/// A property that only some providers know.
#[derive(Clone, Debug, PartialEq, Eq)]
pub struct ProviderSpecificProperty {
    pub name: String,
    pub value: String,
}

/// What is to be created, updated and deleted. The two update lists belong
/// together place by place.
#[derive(Debug)]
pub struct Changes {
    pub create: Vec<Endpoint>,
    pub update_old: Vec<Endpoint>,
    pub update_new: Vec<Endpoint>,
    pub delete: Vec<Endpoint>,
}

/// An endpoint by the texts and the number it holds.
pub struct EndpointModel {
    pub dns_name: Seq<char>,
    pub targets: Seq<Seq<char>>,
    pub record_type: Seq<char>,
    pub set_identifier: Seq<char>,
    pub record_ttl: int,
    pub labels: Map<String, String>,
    pub provider_specific: Seq<ProviderSpecificProperty>,
}

impl View for Endpoint {
    type V = EndpointModel;

    open spec fn view(&self) -> EndpointModel {
        EndpointModel {
            dns_name: self.dns_name@,
            targets: texts(self.targets@),
            record_type: self.record_type@,
            set_identifier: self.set_identifier@,
            record_ttl: self.record_ttl as int,
            labels: self.labels@,
            provider_specific: self.provider_specific@,
        }
    }
}

/// A list of endpoints by their models.
pub open spec fn endpoints(list: Seq<Endpoint>) -> Seq<EndpointModel> {
    list.map_values(|e: Endpoint| e@)
}

/// The changes by the models of their endpoints.
pub struct ChangesModel {
    pub create: Seq<EndpointModel>,
    pub update_old: Seq<EndpointModel>,
    pub update_new: Seq<EndpointModel>,
    pub delete: Seq<EndpointModel>,
}

impl View for Changes {
    type V = ChangesModel;

    open spec fn view(&self) -> ChangesModel {
        ChangesModel {
            create: endpoints(self.create@),
            update_old: endpoints(self.update_old@),
            update_new: endpoints(self.update_new@),
            delete: endpoints(self.delete@),
        }
    }
}

impl ChangesModel {
    /// Nothing is to be done.
    pub open spec fn nothing(self) -> bool {
        &&& self.create.len() == 0
        &&& self.update_old.len() == 0
        &&& self.update_new.len() == 0
        &&& self.delete.len() == 0
    }
}

impl Changes {
    /// Whether all four lists are empty.
    pub fn is_empty(&self) -> (r: bool)
        ensures
            r == self@.nothing(),
    {
        self.create.is_empty() && self.update_old.is_empty() && self.update_new.is_empty()
            && self.delete.is_empty()
    }
}

/// Whether a TTL is the one that stands for "not set" and is left out.
pub fn is_zero(value: &i64) -> (r: bool)
    ensures
        r == (*value == 0),
{
    *value == 0
}

// ---------------------------------------------------------------------------
// Laws
// ---------------------------------------------------------------------------

/// Nothing that an endpoint or a set of changes holds is left out of its model.
pub proof fn law_models_are_complete(endpoint: Endpoint, changes: Changes)
    ensures
        endpoint@.dns_name == endpoint.dns_name@,
        endpoint@.record_type == endpoint.record_type@,
        endpoint@.set_identifier == endpoint.set_identifier@,
        endpoint@.record_ttl == endpoint.record_ttl,
        endpoint@.labels == endpoint.labels@,
        endpoint@.provider_specific == endpoint.provider_specific@,
        endpoint@.targets.len() == endpoint.targets@.len(),
        forall|i: int|
            0 <= i < endpoint.targets@.len() ==> #[trigger] endpoint@.targets[i]
                == endpoint.targets@[i]@,
        changes@.create.len() == changes.create@.len(),
        changes@.update_old.len() == changes.update_old@.len(),
        changes@.update_new.len() == changes.update_new@.len(),
        changes@.delete.len() == changes.delete@.len(),
        forall|i: int|
            0 <= i < changes.create@.len() ==> #[trigger] changes@.create[i]
                == changes.create@[i]@,
        forall|i: int|
            0 <= i < changes.update_old@.len() ==> #[trigger] changes@.update_old[i]
                == changes.update_old@[i]@,
        forall|i: int|
            0 <= i < changes.update_new@.len() ==> #[trigger] changes@.update_new[i]
                == changes.update_new@[i]@,
        forall|i: int|
            0 <= i < changes.delete@.len() ==> #[trigger] changes@.delete[i]
                == changes.delete@[i]@,
{
}

/// There is nothing to do if no list holds an endpoint, and only there.
pub proof fn law_any_endpoint_is_something_to_do(changes: ChangesModel, endpoint: EndpointModel)
    ensures
        changes.create.contains(endpoint) || changes.update_old.contains(endpoint)
            || changes.update_new.contains(endpoint) || changes.delete.contains(endpoint)
            ==> !changes.nothing(),
        !changes.nothing() ==> exists|e: EndpointModel|
            changes.create.contains(e) || changes.update_old.contains(e)
                || changes.update_new.contains(e) || changes.delete.contains(e),
{
    if !changes.nothing() {
        let list = if changes.create.len() > 0 {
            changes.create
        } else if changes.update_old.len() > 0 {
            changes.update_old
        } else if changes.update_new.len() > 0 {
            changes.update_new
        } else {
            changes.delete
        };
        assert(list.contains(list[0]));
    }
}

} // verus!
