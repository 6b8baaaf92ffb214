//! What the provider does step by step: loading the records there are, and
//! applying changes to them. Each step says what to do next, and is handed what
//! came of it.
use crate::client::{is_request, ApiRequest, ClientModel, Method, RequestModel, TimewebClient};
use crate::domain_filter::{DomainFilter, FilterModel};
use crate::grouping::{group_records, is_sorted_grouping};
use crate::listing::domain_texts;
use crate::model::{endpoints, Changes, ChangesModel, Endpoint};
use crate::plan::{
    all_steps, operation_models, opt_failure, outcome, plan_changes, Operation, OperationModel, RemoteState,
    StateModel,
};
use crate::provider::{changes_error, Provider, ProviderError, ProviderErrorModel};
use crate::text::{lemma_texts_push, texts};
use crate::timeweb::{
    record_models, RecordModel, RemoteRecord, TimewebDomain, TimewebError, TimewebErrorModel,
};
use vstd::prelude::*;
use vstd::string::*;

verus! {

// ---------------------------------------------------------------------------
// Loading the records
// ---------------------------------------------------------------------------

/// The domains that a managed name may lie in.
pub open spec fn managed_zones(filter: FilterModel, domains: Seq<Seq<char>>) -> Seq<Seq<char>> {
    domains.filter(|d: Seq<char>| filter.may_lie_in(d))
}

/// The records with a managed name.
pub open spec fn managed_records(filter: FilterModel, records: Seq<RecordModel>) -> Seq<
    RecordModel,
> {
    records.filter(|r: RecordModel| filter.accepts(r.endpoint.dns_name))
}

/// The records so far, while those of one zone after the other are listed.
pub struct StateLoading {
    zones: Vec<String>,
    next: usize,
    records: Vec<RemoteRecord>,
}

/// A loading: the managed zones, the place of the one whose records are listed
/// next, and the managed records of those before it.
pub struct LoadingModel {
    pub zones: Seq<Seq<char>>,
    pub next: int,
    pub records: Seq<RecordModel>,
}

impl View for StateLoading {
    type V = LoadingModel;

    closed spec fn view(&self) -> LoadingModel {
        LoadingModel {
            zones: texts(self.zones@),
            next: self.next as int,
            records: record_models(self.records@),
        }
    }
}

/// The next thing to do to load the records: to list those of a zone, or nothing
/// more.
pub enum LoadStep {
    ListRecords(StateLoading),
    Loaded(RemoteState),
}

/// What a loading step is, by its models.
pub enum LoadModel {
    ListRecords(LoadingModel),
    Loaded(StateModel),
}

impl View for LoadStep {
    type V = LoadModel;

    open spec fn view(&self) -> LoadModel {
        match self {
            LoadStep::ListRecords(loading) => LoadModel::ListRecords(loading@),
            LoadStep::Loaded(state) => LoadModel::Loaded(state@),
        }
    }
}

/// Goes on to the zone at place `next`, or ends where there is none.
pub open spec fn load_next(
    zones: Seq<Seq<char>>,
    next: int,
    records: Seq<RecordModel>,
) -> LoadModel {
    if next < zones.len() {
        LoadModel::ListRecords(LoadingModel { zones, next, records })
    } else {
        LoadModel::Loaded(StateModel { zones, records })
    }
}

/// The step after the records of a zone were listed: those with a managed name follow
/// the ones so far.
pub open spec fn load_further(
    loading: LoadingModel,
    filter: FilterModel,
    listed: Seq<RecordModel>,
) -> LoadModel {
    load_next(loading.zones, loading.next + 1, loading.records + managed_records(filter, listed))
}

/// The domains that a managed name may lie in.
fn select_zones(filter: &DomainFilter, domains: Vec<TimewebDomain>) -> (r: Vec<String>)
    ensures
        texts(r@) == managed_zones(filter@, domain_texts(domains@)),
{
    let ghost model = domain_texts(domains@);
    let ghost keep = |d: Seq<char>| filter@.may_lie_in(d);
    let mut r: Vec<String> = Vec::new();
    let mut i: usize = 0;
    assert(texts(r@) =~= model.take(0).filter(keep)) by {
        reveal(Seq::filter);
    }
    while i < domains.len()
        invariant
            i <= domains.len(),
            model == domain_texts(domains@),
            keep == |d: Seq<char>| filter@.may_lie_in(d),
            texts(r@) == model.take(i as int).filter(keep),
        decreases domains.len() - i,
    {
        let fqdn = domains[i].fqdn.as_str();
        proof {
            assert(model.take(i + 1) =~= model.take(i as int).push(fqdn@));
            model.take(i as int).lemma_filter_push(fqdn@, keep);
        }
        if filter.zone_may_contain(fqdn) {
            let zone = fqdn.to_owned();
            proof {
                lemma_texts_push(r@, zone);
            }
            r.push(zone);
        }
        i += 1;
    }
    assert(model.take(model.len() as int) =~= model);
    r
}

/// Adds the records with a managed name.
fn add_managed(records: &mut Vec<RemoteRecord>, filter: &DomainFilter, listed: Vec<RemoteRecord>)
    ensures
        record_models(final(records)@) == record_models(old(records)@) + managed_records(
            filter@,
            record_models(listed@),
        ),
{
    let ghost model = record_models(listed@);
    let ghost start = record_models(records@);
    let ghost keep = |r: RecordModel| filter@.accepts(r.endpoint.dns_name);
    assert(start + model.take(0).filter(keep) =~= start) by {
        reveal(Seq::filter);
    }
    for record in iter: listed
        invariant
            iter.seq() == listed@,
            model == record_models(listed@),
            keep == |r: RecordModel| filter@.accepts(r.endpoint.dns_name),
            record_models(records@) == start + model.take(iter.index() as int).filter(keep),
    {
        let ghost i = iter.index() as int;
        let ghost held = records@;
        proof {
            assert(model.take(i + 1) =~= model.take(i).push(record@));
            model.take(i).lemma_filter_push(record@, keep);
        }
        if filter.matches(record.endpoint.dns_name.as_str()) {
            records.push(record);
            assert(record_models(records@) =~= record_models(held).push(record@));
        }
        assert(record_models(records@) =~= start + model.take(i + 1).filter(keep));
    }
    assert(model.take(model.len() as int) =~= model);
}

fn next_load(zones: Vec<String>, next: usize, records: Vec<RemoteRecord>) -> (r: LoadStep)
    requires
        next <= zones@.len(),
    ensures
        r@ == load_next(texts(zones@), next as int, record_models(records@)),
{
    if next < zones.len() {
        LoadStep::ListRecords(StateLoading { zones, next, records })
    } else {
        LoadStep::Loaded(RemoteState { zones, records })
    }
}

impl StateLoading {
    #[verifier::type_invariant]
    spec fn zone_is_left(self) -> bool {
        self.next < self.zones@.len()
    }

    /// The zone whose records are to be listed.
    pub fn zone(&self) -> (r: &str)
        ensures
            0 <= self@.next < self@.zones.len(),
            r@ == self@.zones[self@.next],
    {
        proof {
            use_type_invariant(self);
        }
        self.zones[self.next].as_str()
    }

    /// Takes the records of the zone: those with a managed name follow the ones so
    /// far.
    pub fn listed(self, provider: &Provider, listed: Result<Vec<RemoteRecord>, TimewebError>) -> (r:
        Result<LoadStep, ProviderError>)
        ensures
            match listed {
                Ok(listed) => r matches Ok(step) && step@ == load_further(
                    self@,
                    provider@.domain_filter,
                    record_models(listed@),
                ),
                Err(failure) => r matches Err(error) && error@ == ProviderErrorModel::Timeweb(
                    failure@,
                ),
            },
    {
        proof {
            use_type_invariant(&self);
        }
        match listed {
            Ok(listed) => {
                let mut records = self.records;
                add_managed(&mut records, provider.domain_filter(), listed);
                assert(self.zones.len() <= usize::MAX);
                Ok(next_load(self.zones, self.next + 1, records))
            },
            Err(failure) => Err(ProviderError::Timeweb(failure)),
        }
    }
}

impl Provider {
    /// Starts to load the records, from the domains of the account.
    pub fn load_state(&self, domains: Result<Vec<TimewebDomain>, TimewebError>) -> (r: Result<
        LoadStep,
        ProviderError,
    >)
        ensures
            match domains {
                Ok(domains) => r matches Ok(step) && step@ == load_next(
                    managed_zones(self@.domain_filter, domain_texts(domains@)),
                    0,
                    Seq::empty(),
                ),
                Err(failure) => r matches Err(error) && error@ == ProviderErrorModel::Timeweb(
                    failure@,
                ),
            },
    {
        match domains {
            Ok(domains) => {
                let zones = select_zones(self.domain_filter(), domains);
                let records: Vec<RemoteRecord> = Vec::new();
                assert(record_models(records@) =~= Seq::empty());
                Ok(next_load(zones, 0, records))
            },
            Err(failure) => Err(ProviderError::Timeweb(failure)),
        }
    }

    /// The endpoints that the loaded records stand for.
    pub fn records(&self, state: Result<RemoteState, ProviderError>) -> (r: Result<
        Vec<Endpoint>,
        ProviderError,
    >)
        ensures
            match state {
                Ok(state) => r matches Ok(list) && is_sorted_grouping(
                    endpoints(list@),
                    state@.records,
                ),
                Err(failure) => r matches Err(error) && error == failure,
            },
    {
        match state {
            Ok(state) => Ok(group_records(state.records)),
            Err(error) => Err(error),
        }
    }
}

// ---------------------------------------------------------------------------
// Applying changes
// ---------------------------------------------------------------------------

/// Changes that wait for the records to be loaded.
pub struct PendingChanges {
    changes: Changes,
}

impl View for PendingChanges {
    type V = ChangesModel;

    closed spec fn view(&self) -> ChangesModel {
        self.changes@
    }
}

/// Operations that wait for the one before them, and the error that comes behind
/// them if the rest cannot be done.
pub struct PendingOperations {
    operations: Vec<Operation>,
    failure: Option<ProviderError>,
}

impl View for PendingOperations {
    type V = (Seq<OperationModel>, Option<ProviderErrorModel>);

    closed spec fn view(&self) -> (Seq<OperationModel>, Option<ProviderErrorModel>) {
        (operation_models(self.operations@), opt_failure(self.failure))
    }
}

/// The next thing to do to apply changes: to load the records, to send a request,
/// or nothing more.
pub enum ApplyStep {
    Load(PendingChanges),
    Send(ApiRequest, PendingOperations),
    Done(Result<(), ProviderError>),
}

/// What a step of applying changes is, by its models. The work ends without or
/// with an error.
pub enum ApplyModel {
    Load(ChangesModel),
    Send(RequestModel, Seq<OperationModel>, Option<ProviderErrorModel>),
    Done(Option<ProviderErrorModel>),
}

impl View for ApplyStep {
    type V = ApplyModel;

    open spec fn view(&self) -> ApplyModel {
        match self {
            ApplyStep::Load(changes) => ApplyModel::Load(changes@),
            ApplyStep::Send(request, pending) => ApplyModel::Send(
                request@,
                pending@.0,
                pending@.1,
            ),
            ApplyStep::Done(Ok(())) => ApplyModel::Done(None),
            ApplyStep::Done(Err(error)) => ApplyModel::Done(Some(error@)),
        }
    }
}

/// The request that an operation is sent as.
pub open spec fn request_of(client: ClientModel, operation: OperationModel) -> Result<
    RequestModel,
    TimewebErrorModel,
> {
    match operation {
        OperationModel::Create { zone, change } => client.create_request(zone, change),
        OperationModel::Update { zone, id, change } => client.update_request(zone, id, change),
        OperationModel::Delete { zone, id } => client.delete_request(zone, id),
    }
}

/// Goes on to the first operation, or ends with the error behind them.
pub open spec fn apply_next(
    client: ClientModel,
    operations: Seq<OperationModel>,
    failure: Option<ProviderErrorModel>,
) -> ApplyModel {
    if operations.len() == 0 {
        ApplyModel::Done(failure)
    } else {
        match request_of(client, operations[0]) {
            Ok(request) => ApplyModel::Send(request, operations.drop_first(), failure),
            Err(error) => ApplyModel::Done(Some(ProviderErrorModel::Timeweb(error))),
        }
    }
}

/// The first step for a set of changes: it is refused if something is wrong with
/// it, done if there is nothing to do, and else the records are loaded.
pub open spec fn apply_first(changes: ChangesModel) -> ApplyModel {
    if let Some(error) = changes_error(changes) {
        ApplyModel::Done(Some(error))
    } else if changes.nothing() {
        ApplyModel::Done(None)
    } else {
        ApplyModel::Load(changes)
    }
}

/// The request that an operation is sent as.
fn to_request(client: &TimewebClient, operation: Operation) -> (r: Result<ApiRequest, TimewebError>)
    ensures
        is_request(r, request_of(client@, operation@)),
{
    match operation {
        Operation::Create { zone, change } => client.create_record(zone.as_str(), change),
        Operation::Update { zone, id, change } => client.update_record(zone.as_str(), id, change),
        Operation::Delete { zone, id } => client.delete_record(zone.as_str(), id),
    }
}

fn next_apply(
    client: &TimewebClient,
    operations: Vec<Operation>,
    failure: Option<ProviderError>,
) -> (r: ApplyStep)
    ensures
        r@ == apply_next(client@, operation_models(operations@), opt_failure(failure)),
{
    if operations.len() == 0 {
        return match failure {
            Some(error) => ApplyStep::Done(Err(error)),
            None => ApplyStep::Done(Ok(())),
        };
    }
    let mut rest = operations;
    let ghost before = operation_models(operations@);
    let first = rest.remove(0);
    assert(operation_models(rest@) =~= before.drop_first());
    match to_request(client, first) {
        Ok(request) => ApplyStep::Send(request, PendingOperations { operations: rest, failure }),
        Err(error) => ApplyStep::Done(Err(ProviderError::Timeweb(error))),
    }
}

impl Provider {
    /// Starts to apply changes.
    pub fn apply_changes(&self, changes: Changes) -> (r: ApplyStep)
        ensures
            r@ == apply_first(changes@),
    {
        match self.validate_changes(&changes) {
            Ok(()) => {},
            Err(error) => return ApplyStep::Done(Err(error)),
        }
        if changes.is_empty() {
            return ApplyStep::Done(Ok(()));
        }
        ApplyStep::Load(PendingChanges { changes })
    }
}

impl PendingChanges {
    /// Takes the loaded records: the plan for them is made and begun.
    pub fn loaded(self, provider: &Provider, state: Result<RemoteState, ProviderError>) -> (r:
        ApplyStep)
        ensures
            match state {
                Ok(state) => r@ == apply_next(
                    provider@.client,
                    outcome(all_steps(self@, state@).steps).0,
                    outcome(all_steps(self@, state@).steps).1,
                ),
                Err(error) => r@ == ApplyModel::Done(Some(error@)),
            },
    {
        match state {
            Ok(state) => {
                let plan = plan_changes(&self.changes, &state);
                next_apply(provider.client(), plan.operations, plan.failure)
            },
            Err(error) => ApplyStep::Done(Err(error)),
        }
    }
}

impl PendingOperations {
    /// Takes what came of the request: the next one follows unless it failed.
    pub fn sent(self, provider: &Provider, reply: Result<(), TimewebError>) -> (r: ApplyStep)
        ensures
            match reply {
                Ok(()) => r@ == apply_next(provider@.client, self@.0, self@.1),
                Err(failure) => r@ == ApplyModel::Done(
                    Some(ProviderErrorModel::Timeweb(failure@)),
                ),
            },
    {
        match reply {
            Ok(()) => next_apply(provider.client(), self.operations, self.failure),
            Err(failure) => ApplyStep::Done(Err(ProviderError::Timeweb(failure))),
        }
    }
}

// ---------------------------------------------------------------------------
// Laws
// ---------------------------------------------------------------------------

/// The step after `n` operations were sent and succeeded.
pub open spec fn apply_after(
    client: ClientModel,
    operations: Seq<OperationModel>,
    failure: Option<ProviderErrorModel>,
    n: nat,
) -> ApplyModel
    decreases n,
{
    if n == 0 {
        apply_next(client, operations, failure)
    } else {
        match apply_after(client, operations, failure, (n - 1) as nat) {
            ApplyModel::Send(_, rest, behind) => apply_next(client, rest, behind),
            ended => ended,
        }
    }
}

/// A plan is sent operation by operation, in order: after `n` of them succeeded
/// the next one is sent, and after all of them the work ends with the plan's own
/// error or without one.
pub proof fn law_plan_is_sent_in_order(
    client: ClientModel,
    operations: Seq<OperationModel>,
    failure: Option<ProviderErrorModel>,
    n: nat,
)
    requires
        n <= operations.len(),
        forall|i: int| 0 <= i < n ==> request_of(client, #[trigger] operations[i]) is Ok,
    ensures
        apply_after(client, operations, failure, n) == apply_next(
            client,
            operations.skip(n as int),
            failure,
        ),
        n == operations.len() ==> apply_after(client, operations, failure, n) == ApplyModel::Done(
            failure,
        ),
    decreases n,
{
    if n == 0 {
        assert(operations.skip(0) =~= operations);
    } else {
        law_plan_is_sent_in_order(client, operations, failure, (n - 1) as nat);
        assert(operations.skip(n - 1)[0] == operations[n - 1]);
        assert(operations.skip(n - 1).drop_first() =~= operations.skip(n as int));
    }
}

/// Selecting managed records list by list comes to what selecting them at once
/// comes to, and those that are selected are the managed ones.
pub proof fn law_managed_records_add_up(
    filter: FilterModel,
    a: Seq<RecordModel>,
    b: Seq<RecordModel>,
    record: RecordModel,
)
    ensures
        managed_records(filter, a + b) == managed_records(filter, a) + managed_records(filter, b),
        managed_records(filter, a).contains(record) <==> a.contains(record) && filter.accepts(
            record.endpoint.dns_name,
        ),
{
    let keep = |r: RecordModel| filter.accepts(r.endpoint.dns_name);
    Seq::filter_distributes_over_add(a, b, keep);
    if a.filter(keep).contains(record) {
        a.lemma_filter_contains_rev(keep, record);
        let i = choose|i: int| 0 <= i < a.filter(keep).len() && a.filter(keep)[i] == record;
        a.lemma_filter_pred(keep, i);
    }
    if a.contains(record) && filter.accepts(record.endpoint.dns_name) {
        let i = choose|i: int| 0 <= i < a.len() && a[i] == record;
        a.lemma_filter_contains(keep, i);
    }
}

/// Every request carries the token of the client. New records are posted and
/// changed ones patched, each with what is written; a deletion and a listing send
/// nothing along.
pub proof fn law_requests_carry_the_token(
    client: ClientModel,
    operation: OperationModel,
    zone: Seq<char>,
    offset: u64,
)
    ensures
        request_of(client, operation) matches Ok(request) ==> {
            &&& request.token == client.token
            &&& match operation {
                OperationModel::Create { change, .. } => request.method == Method::Post
                    && request.body == Some(change),
                OperationModel::Update { change, .. } => request.method == Method::Patch
                    && request.body == Some(change),
                OperationModel::Delete { .. } => request.method == Method::Delete && request.body
                    is None,
            }
        },
        client.domains_request(offset) matches Ok(request) ==> request.token == client.token
            && request.method == Method::Get && request.body is None,
        client.records_request(zone, offset) matches Ok(request) ==> request.token == client.token
            && request.method == Method::Get && request.body is None,
{
}

/// The zones that are loaded are those of the account that a managed name may lie in,
/// all of them and in order.
pub proof fn law_managed_zones_are_loaded(
    filter: FilterModel,
    a: Seq<Seq<char>>,
    b: Seq<Seq<char>>,
    zone: Seq<char>,
)
    ensures
        managed_zones(filter, a + b) == managed_zones(filter, a) + managed_zones(filter, b),
        managed_zones(filter, a).contains(zone) <==> a.contains(zone) && filter.may_lie_in(zone),
        managed_zones(filter, seq![zone]) == if filter.may_lie_in(zone) {
            seq![zone]
        } else {
            Seq::empty()
        },
{
    let keep = |d: Seq<char>| filter.may_lie_in(d);
    Seq::filter_distributes_over_add(a, b, keep);
    if a.filter(keep).contains(zone) {
        a.lemma_filter_contains_rev(keep, zone);
        let i = choose|i: int| 0 <= i < a.filter(keep).len() && a.filter(keep)[i] == zone;
        a.lemma_filter_pred(keep, i);
    }
    if a.contains(zone) && filter.may_lie_in(zone) {
        let i = choose|i: int| 0 <= i < a.len() && a[i] == zone;
        a.lemma_filter_contains(keep, i);
    }
    reveal(Seq::filter);
    assert(seq![zone].drop_last() =~= Seq::empty());
    assert(seq![zone].drop_last().filter(keep) =~= Seq::empty());
    assert(Seq::<Seq<char>>::empty().push(zone) =~= seq![zone]);
}

/// A record is among the managed ones on its own if its name is managed.
pub proof fn law_managed_records_are_kept(filter: FilterModel, record: RecordModel)
    ensures
        managed_records(filter, seq![record]) == if filter.accepts(record.endpoint.dns_name) {
            seq![record]
        } else {
            Seq::empty()
        },
{
    let keep = |r: RecordModel| filter.accepts(r.endpoint.dns_name);
    reveal(Seq::filter);
    assert(seq![record].drop_last() =~= Seq::empty());
    assert(seq![record].drop_last().filter(keep) =~= Seq::empty());
    assert(Seq::<RecordModel>::empty().push(record) =~= seq![record]);
}

/// The step after the records of the first `n` zones were listed.
pub open spec fn load_after(
    zones: Seq<Seq<char>>,
    filter: FilterModel,
    lists: Seq<Seq<RecordModel>>,
    n: nat,
) -> LoadModel
    decreases n,
{
    if n == 0 {
        load_next(zones, 0, Seq::empty())
    } else {
        match load_after(zones, filter, lists, (n - 1) as nat) {
            LoadModel::ListRecords(loading) => load_further(loading, filter, lists[n - 1]),
            ended => ended,
        }
    }
}

/// The managed records of several lists, one after the other.
pub open spec fn all_managed(filter: FilterModel, lists: Seq<Seq<RecordModel>>, n: nat) -> Seq<
    RecordModel,
>
    decreases n,
{
    if n == 0 {
        Seq::empty()
    } else {
        all_managed(filter, lists, (n - 1) as nat) + managed_records(filter, lists[n - 1])
    }
}

/// The zones are listed one after the other, each of them, and what was loaded in the
/// end is all of the zones and the managed records of all of them.
pub proof fn law_every_zone_is_loaded(
    zones: Seq<Seq<char>>,
    filter: FilterModel,
    lists: Seq<Seq<RecordModel>>,
    n: nat,
)
    requires
        n <= zones.len(),
        lists.len() == zones.len(),
    ensures
        n < zones.len() ==> (load_after(zones, filter, lists, n) matches LoadModel::ListRecords(
            loading,
        ) && loading.zones == zones && loading.next == n && loading.records == all_managed(
            filter,
            lists,
            n,
        )),
        n == zones.len() ==> (load_after(zones, filter, lists, n) matches LoadModel::Loaded(state)
            && state.zones == zones && state.records == all_managed(filter, lists, n)),
    decreases n,
{
    if n > 0 {
        law_every_zone_is_loaded(zones, filter, lists, (n - 1) as nat);
    }
}

/// Changes that something is wrong with are refused before anything is loaded, and
/// nothing is loaded where there is nothing to do; else the records are loaded for the
/// whole set of changes.
pub proof fn law_changes_begin_with_a_check(changes: ChangesModel)
    ensures
        changes_error(changes) matches Some(error) ==> apply_first(changes) == ApplyModel::Done(
            Some(error),
        ),
        changes_error(changes) is None && changes.create.len() == 0 && changes.update_old.len() == 0
            && changes.update_new.len() == 0 && changes.delete.len() == 0 ==> apply_first(changes)
            == ApplyModel::Done(None),
        changes_error(changes) is None && (changes.create.len() > 0 || changes.update_old.len() > 0
            || changes.update_new.len() > 0 || changes.delete.len() > 0) ==> apply_first(changes)
            == ApplyModel::Load(changes),
{
}

/// The next operation is sent as the request that stands for it, the others stay for
/// later, and a request that cannot be made ends the work with an error.
pub proof fn law_one_operation_is_sent_at_a_time(
    client: ClientModel,
    operation: OperationModel,
    rest: Seq<OperationModel>,
    failure: Option<ProviderErrorModel>,
)
    ensures
        request_of(client, operation) matches Ok(request) ==> apply_next(
            client,
            seq![operation] + rest,
            failure,
        ) == ApplyModel::Send(request, rest, failure),
        request_of(client, operation) matches Err(error) ==> apply_next(
            client,
            seq![operation] + rest,
            failure,
        ) == ApplyModel::Done(Some(ProviderErrorModel::Timeweb(error))),
        apply_next(client, Seq::empty(), failure) == ApplyModel::Done(failure),
        operation matches OperationModel::Create { zone, change } ==> request_of(client, operation)
            == client.create_request(zone, change),
        operation matches OperationModel::Update { zone, id, change } ==> request_of(
            client,
            operation,
        ) == client.update_request(zone, id, change),
        operation matches OperationModel::Delete { zone, id } ==> request_of(client, operation)
            == client.delete_request(zone, id),
{
    let operations = seq![operation] + rest;
    assert(operations[0] == operation);
    assert(operations.drop_first() =~= rest);
}

} // verus!
