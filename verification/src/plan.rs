//! The plan: the operations that a set of changes takes, in order.
use crate::model::{Changes, ChangesModel, Endpoint, EndpointModel};
use crate::provider::{ProviderError, ProviderErrorModel};
use crate::targets::{
    best_zone, canonical, canonical_target, change_from_endpoint, change_of, find_zone, invalid,
    same_identity, same_record_identity, subdomain_in, ttl_changed, wants_other_ttl,
    written_subdomain,
};
use crate::text::{copy_texts, join, lemma_texts_push, list_has, same_text, texts};
use crate::timeweb::{record_models, ChangeModel, DnsRecordChange, RecordModel, RemoteRecord};
use std::collections::HashSet;
use vstd::prelude::*;
use vstd::std_specs::hash::*;
use vstd::string::*;

verus! {

broadcast use vstd::std_specs::hash::group_hash_axioms;

// ---------------------------------------------------------------------------
// State and operations
// ---------------------------------------------------------------------------

/// The zones and the records that the API lists, as far as they are managed.
pub struct RemoteState {
    pub zones: Vec<String>,
    pub records: Vec<RemoteRecord>,
}

/// A state by the texts and records it holds.
pub struct StateModel {
    pub zones: Seq<Seq<char>>,
    pub records: Seq<RecordModel>,
}

impl View for RemoteState {
    type V = StateModel;

    open spec fn view(&self) -> StateModel {
        StateModel { zones: texts(self.zones@), records: record_models(self.records@) }
    }
}

/// One call of the API that changes a record.
#[derive(Debug)]
pub enum Operation {
    Create { zone: String, change: DnsRecordChange },
    Update { zone: String, id: u64, change: DnsRecordChange },
    Delete { zone: String, id: u64 },
}

/// An operation by the texts and numbers it holds.
pub enum OperationModel {
    Create { zone: Seq<char>, change: ChangeModel },
    Update { zone: Seq<char>, id: u64, change: ChangeModel },
    Delete { zone: Seq<char>, id: u64 },
}

impl View for Operation {
    type V = OperationModel;

    open spec fn view(&self) -> OperationModel {
        match self {
            Operation::Create { zone, change } => OperationModel::Create {
                zone: zone@,
                change: change@,
            },
            Operation::Update { zone, id, change } => OperationModel::Update {
                zone: zone@,
                id: *id,
                change: change@,
            },
            Operation::Delete { zone, id } => OperationModel::Delete { zone: zone@, id: *id },
        }
    }
}

/// A list of operations by their models.
pub open spec fn operation_models(list: Seq<Operation>) -> Seq<OperationModel> {
    list.map_values(|o: Operation| o@)
}

// ---------------------------------------------------------------------------
// Steps
// ---------------------------------------------------------------------------

/// One step towards a set of changes: an operation, or the error that ends the
/// work.
pub type Step = Result<OperationModel, ProviderErrorModel>;

/// What a list of steps comes to: the operations before the first error, and
/// that error if there is one.
pub open spec fn outcome(steps: Seq<Step>) -> (Seq<OperationModel>, Option<ProviderErrorModel>)
    decreases steps.len(),
{
    if steps.len() == 0 {
        (Seq::empty(), None)
    } else {
        let (operations, failure) = outcome(steps.drop_last());
        if failure is Some {
            (operations, failure)
        } else {
            match steps.last() {
                Ok(operation) => (operations.push(operation), None),
                Err(error) => (operations, Some(error)),
            }
        }
    }
}

/// The steps so far, and the numbers of the records that they delete.
pub struct Progress {
    pub steps: Seq<Step>,
    pub deleted: Set<u64>,
}

impl Progress {
    /// Nothing done yet.
    pub open spec fn start() -> Progress {
        Progress { steps: Seq::empty(), deleted: Set::empty() }
    }

    /// One more step.
    pub open spec fn with_step(self, step: Step) -> Progress {
        Progress { steps: self.steps.push(step), ..self }
    }

    /// More steps.
    pub open spec fn with_steps(self, steps: Seq<Step>) -> Progress {
        Progress { steps: self.steps + steps, ..self }
    }

    /// The deletion of a record, unless it is deleted already.
    pub open spec fn with_deletion(self, record: RecordModel) -> Progress {
        if self.deleted.contains(record.id) {
            self
        } else {
            Progress {
                steps: self.steps.push(
                    Ok(OperationModel::Delete { zone: record.zone, id: record.id }),
                ),
                deleted: self.deleted.insert(record.id),
            }
        }
    }
}

/// What is said of a name that lies in no zone.
pub open spec fn no_zone(dns_name: Seq<char>) -> ProviderErrorModel {
    ProviderErrorModel::InvalidEndpoint("no Timeweb Cloud domain contains "@ + dns_name)
}

/// The creation of one target in `zone`.
pub open spec fn create_step(endpoint: EndpointModel, target: Seq<char>, zone: Seq<char>) -> Step {
    match change_of(endpoint, target, zone) {
        Ok(change) => Ok(OperationModel::Create { zone, change }),
        Err(message) => Err(ProviderErrorModel::InvalidEndpoint(message)),
    }
}

/// The change of a record into one target of an endpoint that lies in `zone`. The
/// record stays in the zone it is listed in, and is named there.
pub open spec fn update_step(
    record: RecordModel,
    endpoint: EndpointModel,
    target: Seq<char>,
    zone: Seq<char>,
) -> Step {
    match change_of(endpoint, target, zone) {
        Ok(change) => Ok(
            OperationModel::Update {
                zone: record.zone,
                id: record.id,
                change: ChangeModel {
                    subdomain: written_subdomain(endpoint.dns_name, record.zone),
                    ..change
                },
            },
        ),
        Err(message) => Err(ProviderErrorModel::InvalidEndpoint(message)),
    }
}

/// The creation of some targets of an endpoint in `zone`, in order.
pub open spec fn create_steps(
    endpoint: EndpointModel,
    targets: Seq<Seq<char>>,
    zone: Seq<char>,
) -> Seq<Step> {
    Seq::new(targets.len(), |i: int| create_step(endpoint, targets[i], zone))
}

/// The steps that create an endpoint.
pub open spec fn creation(p: Progress, endpoint: EndpointModel, state: StateModel) -> Progress {
    match best_zone(state.zones, endpoint.dns_name) {
        None => p.with_step(Err(no_zone(endpoint.dns_name))),
        Some(zone) => p.with_steps(create_steps(endpoint, endpoint.targets, zone)),
    }
}

/// The canonical forms of the targets of an endpoint.
pub open spec fn canonical_targets(endpoint: EndpointModel) -> Seq<Seq<char>> {
    Seq::new(
        endpoint.targets.len(),
        |i: int| canonical(endpoint.record_type, endpoint.targets[i]),
    )
}

/// The deletion of an endpoint covers a record: they have one identity, and the
/// endpoint names no target or the record's.
pub open spec fn covered_by_deletion(endpoint: EndpointModel, record: RecordModel) -> bool {
    &&& same_identity(record.endpoint, endpoint)
    &&& endpoint.targets.len() == 0 || (record.endpoint.targets.len() > 0 && canonical_targets(
        endpoint,
    ).contains(canonical(endpoint.record_type, record.endpoint.targets[0])))
}

/// The steps that delete an endpoint: its records, in the order of the list.
pub open spec fn deletion(
    p: Progress,
    endpoint: EndpointModel,
    records: Seq<RecordModel>,
) -> Progress
    decreases records.len(),
{
    if records.len() == 0 {
        p
    } else {
        let before = deletion(p, endpoint, records.drop_last());
        if covered_by_deletion(endpoint, records.last()) {
            before.with_deletion(records.last())
        } else {
            before
        }
    }
}

/// A record may stand for one target of the endpoint that is updated: it is not
/// taken for an earlier target, it is not deleted, and it has that target.
pub open spec fn is_candidate(
    endpoint: EndpointModel,
    target: Seq<char>,
    record: RecordModel,
    used: Set<u64>,
    deleted: Set<u64>,
) -> bool {
    &&& !used.contains(record.id)
    &&& !deleted.contains(record.id)
    &&& same_identity(record.endpoint, endpoint)
    &&& record.endpoint.targets.len() > 0
    &&& canonical(endpoint.record_type, record.endpoint.targets[0]) == canonical(
        endpoint.record_type,
        target,
    )
}

/// The place of the first record, at or behind `from`, that may stand for the
/// target.
pub open spec fn first_candidate(
    endpoint: EndpointModel,
    target: Seq<char>,
    records: Seq<RecordModel>,
    used: Set<u64>,
    deleted: Set<u64>,
    from: int,
) -> Option<int>
    decreases records.len() - from,
{
    if from < 0 || from >= records.len() {
        None
    } else if is_candidate(endpoint, target, records[from], used, deleted) {
        Some(from)
    } else {
        first_candidate(endpoint, target, records, used, deleted, from + 1)
    }
}

/// The numbers of the records at some places.
pub open spec fn ids_at(records: Seq<RecordModel>, places: Seq<int>) -> Set<u64>
    decreases places.len(),
{
    if places.len() == 0 {
        Set::empty()
    } else {
        ids_at(records, places.drop_last()).insert(records[places.last()].id)
    }
}

/// The places of the records that stand for the first `n` targets of an
/// endpoint, or the first target that no record stands for.
pub open spec fn find_records(
    endpoint: EndpointModel,
    n: int,
    records: Seq<RecordModel>,
    deleted: Set<u64>,
) -> Result<Seq<int>, Seq<char>>
    decreases n,
{
    if n <= 0 {
        Ok(Seq::empty())
    } else {
        match find_records(endpoint, n - 1, records, deleted) {
            Err(target) => Err(target),
            Ok(places) => match first_candidate(
                endpoint,
                endpoint.targets[n - 1],
                records,
                ids_at(records, places),
                deleted,
                0,
            ) {
                Some(place) => Ok(places.push(place)),
                None => Err(endpoint.targets[n - 1]),
            },
        }
    }
}

/// The place of the first target, at or behind `from`, with a canonical form.
pub open spec fn first_target(
    record_type: Seq<char>,
    targets: Seq<Seq<char>>,
    key: Seq<char>,
    from: int,
) -> Option<int>
    decreases targets.len() - from,
{
    if from < 0 || from >= targets.len() {
        None
    } else if canonical(record_type, targets[from]) == key {
        Some(from)
    } else {
        first_target(record_type, targets, key, from + 1)
    }
}

/// How the records of an update are used: those that keep their target, with the
/// target as the new endpoint writes it; those whose target goes; and the new
/// targets that no record has.
pub struct Pairing {
    pub kept: Seq<(int, Seq<char>)>,
    pub changed: Seq<int>,
    pub fresh: Seq<Seq<char>>,
}

/// The pairing of the first `n` found records with the targets of the new
/// endpoint.
pub open spec fn pairing(
    current: EndpointModel,
    desired: EndpointModel,
    records: Seq<RecordModel>,
    places: Seq<int>,
    n: int,
) -> Pairing
    decreases n,
{
    if n <= 0 {
        Pairing { kept: Seq::empty(), changed: Seq::empty(), fresh: desired.targets }
    } else {
        let before = pairing(current, desired, records, places, n - 1);
        let place = places[n - 1];
        let key = canonical(current.record_type, records[place].endpoint.targets[0]);
        match first_target(desired.record_type, before.fresh, key, 0) {
            Some(i) => Pairing {
                kept: before.kept.push((place, before.fresh[i])),
                fresh: before.fresh.remove(i),
                ..before
            },
            None => Pairing { changed: before.changed.push(place), ..before },
        }
    }
}

/// The steps for records that keep their target: only another TTL is written.
pub open spec fn kept_steps(
    kept: Seq<(int, Seq<char>)>,
    desired: EndpointModel,
    zone: Seq<char>,
    records: Seq<RecordModel>,
) -> Seq<Step>
    decreases kept.len(),
{
    if kept.len() == 0 {
        Seq::empty()
    } else {
        let before = kept_steps(kept.drop_last(), desired, zone, records);
        let (place, target) = kept.last();
        if wants_other_ttl(records[place].endpoint, desired) {
            before.push(update_step(records[place], desired, target, zone))
        } else {
            before
        }
    }
}

/// The steps that give new targets to records whose target goes, one by one.
pub open spec fn changed_steps(
    pairs: Pairing,
    n: nat,
    desired: EndpointModel,
    zone: Seq<char>,
    records: Seq<RecordModel>,
) -> Seq<Step> {
    Seq::new(
        n,
        |i: int| update_step(records[pairs.changed[i]], desired, pairs.fresh[i], zone),
    )
}

/// The deletion of the records at some places.
pub open spec fn deletions_at(p: Progress, records: Seq<RecordModel>, places: Seq<int>) -> Progress
    decreases places.len(),
{
    if places.len() == 0 {
        p
    } else {
        deletions_at(p, records, places.drop_last()).with_deletion(records[places.last()])
    }
}

/// The smaller of two lengths.
pub open spec fn shorter(a: nat, b: nat) -> nat {
    if a <= b {
        a
    } else {
        b
    }
}

/// The steps for a pairing: first the TTLs of what stays, then the changes of
/// what goes into what comes, then what else comes, then what else goes.
pub open spec fn paired_steps(
    p: Progress,
    pairs: Pairing,
    desired: EndpointModel,
    zone: Seq<char>,
    records: Seq<RecordModel>,
) -> Progress {
    let n = shorter(pairs.changed.len(), pairs.fresh.len());
    let written = p.with_steps(kept_steps(pairs.kept, desired, zone, records)).with_steps(
        changed_steps(pairs, n, desired, zone, records),
    ).with_steps(create_steps(desired, pairs.fresh.skip(n as int), zone));
    deletions_at(written, records, pairs.changed.skip(n as int))
}

/// The steps that update an endpoint.
pub open spec fn replacement(
    p: Progress,
    current: EndpointModel,
    desired: EndpointModel,
    state: StateModel,
) -> Progress {
    if !same_identity(current, desired) {
        p.with_step(
            Err(
                ProviderErrorModel::InvalidEndpoint(
                    "updateOld and updateNew must have the same DNS name, type and set identifier"@,
                ),
            ),
        )
    } else {
        match best_zone(state.zones, current.dns_name) {
            None => p.with_step(Err(no_zone(current.dns_name))),
            Some(zone) => match find_records(
                current,
                current.targets.len() as int,
                state.records,
                p.deleted,
            ) {
                Err(target) => p.with_step(
                    Err(
                        ProviderErrorModel::StateMismatch {
                            dns_name: current.dns_name,
                            record_type: current.record_type,
                            target,
                        },
                    ),
                ),
                Ok(places) => paired_steps(
                    p,
                    pairing(current, desired, state.records, places, places.len() as int),
                    desired,
                    zone,
                    state.records,
                ),
            },
        }
    }
}

/// The steps that delete a list of endpoints, in order.
pub open spec fn all_deletions(
    p: Progress,
    list: Seq<EndpointModel>,
    records: Seq<RecordModel>,
) -> Progress
    decreases list.len(),
{
    if list.len() == 0 {
        p
    } else {
        deletion(all_deletions(p, list.drop_last(), records), list.last(), records)
    }
}

/// The steps of the first `n` updates, in order.
pub open spec fn all_replacements(
    p: Progress,
    current: Seq<EndpointModel>,
    desired: Seq<EndpointModel>,
    n: int,
    state: StateModel,
) -> Progress
    decreases n,
{
    if n <= 0 {
        p
    } else {
        replacement(
            all_replacements(p, current, desired, n - 1, state),
            current[n - 1],
            desired[n - 1],
            state,
        )
    }
}

/// The steps that create a list of endpoints, in order.
pub open spec fn all_creations(
    p: Progress,
    list: Seq<EndpointModel>,
    state: StateModel,
) -> Progress
    decreases list.len(),
{
    if list.len() == 0 {
        p
    } else {
        creation(all_creations(p, list.drop_last(), state), list.last(), state)
    }
}

/// The steps of a set of changes: the deletions, then the updates, then the
/// creations.
pub open spec fn all_steps(changes: ChangesModel, state: StateModel) -> Progress {
    let n = shorter(changes.update_old.len(), changes.update_new.len());
    all_creations(
        all_replacements(
            all_deletions(Progress::start(), changes.delete, state.records),
            changes.update_old,
            changes.update_new,
            n as int,
            state,
        ),
        changes.create,
        state,
    )
}

// ---------------------------------------------------------------------------
// Steps only add up
// ---------------------------------------------------------------------------

/// The operations as steps without an error.
pub open spec fn all_ok(operations: Seq<OperationModel>) -> Seq<Step> {
    operations.map_values(|o: OperationModel| Ok::<OperationModel, ProviderErrorModel>(o))
}

/// Steps without an error come to their operations.
pub proof fn lemma_outcome_all_ok(operations: Seq<OperationModel>)
    ensures
        outcome(all_ok(operations)) == (operations, None::<ProviderErrorModel>),
    decreases operations.len(),
{
    if operations.len() == 0 {
        assert(operations =~= Seq::empty());
    } else {
        lemma_outcome_all_ok(operations.drop_last());
        assert(all_ok(operations).drop_last() =~= all_ok(operations.drop_last()));
        assert(operations =~= operations.drop_last().push(operations.last()));
    }
}

/// What follows the first error changes nothing.
pub proof fn lemma_outcome_stays(first: Seq<Step>, whole: Seq<Step>)
    requires
        first.is_prefix_of(whole),
        outcome(first).1 is Some,
    ensures
        outcome(whole) == outcome(first),
    decreases whole.len(),
{
    if first.len() == whole.len() {
        assert(first =~= whole);
    } else {
        assert(first =~= whole.drop_last().subrange(0, first.len() as int));
        lemma_outcome_stays(first, whole.drop_last());
    }
}

/// Operations and then an error come to those operations and that error.
proof fn lemma_outcome_error(
    operations: Seq<OperationModel>,
    error: ProviderErrorModel,
    whole: Seq<Step>,
)
    requires
        all_ok(operations).push(Err(error)).is_prefix_of(whole),
    ensures
        outcome(whole) == (operations, Some(error)),
{
    let first = all_ok(operations).push(Err(error));
    lemma_outcome_all_ok(operations);
    assert(first.drop_last() =~= all_ok(operations));
    lemma_outcome_stays(first, whole);
}

/// Being a beginning is transitive.
proof fn lemma_prefix_transitive(a: Seq<Step>, b: Seq<Step>, c: Seq<Step>)
    requires
        a.is_prefix_of(b),
        b.is_prefix_of(c),
    ensures
        a.is_prefix_of(c),
{
    assert forall|i: int| 0 <= i < a.len() implies a[i] == c[i] by {
        assert(a[i] == b.subrange(0, a.len() as int)[i]);
        assert(b[i] == c.subrange(0, b.len() as int)[i]);
    }
    assert(a =~= c.subrange(0, a.len() as int));
}

pub proof fn lemma_deletions_at_extend(p: Progress, records: Seq<RecordModel>, places: Seq<int>)
    ensures
        p.steps.is_prefix_of(deletions_at(p, records, places).steps),
    decreases places.len(),
{
    if places.len() > 0 {
        lemma_deletions_at_extend(p, records, places.drop_last());
        let before = deletions_at(p, records, places.drop_last());
        let after = deletions_at(p, records, places);
        assert(before.steps.is_prefix_of(after.steps)) by {
            assert(before.steps =~= after.steps.subrange(0, before.steps.len() as int));
        }
        lemma_prefix_transitive(p.steps, before.steps, after.steps);
    } else {
        assert(p.steps =~= p.steps.subrange(0, p.steps.len() as int));
    }
}

pub proof fn lemma_creation_extends(p: Progress, endpoint: EndpointModel, state: StateModel)
    ensures
        p.steps.is_prefix_of(creation(p, endpoint, state).steps),
{
    let after = creation(p, endpoint, state);
    assert(p.steps =~= after.steps.subrange(0, p.steps.len() as int));
}

pub proof fn lemma_replacement_extends(
    p: Progress,
    current: EndpointModel,
    desired: EndpointModel,
    state: StateModel,
)
    ensures
        p.steps.is_prefix_of(replacement(p, current, desired, state).steps),
{
    let after = replacement(p, current, desired, state);
    let found = find_records(current, current.targets.len() as int, state.records, p.deleted);
    let zone = best_zone(state.zones, current.dns_name);
    if same_identity(current, desired) && zone is Some && found is Ok {
        let places = found->Ok_0;
        let pairs = pairing(current, desired, state.records, places, places.len() as int);
        let n = shorter(pairs.changed.len(), pairs.fresh.len());
        let written = p.with_steps(kept_steps(pairs.kept, desired, zone->0, state.records)).with_steps(
            changed_steps(pairs, n, desired, zone->0, state.records),
        ).with_steps(create_steps(desired, pairs.fresh.skip(n as int), zone->0));
        lemma_deletions_at_extend(written, state.records, pairs.changed.skip(n as int));
        assert(p.steps =~= written.steps.subrange(0, p.steps.len() as int));
        lemma_prefix_transitive(p.steps, written.steps, after.steps);
    } else {
        assert(p.steps =~= after.steps.subrange(0, p.steps.len() as int));
    }
}

proof fn lemma_all_creations_extend(p: Progress, list: Seq<EndpointModel>, n: int, state: StateModel)
    requires
        0 <= n <= list.len(),
    ensures
        all_creations(p, list.take(n), state).steps.is_prefix_of(
            all_creations(p, list, state).steps,
        ),
    decreases list.len(),
{
    if n == list.len() {
        assert(list.take(n) =~= list);
        let steps = all_creations(p, list, state).steps;
        assert(steps =~= steps.subrange(0, steps.len() as int));
    } else {
        lemma_all_creations_extend(p, list.drop_last(), n, state);
        assert(list.drop_last().take(n) =~= list.take(n));
        let before = all_creations(p, list.drop_last(), state);
        lemma_creation_extends(before, list.last(), state);
        lemma_prefix_transitive(
            all_creations(p, list.take(n), state).steps,
            before.steps,
            all_creations(p, list, state).steps,
        );
    }
}

proof fn lemma_all_replacements_extend(
    p: Progress,
    current: Seq<EndpointModel>,
    desired: Seq<EndpointModel>,
    n: int,
    m: int,
    state: StateModel,
)
    requires
        0 <= n <= m,
    ensures
        all_replacements(p, current, desired, n, state).steps.is_prefix_of(
            all_replacements(p, current, desired, m, state).steps,
        ),
    decreases m,
{
    if n == m {
        let steps = all_replacements(p, current, desired, n, state).steps;
        assert(steps =~= steps.subrange(0, steps.len() as int));
    } else {
        lemma_all_replacements_extend(p, current, desired, n, m - 1, state);
        let before = all_replacements(p, current, desired, m - 1, state);
        lemma_replacement_extends(before, current[m - 1], desired[m - 1], state);
        lemma_prefix_transitive(
            all_replacements(p, current, desired, n, state).steps,
            before.steps,
            all_replacements(p, current, desired, m, state).steps,
        );
    }
}

// ---------------------------------------------------------------------------
// Making the plan
// ---------------------------------------------------------------------------

/// The operations so far, and the numbers of the records that they delete.
struct Planner {
    operations: Vec<Operation>,
    deleted: HashSet<u64>,
}

impl Planner {
    spec fn progress(self) -> Progress {
        Progress { steps: all_ok(operation_models(self.operations@)), deleted: self.deleted@ }
    }

    /// The work got as far as `p` without an error, or up to its first error.
    spec fn reached(self, r: Result<(), ProviderError>, p: Progress) -> bool {
        match r {
            Ok(()) => self.progress() == p,
            Err(error) => outcome(p.steps) == (operation_models(self.operations@), Some(error@)),
        }
    }

    fn push(&mut self, operation: Operation)
        ensures
            final(self).progress() == old(self).progress().with_step(Ok(operation@)),
    {
        let ghost before = self.progress();
        self.operations.push(operation);
        assert(self.progress().steps =~= before.steps.push(Ok(operation@)));
    }

    fn push_create(&mut self, endpoint: &Endpoint, target: &str, zone: &str) -> (r: Result<
        (),
        ProviderError,
    >)
        ensures
            match r {
                Ok(()) => final(self).progress() == old(self).progress().with_step(
                    create_step(endpoint@, target@, zone@),
                ),
                Err(error) => *final(self) == *old(self) && create_step(endpoint@, target@, zone@)
                    == Err::<OperationModel, _>(error@),
            },
    {
        match change_from_endpoint(endpoint, target, zone) {
            Ok(change) => {
                self.push(Operation::Create { zone: zone.to_owned(), change });
                Ok(())
            },
            Err(error) => Err(error),
        }
    }

    fn push_update(
        &mut self,
        record: &RemoteRecord,
        endpoint: &Endpoint,
        target: &str,
        zone: &str,
    ) -> (r: Result<(), ProviderError>)
        ensures
            match r {
                Ok(()) => final(self).progress() == old(self).progress().with_step(
                    update_step(record@, endpoint@, target@, zone@),
                ),
                Err(error) => *final(self) == *old(self) && update_step(
                    record@,
                    endpoint@,
                    target@,
                    zone@,
                ) == Err::<OperationModel, _>(error@),
            },
    {
        match change_from_endpoint(endpoint, target, zone) {
            Ok(change) => {
                let change = DnsRecordChange {
                    subdomain: subdomain_in(endpoint.dns_name.as_str(), record.zone.as_str()),
                    ..change
                };
                self.push(Operation::Update { zone: record.zone.clone(), id: record.id, change });
                Ok(())
            },
            Err(error) => Err(error),
        }
    }

    fn push_delete(&mut self, record: &RemoteRecord)
        ensures
            final(self).progress() == old(self).progress().with_deletion(record@),
    {
        if !self.deleted.contains(&record.id) {
            self.deleted.insert(record.id);
            self.push(Operation::Delete { zone: record.zone.clone(), id: record.id });
        }
    }

    /// The creation of the targets at and behind `from`.
    fn create_targets(
        &mut self,
        endpoint: &Endpoint,
        targets: &Vec<String>,
        from: usize,
        zone: &str,
    ) -> (r: Result<(), ProviderError>)
        requires
            from <= targets@.len(),
        ensures
            final(self).reached(
                r,
                old(self).progress().with_steps(
                    create_steps(endpoint@, texts(targets@).skip(from as int), zone@),
                ),
            ),
    {
        let ghost start = self.progress();
        let ghost rest = texts(targets@).skip(from as int);
        let ghost steps = create_steps(endpoint@, rest, zone@);
        let ghost whole = start.with_steps(steps);
        let mut i: usize = from;
        assert(start.steps + steps.take(0) =~= start.steps);
        while i < targets.len()
            invariant
                from <= i <= targets.len(),
                start == old(self).progress(),
                rest == texts(targets@).skip(from as int),
                steps == create_steps(endpoint@, rest, zone@),
                whole == start.with_steps(steps),
                self.progress() == start.with_steps(steps.take(i - from)),
            decreases targets.len() - i,
        {
            let ghost here = self.progress();
            assert(rest[i - from] == targets@[i as int]@);
            match self.push_create(endpoint, targets[i].as_str(), zone) {
                Ok(()) => {
                    assert(self.progress().steps =~= start.steps + steps.take(i + 1 - from));
                },
                Err(error) => {
                    proof {
                        let first = here.steps.push(Err(error@));
                        assert(first =~= whole.steps.subrange(0, first.len() as int));
                        lemma_outcome_error(
                            operation_models(self.operations@),
                            error@,
                            whole.steps,
                        );
                    }
                    return Err(error);
                },
            }
            i += 1;
        }
        assert(steps.take(steps.len() as int) =~= steps);
        Ok(())
    }

    /// The steps that create an endpoint.
    fn create(&mut self, endpoint: &Endpoint, state: &RemoteState) -> (r: Result<
        (),
        ProviderError,
    >)
        ensures
            final(self).reached(r, creation(old(self).progress(), endpoint@, state@)),
    {
        match find_zone(&state.zones, endpoint.dns_name.as_str()) {
            Some(zone) => {
                assert(texts(endpoint.targets@).skip(0) =~= endpoint@.targets);
                self.create_targets(endpoint, &endpoint.targets, 0, zone)
            },
            None => {
                let error = self.no_zone_error(endpoint.dns_name.as_str());
                Err(error)
            },
        }
    }

    fn no_zone_error(&self, dns_name: &str) -> (r: ProviderError)
        ensures
            r@ == no_zone(dns_name@),
            self.reached(Err(r), self.progress().with_step(Err(no_zone(dns_name@)))),
    {
        let error = invalid(join("no Timeweb Cloud domain contains ", dns_name));
        proof {
            self.lemma_error_ends(error@);
        }
        error
    }

    /// An error behind the operations so far ends the work with them.
    proof fn lemma_error_ends(self, error: ProviderErrorModel)
        ensures
            outcome(self.progress().with_step(Err(error)).steps) == (
                operation_models(self.operations@),
                Some(error),
            ),
    {
        let steps = self.progress().with_step(Err(error)).steps;
        assert(steps =~= steps.subrange(0, steps.len() as int));
        lemma_outcome_error(operation_models(self.operations@), error, steps);
    }

    /// The steps that delete an endpoint.
    fn delete(&mut self, endpoint: &Endpoint, state: &RemoteState)
        ensures
            final(self).progress() == deletion(
                old(self).progress(),
                endpoint@,
                state@.records,
            ),
    {
        let ghost start = self.progress();
        let ghost records = state@.records;
        let keys = canonical_keys(endpoint);
        let mut i: usize = 0;
        assert(records.take(0) =~= Seq::empty());
        while i < state.records.len()
            invariant
                i <= state.records.len(),
                records == state@.records,
                texts(keys@) == canonical_targets(endpoint@),
                self.progress() == deletion(start, endpoint@, records.take(i as int)),
            decreases state.records.len() - i,
        {
            let record = &state.records[i];
            assert(records[i as int] == record@);
            assert(records.take(i + 1).drop_last() =~= records.take(i as int));
            assert(records.take(i + 1).last() == record@);
            if is_covered(endpoint, &keys, record) {
                self.push_delete(record);
            }
            i += 1;
        }
        assert(records.take(records.len() as int) =~= records);
    }
}

/// The canonical forms of the targets of an endpoint.
fn canonical_keys(endpoint: &Endpoint) -> (r: Vec<String>)
    ensures
        texts(r@) == canonical_targets(endpoint@),
{
    let mut r: Vec<String> = Vec::new();
    let mut i: usize = 0;
    while i < endpoint.targets.len()
        invariant
            i <= endpoint.targets.len(),
            texts(r@) =~= canonical_targets(endpoint@).take(i as int),
        decreases endpoint.targets.len() - i,
    {
        let key = canonical_target(endpoint.record_type.as_str(), endpoint.targets[i].as_str());
        proof {
            assert(endpoint@.targets[i as int] == endpoint.targets@[i as int]@);
            lemma_texts_push(r@, key);
        }
        r.push(key);
        i += 1;
    }
    assert(canonical_targets(endpoint@).take(endpoint@.targets.len() as int) =~= canonical_targets(
        endpoint@,
    ));
    r
}

/// Whether the deletion of an endpoint with the given canonical targets covers a
/// record.
fn is_covered(endpoint: &Endpoint, keys: &Vec<String>, record: &RemoteRecord) -> (r: bool)
    requires
        texts(keys@) == canonical_targets(endpoint@),
    ensures
        r == covered_by_deletion(endpoint@, record@),
{
    assert(texts(keys@).len() == keys@.len());
    if !same_record_identity(&record.endpoint, endpoint) {
        return false;
    }
    if keys.is_empty() {
        return true;
    }
    if record.endpoint.targets.is_empty() {
        return false;
    }
    assert(record@.endpoint.targets[0] == record.endpoint.targets@[0]@);
    let key = canonical_target(
        endpoint.record_type.as_str(),
        record.endpoint.targets[0].as_str(),
    );
    list_has(keys, key.as_str())
}

/// The places and targets of kept records, by their models.
spec fn kept_model(kept: Seq<(usize, String)>) -> Seq<(int, Seq<char>)> {
    kept.map_values(|k: (usize, String)| (k.0 as int, k.1@))
}

/// Places as integers.
spec fn places_model(places: Seq<usize>) -> Seq<int> {
    places.map_values(|p: usize| p as int)
}

/// Every place is one of a record that has a target.
spec fn places_ok(places: Seq<usize>, records: Seq<RecordModel>) -> bool {
    forall|i: int|
        0 <= i < places.len() ==> (#[trigger] places[i]) < records.len()
            && records[places[i] as int].endpoint.targets.len() > 0
}

/// Whether a record may stand for the target with the canonical form `key`.
fn may_stand_for(
    endpoint: &Endpoint,
    key: &str,
    record: &RemoteRecord,
    used: &HashSet<u64>,
    deleted: &HashSet<u64>,
    Ghost(target): Ghost<Seq<char>>,
) -> (r: bool)
    requires
        key@ == canonical(endpoint@.record_type, target),
    ensures
        r == is_candidate(endpoint@, target, record@, used@, deleted@),
{
    if used.contains(&record.id) || deleted.contains(&record.id) || !same_record_identity(
        &record.endpoint,
        endpoint,
    ) || record.endpoint.targets.is_empty() {
        return false;
    }
    assert(record@.endpoint.targets[0] == record.endpoint.targets@[0]@);
    let found = canonical_target(
        endpoint.record_type.as_str(),
        record.endpoint.targets[0].as_str(),
    );
    same_text(found.as_str(), key)
}

/// The places of the records that stand for the targets of an endpoint, or the
/// first target that no record stands for.
fn locate(endpoint: &Endpoint, records: &Vec<RemoteRecord>, deleted: &HashSet<u64>) -> (r: Result<
    Vec<usize>,
    String,
>)
    ensures
        match r {
            Ok(places) => places_ok(places@, record_models(records@)) && find_records(
                endpoint@,
                endpoint@.targets.len() as int,
                record_models(records@),
                deleted@,
            ) == Ok::<_, Seq<char>>(places_model(places@)),
            Err(target) => find_records(
                endpoint@,
                endpoint@.targets.len() as int,
                record_models(records@),
                deleted@,
            ) == Err::<Seq<int>, _>(target@),
        },
{
    let ghost model = record_models(records@);
    let mut places: Vec<usize> = Vec::new();
    let mut used: HashSet<u64> = HashSet::new();
    let mut n: usize = 0;
    assert(places_model(places@) =~= Seq::empty());
    while n < endpoint.targets.len()
        invariant
            n <= endpoint.targets.len(),
            model == record_models(records@),
            places_ok(places@, model),
            used@ == ids_at(model, places_model(places@)),
            find_records(endpoint@, n as int, model, deleted@) == Ok::<_, Seq<char>>(
                places_model(places@),
            ),
        decreases endpoint.targets.len() - n,
    {
        let target = endpoint.targets[n].as_str();
        assert(endpoint@.targets[n as int] == target@);
        let key = canonical_target(endpoint.record_type.as_str(), target);
        let mut at: usize = 0;
        while at < records.len() && !may_stand_for(
            endpoint,
            key.as_str(),
            &records[at],
            &used,
            deleted,
            Ghost(target@),
        )
            invariant
                at <= records.len(),
                model == record_models(records@),
                key@ == canonical(endpoint@.record_type, target@),
                first_candidate(endpoint@, target@, model, used@, deleted@, 0) == first_candidate(
                    endpoint@,
                    target@,
                    model,
                    used@,
                    deleted@,
                    at as int,
                ),
            decreases records.len() - at,
        {
            assert(model[at as int] == records@[at as int]@);
            at += 1;
        }
        if at >= records.len() {
            proof {
                lemma_find_records_stays(
                    endpoint@,
                    n + 1,
                    endpoint@.targets.len() as int,
                    model,
                    deleted@,
                );
            }
            return Err(target.to_owned());
        }
        assert(model[at as int] == records@[at as int]@);
        used.insert(records[at].id);
        let ghost before = places_model(places@);
        places.push(at);
        n += 1;
        assert(places_model(places@) =~= before.push(at as int));
        assert(places_model(places@).drop_last() =~= before);
    }
    Ok(places)
}

/// A target that no record stands for is the first one for all longer lists.
proof fn lemma_find_records_stays(
    endpoint: EndpointModel,
    n: int,
    m: int,
    records: Seq<RecordModel>,
    deleted: Set<u64>,
)
    requires
        n <= m,
        find_records(endpoint, n, records, deleted) is Err,
    ensures
        find_records(endpoint, m, records, deleted) == find_records(endpoint, n, records, deleted),
    decreases m - n,
{
    if n < m {
        lemma_find_records_stays(endpoint, n, m - 1, records, deleted);
        if m <= 0 {
            assert(find_records(endpoint, n, records, deleted) is Ok);
        }
    }
}

/// How the records of an update are used.
struct Pairs {
    kept: Vec<(usize, String)>,
    changed: Vec<usize>,
    fresh: Vec<String>,
}

impl Pairs {
    spec fn model(self) -> Pairing {
        Pairing {
            kept: kept_model(self.kept@),
            changed: places_model(self.changed@),
            fresh: texts(self.fresh@),
        }
    }

    /// Every place is one of a record.
    spec fn in_range(self, n: nat) -> bool {
        &&& forall|i: int| 0 <= i < self.kept@.len() ==> (#[trigger] self.kept@[i]).0 < n
        &&& forall|i: int| 0 <= i < self.changed@.len() ==> (#[trigger] self.changed@[i]) < n
    }
}

/// Pairs the found records with the targets of the new endpoint.
fn pair(current: &Endpoint, desired: &Endpoint, records: &Vec<RemoteRecord>, places: &Vec<usize>) -> (r:
    Pairs)
    requires
        places_ok(places@, record_models(records@)),
    ensures
        r.model() == pairing(
            current@,
            desired@,
            record_models(records@),
            places_model(places@),
            places@.len() as int,
        ),
        r.in_range(records@.len()),
{
    let ghost model = record_models(records@);
    let ghost spots = places_model(places@);
    let mut pairs = Pairs {
        kept: Vec::new(),
        changed: Vec::new(),
        fresh: copy_texts(&desired.targets),
    };
    proof {
        assert(pairs.model().kept =~= Seq::empty());
        assert(pairs.model().changed =~= Seq::empty());
    }
    let mut n: usize = 0;
    while n < places.len()
        invariant
            n <= places.len(),
            model == record_models(records@),
            spots == places_model(places@),
            places_ok(places@, model),
            pairs.in_range(records@.len()),
            pairs.model() == pairing(current@, desired@, model, spots, n as int),
        decreases places.len() - n,
    {
        let ghost before = pairs.model();
        let place = places[n];
        assert(spots[n as int] == place as int);
        assert(model[place as int] == records@[place as int]@);
        assert(model[place as int].endpoint.targets[0]
            == records@[place as int].endpoint.targets@[0]@);
        let key = canonical_target(
            current.record_type.as_str(),
            records[place].endpoint.targets[0].as_str(),
        );
        let mut at: usize = 0;
        while at < pairs.fresh.len() && !same_text(
            canonical_target(desired.record_type.as_str(), pairs.fresh[at].as_str()).as_str(),
            key.as_str(),
        )
            invariant
                at <= pairs.fresh.len(),
                pairs.model() == before,
                first_target(desired@.record_type, before.fresh, key@, 0) == first_target(
                    desired@.record_type,
                    before.fresh,
                    key@,
                    at as int,
                ),
            decreases pairs.fresh.len() - at,
        {
            assert(before.fresh[at as int] == pairs.fresh@[at as int]@);
            at += 1;
        }
        if at < pairs.fresh.len() {
            assert(before.fresh[at as int] == pairs.fresh@[at as int]@);
            let target = pairs.fresh.remove(at);
            pairs.kept.push((place, target));
            proof {
                assert(pairs.model().kept =~= before.kept.push((place as int, target@)));
                assert(pairs.model().fresh =~= before.fresh.remove(at as int));
            }
        } else {
            pairs.changed.push(place);
            assert(pairs.model().changed =~= before.changed.push(place as int));
        }
        n += 1;
    }
    pairs
}

impl Planner {
    /// The steps for records that keep their target.
    fn write_kept(
        &mut self,
        kept: &Vec<(usize, String)>,
        desired: &Endpoint,
        zone: &str,
        records: &Vec<RemoteRecord>,
    ) -> (r: Result<(), ProviderError>)
        requires
            forall|i: int| 0 <= i < kept@.len() ==> (#[trigger] kept@[i]).0 < records@.len(),
        ensures
            final(self).reached(
                r,
                old(self).progress().with_steps(
                    kept_steps(kept_model(kept@), desired@, zone@, record_models(records@)),
                ),
            ),
    {
        let ghost start = self.progress();
        let ghost model = record_models(records@);
        let ghost spots = kept_model(kept@);
        let ghost whole = start.with_steps(kept_steps(spots, desired@, zone@, model));
        let mut i: usize = 0;
        proof {
            assert(spots.take(0) =~= Seq::empty());
            assert(start.steps + kept_steps(spots.take(0), desired@, zone@, model) =~= start.steps);
        }
        while i < kept.len()
            invariant
                i <= kept.len(),
                start == old(self).progress(),
                model == record_models(records@),
                spots == kept_model(kept@),
                whole == start.with_steps(kept_steps(spots, desired@, zone@, model)),
                forall|j: int| 0 <= j < kept@.len() ==> (#[trigger] kept@[j]).0 < records@.len(),
                self.progress() == start.with_steps(
                    kept_steps(spots.take(i as int), desired@, zone@, model),
                ),
            decreases kept.len() - i,
        {
            let ghost here = self.progress();
            let place = kept[i].0;
            let target = kept[i].1.as_str();
            let record = &records[place];
            proof {
                assert(model[place as int] == record@);
                assert(spots[i as int] == (place as int, target@));
                assert(spots.take(i + 1).drop_last() =~= spots.take(i as int));
                assert(spots.take(i + 1).last() == spots[i as int]);
                lemma_kept_steps_extend(spots, i + 1, desired@, zone@, model);
            }
            if ttl_changed(&record.endpoint, desired) {
                match self.push_update(record, desired, target, zone) {
                    Ok(()) => {
                        assert(self.progress().steps =~= start.steps + kept_steps(
                            spots.take(i + 1),
                           desired@, zone@,
                            model,
                        ));
                    },
                    Err(error) => {
                        proof {
                            let first = here.steps.push(Err(error@));
                            assert(first =~= start.steps + kept_steps(
                                spots.take(i + 1),
                               desired@, zone@,
                                model,
                            ));
                            assert(first =~= whole.steps.subrange(0, first.len() as int));
                            lemma_outcome_error(
                                operation_models(self.operations@),
                                error@,
                                whole.steps,
                            );
                        }
                        return Err(error);
                    },
                }
            }
            i += 1;
        }
        assert(spots.take(spots.len() as int) =~= spots);
        Ok(())
    }

    /// The steps that give new targets to records whose target goes.
    fn write_changed(
        &mut self,
        pairs: &Pairs,
        n: usize,
        desired: &Endpoint,
        zone: &str,
        records: &Vec<RemoteRecord>,
    ) -> (r: Result<(), ProviderError>)
        requires
            pairs.in_range(records@.len()),
            n <= pairs.changed@.len(),
            n <= pairs.fresh@.len(),
        ensures
            final(self).reached(
                r,
                old(self).progress().with_steps(
                    changed_steps(pairs.model(), n as nat, desired@, zone@, record_models(records@)),
                ),
            ),
    {
        let ghost start = self.progress();
        let ghost model = record_models(records@);
        let ghost steps = changed_steps(pairs.model(), n as nat, desired@, zone@, model);
        let ghost whole = start.with_steps(steps);
        let mut i: usize = 0;
        assert(start.steps + steps.take(0) =~= start.steps);
        while i < n
            invariant
                i <= n,
                n <= pairs.changed@.len(),
                n <= pairs.fresh@.len(),
                start == old(self).progress(),
                model == record_models(records@),
                pairs.in_range(records@.len()),
                steps == changed_steps(pairs.model(), n as nat, desired@, zone@, model),
                whole == start.with_steps(steps),
                self.progress() == start.with_steps(steps.take(i as int)),
            decreases n - i,
        {
            let ghost here = self.progress();
            let place = pairs.changed[i];
            let record = &records[place];
            let target = pairs.fresh[i].as_str();
            assert(model[place as int] == record@);
            assert(steps[i as int] == update_step(record@, desired@, target@, zone@));
            match self.push_update(record, desired, target, zone) {
                Ok(()) => {
                    assert(self.progress().steps =~= start.steps + steps.take(i + 1));
                },
                Err(error) => {
                    proof {
                        let first = here.steps.push(Err(error@));
                        assert(first =~= whole.steps.subrange(0, first.len() as int));
                        lemma_outcome_error(
                            operation_models(self.operations@),
                            error@,
                            whole.steps,
                        );
                    }
                    return Err(error);
                },
            }
            i += 1;
        }
        assert(steps.take(steps.len() as int) =~= steps);
        Ok(())
    }

    /// The deletion of the records at the places at and behind `from`.
    fn delete_places(&mut self, places: &Vec<usize>, from: usize, records: &Vec<RemoteRecord>)
        requires
            from <= places@.len(),
            forall|i: int| 0 <= i < places@.len() ==> (#[trigger] places@[i]) < records@.len(),
        ensures
            final(self).progress() == deletions_at(
                old(self).progress(),
                record_models(records@),
                places_model(places@).skip(from as int),
            ),
    {
        let ghost start = self.progress();
        let ghost model = record_models(records@);
        let ghost rest = places_model(places@).skip(from as int);
        let mut i: usize = from;
        assert(rest.take(0) =~= Seq::empty());
        while i < places.len()
            invariant
                from <= i <= places.len(),
                model == record_models(records@),
                rest == places_model(places@).skip(from as int),
                forall|j: int| 0 <= j < places@.len() ==> (#[trigger] places@[j]) < records@.len(),
                self.progress() == deletions_at(start, model, rest.take(i - from)),
            decreases places.len() - i,
        {
            let place = places[i];
            let record = &records[place];
            proof {
                assert(model[place as int] == record@);
                assert(rest[i - from] == place as int);
                assert(rest.take(i + 1 - from).drop_last() =~= rest.take(i - from));
                assert(rest.take(i + 1 - from).last() == place as int);
            }
            self.push_delete(record);
            i += 1;
        }
        assert(rest.take(rest.len() as int) =~= rest);
    }

    /// The steps for a pairing.
    fn write_pairs(
        &mut self,
        pairs: &Pairs,
        desired: &Endpoint,
        zone: &str,
        records: &Vec<RemoteRecord>,
    ) -> (r: Result<(), ProviderError>)
        requires
            pairs.in_range(records@.len()),
        ensures
            final(self).reached(
                r,
                paired_steps(
                    old(self).progress(),
                    pairs.model(),
                    desired@,
                    zone@,
                    record_models(records@),
                ),
            ),
    {
        let ghost model = record_models(records@);
        let ghost whole = paired_steps(self.progress(), pairs.model(), desired@, zone@, model);
        let n = if pairs.changed.len() <= pairs.fresh.len() {
            pairs.changed.len()
        } else {
            pairs.fresh.len()
        };
        let ghost after_kept = self.progress().with_steps(
            kept_steps(pairs.model().kept, desired@, zone@, model),
        );
        let ghost after_changed = after_kept.with_steps(
            changed_steps(pairs.model(), n as nat, desired@, zone@, model),
        );
        let ghost after_created = after_changed.with_steps(
            create_steps(desired@, pairs.model().fresh.skip(n as int), zone@),
        );
        proof {
            lemma_deletions_at_extend(after_created, model, pairs.model().changed.skip(n as int));
            assert(after_changed.steps =~= after_created.steps.subrange(
                0,
                after_changed.steps.len() as int,
            ));
            lemma_prefix_transitive(after_changed.steps, after_created.steps, whole.steps);
            assert(after_kept.steps =~= after_changed.steps.subrange(
                0,
                after_kept.steps.len() as int,
            ));
            lemma_prefix_transitive(after_kept.steps, after_changed.steps, whole.steps);
        }
        match self.write_kept(&pairs.kept, desired, zone, records) {
            Ok(()) => {},
            Err(error) => {
                proof {
                    lemma_outcome_stays(after_kept.steps, whole.steps);
                }
                return Err(error);
            },
        }
        match self.write_changed(pairs, n, desired, zone, records) {
            Ok(()) => {},
            Err(error) => {
                proof {
                    lemma_outcome_stays(after_changed.steps, whole.steps);
                }
                return Err(error);
            },
        }
        match self.create_targets(desired, &pairs.fresh, n, zone) {
            Ok(()) => {},
            Err(error) => {
                proof {
                    lemma_outcome_stays(after_created.steps, whole.steps);
                }
                return Err(error);
            },
        }
        self.delete_places(&pairs.changed, n, records);
        Ok(())
    }

    /// The steps that update an endpoint.
    fn replace(&mut self, current: &Endpoint, desired: &Endpoint, state: &RemoteState) -> (r: Result<
        (),
        ProviderError,
    >)
        ensures
            final(self).reached(
                r,
                replacement(old(self).progress(), current@, desired@, state@),
            ),
    {
        if !same_record_identity(current, desired) {
            let error = invalid(
                "updateOld and updateNew must have the same DNS name, type and set identifier".to_owned(),
            );
            proof {
                self.lemma_error_ends(error@);
            }
            return Err(error);
        }
        let zone = match find_zone(&state.zones, current.dns_name.as_str()) {
            Some(zone) => zone,
            None => {
                let error = self.no_zone_error(current.dns_name.as_str());
                return Err(error);
            },
        };
        let places = match locate(current, &state.records, &self.deleted) {
            Ok(places) => places,
            Err(target) => {
                let error = ProviderError::StateMismatch {
                    dns_name: current.dns_name.clone(),
                    record_type: current.record_type.clone(),
                    target,
                };
                proof {
                    self.lemma_error_ends(error@);
                }
                return Err(error);
            },
        };
        let pairs = pair(current, desired, &state.records, &places);
        assert(places_model(places@).len() == places@.len());
        self.write_pairs(&pairs, desired, zone, &state.records)
    }
}

proof fn lemma_kept_steps_extend(
    kept: Seq<(int, Seq<char>)>,
    n: int,
    desired: EndpointModel,
    zone: Seq<char>,
    records: Seq<RecordModel>,
)
    requires
        0 <= n <= kept.len(),
    ensures
        kept_steps(kept.take(n), desired, zone, records).is_prefix_of(kept_steps(kept, desired, zone, records)),
    decreases kept.len(),
{
    let whole = kept_steps(kept, desired, zone, records);
    if n == kept.len() {
        assert(kept.take(n) =~= kept);
        assert(whole =~= whole.subrange(0, whole.len() as int));
    } else {
        let before = kept_steps(kept.drop_last(), desired, zone, records);
        lemma_kept_steps_extend(kept.drop_last(), n, desired, zone, records);
        assert(kept.drop_last().take(n) =~= kept.take(n));
        assert(before =~= whole.subrange(0, before.len() as int));
        lemma_prefix_transitive(kept_steps(kept.take(n), desired, zone, records), before, whole);
    }
}

/// The operations that a set of changes takes, in order, and the error that
/// comes behind them if the rest cannot be done.
pub struct ChangePlan {
    pub operations: Vec<Operation>,
    pub failure: Option<ProviderError>,
}

/// An optional failure by its model.
pub open spec fn opt_failure(failure: Option<ProviderError>) -> Option<ProviderErrorModel> {
    match failure {
        Some(error) => Some(error@),
        None => None,
    }
}

impl View for ChangePlan {
    type V = (Seq<OperationModel>, Option<ProviderErrorModel>);

    open spec fn view(&self) -> (Seq<OperationModel>, Option<ProviderErrorModel>) {
        (operation_models(self.operations@), opt_failure(self.failure))
    }
}

/// Makes the plan for a set of changes: first the deletions, then the updates,
/// then the creations.
pub fn plan_changes(changes: &Changes, state: &RemoteState) -> (r: ChangePlan)
    ensures
        r@ == outcome(all_steps(changes@, state@).steps),
{
    let mut planner = Planner { operations: Vec::new(), deleted: HashSet::new() };
    match plan_all(&mut planner, changes, state) {
        Ok(()) => {
            proof {
                lemma_outcome_all_ok(operation_models(planner.operations@));
            }
            ChangePlan { operations: planner.operations, failure: None }
        },
        Err(error) => ChangePlan { operations: planner.operations, failure: Some(error) },
    }
}

fn plan_all(planner: &mut Planner, changes: &Changes, state: &RemoteState) -> (r: Result<
    (),
    ProviderError,
>)
    requires
        old(planner).operations@.len() == 0,
        old(planner).deleted@ == Set::<u64>::empty(),
    ensures
        final(planner).reached(r, all_steps(changes@, state@)),
{
    let ghost model = changes@;
    let ghost start = Progress::start();
    let ghost n = shorter(model.update_old.len(), model.update_new.len());
    let ghost after_deletions = all_deletions(start, model.delete, state@.records);
    let ghost after_updates = all_replacements(
        after_deletions,
        model.update_old,
        model.update_new,
        n as int,
        state@,
    );
    let ghost whole = all_steps(model, state@);
    assert(planner.progress().steps =~= start.steps);

    let mut i: usize = 0;
    assert(model.delete.take(0) =~= Seq::empty());
    while i < changes.delete.len()
        invariant
            i <= changes.delete.len(),
            model == changes@,
            planner.progress() == all_deletions(
                start,
                model.delete.take(i as int),
                state@.records,
            ),
        decreases changes.delete.len() - i,
    {
        assert(model.delete.take(i + 1).drop_last() =~= model.delete.take(i as int));
        assert(model.delete.take(i + 1).last() == changes.delete@[i as int]@);
        planner.delete(&changes.delete[i], state);
        i += 1;
    }
    assert(model.delete.take(model.delete.len() as int) =~= model.delete);

    let mut i: usize = 0;
    while i < changes.update_old.len() && i < changes.update_new.len()
        invariant
            i <= changes.update_old.len(),
            i <= changes.update_new.len(),
            model == changes@,
            n == shorter(model.update_old.len(), model.update_new.len()),
            after_updates == all_replacements(
                after_deletions,
                model.update_old,
                model.update_new,
                n as int,
                state@,
            ),
            whole == all_creations(after_updates, model.create, state@),
            whole == all_steps(changes@, state@),
            planner.progress() == all_replacements(
                after_deletions,
                model.update_old,
                model.update_new,
                i as int,
                state@,
            ),
        decreases changes.update_old.len() - i,
    {
        assert(model.update_old[i as int] == changes.update_old@[i as int]@);
        assert(model.update_new[i as int] == changes.update_new@[i as int]@);
        match planner.replace(&changes.update_old[i], &changes.update_new[i], state) {
            Ok(()) => {},
            Err(error) => {
                proof {
                    let here = all_replacements(
                        after_deletions,
                        model.update_old,
                        model.update_new,
                        i + 1,
                        state@,
                    );
                    lemma_all_replacements_extend(
                        after_deletions,
                        model.update_old,
                        model.update_new,
                        i + 1,
                        n as int,
                        state@,
                    );
                    lemma_all_creations_extend(after_updates, model.create, 0, state@);
                    assert(model.create.take(0) =~= Seq::empty());
                    lemma_prefix_transitive(here.steps, after_updates.steps, whole.steps);
                    lemma_outcome_stays(here.steps, whole.steps);
                }
                return Err(error);
            },
        }
        i += 1;
    }

    let mut i: usize = 0;
    assert(model.create.take(0) =~= Seq::empty());
    while i < changes.create.len()
        invariant
            i <= changes.create.len(),
            model == changes@,
            whole == all_creations(after_updates, model.create, state@),
            whole == all_steps(changes@, state@),
            planner.progress() == all_creations(
                after_updates,
                model.create.take(i as int),
                state@,
            ),
        decreases changes.create.len() - i,
    {
        assert(model.create.take(i + 1).drop_last() =~= model.create.take(i as int));
        assert(model.create.take(i + 1).last() == changes.create@[i as int]@);
        match planner.create(&changes.create[i], state) {
            Ok(()) => {},
            Err(error) => {
                proof {
                    lemma_all_creations_extend(after_updates, model.create, i + 1, state@);
                    lemma_outcome_stays(
                        all_creations(after_updates, model.create.take(i + 1), state@).steps,
                        whole.steps,
                    );
                }
                return Err(error);
            },
        }
        i += 1;
    }
    assert(model.create.take(model.create.len() as int) =~= model.create);
    Ok(())
}

// ---------------------------------------------------------------------------
// Order
// ---------------------------------------------------------------------------

/// Deletions come before updates, and updates before creations: the steps of each
/// are followed by those of the next, and nothing is put in between.
pub proof fn law_steps_are_in_order(changes: ChangesModel, state: StateModel)
    ensures
        ({
            let n = shorter(changes.update_old.len(), changes.update_new.len()) as int;
            let deleted = all_deletions(Progress::start(), changes.delete, state.records);
            let updated = all_replacements(
                deleted,
                changes.update_old,
                changes.update_new,
                n,
                state,
            );
            &&& deleted.steps.is_prefix_of(updated.steps)
            &&& updated.steps.is_prefix_of(all_steps(changes, state).steps)
        }),
{
    let n = shorter(changes.update_old.len(), changes.update_new.len()) as int;
    let deleted = all_deletions(Progress::start(), changes.delete, state.records);
    let updated = all_replacements(deleted, changes.update_old, changes.update_new, n, state);
    lemma_all_replacements_extend(
        deleted,
        changes.update_old,
        changes.update_new,
        0,
        n,
        state,
    );
    lemma_all_creations_extend(updated, changes.create, 0, state);
    assert(changes.create.take(0) =~= Seq::empty());
}

} // verus!
