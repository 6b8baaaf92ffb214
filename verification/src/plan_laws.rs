//! What holds of every plan: what its operations touch, that no record goes
//! twice, and that an update leaves the targets that were asked for.
use crate::model::{ChangesModel, EndpointModel};
use crate::plan::{
    all_creations, all_deletions, all_replacements, all_steps, canonical_targets, changed_steps,
    covered_by_deletion, create_step, create_steps, creation, deletion, deletions_at, find_records,
    first_candidate, first_target, ids_at, is_candidate, kept_steps, outcome, paired_steps, pairing,
    replacement, shorter, update_step, OperationModel, Pairing, Progress, StateModel, Step,
};
use crate::targets::{
    best_zone, canonical, change_of, law_best_zone, same_identity, wants_other_ttl,
    written_subdomain,
};
use crate::timeweb::{ChangeModel, RecordModel};
use vstd::multiset::*;
use vstd::prelude::*;

verus! {

// ---------------------------------------------------------------------------
// What a plan touches
// ---------------------------------------------------------------------------

/// The list holds a record with this number and zone.
pub open spec fn lists_record(records: Seq<RecordModel>, zone: Seq<char>, id: u64) -> bool {
    exists|i: int|
        0 <= i < records.len() && (#[trigger] records[i]).id == id && records[i].zone == zone
}

/// An operation goes to a zone or a record that is listed.
pub open spec fn is_listed(operation: OperationModel, state: StateModel) -> bool {
    match operation {
        OperationModel::Create { zone, .. } => state.zones.contains(zone),
        OperationModel::Update { zone, id, .. } => lists_record(state.records, zone, id),
        OperationModel::Delete { zone, id } => lists_record(state.records, zone, id),
    }
}

/// An operation as a step.
pub open spec fn done(operation: OperationModel) -> Step {
    Ok(operation)
}

/// The record that a step deletes.
pub open spec fn deleted_by(step: Step) -> Option<u64> {
    match step {
        Ok(OperationModel::Delete { id, .. }) => Some(id),
        _ => None,
    }
}

/// The record that a step changes or deletes.
pub open spec fn touched_by(step: Step) -> Option<u64> {
    match step {
        Ok(OperationModel::Update { id, .. }) => Some(id),
        Ok(OperationModel::Delete { id, .. }) => Some(id),
        _ => None,
    }
}

/// Steps keep to what is listed, and leave a record alone once it is deleted.
pub open spec fn is_sound(p: Progress, state: StateModel) -> bool {
    &&& forall|i: int|
        0 <= i < p.steps.len() ==> ((#[trigger] p.steps[i]) matches Ok(operation) ==> is_listed(
            operation,
            state,
        ))
    &&& forall|i: int|
        0 <= i < p.steps.len() ==> (deleted_by(#[trigger] p.steps[i]) matches Some(id)
            ==> p.deleted.contains(id))
    &&& forall|i: int, j: int|
        0 <= i < j < p.steps.len() && deleted_by(#[trigger] p.steps[i]) is Some ==> deleted_by(
            p.steps[i],
        ) != touched_by(#[trigger] p.steps[j])
}

/// Steps that delete nothing and touch nothing that is deleted keep soundness.
proof fn lemma_more_steps(p: Progress, more: Seq<Step>, state: StateModel)
    requires
        is_sound(p, state),
        forall|i: int|
            0 <= i < more.len() ==> {
                &&& (#[trigger] more[i]) matches Ok(operation) ==> is_listed(operation, state)
                &&& deleted_by(more[i]) is None
                &&& touched_by(more[i]) matches Some(id) ==> !p.deleted.contains(id)
            },
    ensures
        is_sound(p.with_steps(more), state),
{
    let q = p.with_steps(more);
    assert forall|i: int| 0 <= i < q.steps.len() implies ((#[trigger] q.steps[i]) matches Ok(
        operation,
    ) ==> is_listed(operation, state)) by {
        if i < p.steps.len() {
            assert(q.steps[i] == p.steps[i]);
        } else {
            assert(q.steps[i] == more[i - p.steps.len()]);
        }
    }
    assert forall|i: int| 0 <= i < q.steps.len() implies (deleted_by(#[trigger] q.steps[i]) matches Some(
        id,
    ) ==> q.deleted.contains(id)) by {
        if i < p.steps.len() {
            assert(q.steps[i] == p.steps[i]);
        } else {
            assert(q.steps[i] == more[i - p.steps.len()]);
        }
    }
    assert forall|i: int, j: int|
        0 <= i < j < q.steps.len() && deleted_by(#[trigger] q.steps[i])
            is Some implies deleted_by(q.steps[i]) != touched_by(#[trigger] q.steps[j]) by {
        if i < p.steps.len() {
            assert(q.steps[i] == p.steps[i]);
            if j < p.steps.len() {
                assert(q.steps[j] == p.steps[j]);
            } else {
                assert(q.steps[j] == more[j - p.steps.len()]);
            }
        } else {
            assert(q.steps[i] == more[i - p.steps.len()]);
        }
    }
}

/// The deletion of a listed record keeps soundness.
proof fn lemma_one_deletion(p: Progress, record: RecordModel, state: StateModel)
    requires
        is_sound(p, state),
        state.records.contains(record),
    ensures
        is_sound(p.with_deletion(record), state),
{
    if !p.deleted.contains(record.id) {
        let q = p.with_deletion(record);
        let step: Step = Ok(OperationModel::Delete { zone: record.zone, id: record.id });
        let k = choose|k: int| 0 <= k < state.records.len() && state.records[k] == record;
        assert(state.records[k].id == record.id && state.records[k].zone == record.zone);
        assert(is_listed(step->Ok_0, state));
        assert forall|i: int| 0 <= i < q.steps.len() implies ((#[trigger] q.steps[i]) matches Ok(
            operation,
        ) ==> is_listed(operation, state)) by {
            if i < p.steps.len() {
                assert(q.steps[i] == p.steps[i]);
            }
        }
        assert forall|i: int| 0 <= i < q.steps.len() implies (deleted_by(
            #[trigger] q.steps[i],
        ) matches Some(id) ==> q.deleted.contains(id)) by {
            if i < p.steps.len() {
                assert(q.steps[i] == p.steps[i]);
            }
        }
        assert forall|i: int, j: int|
            0 <= i < j < q.steps.len() && deleted_by(#[trigger] q.steps[i])
                is Some implies deleted_by(q.steps[i]) != touched_by(#[trigger] q.steps[j]) by {
            assert(q.steps[i] == p.steps[i]);
            if j < p.steps.len() {
                assert(q.steps[j] == p.steps[j]);
            }
        }
    }
}

proof fn lemma_deletion_sound(
    p: Progress,
    endpoint: EndpointModel,
    records: Seq<RecordModel>,
    state: StateModel,
)
    requires
        is_sound(p, state),
        forall|i: int| 0 <= i < records.len() ==> state.records.contains(#[trigger] records[i]),
    ensures
        is_sound(deletion(p, endpoint, records), state),
    decreases records.len(),
{
    if records.len() > 0 {
        let rest = records.drop_last();
        assert forall|i: int| 0 <= i < rest.len() implies state.records.contains(
            #[trigger] rest[i],
        ) by {
            assert(rest[i] == records[i]);
        }
        lemma_deletion_sound(p, endpoint, rest, state);
        if covered_by_deletion(endpoint, records.last()) {
            assert(state.records.contains(records[records.len() - 1]));
            lemma_one_deletion(deletion(p, endpoint, rest), records.last(), state);
        }
    }
}

proof fn lemma_deletions_at_sound(p: Progress, places: Seq<int>, state: StateModel)
    requires
        is_sound(p, state),
        forall|i: int| 0 <= i < places.len() ==> 0 <= #[trigger] places[i] < state.records.len(),
    ensures
        is_sound(deletions_at(p, state.records, places), state),
    decreases places.len(),
{
    if places.len() > 0 {
        lemma_deletions_at_sound(p, places.drop_last(), state);
        assert(0 <= places[places.len() - 1] < state.records.len());
        lemma_one_deletion(
            deletions_at(p, state.records, places.drop_last()),
            state.records[places.last()],
            state,
        );
    }
}

// ---------------------------------------------------------------------------
// The records of an update
// ---------------------------------------------------------------------------

/// The first candidate is one.
pub proof fn lemma_first_candidate(
    endpoint: EndpointModel,
    target: Seq<char>,
    records: Seq<RecordModel>,
    used: Set<u64>,
    deleted: Set<u64>,
    from: int,
)
    requires
        0 <= from,
    ensures
        first_candidate(endpoint, target, records, used, deleted, from) matches Some(place) ==> {
            &&& from <= place < records.len()
            &&& is_candidate(endpoint, target, records[place], used, deleted)
        },
        first_candidate(endpoint, target, records, used, deleted, from) is None ==> forall|i: int|
            from <= i < records.len() ==> !is_candidate(
                endpoint,
                target,
                #[trigger] records[i],
                used,
                deleted,
            ),
    decreases records.len() - from,
{
    if from < records.len() && !is_candidate(endpoint, target, records[from], used, deleted) {
        lemma_first_candidate(endpoint, target, records, used, deleted, from + 1);
    }
}

/// The records that were found for the first `n` targets are listed, not deleted,
/// and have those targets.
pub proof fn lemma_find_records(
    endpoint: EndpointModel,
    n: int,
    records: Seq<RecordModel>,
    deleted: Set<u64>,
)
    requires
        0 <= n <= endpoint.targets.len(),
    ensures
        find_records(endpoint, n, records, deleted) matches Ok(places) ==> {
            &&& places.len() == n
            &&& forall|i: int|
                0 <= i < n ==> {
                    &&& 0 <= (#[trigger] places[i]) < records.len()
                    &&& is_candidate(
                        endpoint,
                        endpoint.targets[i],
                        records[places[i]],
                        Set::empty(),
                        deleted,
                    )
                }
        },
    decreases n,
{
    if n > 0 {
        lemma_find_records(endpoint, n - 1, records, deleted);
        if let Ok(places) = find_records(endpoint, n - 1, records, deleted) {
            lemma_first_candidate(
                endpoint,
                endpoint.targets[n - 1],
                records,
                ids_at(records, places),
                deleted,
                0,
            );
        }
    }
}

/// Every place of a pairing is one of the places that were paired.
proof fn lemma_pairing_places(
    current: EndpointModel,
    desired: EndpointModel,
    records: Seq<RecordModel>,
    places: Seq<int>,
    n: int,
)
    requires
        0 <= n <= places.len(),
    ensures
        ({
            let pairs = pairing(current, desired, records, places, n);
            &&& forall|i: int|
                0 <= i < pairs.kept.len() ==> places.contains((#[trigger] pairs.kept[i]).0)
            &&& forall|i: int|
                0 <= i < pairs.changed.len() ==> places.contains(#[trigger] pairs.changed[i])
        }),
    decreases n,
{
    if n > 0 {
        lemma_pairing_places(current, desired, records, places, n - 1);
        let before = pairing(current, desired, records, places, n - 1);
        let pairs = pairing(current, desired, records, places, n);
        assert(places.contains(places[n - 1]));
        assert forall|i: int| 0 <= i < pairs.kept.len() implies places.contains(
            (#[trigger] pairs.kept[i]).0,
        ) by {
            if i < before.kept.len() {
                assert(pairs.kept[i] == before.kept[i]);
            }
        }
        assert forall|i: int| 0 <= i < pairs.changed.len() implies places.contains(
            #[trigger] pairs.changed[i],
        ) by {
            if i < before.changed.len() {
                assert(pairs.changed[i] == before.changed[i]);
            }
        }
    }
}

/// A step that changes a record which is listed and not deleted.
spec fn is_fair_update(step: Step, p: Progress, state: StateModel) -> bool {
    &&& step matches Ok(operation) ==> is_listed(operation, state)
    &&& deleted_by(step) is None
    &&& touched_by(step) matches Some(id) ==> !p.deleted.contains(id)
}

proof fn lemma_update_step(
    p: Progress,
    place: int,
    desired: EndpointModel,
    target: Seq<char>,
    zone: Seq<char>,
    state: StateModel,
)
    requires
        0 <= place < state.records.len(),
        !p.deleted.contains(state.records[place].id),
    ensures
        is_fair_update(update_step(state.records[place], desired, target, zone), p, state),
{
}

proof fn lemma_kept_steps_fair(
    p: Progress,
    kept: Seq<(int, Seq<char>)>,
    desired: EndpointModel,
    zone: Seq<char>,
    state: StateModel,
)
    requires
        forall|i: int|
            0 <= i < kept.len() ==> {
                &&& 0 <= (#[trigger] kept[i]).0 < state.records.len()
                &&& !p.deleted.contains(state.records[kept[i].0].id)
            },
    ensures
        forall|i: int|
            0 <= i < kept_steps(kept, desired, zone, state.records).len() ==> is_fair_update(
                #[trigger] kept_steps(kept, desired, zone, state.records)[i],
                p,
                state,
            ),
    decreases kept.len(),
{
    if kept.len() > 0 {
        let before = kept_steps(kept.drop_last(), desired, zone, state.records);
        let steps = kept_steps(kept, desired, zone, state.records);
        assert forall|i: int| 0 <= i < kept.drop_last().len() implies {
            &&& 0 <= (#[trigger] kept.drop_last()[i]).0 < state.records.len()
            &&& !p.deleted.contains(state.records[kept.drop_last()[i].0].id)
        } by {
            assert(kept.drop_last()[i] == kept[i]);
        }
        lemma_kept_steps_fair(p, kept.drop_last(), desired, zone, state);
        assert(0 <= kept[kept.len() - 1].0 < state.records.len());
        lemma_update_step(p, kept.last().0, desired, kept.last().1, zone, state);
        assert forall|i: int| 0 <= i < steps.len() implies is_fair_update(
            #[trigger] steps[i],
            p,
            state,
        ) by {
            if i < before.len() {
                assert(steps[i] == before[i]);
            }
        }
    }
}

proof fn lemma_create_steps_sound(
    p: Progress,
    endpoint: EndpointModel,
    targets: Seq<Seq<char>>,
    zone: Seq<char>,
    state: StateModel,
)
    requires
        is_sound(p, state),
        state.zones.contains(zone),
    ensures
        is_sound(p.with_steps(create_steps(endpoint, targets, zone)), state),
{
    let more = create_steps(endpoint, targets, zone);
    assert forall|i: int| 0 <= i < more.len() implies {
        &&& (#[trigger] more[i]) matches Ok(operation) ==> is_listed(operation, state)
        &&& deleted_by(more[i]) is None
        &&& touched_by(more[i]) matches Some(id) ==> !p.deleted.contains(id)
    } by {
        assert(more[i] == create_step(endpoint, targets[i], zone));
    }
    lemma_more_steps(p, more, state);
}

proof fn lemma_replacement_sound(
    p: Progress,
    current: EndpointModel,
    desired: EndpointModel,
    state: StateModel,
)
    requires
        is_sound(p, state),
    ensures
        is_sound(replacement(p, current, desired, state), state),
{
    let zone = best_zone(state.zones, current.dns_name);
    let found = find_records(current, current.targets.len() as int, state.records, p.deleted);
    if same_identity(current, desired) && zone is Some && found is Ok {
        let places = found->Ok_0;
        let pairs = pairing(current, desired, state.records, places, places.len() as int);
        let n = shorter(pairs.changed.len(), pairs.fresh.len());
        law_best_zone(state.zones, current.dns_name);
        lemma_find_records(current, current.targets.len() as int, state.records, p.deleted);
        lemma_pairing_places(current, desired, state.records, places, places.len() as int);
        assert forall|place: int| places.contains(place) implies 0 <= place < state.records.len()
            && !p.deleted.contains(state.records[place].id) by {
            let k = choose|k: int| 0 <= k < places.len() && places[k] == place;
            assert(0 <= places[k] < state.records.len());
        }
        assert forall|i: int| 0 <= i < pairs.kept.len() implies {
            &&& 0 <= (#[trigger] pairs.kept[i]).0 < state.records.len()
            &&& !p.deleted.contains(state.records[pairs.kept[i].0].id)
        } by {
            assert(places.contains(pairs.kept[i].0));
        }
        assert forall|i: int| 0 <= i < pairs.changed.len() implies {
            &&& 0 <= (#[trigger] pairs.changed[i]) < state.records.len()
            &&& !p.deleted.contains(state.records[pairs.changed[i]].id)
        } by {
            assert(places.contains(pairs.changed[i]));
        }
        let kept = kept_steps(pairs.kept, desired, zone->0, state.records);
        lemma_kept_steps_fair(p, pairs.kept, desired, zone->0, state);
        assert forall|i: int| 0 <= i < kept.len() implies {
            &&& (#[trigger] kept[i]) matches Ok(operation) ==> is_listed(operation, state)
            &&& deleted_by(kept[i]) is None
            &&& touched_by(kept[i]) matches Some(id) ==> !p.deleted.contains(id)
        } by {
            assert(is_fair_update(kept[i], p, state));
        }
        lemma_more_steps(p, kept, state);
        let p1 = p.with_steps(kept);
        let changed = changed_steps(pairs, n, desired, zone->0, state.records);
        assert forall|i: int| 0 <= i < changed.len() implies {
            &&& (#[trigger] changed[i]) matches Ok(operation) ==> is_listed(operation, state)
            &&& deleted_by(changed[i]) is None
            &&& touched_by(changed[i]) matches Some(id) ==> !p1.deleted.contains(id)
        } by {
            assert(0 <= pairs.changed[i] < state.records.len());
            lemma_update_step(p1, pairs.changed[i], desired, pairs.fresh[i], zone->0, state);
            assert(changed[i] == update_step(
                state.records[pairs.changed[i]],
                desired,
                pairs.fresh[i],
                zone->0,
            ));
        }
        lemma_more_steps(p1, changed, state);
        let p2 = p1.with_steps(changed);
        lemma_create_steps_sound(p2, desired, pairs.fresh.skip(n as int), zone->0, state);
        let p3 = p2.with_steps(create_steps(desired, pairs.fresh.skip(n as int), zone->0));
        let rest = pairs.changed.skip(n as int);
        assert forall|i: int| 0 <= i < rest.len() implies 0 <= #[trigger] rest[i]
            < state.records.len() by {
            assert(rest[i] == pairs.changed[n + i]);
        }
        lemma_deletions_at_sound(p3, rest, state);
    } else {
        lemma_error_step_sound(p, replacement(p, current, desired, state).steps.last(), state);
        let q = replacement(p, current, desired, state);
        assert(q.steps =~= p.steps + seq![q.steps.last()]);
        assert(q == p.with_steps(seq![q.steps.last()]));
    }
}

proof fn lemma_error_step_sound(p: Progress, step: Step, state: StateModel)
    requires
        is_sound(p, state),
        step is Err,
    ensures
        is_sound(p.with_steps(seq![step]), state),
{
    lemma_more_steps(p, seq![step], state);
}

proof fn lemma_all_deletions_sound(p: Progress, list: Seq<EndpointModel>, state: StateModel)
    requires
        is_sound(p, state),
    ensures
        is_sound(all_deletions(p, list, state.records), state),
    decreases list.len(),
{
    if list.len() > 0 {
        lemma_all_deletions_sound(p, list.drop_last(), state);
        lemma_deletion_sound(
            all_deletions(p, list.drop_last(), state.records),
            list.last(),
            state.records,
            state,
        );
    }
}

proof fn lemma_all_replacements_sound(
    p: Progress,
    current: Seq<EndpointModel>,
    desired: Seq<EndpointModel>,
    n: int,
    state: StateModel,
)
    requires
        is_sound(p, state),
    ensures
        is_sound(all_replacements(p, current, desired, n, state), state),
    decreases n,
{
    if n > 0 {
        lemma_all_replacements_sound(p, current, desired, n - 1, state);
        lemma_replacement_sound(
            all_replacements(p, current, desired, n - 1, state),
            current[n - 1],
            desired[n - 1],
            state,
        );
    }
}

proof fn lemma_all_creations_sound(p: Progress, list: Seq<EndpointModel>, state: StateModel)
    requires
        is_sound(p, state),
    ensures
        is_sound(all_creations(p, list, state), state),
    decreases list.len(),
{
    if list.len() > 0 {
        lemma_all_creations_sound(p, list.drop_last(), state);
        let before = all_creations(p, list.drop_last(), state);
        let endpoint = list.last();
        law_best_zone(state.zones, endpoint.dns_name);
        match best_zone(state.zones, endpoint.dns_name) {
            Some(zone) => {
                lemma_create_steps_sound(before, endpoint, endpoint.targets, zone, state);
            },
            None => {
                let q = creation(before, endpoint, state);
                lemma_error_step_sound(before, q.steps.last(), state);
                assert(q.steps =~= before.steps + seq![q.steps.last()]);
                assert(q == before.with_steps(seq![q.steps.last()]));
            },
        }
    }
}

/// The operations that steps come to are steps without an error, at the start.
proof fn lemma_outcome_is_prefix(steps: Seq<Step>)
    ensures
        outcome(steps).0.len() <= steps.len(),
        forall|i: int|
            0 <= i < outcome(steps).0.len() ==> steps[i] == done(
                #[trigger] outcome(steps).0[i],
            ),
        outcome(steps).1 is None ==> outcome(steps).0.len() == steps.len(),
    decreases steps.len(),
{
    if steps.len() > 0 {
        let before = outcome(steps.drop_last());
        lemma_outcome_is_prefix(steps.drop_last());
        assert forall|i: int| 0 <= i < outcome(steps).0.len() implies steps[i] == done(#[trigger] outcome(steps).0[i]) by {
            if i < before.0.len() {
                assert(outcome(steps).0[i] == before.0[i]);
                assert(steps.drop_last()[i] == steps[i]);
            }
        }
    }
}

/// Every operation of a plan goes to what is listed: a new record to one of the
/// zones, a change or a deletion to one of the records and the zone it is in. No
/// record is deleted twice, and none is changed after it is deleted.
pub proof fn law_plan_is_sound(changes: ChangesModel, state: StateModel)
    ensures
        ({
            let operations = outcome(all_steps(changes, state).steps).0;
            &&& forall|i: int|
                0 <= i < operations.len() ==> is_listed(#[trigger] operations[i], state)
            &&& forall|i: int, j: int|
                0 <= i < j < operations.len() && deleted_by(done(#[trigger] operations[i]))
                    is Some ==> deleted_by(done(operations[i])) != touched_by(
                    done(#[trigger] operations[j]),
                )
        }),
{
    let n = shorter(changes.update_old.len(), changes.update_new.len()) as int;
    let start = Progress::start();
    assert(is_sound(start, state));
    lemma_all_deletions_sound(start, changes.delete, state);
    let p1 = all_deletions(start, changes.delete, state.records);
    lemma_all_replacements_sound(p1, changes.update_old, changes.update_new, n, state);
    let p2 = all_replacements(p1, changes.update_old, changes.update_new, n, state);
    lemma_all_creations_sound(p2, changes.create, state);
    let p = all_steps(changes, state);
    let operations = outcome(p.steps).0;
    lemma_outcome_is_prefix(p.steps);
    assert forall|i: int| 0 <= i < operations.len() implies is_listed(
        #[trigger] operations[i],
        state,
    ) by {
        assert(p.steps[i] == done(operations[i]));
    }
    assert forall|i: int, j: int|
        0 <= i < j < operations.len() && deleted_by(done(#[trigger] operations[i]))
            is Some implies deleted_by(done(operations[i])) != touched_by(
        done(#[trigger] operations[j]),
    ) by {
        assert(p.steps[i] == done(operations[i]));
        assert(p.steps[j] == done(operations[j]));
        assert(deleted_by(p.steps[i]) != touched_by(p.steps[j]));
    }
}

/// Where there is nothing to do, nothing is done.
pub proof fn law_nothing_is_planned_for_no_changes(changes: ChangesModel, state: StateModel)
    requires
        changes.nothing(),
    ensures
        all_steps(changes, state).steps.len() == 0,
{
}

/// The deletion of an endpoint deletes every record that it covers, and no other.
pub proof fn law_deletion_is_complete(
    p: Progress,
    endpoint: EndpointModel,
    records: Seq<RecordModel>,
    id: u64,
)
    ensures
        deletion(p, endpoint, records).deleted.contains(id) <==> (p.deleted.contains(id) || exists|
            i: int,
        |
            0 <= i < records.len() && (#[trigger] records[i]).id == id && covered_by_deletion(
                endpoint,
                records[i],
            )),
    decreases records.len(),
{
    if records.len() > 0 {
        let rest = records.drop_last();
        law_deletion_is_complete(p, endpoint, rest, id);
        if exists|i: int|
            0 <= i < rest.len() && (#[trigger] rest[i]).id == id && covered_by_deletion(
                endpoint,
                rest[i],
            ) {
            let i = choose|i: int|
                0 <= i < rest.len() && (#[trigger] rest[i]).id == id && covered_by_deletion(
                    endpoint,
                    rest[i],
                );
            assert(records[i] == rest[i]);
        }
        if exists|i: int|
            0 <= i < records.len() && (#[trigger] records[i]).id == id && covered_by_deletion(
                endpoint,
                records[i],
            ) {
            let i = choose|i: int|
                0 <= i < records.len() && (#[trigger] records[i]).id == id && covered_by_deletion(
                    endpoint,
                    records[i],
                );
            if i < rest.len() {
                assert(rest[i] == records[i]);
            }
        }
        assert(records[records.len() - 1] == records.last());
    }
}

// ---------------------------------------------------------------------------
// What an update leaves
// ---------------------------------------------------------------------------

/// The targets that records keep.
pub open spec fn kept_targets(pairs: Pairing) -> Seq<Seq<char>> {
    pairs.kept.map_values(|k: (int, Seq<char>)| k.1)
}

/// The places of the records that keep their target.
pub open spec fn kept_places(pairs: Pairing) -> Seq<int> {
    pairs.kept.map_values(|k: (int, Seq<char>)| k.0)
}

/// The first target with a canonical form has it.
pub proof fn lemma_first_target(
    record_type: Seq<char>,
    targets: Seq<Seq<char>>,
    key: Seq<char>,
    from: int,
)
    requires
        0 <= from,
    ensures
        match first_target(record_type, targets, key, from) {
            Some(i) => from <= i < targets.len() && canonical(record_type, targets[i]) == key,
            None => forall|i: int|
                from <= i < targets.len() ==> canonical(record_type, #[trigger] targets[i]) != key,
        },
    decreases targets.len() - from,
{
    if from < targets.len() && canonical(record_type, targets[from]) != key {
        lemma_first_target(record_type, targets, key, from + 1);
    }
}

/// An update loses and doubles nothing: each target of the new endpoint is either
/// kept by one record or new, and each record that was found either keeps a target
/// or is free for a new one. A record that keeps a target has that target already,
/// but for case and dots.
pub proof fn law_update_leaves_the_targets_asked_for(
    current: EndpointModel,
    desired: EndpointModel,
    records: Seq<RecordModel>,
    places: Seq<int>,
    n: int,
)
    requires
        0 <= n <= places.len(),
    ensures
        ({
            let pairs = pairing(current, desired, records, places, n);
            &&& kept_targets(pairs).to_multiset().add(pairs.fresh.to_multiset())
                == desired.targets.to_multiset()
            &&& kept_places(pairs).to_multiset().add(pairs.changed.to_multiset()) == places.take(
                n,
            ).to_multiset()
            &&& forall|i: int|
                0 <= i < pairs.kept.len() ==> canonical(
                    desired.record_type,
                    (#[trigger] pairs.kept[i]).1,
                ) == canonical(
                    current.record_type,
                    records[pairs.kept[i].0].endpoint.targets[0],
                )
        }),
    decreases n,
{
    broadcast use vstd::seq_lib::group_to_multiset_ensures;

    let pairs = pairing(current, desired, records, places, n);
    if n == 0 {
        assert(kept_targets(pairs) =~= Seq::empty());
        assert(kept_places(pairs) =~= Seq::empty());
        assert(places.take(0) =~= Seq::empty());
        assert(kept_targets(pairs).to_multiset().add(pairs.fresh.to_multiset())
            =~= desired.targets.to_multiset());
        assert(kept_places(pairs).to_multiset().add(pairs.changed.to_multiset()) =~= places.take(
            n,
        ).to_multiset());
    } else {
        law_update_leaves_the_targets_asked_for(current, desired, records, places, n - 1);
        let before = pairing(current, desired, records, places, n - 1);
        let place = places[n - 1];
        let key = canonical(current.record_type, records[place].endpoint.targets[0]);
        lemma_first_target(desired.record_type, before.fresh, key, 0);
        assert(places.take(n) =~= places.take(n - 1).push(place));
        match first_target(desired.record_type, before.fresh, key, 0) {
            Some(i) => {
                let target = before.fresh[i];
                assert(kept_targets(pairs) =~= kept_targets(before).push(target));
                assert(kept_places(pairs) =~= kept_places(before).push(place));
                assert(before.fresh.contains(target));
                assert(before.fresh.to_multiset().count(target) > 0);
                assert(kept_targets(pairs).to_multiset().add(pairs.fresh.to_multiset())
                    =~= kept_targets(before).to_multiset().add(before.fresh.to_multiset()));
                assert forall|j: int| 0 <= j < pairs.kept.len() implies canonical(
                    desired.record_type,
                    (#[trigger] pairs.kept[j]).1,
                ) == canonical(
                    current.record_type,
                    records[pairs.kept[j].0].endpoint.targets[0],
                ) by {
                    if j < before.kept.len() {
                        assert(pairs.kept[j] == before.kept[j]);
                    }
                }
            },
            None => {},
        }
        assert(kept_places(pairs).to_multiset().add(pairs.changed.to_multiset()) =~= places.take(
            n,
        ).to_multiset());
    }
}

/// The canonical forms of a list of targets.
pub open spec fn keys_of(record_type: Seq<char>, targets: Seq<Seq<char>>) -> Seq<Seq<char>> {
    targets.map_values(|t: Seq<char>| canonical(record_type, t))
}

/// While the targets are the same, every record keeps one.
proof fn lemma_same_targets_are_kept(
    current: EndpointModel,
    desired: EndpointModel,
    records: Seq<RecordModel>,
    places: Seq<int>,
    n: int,
)
    requires
        0 <= n <= places.len(),
        places.len() == current.targets.len(),
        forall|i: int|
            0 <= i < places.len() ==> canonical(
                current.record_type,
                records[#[trigger] places[i]].endpoint.targets[0],
            ) == canonical(current.record_type, current.targets[i]),
        keys_of(desired.record_type, desired.targets).to_multiset() == keys_of(
            current.record_type,
            current.targets,
        ).to_multiset(),
    ensures
        ({
            let pairs = pairing(current, desired, records, places, n);
            &&& pairs.changed.len() == 0
            &&& keys_of(desired.record_type, pairs.fresh).to_multiset().add(
                keys_of(current.record_type, current.targets).take(n).to_multiset(),
            ) == keys_of(desired.record_type, desired.targets).to_multiset()
        }),
    decreases n,
{
    broadcast use vstd::seq_lib::group_to_multiset_ensures;

    let all = keys_of(current.record_type, current.targets);
    let wanted = keys_of(desired.record_type, desired.targets);
    if n == 0 {
        assert(all.take(0) =~= Seq::empty());
        assert(wanted.to_multiset().add(all.take(0).to_multiset()) =~= wanted.to_multiset());
    } else {
        lemma_same_targets_are_kept(current, desired, records, places, n - 1);
        let before = pairing(current, desired, records, places, n - 1);
        let pairs = pairing(current, desired, records, places, n);
        let key = canonical(current.record_type, records[places[n - 1]].endpoint.targets[0]);
        let fresh = keys_of(desired.record_type, before.fresh);
        assert(all[n - 1] == key);
        assert(all.take(n) =~= all.take(n - 1).push(key));
        assert(all =~= all.take(n) + all.skip(n));
        vstd::seq_lib::lemma_multiset_commutative(all.take(n), all.skip(n));
        assert(all.to_multiset().count(key) >= all.take(n).to_multiset().count(key));
        assert(fresh.to_multiset().count(key) > 0);
        assert(fresh.contains(key));
        let k = choose|k: int| 0 <= k < fresh.len() && fresh[k] == key;
        assert(canonical(desired.record_type, before.fresh[k]) == key);
        lemma_first_target(desired.record_type, before.fresh, key, 0);
        let i = first_target(desired.record_type, before.fresh, key, 0)->0;
        assert(keys_of(desired.record_type, pairs.fresh) =~= fresh.remove(i));
        assert(fresh[i] == key);
        assert(keys_of(desired.record_type, pairs.fresh).to_multiset().add(
            all.take(n).to_multiset(),
        ) =~= fresh.to_multiset().add(all.take(n - 1).to_multiset()));
    }
}

/// Where no other TTL is wanted, records that keep their target are left alone.
proof fn lemma_kept_steps_empty(
    kept: Seq<(int, Seq<char>)>,
    desired: EndpointModel,
    zone: Seq<char>,
    records: Seq<RecordModel>,
)
    requires
        forall|i: int|
            0 <= i < kept.len() ==> !wants_other_ttl(
                records[(#[trigger] kept[i]).0].endpoint,
                desired,
            ),
    ensures
        kept_steps(kept, desired, zone, records).len() == 0,
    decreases kept.len(),
{
    if kept.len() > 0 {
        let rest = kept.drop_last();
        assert forall|i: int| 0 <= i < rest.len() implies !wants_other_ttl(
            records[(#[trigger] rest[i]).0].endpoint,
            desired,
        ) by {
            assert(rest[i] == kept[i]);
        }
        lemma_kept_steps_empty(rest, desired, zone, records);
        assert(!wants_other_ttl(records[kept[kept.len() - 1].0].endpoint, desired));
    }
}

/// An update to the targets that there are, in any order and but for case and
/// dots, and to no other TTL, does nothing.
pub proof fn law_update_to_the_same_does_nothing(
    p: Progress,
    current: EndpointModel,
    desired: EndpointModel,
    state: StateModel,
)
    requires
        same_identity(current, desired),
        best_zone(state.zones, current.dns_name) is Some,
        find_records(current, current.targets.len() as int, state.records, p.deleted) is Ok,
        canonical_targets(current).to_multiset() == canonical_targets(desired).to_multiset(),
        forall|i: int|
            0 <= i < state.records.len() && same_identity(
                (#[trigger] state.records[i]).endpoint,
                current,
            ) ==> !wants_other_ttl(state.records[i].endpoint, desired),
    ensures
        replacement(p, current, desired, state) == p,
{
    broadcast use vstd::seq_lib::group_to_multiset_ensures;

    let records = state.records;
    let len = current.targets.len() as int;
    let places = find_records(current, len, records, p.deleted)->Ok_0;
    let pairs = pairing(current, desired, records, places, places.len() as int);
    lemma_find_records(current, len, records, p.deleted);
    assert forall|i: int| 0 <= i < places.len() implies canonical(
        current.record_type,
        records[#[trigger] places[i]].endpoint.targets[0],
    ) == canonical(current.record_type, current.targets[i]) by {
        assert(is_candidate(
            current,
            current.targets[i],
            records[places[i]],
            Set::empty(),
            p.deleted,
        ));
    }
    assert(keys_of(current.record_type, current.targets) =~= canonical_targets(current));
    assert(keys_of(desired.record_type, desired.targets) =~= canonical_targets(desired));
    lemma_same_targets_are_kept(current, desired, records, places, places.len() as int);
    let all = keys_of(current.record_type, current.targets);
    assert(all.take(len) =~= all);
    let left = keys_of(desired.record_type, pairs.fresh);
    assert(left.to_multiset().len() == 0) by {
        assert(left.to_multiset().add(all.to_multiset()).len() == left.to_multiset().len()
            + all.to_multiset().len());
    }
    assert(left.len() == 0);
    assert(pairs.fresh.len() == 0);
    lemma_pairing_places(current, desired, records, places, places.len() as int);
    assert forall|i: int| 0 <= i < pairs.kept.len() implies !wants_other_ttl(
        records[(#[trigger] pairs.kept[i]).0].endpoint,
        desired,
    ) by {
        assert(places.contains(pairs.kept[i].0));
        let k = choose|k: int| 0 <= k < places.len() && places[k] == pairs.kept[i].0;
        assert(is_candidate(
            current,
            current.targets[k],
            records[places[k]],
            Set::empty(),
            p.deleted,
        ));
    }
    let zone = best_zone(state.zones, current.dns_name)->0;
    lemma_kept_steps_empty(pairs.kept, desired, zone, records);
    let q = replacement(p, current, desired, state);
    assert(q == paired_steps(p, pairs, desired, zone, records));
    assert(pairs.changed.skip(0) =~= Seq::empty());
    assert(q.steps =~= p.steps);
}

// ---------------------------------------------------------------------------
// The operations of an update
// ---------------------------------------------------------------------------

/// A record that the old form of an endpoint names: it has the endpoint's identity and
/// one of its targets, and it is not deleted.
pub open spec fn is_named_by(
    record: RecordModel,
    current: EndpointModel,
    deleted: Set<u64>,
) -> bool {
    &&& same_identity(record.endpoint, current)
    &&& !deleted.contains(record.id)
    &&& record.endpoint.targets.len() > 0
    &&& canonical_targets(current).contains(
        canonical(current.record_type, record.endpoint.targets[0]),
    )
}

/// The list holds a record with this number and zone that the endpoint names.
pub open spec fn lists_named(
    records: Seq<RecordModel>,
    zone: Seq<char>,
    id: u64,
    current: EndpointModel,
    deleted: Set<u64>,
) -> bool {
    exists|i: int|
        0 <= i < records.len() && (#[trigger] records[i]).id == id && records[i].zone == zone
            && is_named_by(records[i], current, deleted)
}

/// What is written is one of the targets of the endpoint, with its TTL, under its name
/// in `home`.
pub open spec fn writes_one_of(
    change: ChangeModel,
    desired: EndpointModel,
    zone: Seq<char>,
    home: Seq<char>,
) -> bool {
    exists|i: int|
        0 <= i < desired.targets.len() && (change_of(desired, #[trigger] desired.targets[i], zone)
            matches Ok(written) && change == (ChangeModel {
            subdomain: written_subdomain(desired.dns_name, home),
            ..written
        }))
}

/// An operation that belongs to an update.
pub open spec fn is_for_update(
    operation: OperationModel,
    current: EndpointModel,
    desired: EndpointModel,
    deleted: Set<u64>,
    state: StateModel,
) -> bool {
    match best_zone(state.zones, current.dns_name) {
        None => false,
        Some(zone) => match operation {
            OperationModel::Create { zone: home, change } => home == zone && writes_one_of(
                change,
                desired,
                zone,
                zone,
            ),
            OperationModel::Update { zone: home, id, change } => lists_named(
                state.records,
                home,
                id,
                current,
                deleted,
            ) && writes_one_of(change, desired, zone, home),
            OperationModel::Delete { zone: home, id } => lists_named(
                state.records,
                home,
                id,
                current,
                deleted,
            ),
        },
    }
}

/// Changes of records come before new records, and these before deletions.
pub open spec fn turn(operation: OperationModel) -> int {
    match operation {
        OperationModel::Update { .. } => 0,
        OperationModel::Create { .. } => 1,
        OperationModel::Delete { .. } => 2,
    }
}

proof fn lemma_deletions_at_steps(p: Progress, records: Seq<RecordModel>, places: Seq<int>)
    ensures
        ({
            let steps = deletions_at(p, records, places).steps;
            &&& p.steps.len() <= steps.len()
            &&& forall|i: int| 0 <= i < p.steps.len() ==> #[trigger] steps[i] == p.steps[i]
            &&& forall|i: int|
                p.steps.len() <= i < steps.len() ==> is_deletion_at(
                    #[trigger] steps[i],
                    records,
                    places,
                )
        }),
    decreases places.len(),
{
    if places.len() > 0 {
        let front = places.drop_last();
        lemma_deletions_at_steps(p, records, front);
        let before = deletions_at(p, records, front).steps;
        let steps = deletions_at(p, records, places).steps;
        assert forall|i: int| p.steps.len() <= i < steps.len() implies is_deletion_at(
            #[trigger] steps[i],
            records,
            places,
        ) by {
            if i < before.len() {
                assert(steps[i] == before[i]);
                assert(is_deletion_at(before[i], records, front));
                let k = choose|k: int|
                    0 <= k < front.len() && before[i] == done(
                        OperationModel::Delete {
                            zone: records[#[trigger] front[k]].zone,
                            id: records[front[k]].id,
                        },
                    );
                assert(places[k] == front[k]);
            } else {
                assert(places[places.len() - 1] == places.last());
            }
        }
    }
}

/// A step that deletes the record at one of some places.
spec fn is_deletion_at(step: Step, records: Seq<RecordModel>, places: Seq<int>) -> bool {
    exists|k: int|
        0 <= k < places.len() && step == done(
            OperationModel::Delete {
                zone: records[#[trigger] places[k]].zone,
                id: records[places[k]].id,
            },
        )
}

/// The targets of a pairing are those of the new endpoint.
proof fn lemma_pairing_targets(
    current: EndpointModel,
    desired: EndpointModel,
    records: Seq<RecordModel>,
    places: Seq<int>,
    n: int,
)
    requires
        0 <= n <= places.len(),
    ensures
        ({
            let pairs = pairing(current, desired, records, places, n);
            &&& forall|i: int|
                0 <= i < pairs.kept.len() ==> desired.targets.contains((#[trigger] pairs.kept[i]).1)
            &&& forall|i: int|
                0 <= i < pairs.fresh.len() ==> desired.targets.contains(#[trigger] pairs.fresh[i])
        }),
    decreases n,
{
    let pairs = pairing(current, desired, records, places, n);
    if n <= 0 {
        assert forall|i: int| 0 <= i < pairs.fresh.len() implies desired.targets.contains(
            #[trigger] pairs.fresh[i],
        ) by {
            assert(pairs.fresh[i] == desired.targets[i]);
        }
    } else {
        lemma_pairing_targets(current, desired, records, places, n - 1);
        let before = pairing(current, desired, records, places, n - 1);
        let key = canonical(current.record_type, records[places[n - 1]].endpoint.targets[0]);
        lemma_first_target(desired.record_type, before.fresh, key, 0);
        if let Some(j) = first_target(desired.record_type, before.fresh, key, 0) {
            assert(desired.targets.contains(before.fresh[j]));
            assert forall|i: int| 0 <= i < pairs.kept.len() implies desired.targets.contains(
                (#[trigger] pairs.kept[i]).1,
            ) by {
                if i < before.kept.len() {
                    assert(pairs.kept[i] == before.kept[i]);
                }
            }
            assert forall|i: int| 0 <= i < pairs.fresh.len() implies desired.targets.contains(
                #[trigger] pairs.fresh[i],
            ) by {
                if i < j {
                    assert(pairs.fresh[i] == before.fresh[i]);
                } else {
                    assert(pairs.fresh[i] == before.fresh[i + 1]);
                }
            }
        }
    }
}

/// A step of an update that fails, or that changes a record which the update names.
spec fn is_change(
    step: Step,
    current: EndpointModel,
    desired: EndpointModel,
    deleted: Set<u64>,
    state: StateModel,
) -> bool {
    step matches Ok(operation) ==> operation is Update && is_for_update(
        operation,
        current,
        desired,
        deleted,
        state,
    )
}

proof fn lemma_one_change(
    place: int,
    target: Seq<char>,
    current: EndpointModel,
    desired: EndpointModel,
    deleted: Set<u64>,
    state: StateModel,
    zone: Seq<char>,
)
    requires
        0 <= place < state.records.len(),
        is_named_by(state.records[place], current, deleted),
        desired.targets.contains(target),
        best_zone(state.zones, current.dns_name) == Some(zone),
    ensures
        is_change(
            update_step(state.records[place], desired, target, zone),
            current,
            desired,
            deleted,
            state,
        ),
{
    let record = state.records[place];
    let i = choose|i: int| 0 <= i < desired.targets.len() && desired.targets[i] == target;
    assert(desired.targets[i] == target);
    if let Ok(written) = change_of(desired, target, zone) {
        let change = ChangeModel {
            subdomain: written_subdomain(desired.dns_name, record.zone),
            ..written
        };
        assert(writes_one_of(change, desired, zone, record.zone));
        assert(lists_named(state.records, record.zone, record.id, current, deleted));
    }
}

proof fn lemma_kept_changes(
    kept: Seq<(int, Seq<char>)>,
    current: EndpointModel,
    desired: EndpointModel,
    deleted: Set<u64>,
    state: StateModel,
    zone: Seq<char>,
)
    requires
        best_zone(state.zones, current.dns_name) == Some(zone),
        forall|i: int|
            0 <= i < kept.len() ==> {
                &&& 0 <= (#[trigger] kept[i]).0 < state.records.len()
                &&& is_named_by(state.records[kept[i].0], current, deleted)
                &&& desired.targets.contains(kept[i].1)
            },
    ensures
        forall|i: int|
            0 <= i < kept_steps(kept, desired, zone, state.records).len() ==> is_change(
                #[trigger] kept_steps(kept, desired, zone, state.records)[i],
                current,
                desired,
                deleted,
                state,
            ),
    decreases kept.len(),
{
    if kept.len() > 0 {
        let front = kept.drop_last();
        assert forall|i: int| 0 <= i < front.len() implies {
            &&& 0 <= (#[trigger] front[i]).0 < state.records.len()
            &&& is_named_by(state.records[front[i].0], current, deleted)
            &&& desired.targets.contains(front[i].1)
        } by {
            assert(front[i] == kept[i]);
        }
        lemma_kept_changes(front, current, desired, deleted, state, zone);
        let before = kept_steps(front, desired, zone, state.records);
        let steps = kept_steps(kept, desired, zone, state.records);
        assert(0 <= kept[kept.len() - 1].0 < state.records.len());
        lemma_one_change(kept.last().0, kept.last().1, current, desired, deleted, state, zone);
        assert forall|i: int| 0 <= i < steps.len() implies is_change(
            #[trigger] steps[i],
            current,
            desired,
            deleted,
            state,
        ) by {
            if i < before.len() {
                assert(steps[i] == before[i]);
            }
        }
    }
}

/// Every operation of an update is for it: a change or a deletion goes to a listed
/// record that the old form of the endpoint names, in the zone that the record is
/// listed in; a change or a new record writes one of the targets of the new form, and
/// new records go to the zone that is found for the name. Records are changed first,
/// and an update never creates records and deletes others.
pub proof fn law_operations_of_an_update(
    p: Progress,
    current: EndpointModel,
    desired: EndpointModel,
    state: StateModel,
)
    ensures
        ({
            let steps = replacement(p, current, desired, state).steps;
            &&& p.steps.len() <= steps.len()
            &&& forall|i: int| 0 <= i < p.steps.len() ==> #[trigger] steps[i] == p.steps[i]
            &&& forall|i: int|
                p.steps.len() <= i < steps.len() ==> ((#[trigger] steps[i]) matches Ok(operation)
                    ==> is_for_update(operation, current, desired, p.deleted, state))
            &&& forall|i: int, j: int|
                p.steps.len() <= i < j < steps.len() && (#[trigger] steps[i]) is Ok
                    && (#[trigger] steps[j]) is Ok ==> {
                    &&& turn(steps[i]->Ok_0) <= turn(steps[j]->Ok_0)
                    &&& !(steps[i]->Ok_0 is Create && steps[j]->Ok_0 is Delete)
                }
        }),
{
    let steps = replacement(p, current, desired, state).steps;
    let found = find_records(current, current.targets.len() as int, state.records, p.deleted);
    if same_identity(current, desired) && best_zone(state.zones, current.dns_name) is Some && found
        is Ok {
        let zone = best_zone(state.zones, current.dns_name)->0;
        let places = found->Ok_0;
        let pairs = pairing(current, desired, state.records, places, places.len() as int);
        let n = shorter(pairs.changed.len(), pairs.fresh.len());
        lemma_find_records(current, current.targets.len() as int, state.records, p.deleted);
        lemma_pairing_places(current, desired, state.records, places, places.len() as int);
        lemma_pairing_targets(current, desired, state.records, places, places.len() as int);
        assert forall|place: int| #[trigger] places.contains(place) implies 0 <= place
            < state.records.len() && is_named_by(state.records[place], current, p.deleted) by {
            let k = choose|k: int| 0 <= k < places.len() && places[k] == place;
            assert(0 <= places[k] < state.records.len());
            assert(canonical_targets(current)[k] == canonical(
                current.record_type,
                current.targets[k],
            ));
        }
        assert forall|i: int| 0 <= i < pairs.kept.len() implies {
            &&& 0 <= (#[trigger] pairs.kept[i]).0 < state.records.len()
            &&& is_named_by(state.records[pairs.kept[i].0], current, p.deleted)
            &&& desired.targets.contains(pairs.kept[i].1)
        } by {
            assert(places.contains(pairs.kept[i].0));
        }
        lemma_kept_changes(pairs.kept, current, desired, p.deleted, state, zone);
        let kept = kept_steps(pairs.kept, desired, zone, state.records);
        let changed = changed_steps(pairs, n, desired, zone, state.records);
        let rest = pairs.fresh.skip(n as int);
        let created = create_steps(desired, rest, zone);
        let gone = pairs.changed.skip(n as int);
        let written = p.with_steps(kept).with_steps(changed).with_steps(created);
        let a = p.steps.len() as int;
        let b = a + kept.len() + changed.len();
        let c = b + created.len();
        lemma_deletions_at_steps(written, state.records, gone);
        assert(written.steps.len() == c);
        assert forall|i: int| a <= i < steps.len() implies {
            &&& (#[trigger] steps[i]) matches Ok(operation) ==> is_for_update(
                operation,
                current,
                desired,
                p.deleted,
                state,
            )
            &&& steps[i] is Ok ==> turn(steps[i]->Ok_0) == (if i < b {
                0int
            } else if i < c {
                1int
            } else {
                2int
            })
        } by {
            if i < a + kept.len() {
                assert(steps[i] == written.steps[i]);
                assert(steps[i] == kept[i - a]);
            } else if i < b {
                let k = i - a - kept.len();
                assert(steps[i] == written.steps[i]);
                assert(steps[i] == changed[k]);
                assert(places.contains(pairs.changed[k]));
                lemma_one_change(
                    pairs.changed[k],
                    pairs.fresh[k],
                    current,
                    desired,
                    p.deleted,
                    state,
                    zone,
                );
            } else if i < c {
                let k = i - b;
                assert(steps[i] == written.steps[i]);
                assert(steps[i] == created[k]);
                assert(created[k] == create_step(desired, rest[k], zone));
                assert(rest[k] == pairs.fresh[n + k]);
                let t = choose|t: int|
                    0 <= t < desired.targets.len() && desired.targets[t] == rest[k];
                assert(desired.targets[t] == rest[k]);
                if let Ok(change) = change_of(desired, rest[k], zone) {
                    assert(writes_one_of(change, desired, zone, zone));
                }
            } else {
                assert(is_deletion_at(steps[i], state.records, gone));
                let k = choose|k: int|
                    0 <= k < gone.len() && steps[i] == done(
                        OperationModel::Delete {
                            zone: state.records[#[trigger] gone[k]].zone,
                            id: state.records[gone[k]].id,
                        },
                    );
                assert(gone[k] == pairs.changed[n + k]);
                assert(places.contains(pairs.changed[n + k]));
                let record = state.records[gone[k]];
                assert(lists_named(state.records, record.zone, record.id, current, p.deleted));
            }
        }
        assert(created.len() == 0 || gone.len() == 0);
        if gone.len() == 0 {
            assert(steps.len() == c);
        }
    }
}

/// The list begins with the records of an endpoint, one for each of its targets, in
/// the same order. No two of them have one number, and no two have one target.
pub open spec fn lists_in_order(current: EndpointModel, records: Seq<RecordModel>) -> bool {
    &&& current.targets.len() <= records.len()
    &&& forall|i: int|
        0 <= i < current.targets.len() ==> {
            &&& same_identity((#[trigger] records[i]).endpoint, current)
            &&& records[i].endpoint.targets.len() > 0
            &&& canonical(current.record_type, records[i].endpoint.targets[0]) == canonical(
                current.record_type,
                current.targets[i],
            )
        }
    &&& forall|i: int, j: int|
        0 <= i < j < current.targets.len() ==> (#[trigger] records[i]).id != (
        #[trigger] records[j]).id && canonical(
            current.record_type,
            records[i].endpoint.targets[0],
        ) != canonical(current.record_type, records[j].endpoint.targets[0])
}

/// The first `n` places.
spec fn first_places(n: int) -> Seq<int> {
    Seq::new(n as nat, |i: int| i)
}

proof fn lemma_ids_of_the_first(records: Seq<RecordModel>, n: int, id: u64)
    requires
        0 <= n <= records.len(),
        forall|i: int| 0 <= i < n ==> (#[trigger] records[i]).id != id,
    ensures
        !ids_at(records, first_places(n)).contains(id),
    decreases n,
{
    if n > 0 {
        lemma_ids_of_the_first(records, n - 1, id);
        assert(first_places(n).drop_last() =~= first_places(n - 1));
        assert(records[n - 1].id != id);
    }
}

proof fn lemma_candidate_in_order(
    current: EndpointModel,
    records: Seq<RecordModel>,
    n: int,
    from: int,
)
    requires
        lists_in_order(current, records),
        0 <= from <= n < current.targets.len(),
    ensures
        first_candidate(
            current,
            current.targets[n],
            records,
            ids_at(records, first_places(n)),
            Set::empty(),
            from,
        ) == Some(n),
    decreases n - from,
{
    assert(same_identity(records[n].endpoint, current));
    if from < n {
        assert(canonical(current.record_type, records[from].endpoint.targets[0]) != canonical(
            current.record_type,
            records[n].endpoint.targets[0],
        ));
        lemma_candidate_in_order(current, records, n, from + 1);
    } else {
        assert forall|i: int| 0 <= i < n implies (#[trigger] records[i]).id != records[n].id by {
            assert(records[i].id != records[n].id);
        }
        lemma_ids_of_the_first(records, n, records[n].id);
    }
}

proof fn lemma_found_in_order(current: EndpointModel, records: Seq<RecordModel>, n: int)
    requires
        lists_in_order(current, records),
        0 <= n <= current.targets.len(),
    ensures
        find_records(current, n, records, Set::empty()) == Ok::<Seq<int>, Seq<char>>(
            first_places(n),
        ),
    decreases n,
{
    if n > 0 {
        lemma_found_in_order(current, records, n - 1);
        lemma_candidate_in_order(current, records, n - 1, 0);
        assert(first_places(n - 1).push(n - 1) =~= first_places(n));
    } else {
        assert(first_places(n) =~= Seq::empty());
    }
}

proof fn lemma_nothing_is_kept(
    current: EndpointModel,
    desired: EndpointModel,
    records: Seq<RecordModel>,
    n: int,
)
    requires
        0 <= n <= current.targets.len() <= records.len(),
        forall|i: int, j: int|
            0 <= i < current.targets.len() && 0 <= j < desired.targets.len() ==> canonical(
                current.record_type,
                (#[trigger] records[i]).endpoint.targets[0],
            ) != canonical(desired.record_type, #[trigger] desired.targets[j]),
    ensures
        pairing(current, desired, records, first_places(current.targets.len() as int), n) == (
        Pairing { kept: Seq::empty(), changed: first_places(n), fresh: desired.targets }),
    decreases n,
{
    if n > 0 {
        lemma_nothing_is_kept(current, desired, records, n - 1);
        let key = canonical(current.record_type, records[n - 1].endpoint.targets[0]);
        lemma_first_target(desired.record_type, desired.targets, key, 0);
        assert(first_places(n - 1).push(n - 1) =~= first_places(n));
    } else {
        assert(first_places(n) =~= Seq::empty());
    }
}

/// The deletion of the record at a place.
pub open spec fn deletion_of(record: RecordModel) -> OperationModel {
    OperationModel::Delete { zone: record.zone, id: record.id }
}

proof fn lemma_deletions_in_order(p: Progress, records: Seq<RecordModel>, places: Seq<int>)
    requires
        forall|i: int| 0 <= i < places.len() ==> !p.deleted.contains(records[#[trigger] places[i]].id),
        forall|i: int, j: int|
            0 <= i < j < places.len() ==> records[#[trigger] places[i]].id
                != records[#[trigger] places[j]].id,
    ensures
        ({
            let q = deletions_at(p, records, places);
            &&& q.steps.len() == p.steps.len() + places.len()
            &&& forall|i: int|
                0 <= i < places.len() ==> q.steps[p.steps.len() + i] == done(
                    deletion_of(records[#[trigger] places[i]]),
                )
            &&& forall|i: int| 0 <= i < p.steps.len() ==> #[trigger] q.steps[i] == p.steps[i]
            &&& forall|id: u64| #[trigger] q.deleted.contains(id) ==> p.deleted.contains(id)
                || exists|i: int| 0 <= i < places.len() && records[#[trigger] places[i]].id == id
        }),
    decreases places.len(),
{
    if places.len() > 0 {
        let front = places.drop_last();
        assert forall|i: int| 0 <= i < front.len() implies !p.deleted.contains(
            records[#[trigger] front[i]].id,
        ) by {
            assert(front[i] == places[i]);
        }
        assert forall|i: int, j: int| 0 <= i < j < front.len() implies records[#[trigger] front[i]].id
            != records[#[trigger] front[j]].id by {
            assert(front[i] == places[i] && front[j] == places[j]);
        }
        lemma_deletions_in_order(p, records, front);
        let before = deletions_at(p, records, front);
        let q = deletions_at(p, records, places);
        let last = places[places.len() - 1];
        assert(last == places.last());
        assert(!before.deleted.contains(records[last].id)) by {
            if before.deleted.contains(records[last].id) {
                let i = choose|i: int|
                    0 <= i < front.len() && records[#[trigger] front[i]].id == records[last].id;
                assert(front[i] == places[i]);
            }
        }
        assert forall|i: int| 0 <= i < places.len() implies q.steps[p.steps.len() + i] == done(
            deletion_of(records[#[trigger] places[i]]),
        ) by {
            if i < front.len() {
                assert(front[i] == places[i]);
                assert(q.steps[p.steps.len() + i] == before.steps[p.steps.len() + i]);
            }
        }
        assert forall|id: u64| #[trigger] q.deleted.contains(id) implies p.deleted.contains(id)
            || exists|i: int| 0 <= i < places.len() && records[#[trigger] places[i]].id == id by {
            if before.deleted.contains(id) && !p.deleted.contains(id) {
                let i = choose|i: int|
                    0 <= i < front.len() && records[#[trigger] front[i]].id == id;
                assert(places[i] == front[i]);
            } else if !before.deleted.contains(id) {
                assert(records[last].id == id);
            }
        }
    }
}

/// Where every target is replaced by another, the records get the new targets one by
/// one, each in its place. If there are more new targets, the others are created, in
/// their order, and if there are more records, the others are deleted, in theirs.
pub proof fn law_records_are_reused_in_order(
    current: EndpointModel,
    desired: EndpointModel,
    state: StateModel,
    zone: Seq<char>,
    i: int,
)
    requires
        same_identity(current, desired),
        best_zone(state.zones, current.dns_name) == Some(zone),
        lists_in_order(current, state.records),
        forall|i: int, j: int|
            0 <= i < current.targets.len() && 0 <= j < desired.targets.len() ==> canonical(
                current.record_type,
                (#[trigger] state.records[i]).endpoint.targets[0],
            ) != canonical(desired.record_type, #[trigger] desired.targets[j]),
        0 <= i < current.targets.len() || 0 <= i < desired.targets.len(),
    ensures
        ({
            let steps = replacement(Progress::start(), current, desired, state).steps;
            &&& steps.len() == if current.targets.len() < desired.targets.len() {
                desired.targets.len()
            } else {
                current.targets.len()
            }
            &&& i < current.targets.len() && i < desired.targets.len() ==> (steps[i] matches Ok(
                operation,
            ) ==> (operation matches OperationModel::Update { zone: home, id, change } && home
                == state.records[i].zone && id == state.records[i].id && change.value
                == change_of(desired, desired.targets[i], zone)->Ok_0.value && change.priority
                == change_of(desired, desired.targets[i], zone)->Ok_0.priority))
            &&& i >= current.targets.len() ==> (steps[i] matches Ok(operation) ==> (
            operation matches OperationModel::Create { zone: home, change } && home == zone
                && change_of(desired, desired.targets[i], zone) == Ok::<ChangeModel, Seq<char>>(
                change,
            )))
            &&& i >= desired.targets.len() ==> steps[i] == done(deletion_of(state.records[i]))
        }),
{
    let records = state.records;
    let m = current.targets.len() as int;
    let start = Progress::start();
    let places = first_places(m);
    lemma_found_in_order(current, records, m);
    lemma_nothing_is_kept(current, desired, records, m);
    let pairs = pairing(current, desired, records, places, m);
    let n = shorter(pairs.changed.len(), pairs.fresh.len());
    let kept = kept_steps(pairs.kept, desired, zone, records);
    let changed = changed_steps(pairs, n, desired, zone, records);
    let created = create_steps(desired, pairs.fresh.skip(n as int), zone);
    let gone = pairs.changed.skip(n as int);
    let written = start.with_steps(kept).with_steps(changed).with_steps(created);
    assert(kept.len() == 0);
    assert forall|a: int| 0 <= a < gone.len() implies #[trigger] gone[a] == n + a by {
    }
    assert forall|a: int, b: int| 0 <= a < b < gone.len() implies records[#[trigger] gone[a]].id
        != records[#[trigger] gone[b]].id by {
        assert(records[n + a].id != records[n + b].id);
    }
    lemma_deletions_in_order(written, records, gone);
    let steps = replacement(start, current, desired, state).steps;
    assert(steps == deletions_at(written, records, gone).steps);
    if i < m && i < desired.targets.len() {
        assert(steps[i] == written.steps[i]);
        assert(written.steps[i] == changed[i]);
        assert(changed[i] == update_step(records[i], desired, desired.targets[i], zone));
    } else if i >= m {
        assert(steps[i] == written.steps[i]);
        assert(written.steps[i] == created[i - m]);
        assert(created[i - m] == create_step(desired, desired.targets[i], zone));
    } else {
        let k = i - n;
        assert(gone[k] == i);
        assert(written.steps.len() == n);
        assert(steps[written.steps.len() + k] == done(deletion_of(records[gone[k]])));
    }
}

/// Two steps delete two listed records, in the order of the list.
pub open spec fn delete_in_order(a: Step, b: Step, records: Seq<RecordModel>) -> bool {
    exists|i: int, j: int|
        0 <= i < j < records.len() && a == done(deletion_of(#[trigger] records[i])) && b == done(
            deletion_of(#[trigger] records[j]),
        )
}

/// A step deletes a listed record that the endpoint covers.
pub open spec fn deletes_covered(
    step: Step,
    endpoint: EndpointModel,
    records: Seq<RecordModel>,
) -> bool {
    exists|i: int|
        0 <= i < records.len() && step == done(deletion_of(#[trigger] records[i]))
            && covered_by_deletion(endpoint, records[i])
}

/// The steps of a deletion follow the steps before it. Each deletes a listed record that
/// the endpoint covers, one after the other as they are listed.
pub proof fn law_deletions_follow_the_list(
    p: Progress,
    endpoint: EndpointModel,
    records: Seq<RecordModel>,
)
    ensures
        ({
            let steps = deletion(p, endpoint, records).steps;
            let n = p.steps.len();
            &&& n <= steps.len()
            &&& forall|i: int| 0 <= i < n ==> #[trigger] steps[i] == p.steps[i]
            &&& forall|i: int|
                n <= i < steps.len() ==> deletes_covered(#[trigger] steps[i], endpoint, records)
            &&& forall|i: int, j: int|
                n <= i < j < steps.len() ==> delete_in_order(
                    #[trigger] steps[i],
                    #[trigger] steps[j],
                    records,
                )
        }),
    decreases records.len(),
{
    if records.len() > 0 {
        let front = records.drop_last();
        let last = records.len() - 1;
        law_deletions_follow_the_list(p, endpoint, front);
        let before = deletion(p, endpoint, front).steps;
        let steps = deletion(p, endpoint, records).steps;
        let n = p.steps.len();
        assert(records[last] == records.last());
        assert forall|i: int| n <= i < before.len() implies exists|k: int|
            0 <= k < last && (#[trigger] before[i]) == done(deletion_of(#[trigger] records[k]))
                && covered_by_deletion(endpoint, records[k]) by {
            assert(deletes_covered(before[i], endpoint, front));
            let k = choose|k: int|
                0 <= k < front.len() && before[i] == done(deletion_of(#[trigger] front[k]))
                    && covered_by_deletion(endpoint, front[k]);
            assert(records[k] == front[k]);
        }
        assert forall|i: int| n <= i < steps.len() implies deletes_covered(
            #[trigger] steps[i],
            endpoint,
            records,
        ) by {
            if i < before.len() {
                assert(steps[i] == before[i]);
            }
        }
        assert forall|i: int, j: int| n <= i < j < steps.len() implies delete_in_order(
            #[trigger] steps[i],
            #[trigger] steps[j],
            records,
        ) by {
            assert(steps[i] == before[i]);
            if j < before.len() {
                assert(steps[j] == before[j]);
                assert(delete_in_order(before[i], before[j], front));
                let (a, b) = choose|a: int, b: int|
                    0 <= a < b < front.len() && before[i] == done(
                        deletion_of(#[trigger] front[a]),
                    ) && before[j] == done(deletion_of(#[trigger] front[b]));
                assert(records[a] == front[a] && records[b] == front[b]);
            } else {
                let k = choose|k: int|
                    0 <= k < last && before[i] == done(deletion_of(#[trigger] records[k]))
                        && covered_by_deletion(endpoint, records[k]);
                assert(steps[j] == done(deletion_of(records[last])));
                assert(steps[i] == done(deletion_of(records[k])));
            }
        }
    }
}

/// Of the records that may stand for a target, the first one listed is taken that does
/// not stand for an earlier target. If there is none, that target is reported.
pub proof fn law_the_first_record_is_taken(
    endpoint: EndpointModel,
    n: int,
    records: Seq<RecordModel>,
    deleted: Set<u64>,
)
    requires
        0 <= n < endpoint.targets.len(),
        find_records(endpoint, n, records, deleted) is Ok,
    ensures
        ({
            let places = find_records(endpoint, n, records, deleted)->Ok_0;
            let used = ids_at(records, places);
            match find_records(endpoint, n + 1, records, deleted) {
                Ok(more) => {
                    &&& more.len() == places.len() + 1
                    &&& more.drop_last() == places
                    &&& 0 <= more.last() < records.len()
                    &&& is_candidate(
                        endpoint,
                        endpoint.targets[n],
                        records[more.last()],
                        used,
                        deleted,
                    )
                    &&& forall|i: int|
                        0 <= i < more.last() ==> !is_candidate(
                            endpoint,
                            endpoint.targets[n],
                            #[trigger] records[i],
                            used,
                            deleted,
                        )
                },
                Err(target) => {
                    &&& target == endpoint.targets[n]
                    &&& forall|i: int|
                        0 <= i < records.len() ==> !is_candidate(
                            endpoint,
                            target,
                            #[trigger] records[i],
                            used,
                            deleted,
                        )
                },
            }
        }),
{
    let places = find_records(endpoint, n, records, deleted)->Ok_0;
    let used = ids_at(records, places);
    lemma_first_candidate(endpoint, endpoint.targets[n], records, used, deleted, 0);
    lemma_none_before_the_first(endpoint, endpoint.targets[n], records, used, deleted, 0);
    if let Ok(more) = find_records(endpoint, n + 1, records, deleted) {
        assert(more.drop_last() =~= places);
    }
}

proof fn lemma_none_before_the_first(
    endpoint: EndpointModel,
    target: Seq<char>,
    records: Seq<RecordModel>,
    used: Set<u64>,
    deleted: Set<u64>,
    from: int,
)
    requires
        0 <= from,
    ensures
        first_candidate(endpoint, target, records, used, deleted, from) matches Some(place)
            ==> forall|i: int|
            from <= i < place ==> !is_candidate(
                endpoint,
                target,
                #[trigger] records[i],
                used,
                deleted,
            ),
    decreases records.len() - from,
{
    if from < records.len() && !is_candidate(endpoint, target, records[from], used, deleted) {
        lemma_none_before_the_first(endpoint, target, records, used, deleted, from + 1);
    }
}

/// A record stands for the first of the new targets with its canonical form, as the new
/// endpoint writes it.
pub proof fn law_the_first_target_is_taken(
    record_type: Seq<char>,
    targets: Seq<Seq<char>>,
    key: Seq<char>,
    from: int,
)
    requires
        0 <= from,
    ensures
        first_target(record_type, targets, key, from) matches Some(i) ==> {
            &&& from <= i < targets.len()
            &&& canonical(record_type, targets[i]) == key
            &&& forall|j: int|
                from <= j < i ==> canonical(record_type, #[trigger] targets[j]) != key
        },
        first_target(record_type, targets, key, from) is None ==> forall|j: int|
            from <= j < targets.len() ==> canonical(record_type, #[trigger] targets[j]) != key,
    decreases targets.len() - from,
{
    if from < targets.len() && canonical(record_type, targets[from]) != key {
        law_the_first_target_is_taken(record_type, targets, key, from + 1);
    }
}

} // verus!
