//! What a plan comes to at the API: which targets are listed for an endpoint after
//! its operations were carried out.
use crate::model::{ChangesModel, EndpointModel};
use crate::names::law_normal_form_ignores_case;
use crate::plan::{
    all_creations, all_deletions, all_replacements, all_steps, canonical_targets, changed_steps,
    covered_by_deletion, create_steps, creation, deletion, deletions_at, find_records,
    first_target, ids_at, is_candidate, kept_steps, law_steps_are_in_order,
    lemma_creation_extends, lemma_deletions_at_extend, lemma_replacement_extends, outcome,
    paired_steps, pairing, replacement, shorter, update_step, OperationModel, Pairing, Progress,
    StateModel, Step,
};
use crate::plan_laws::{
    kept_places, kept_targets, law_deletion_is_complete, law_update_leaves_the_targets_asked_for,
    law_update_to_the_same_does_nothing, lemma_find_records, lemma_first_candidate,
    lemma_first_target,
};
use crate::provider::ProviderErrorModel;
use crate::roundtrip::{
    change_in, is_plainly_written, is_well_written, law_written_record_is_recognised,
    written_response,
};
use crate::targets::{
    best_zone, canonical, change_of, law_best_zone, lies_in, same_identity, wants_other_ttl,
};
use crate::text::{lower, trimmed, upper};
use crate::timeweb::{record_of, RecordModel};
use vstd::multiset::*;
use vstd::prelude::*;

verus! {

// ---------------------------------------------------------------------------
// Model
// ---------------------------------------------------------------------------

/// What the API lists after it carried out an operation: a new record gets a
/// number from `fresh`, a changed one is what was written, a deleted one is gone.
pub open spec fn carried_out(
    records: Seq<RecordModel>,
    operation: OperationModel,
    fresh: spec_fn(Seq<RecordModel>) -> u64,
) -> Seq<RecordModel> {
    match operation {
        OperationModel::Create { zone, change } => records.push(
            record_of(written_response(fresh(records), change), zone)->Ok_0,
        ),
        OperationModel::Update { zone, id, change } => Seq::new(
            records.len(),
            |i: int|
                if records[i].id == id {
                    record_of(written_response(id, change), zone)->Ok_0
                } else {
                    records[i]
                },
        ),
        OperationModel::Delete { id, .. } => records.filter(|r: RecordModel| r.id != id),
    }
}

/// What the API lists after it carried out a list of operations, in order.
pub open spec fn after(
    records: Seq<RecordModel>,
    operations: Seq<OperationModel>,
    fresh: spec_fn(Seq<RecordModel>) -> u64,
) -> Seq<RecordModel>
    decreases operations.len(),
{
    if operations.len() == 0 {
        records
    } else {
        carried_out(after(records, operations.drop_last(), fresh), operations.last(), fresh)
    }
}

/// The API numbers a new record as no record is numbered yet.
pub open spec fn numbers_afresh(fresh: spec_fn(Seq<RecordModel>) -> u64) -> bool {
    forall|records: Seq<RecordModel>|
        #![trigger fresh(records)]
        records.len() < u64::MAX ==> fresh(records) > 0 && count_id(records, fresh(records)) == 0
}

/// How many records have a number.
pub open spec fn count_id(records: Seq<RecordModel>, id: u64) -> nat
    decreases records.len(),
{
    if records.len() == 0 {
        0
    } else {
        count_id(records.drop_last(), id) + if records.last().id == id {
            1nat
        } else {
            0nat
        }
    }
}

/// The list holds the record, and no other with its number.
pub open spec fn has_once(records: Seq<RecordModel>, record: RecordModel) -> bool {
    records.contains(record) && count_id(records, record.id) == 1
}

/// Every record is the only one with its number, and no number is zero.
pub open spec fn is_numbered(records: Seq<RecordModel>) -> bool {
    forall|i: int|
        0 <= i < records.len() ==> (#[trigger] records[i]).id > 0 && count_id(
            records,
            records[i].id,
        ) == 1
}

/// A target in canonical form, as one of those of `endpoint`.
pub open spec fn key(endpoint: EndpointModel, target: Seq<char>) -> Multiset<Seq<char>> {
    Multiset::singleton(canonical(endpoint.record_type, target))
}

/// The target that a record adds to those of an endpoint, none where it is a record
/// of another.
pub open spec fn key_in(record: RecordModel, endpoint: EndpointModel) -> Multiset<Seq<char>> {
    if same_identity(record.endpoint, endpoint) && record.endpoint.targets.len() > 0 {
        key(endpoint, record.endpoint.targets[0])
    } else {
        Multiset::empty()
    }
}

/// The targets that are listed for an endpoint, in canonical form.
pub open spec fn keys_at(records: Seq<RecordModel>, endpoint: EndpointModel) -> Multiset<Seq<char>>
    decreases records.len(),
{
    if records.len() == 0 {
        Multiset::empty()
    } else {
        keys_at(records.drop_last(), endpoint).add(key_in(records.last(), endpoint))
    }
}

// ---------------------------------------------------------------------------
// Lists of records
// ---------------------------------------------------------------------------

proof fn lemma_count_push(records: Seq<RecordModel>, record: RecordModel, id: u64)
    ensures
        count_id(records.push(record), id) == count_id(records, id) + if record.id == id {
            1nat
        } else {
            0nat
        },
{
    assert(records.push(record).drop_last() =~= records);
}

proof fn lemma_count_same_ids(a: Seq<RecordModel>, b: Seq<RecordModel>, id: u64)
    requires
        a.len() == b.len(),
        forall|i: int| 0 <= i < a.len() ==> (#[trigger] a[i]).id == b[i].id,
    ensures
        count_id(a, id) == count_id(b, id),
    decreases a.len(),
{
    if a.len() > 0 {
        assert forall|i: int| 0 <= i < a.drop_last().len() implies (#[trigger] a.drop_last()[i]).id
            == b.drop_last()[i].id by {
            assert(a[i].id == b[i].id);
        }
        lemma_count_same_ids(a.drop_last(), b.drop_last(), id);
        assert(a[a.len() - 1].id == b[b.len() - 1].id);
    }
}

/// Where there is a record with a number, it is counted.
proof fn lemma_count_positive(records: Seq<RecordModel>, i: int)
    requires
        0 <= i < records.len(),
    ensures
        count_id(records, records[i].id) >= 1,
    decreases records.len(),
{
    if i < records.len() - 1 {
        lemma_count_positive(records.drop_last(), i);
    }
}

/// Where a number is counted once, two places do not have it.
proof fn lemma_count_once(records: Seq<RecordModel>, i: int, j: int)
    requires
        0 <= i < j < records.len(),
        records[i].id == records[j].id,
    ensures
        count_id(records, records[i].id) >= 2,
    decreases records.len(),
{
    let front = records.drop_last();
    if j < records.len() - 1 {
        lemma_count_once(front, i, j);
    } else {
        lemma_count_positive(front, i);
    }
}

proof fn lemma_count_filter(records: Seq<RecordModel>, gone: u64, id: u64)
    ensures
        count_id(records.filter(|r: RecordModel| r.id != gone), id) == if id == gone {
            0
        } else {
            count_id(records, id)
        },
    decreases records.len(),
{
    let keep = |r: RecordModel| r.id != gone;
    reveal(Seq::filter);
    if records.len() > 0 {
        let front = records.drop_last();
        lemma_count_filter(front, gone, id);
        if keep(records.last()) {
            lemma_count_push(front.filter(keep), records.last(), id);
        }
    }
}

proof fn lemma_keys_push(records: Seq<RecordModel>, record: RecordModel, endpoint: EndpointModel)
    ensures
        keys_at(records.push(record), endpoint) == keys_at(records, endpoint).add(
            key_in(record, endpoint),
        ),
{
    assert(records.push(record).drop_last() =~= records);
}

proof fn lemma_keys_update(
    records: Seq<RecordModel>,
    i: int,
    record: RecordModel,
    endpoint: EndpointModel,
)
    requires
        0 <= i < records.len(),
    ensures
        keys_at(records.update(i, record), endpoint).add(key_in(records[i], endpoint)) == keys_at(
            records,
            endpoint,
        ).add(key_in(record, endpoint)),
    decreases records.len(),
{
    let front = records.drop_last();
    let changed = records.update(i, record);
    if i < records.len() - 1 {
        lemma_keys_update(front, i, record, endpoint);
        assert(changed.drop_last() =~= front.update(i, record));
        assert(front[i] == records[i]);
        assert(changed.last() == records.last());
        let a = keys_at(front.update(i, record), endpoint);
        let b = keys_at(front, endpoint);
        let tail = key_in(records.last(), endpoint);
        let gone = key_in(records[i], endpoint);
        let new = key_in(record, endpoint);
        assert(a.add(gone) == b.add(new));
        assert(a.add(tail).add(gone) =~= a.add(gone).add(tail));
        assert(b.add(tail).add(new) =~= b.add(new).add(tail));
        assert(keys_at(changed, endpoint).add(key_in(records[i], endpoint)) =~= keys_at(
            records,
            endpoint,
        ).add(key_in(record, endpoint)));
    } else {
        assert(changed.drop_last() =~= front);
        assert(keys_at(changed, endpoint).add(key_in(records[i], endpoint)) =~= keys_at(
            records,
            endpoint,
        ).add(key_in(record, endpoint)));
    }
}

/// Taking out a record takes its target off, and nothing else.
proof fn lemma_keys_filter(records: Seq<RecordModel>, record: RecordModel, endpoint: EndpointModel)
    requires
        has_once(records, record),
    ensures
        keys_at(records.filter(|r: RecordModel| r.id != record.id), endpoint).add(
            key_in(record, endpoint),
        ) == keys_at(records, endpoint),
    decreases records.len(),
{
    let keep = |r: RecordModel| r.id != record.id;
    reveal(Seq::filter);
    let front = records.drop_last();
    let k = choose|k: int| 0 <= k < records.len() && records[k] == record;
    if records.last().id == record.id {
        if k < records.len() - 1 {
            lemma_count_positive(front, k);
        }
        assert(records.last() == record);
        lemma_filter_keeps_all(front, record.id);
    } else {
        assert(front[k] == record);
        assert(front.contains(record));
        lemma_keys_filter(front, record, endpoint);
        lemma_keys_push(front.filter(keep), records.last(), endpoint);
        assert(keys_at(records.filter(keep), endpoint).add(key_in(record, endpoint)) =~= keys_at(
            records,
            endpoint,
        ));
    }
}

proof fn lemma_filter_keeps_all(records: Seq<RecordModel>, id: u64)
    requires
        count_id(records, id) == 0,
    ensures
        records.filter(|r: RecordModel| r.id != id) == records,
    decreases records.len(),
{
    reveal(Seq::filter);
    if records.len() > 0 {
        lemma_filter_keeps_all(records.drop_last(), id);
        assert(records =~= records.drop_last().push(records.last()));
    }
}

// ---------------------------------------------------------------------------
// One operation
// ---------------------------------------------------------------------------

/// Everything that is there once stays so, but for one number.
pub open spec fn keeps_but(
    before: Seq<RecordModel>,
    listed: Seq<RecordModel>,
    id: u64,
) -> bool {
    forall|record: RecordModel|
        #![trigger has_once(listed, record)]
        has_once(before, record) && record.id != id ==> has_once(listed, record)
}

proof fn lemma_update_carried_out(
    records: Seq<RecordModel>,
    record: RecordModel,
    operation: OperationModel,
    written: RecordModel,
    endpoint: EndpointModel,
    fresh: spec_fn(Seq<RecordModel>) -> u64,
)
    requires
        has_once(records, record),
        operation matches OperationModel::Update { zone, id, change } && id == record.id && written
            == record_of(written_response(id, change), zone)->Ok_0,
        written.id == record.id,
    ensures
        keys_at(carried_out(records, operation, fresh), endpoint).add(key_in(record, endpoint))
            == keys_at(records, endpoint).add(key_in(written, endpoint)),
        keeps_but(records, carried_out(records, operation, fresh), record.id),
        carried_out(records, operation, fresh).len() == records.len(),
{
    let k = choose|k: int| 0 <= k < records.len() && records[k] == record;
    let listed = carried_out(records, operation, fresh);
    assert forall|i: int| 0 <= i < records.len() && i != k implies (#[trigger] records[i]).id
        != record.id by {
        if records[i].id == record.id {
            if i < k {
                lemma_count_once(records, i, k);
            } else {
                lemma_count_once(records, k, i);
            }
        }
    }
    assert(listed =~= records.update(k, written));
    lemma_keys_update(records, k, written, endpoint);
    assert forall|other: RecordModel|
        #![trigger has_once(listed, other)]
        has_once(records, other) && other.id != record.id implies has_once(listed, other) by {
        let j = choose|j: int| 0 <= j < records.len() && records[j] == other;
        assert(listed[j] == other);
        lemma_count_same_ids(listed, records, other.id);
    }
}

proof fn lemma_create_carried_out(
    records: Seq<RecordModel>,
    operation: OperationModel,
    written: RecordModel,
    endpoint: EndpointModel,
    fresh: spec_fn(Seq<RecordModel>) -> u64,
)
    requires
        numbers_afresh(fresh),
        records.len() < u64::MAX,
        operation matches OperationModel::Create { zone, change } && written == record_of(
            written_response(fresh(records), change),
            zone,
        )->Ok_0,
        written.id == fresh(records),
    ensures
        keys_at(carried_out(records, operation, fresh), endpoint) == keys_at(records, endpoint).add(
            key_in(written, endpoint),
        ),
        forall|record: RecordModel|
            #![trigger has_once(carried_out(records, operation, fresh), record)]
            has_once(records, record) ==> has_once(
                carried_out(records, operation, fresh),
                record,
            ),
        carried_out(records, operation, fresh).len() == records.len() + 1,
{
    let listed = carried_out(records, operation, fresh);
    lemma_keys_push(records, written, endpoint);
    assert forall|record: RecordModel|
        #![trigger has_once(listed, record)]
        has_once(records, record) implies has_once(listed, record) by {
        let j = choose|j: int| 0 <= j < records.len() && records[j] == record;
        assert(listed[j] == record);
        lemma_count_push(records, written, record.id);
        lemma_count_positive(records, j);
    }
}

proof fn lemma_delete_carried_out(
    records: Seq<RecordModel>,
    record: RecordModel,
    operation: OperationModel,
    endpoint: EndpointModel,
    fresh: spec_fn(Seq<RecordModel>) -> u64,
)
    requires
        has_once(records, record),
        operation matches OperationModel::Delete { id, .. } && id == record.id,
    ensures
        keys_at(carried_out(records, operation, fresh), endpoint).add(key_in(record, endpoint))
            == keys_at(records, endpoint),
        keeps_but(records, carried_out(records, operation, fresh), record.id),
        carried_out(records, operation, fresh).len() <= records.len(),
{
    let keep = |r: RecordModel| r.id != record.id;
    let listed = carried_out(records, operation, fresh);
    assert(listed == records.filter(keep));
    records.lemma_filter_len(keep);
    lemma_keys_filter(records, record, endpoint);
    assert forall|other: RecordModel|
        #![trigger has_once(listed, other)]
        has_once(records, other) && other.id != record.id implies has_once(listed, other) by {
        let j = choose|j: int| 0 <= j < records.len() && records[j] == other;
        records.lemma_filter_contains(keep, j);
        lemma_count_filter(records, record.id, other.id);
    }
}

// ---------------------------------------------------------------------------
// Steps
// ---------------------------------------------------------------------------

/// What the API lists after a list of steps; an error changes nothing.
pub open spec fn steps_done(
    records: Seq<RecordModel>,
    steps: Seq<Step>,
    fresh: spec_fn(Seq<RecordModel>) -> u64,
) -> Seq<RecordModel>
    decreases steps.len(),
{
    if steps.len() == 0 {
        records
    } else {
        let before = steps_done(records, steps.drop_last(), fresh);
        match steps.last() {
            Ok(operation) => carried_out(before, operation, fresh),
            Err(_) => before,
        }
    }
}

proof fn lemma_steps_done_add(
    records: Seq<RecordModel>,
    a: Seq<Step>,
    b: Seq<Step>,
    fresh: spec_fn(Seq<RecordModel>) -> u64,
)
    ensures
        steps_done(records, a + b, fresh) == steps_done(steps_done(records, a, fresh), b, fresh),
    decreases b.len(),
{
    if b.len() == 0 {
        assert(a + b =~= a);
    } else {
        lemma_steps_done_add(records, a, b.drop_last(), fresh);
        assert((a + b).drop_last() =~= a + b.drop_last());
    }
}

/// No step is an error.
spec fn are_ok(steps: Seq<Step>) -> bool {
    forall|i: int| 0 <= i < steps.len() ==> (#[trigger] steps[i]) is Ok
}

proof fn lemma_beginning_is_ok(first: Seq<Step>, whole: Seq<Step>)
    requires
        first.is_prefix_of(whole),
        are_ok(whole),
    ensures
        are_ok(first),
{
    assert forall|i: int| 0 <= i < first.len() implies (#[trigger] first[i]) is Ok by {
        assert(first[i] == whole.subrange(0, first.len() as int)[i]);
        assert(whole[i] is Ok);
    }
}

/// Steps without an error do what the operations do that they come to.
proof fn lemma_outcome_done(
    records: Seq<RecordModel>,
    steps: Seq<Step>,
    fresh: spec_fn(Seq<RecordModel>) -> u64,
)
    requires
        outcome(steps).1 is None,
    ensures
        after(records, outcome(steps).0, fresh) == steps_done(records, steps, fresh),
        are_ok(steps),
    decreases steps.len(),
{
    if steps.len() > 0 {
        lemma_outcome_done(records, steps.drop_last(), fresh);
        let before = outcome(steps.drop_last()).0;
        assert(outcome(steps).0.drop_last() =~= before);
        assert forall|i: int| 0 <= i < steps.len() implies (#[trigger] steps[i]) is Ok by {
            if i < steps.len() - 1 {
                assert(steps.drop_last()[i] is Ok);
            }
        }
    }
}

// ---------------------------------------------------------------------------
// Targets
// ---------------------------------------------------------------------------

proof fn lemma_upper_of_lower(s: Seq<char>)
    ensures
        upper(lower(s)) == upper(s),
{
    assert forall|i: int| 0 <= i < s.len() implies upper(lower(s))[i] == upper(s)[i] by {
        let c = s[i];
        if 'A' <= c <= 'Z' {
            let u: u8 = (c as u8 + 32) as u8;
            assert('a' <= (u as char) <= 'z');
            assert((u as char) as u8 == u);
        }
    }
    assert(upper(lower(s)) =~= upper(s));
}

/// Types that are the same but for case compare targets alike.
proof fn lemma_canonical_type(a: EndpointModel, b: EndpointModel, target: Seq<char>)
    requires
        same_identity(a, b),
    ensures
        canonical(a.record_type, target) == canonical(b.record_type, target),
{
    lemma_upper_of_lower(a.record_type);
    lemma_upper_of_lower(b.record_type);
}

/// What a target of `desired` adds to the targets of an endpoint.
pub open spec fn target_key(
    desired: EndpointModel,
    target: Seq<char>,
    endpoint: EndpointModel,
) -> Multiset<Seq<char>> {
    if same_identity(desired, endpoint) {
        key(endpoint, target)
    } else {
        Multiset::empty()
    }
}

/// A record of `desired` adds what its target adds.
proof fn lemma_record_key(
    record: RecordModel,
    desired: EndpointModel,
    target: Seq<char>,
    endpoint: EndpointModel,
)
    requires
        same_identity(record.endpoint, desired),
        record.endpoint.targets.len() > 0,
        canonical(desired.record_type, record.endpoint.targets[0]) == canonical(
            desired.record_type,
            target,
        ),
    ensures
        key_in(record, endpoint) == target_key(desired, target, endpoint),
{
    if same_identity(desired, endpoint) {
        lemma_canonical_type(desired, endpoint, target);
        lemma_canonical_type(desired, endpoint, record.endpoint.targets[0]);
    }
}

/// The targets of a list of records.
pub open spec fn sum_records(
    places: Seq<int>,
    records: Seq<RecordModel>,
    endpoint: EndpointModel,
) -> Multiset<Seq<char>>
    decreases places.len(),
{
    if places.len() == 0 {
        Multiset::empty()
    } else {
        sum_records(places.drop_last(), records, endpoint).add(
            key_in(records[places.last()], endpoint),
        )
    }
}

/// What a list of targets of `desired` adds.
pub open spec fn sum_targets(
    targets: Seq<Seq<char>>,
    desired: EndpointModel,
    endpoint: EndpointModel,
) -> Multiset<Seq<char>>
    decreases targets.len(),
{
    if targets.len() == 0 {
        Multiset::empty()
    } else {
        sum_targets(targets.drop_last(), desired, endpoint).add(
            target_key(desired, targets.last(), endpoint),
        )
    }
}

proof fn lemma_sum_records_add(
    a: Seq<int>,
    b: Seq<int>,
    records: Seq<RecordModel>,
    endpoint: EndpointModel,
)
    ensures
        sum_records(a + b, records, endpoint) == sum_records(a, records, endpoint).add(
            sum_records(b, records, endpoint),
        ),
    decreases b.len(),
{
    if b.len() == 0 {
        assert(a + b =~= a);
        assert(sum_records(a, records, endpoint).add(Multiset::empty()) =~= sum_records(
            a,
            records,
            endpoint,
        ));
    } else {
        lemma_sum_records_add(a, b.drop_last(), records, endpoint);
        assert((a + b).drop_last() =~= a + b.drop_last());
        assert(sum_records(a + b, records, endpoint) =~= sum_records(a, records, endpoint).add(
            sum_records(b, records, endpoint),
        ));
    }
}

proof fn lemma_sum_targets_add(
    a: Seq<Seq<char>>,
    b: Seq<Seq<char>>,
    desired: EndpointModel,
    endpoint: EndpointModel,
)
    ensures
        sum_targets(a + b, desired, endpoint) == sum_targets(a, desired, endpoint).add(
            sum_targets(b, desired, endpoint),
        ),
    decreases b.len(),
{
    if b.len() == 0 {
        assert(a + b =~= a);
        assert(sum_targets(a, desired, endpoint).add(Multiset::empty()) =~= sum_targets(
            a,
            desired,
            endpoint,
        ));
    } else {
        lemma_sum_targets_add(a, b.drop_last(), desired, endpoint);
        assert((a + b).drop_last() =~= a + b.drop_last());
        assert(sum_targets(a + b, desired, endpoint) =~= sum_targets(a, desired, endpoint).add(
            sum_targets(b, desired, endpoint),
        ));
    }
}

proof fn lemma_sum_targets_remove(
    targets: Seq<Seq<char>>,
    i: int,
    desired: EndpointModel,
    endpoint: EndpointModel,
)
    requires
        0 <= i < targets.len(),
    ensures
        sum_targets(targets.remove(i), desired, endpoint).add(
            target_key(desired, targets[i], endpoint),
        ) == sum_targets(targets, desired, endpoint),
{
    let front = targets.take(i);
    let back = targets.skip(i + 1);
    let one = seq![targets[i]];
    assert(targets =~= (front + one) + back);
    assert(targets.remove(i) =~= front + back);
    lemma_sum_targets_add(front + one, back, desired, endpoint);
    lemma_sum_targets_add(front, one, desired, endpoint);
    lemma_sum_targets_add(front, back, desired, endpoint);
    assert(one.drop_last() =~= Seq::empty());
    assert(sum_targets(one.drop_last(), desired, endpoint) == Multiset::<Seq<char>>::empty());
    assert(one.last() == targets[i]);
    assert(sum_targets(one, desired, endpoint) =~= target_key(desired, targets[i], endpoint));
    assert(sum_targets(targets.remove(i), desired, endpoint).add(
        target_key(desired, targets[i], endpoint),
    ) =~= sum_targets(targets, desired, endpoint));
}

/// The targets of `desired` add up to its targets.
proof fn lemma_sum_targets_is_all(desired: EndpointModel, n: int)
    requires
        0 <= n <= desired.targets.len(),
    ensures
        sum_targets(desired.targets.take(n), desired, desired) == canonical_targets(desired).take(
            n,
        ).to_multiset(),
    decreases n,
{
    broadcast use vstd::seq_lib::group_to_multiset_ensures;

    let all = canonical_targets(desired);
    if n == 0 {
        assert(all.take(0) =~= Seq::empty());
        assert(desired.targets.take(0) =~= Seq::empty());
        assert(all.take(0).to_multiset() =~= Multiset::empty());
    } else {
        lemma_sum_targets_is_all(desired, n - 1);
        assert(desired.targets.take(n).drop_last() =~= desired.targets.take(n - 1));
        assert(all.take(n) =~= all.take(n - 1).push(all[n - 1]));
        assert(sum_targets(desired.targets.take(n), desired, desired) =~= all.take(n).to_multiset());
    }
}

/// Endpoints with one identity have one list of targets.
proof fn lemma_keys_same_identity(records: Seq<RecordModel>, a: EndpointModel, b: EndpointModel)
    requires
        same_identity(a, b),
    ensures
        keys_at(records, a) == keys_at(records, b),
    decreases records.len(),
{
    if records.len() > 0 {
        lemma_keys_same_identity(records.drop_last(), a, b);
        let record = records.last();
        if record.endpoint.targets.len() > 0 {
            lemma_canonical_type(a, b, record.endpoint.targets[0]);
        }
    }
}

// ---------------------------------------------------------------------------
// The steps of an update
// ---------------------------------------------------------------------------

/// The targets of an endpoint can be written so that they are read back.
pub open spec fn is_readable(endpoint: EndpointModel) -> bool {
    &&& is_well_written(endpoint)
    &&& forall|i: int|
        0 <= i < endpoint.targets.len() ==> is_plainly_written(
            upper(trimmed(endpoint.record_type)),
            #[trigger] endpoint.targets[i],
        )
}

/// A target of an endpoint that can be written so that it is read back.
spec fn is_readable_target(endpoint: EndpointModel, target: Seq<char>) -> bool {
    is_well_written(endpoint) && is_plainly_written(upper(trimmed(endpoint.record_type)), target)
}

/// A record of an endpoint, in a zone that the endpoint's name lies in.
spec fn is_record_of(record: RecordModel, endpoint: EndpointModel) -> bool {
    &&& record.id > 0
    &&& same_identity(record.endpoint, endpoint)
    &&& record.endpoint.targets.len() > 0
    &&& lies_in(endpoint.dns_name, record.zone)
}

/// One change of a record: its target goes, and the new one comes.
proof fn lemma_update_step_done(
    world: Seq<RecordModel>,
    record: RecordModel,
    desired: EndpointModel,
    target: Seq<char>,
    zone: Seq<char>,
    endpoint: EndpointModel,
    fresh: spec_fn(Seq<RecordModel>) -> u64,
)
    requires
        has_once(world, record),
        is_record_of(record, desired),
        is_readable_target(desired, target),
        update_step(record, desired, target, zone) is Ok,
    ensures
        ({
            let operation = update_step(record, desired, target, zone)->Ok_0;
            let listed = carried_out(world, operation, fresh);
            &&& keys_at(listed, endpoint).add(key_in(record, endpoint)) == keys_at(
                world,
                endpoint,
            ).add(target_key(desired, target, endpoint))
            &&& keeps_but(world, listed, record.id)
            &&& listed.len() == world.len()
        }),
{
    let operation = update_step(record, desired, target, zone)->Ok_0;
    law_written_record_is_recognised(record.id, desired, target, zone, record.zone);
    let change = change_in(desired, target, zone, record.zone);
    let written = record_of(written_response(record.id, change), record.zone)->Ok_0;
    assert(operation == OperationModel::Update { zone: record.zone, id: record.id, change });
    lemma_update_carried_out(world, record, operation, written, endpoint, fresh);
    lemma_record_key(written, desired, target, endpoint);
}

/// Everything that is there once and is not among some records stays so.
spec fn keeps_others(
    before: Seq<RecordModel>,
    listed: Seq<RecordModel>,
    places: Seq<int>,
    records: Seq<RecordModel>,
) -> bool {
    forall|record: RecordModel|
        #![trigger has_once(listed, record)]
        has_once(before, record) && (forall|i: int|
            0 <= i < places.len() ==> records[#[trigger] places[i]].id != record.id) ==> has_once(
            listed,
            record,
        )
}

/// The numbers of the records at some places are all different.
spec fn are_distinct(places: Seq<int>, records: Seq<RecordModel>) -> bool {
    forall|i: int, j: int|
        0 <= i < j < places.len() ==> records[#[trigger] places[i]].id
            != records[#[trigger] places[j]].id
}

/// One more record: what was kept but for the earlier ones is kept but for all.
proof fn lemma_keeps_others_push(
    before: Seq<RecordModel>,
    middle: Seq<RecordModel>,
    listed: Seq<RecordModel>,
    places: Seq<int>,
    records: Seq<RecordModel>,
)
    requires
        places.len() > 0,
        keeps_others(before, middle, places.drop_last(), records),
        keeps_but(middle, listed, records[places.last()].id),
    ensures
        keeps_others(before, listed, places, records),
{
    assert forall|record: RecordModel|
        #![trigger has_once(listed, record)]
        has_once(before, record) && (forall|i: int|
            0 <= i < places.len() ==> records[#[trigger] places[i]].id
                != record.id) implies has_once(listed, record) by {
        assert forall|i: int| 0 <= i < places.drop_last().len() implies records[#[trigger] places.drop_last()[i]].id
            != record.id by {
            assert(places.drop_last()[i] == places[i]);
        }
        assert(has_once(middle, record));
        assert(records[places[places.len() - 1]].id != record.id);
    }
}

proof fn lemma_front_distinct(places: Seq<int>, records: Seq<RecordModel>)
    requires
        are_distinct(places, records),
        places.len() > 0,
    ensures
        are_distinct(places.drop_last(), records),
        forall|i: int|
            0 <= i < places.drop_last().len() ==> records[#[trigger] places.drop_last()[i]].id
                != records[places.last()].id,
{
    let front = places.drop_last();
    assert forall|i: int, j: int| 0 <= i < j < front.len() implies records[#[trigger] front[i]].id
        != records[#[trigger] front[j]].id by {
        assert(records[places[i]].id != records[places[j]].id);
    }
    assert forall|i: int| 0 <= i < front.len() implies records[#[trigger] front[i]].id
        != records[places.last()].id by {
        assert(records[places[i]].id != records[places[places.len() - 1]].id);
    }
}

/// Records that keep their target keep it, whether or not their TTL is written.
proof fn lemma_kept_done(
    world: Seq<RecordModel>,
    kept: Seq<(int, Seq<char>)>,
    places: Seq<int>,
    desired: EndpointModel,
    zone: Seq<char>,
    records: Seq<RecordModel>,
    endpoint: EndpointModel,
    fresh: spec_fn(Seq<RecordModel>) -> u64,
)
    requires
        places.len() == kept.len(),
        forall|i: int| 0 <= i < kept.len() ==> (#[trigger] kept[i]).0 == places[i],
        are_distinct(places, records),
        forall|i: int|
            0 <= i < kept.len() ==> {
                &&& has_once(world, records[(#[trigger] kept[i]).0])
                &&& is_record_of(records[kept[i].0], desired)
                &&& is_readable_target(desired, kept[i].1)
                &&& canonical(desired.record_type, records[kept[i].0].endpoint.targets[0])
                    == canonical(desired.record_type, kept[i].1)
            },
        forall|i: int|
            0 <= i < kept_steps(kept, desired, zone, records).len() ==> (#[trigger] kept_steps(
                kept,
                desired,
                zone,
                records,
            )[i]) is Ok,
    ensures
        ({
            let listed = steps_done(world, kept_steps(kept, desired, zone, records), fresh);
            &&& keys_at(listed, endpoint) == keys_at(world, endpoint)
            &&& keeps_others(world, listed, places, records)
            &&& listed.len() == world.len()
        }),
    decreases kept.len(),
{
    if kept.len() > 0 {
        let front = kept.drop_last();
        let front_places = places.drop_last();
        let steps = kept_steps(kept, desired, zone, records);
        let before = kept_steps(front, desired, zone, records);
        assert forall|i: int| 0 <= i < front.len() implies (#[trigger] front[i]).0
            == front_places[i] by {
            assert(kept[i].0 == places[i]);
        }
        lemma_front_distinct(places, records);
        assert forall|i: int| 0 <= i < front.len() implies {
            &&& has_once(world, records[(#[trigger] front[i]).0])
            &&& is_record_of(records[front[i].0], desired)
            &&& is_readable_target(desired, front[i].1)
            &&& canonical(desired.record_type, records[front[i].0].endpoint.targets[0])
                == canonical(desired.record_type, front[i].1)
        } by {
            assert(front[i] == kept[i]);
        }
        assert forall|i: int| 0 <= i < before.len() implies (#[trigger] before[i]) is Ok by {
            assert(steps[i] == before[i]);
        }
        lemma_kept_done(world, front, front_places, desired, zone, records, endpoint, fresh);
        let middle = steps_done(world, before, fresh);
        let (place, target) = kept.last();
        assert(kept[kept.len() - 1].0 == places[places.len() - 1]);
        let record = records[place];
        if wants_other_ttl(record.endpoint, desired) {
            assert(steps.drop_last() =~= before);
            assert(steps[steps.len() - 1] is Ok);
            assert(has_once(middle, record));
            lemma_update_step_done(middle, record, desired, target, zone, endpoint, fresh);
            lemma_record_key(record, desired, target, endpoint);
            let listed = steps_done(world, steps, fresh);
            assert(keys_at(listed, endpoint) =~= keys_at(world, endpoint)) by {
                let k = target_key(desired, target, endpoint);
                assert(keys_at(listed, endpoint).add(k) == keys_at(middle, endpoint).add(k));
                assert forall|x: Seq<char>| #[trigger] keys_at(listed, endpoint).count(x) == keys_at(
                    middle,
                    endpoint,
                ).count(x) by {
                    assert(keys_at(listed, endpoint).add(k).count(x) == keys_at(
                        middle,
                        endpoint,
                    ).add(k).count(x));
                }
            }
            lemma_keeps_others_push(world, middle, listed, places, records);
        } else {
            assert(keeps_but(middle, middle, record.id));
            lemma_keeps_others_push(world, middle, middle, places, records);
        }
    }
}

/// Records whose target goes get new targets.
proof fn lemma_changed_done(
    world: Seq<RecordModel>,
    pairs: Pairing,
    n: nat,
    desired: EndpointModel,
    zone: Seq<char>,
    records: Seq<RecordModel>,
    endpoint: EndpointModel,
    fresh: spec_fn(Seq<RecordModel>) -> u64,
)
    requires
        n <= pairs.changed.len(),
        n <= pairs.fresh.len(),
        are_distinct(pairs.changed.take(n as int), records),
        forall|i: int|
            0 <= i < n ==> {
                &&& has_once(world, records[#[trigger] pairs.changed[i]])
                &&& is_record_of(records[pairs.changed[i]], desired)
                &&& is_readable_target(desired, pairs.fresh[i])
            },
        forall|i: int|
            0 <= i < n ==> (#[trigger] changed_steps(pairs, n, desired, zone, records)[i]) is Ok,
    ensures
        ({
            let places = pairs.changed.take(n as int);
            let listed = steps_done(world, changed_steps(pairs, n, desired, zone, records), fresh);
            &&& keys_at(listed, endpoint).add(sum_records(places, records, endpoint)) == keys_at(
                world,
                endpoint,
            ).add(sum_targets(pairs.fresh.take(n as int), desired, endpoint))
            &&& keeps_others(world, listed, places, records)
            &&& listed.len() == world.len()
        }),
    decreases n,
{
    let places = pairs.changed.take(n as int);
    let steps = changed_steps(pairs, n, desired, zone, records);
    if n == 0 {
        assert(steps =~= Seq::empty());
        assert(places =~= Seq::empty());
        assert(pairs.fresh.take(0) =~= Seq::empty());
    } else {
        let m = (n - 1) as nat;
        let before = changed_steps(pairs, m, desired, zone, records);
        assert(places.drop_last() =~= pairs.changed.take(m as int));
        assert(pairs.fresh.take(n as int).drop_last() =~= pairs.fresh.take(m as int));
        assert(steps.drop_last() =~= before);
        lemma_front_distinct(places, records);
        assert forall|i: int| 0 <= i < m implies (#[trigger] before[i]) is Ok by {
            assert(steps[i] == before[i]);
        }
        lemma_changed_done(world, pairs, m, desired, zone, records, endpoint, fresh);
        let middle = steps_done(world, before, fresh);
        let record = records[pairs.changed[n - 1]];
        let target = pairs.fresh[n - 1];
        assert(places.last() == pairs.changed[n - 1]);
        assert(has_once(world, record));
        assert(has_once(middle, record));
        assert(steps[n - 1] == update_step(record, desired, target, zone));
        lemma_update_step_done(middle, record, desired, target, zone, endpoint, fresh);
        let listed = steps_done(world, steps, fresh);
        lemma_keeps_others_push(world, middle, listed, places, records);
        let a = keys_at(listed, endpoint);
        let b = keys_at(middle, endpoint);
        let k = key_in(record, endpoint);
        let t = target_key(desired, target, endpoint);
        let old_keys = sum_records(places.drop_last(), records, endpoint);
        let new_keys = sum_targets(pairs.fresh.take(m as int), desired, endpoint);
        assert(a.add(k) == b.add(t));
        assert(b.add(old_keys) == keys_at(world, endpoint).add(new_keys));
        assert(a.add(old_keys.add(k)) =~= a.add(k).add(old_keys));
        assert(b.add(t).add(old_keys) =~= b.add(old_keys).add(t));
        assert(keys_at(world, endpoint).add(new_keys).add(t) =~= keys_at(world, endpoint).add(
            new_keys.add(t),
        ));
    }
}

/// New records add their targets.
proof fn lemma_created_done(
    world: Seq<RecordModel>,
    targets: Seq<Seq<char>>,
    desired: EndpointModel,
    zone: Seq<char>,
    endpoint: EndpointModel,
    fresh: spec_fn(Seq<RecordModel>) -> u64,
)
    requires
        numbers_afresh(fresh),
        world.len() + targets.len() <= u64::MAX,
        lies_in(desired.dns_name, zone),
        forall|i: int|
            0 <= i < targets.len() ==> is_readable_target(desired, #[trigger] targets[i]),
        forall|i: int|
            0 <= i < targets.len() ==> (#[trigger] create_steps(desired, targets, zone)[i]) is Ok,
    ensures
        ({
            let listed = steps_done(world, create_steps(desired, targets, zone), fresh);
            &&& keys_at(listed, endpoint) == keys_at(world, endpoint).add(
                sum_targets(targets, desired, endpoint),
            )
            &&& forall|record: RecordModel|
                #![trigger has_once(listed, record)]
                has_once(world, record) ==> has_once(listed, record)
            &&& listed.len() == world.len() + targets.len()
        }),
    decreases targets.len(),
{
    let steps = create_steps(desired, targets, zone);
    if targets.len() == 0 {
        assert(keys_at(world, endpoint).add(Multiset::empty()) =~= keys_at(world, endpoint));
    } else {
        let front = targets.drop_last();
        let before = create_steps(desired, front, zone);
        assert(steps.drop_last() =~= before);
        assert forall|i: int| 0 <= i < front.len() implies is_readable_target(
            desired,
            #[trigger] front[i],
        ) by {
            assert(front[i] == targets[i]);
        }
        assert forall|i: int| 0 <= i < front.len() implies (#[trigger] before[i]) is Ok by {
            assert(steps[i] == before[i]);
        }
        lemma_created_done(world, front, desired, zone, endpoint, fresh);
        let middle = steps_done(world, before, fresh);
        let target = targets[targets.len() - 1];
        assert(steps[targets.len() - 1] is Ok);
        assert(middle.len() < u64::MAX);
        let id = fresh(middle);
        law_written_record_is_recognised(id, desired, target, zone, zone);
        let change = change_of(desired, target, zone)->Ok_0;
        let written = record_of(written_response(id, change), zone)->Ok_0;
        let operation = OperationModel::Create { zone, change };
        assert(steps.last() == Ok::<OperationModel, ProviderErrorModel>(operation));
        lemma_create_carried_out(middle, operation, written, endpoint, fresh);
        lemma_record_key(written, desired, target, endpoint);
        let t = target_key(desired, target, endpoint);
        let sum = sum_targets(front, desired, endpoint);
        assert(keys_at(world, endpoint).add(sum).add(t) =~= keys_at(world, endpoint).add(
            sum.add(t),
        ));
    }
}

/// Deleted records take their targets away.
proof fn lemma_deleted_done(
    start: Seq<RecordModel>,
    p: Progress,
    places: Seq<int>,
    records: Seq<RecordModel>,
    endpoint: EndpointModel,
    fresh: spec_fn(Seq<RecordModel>) -> u64,
)
    requires
        are_distinct(places, records),
        forall|i: int|
            0 <= i < places.len() ==> {
                &&& has_once(steps_done(start, p.steps, fresh), records[#[trigger] places[i]])
                &&& !p.deleted.contains(records[places[i]].id)
            },
    ensures
        ({
            let before = steps_done(start, p.steps, fresh);
            let listed = steps_done(start, deletions_at(p, records, places).steps, fresh);
            &&& keys_at(listed, endpoint).add(sum_records(places, records, endpoint)) == keys_at(
                before,
                endpoint,
            )
            &&& keeps_others(before, listed, places, records)
            &&& listed.len() <= before.len()
            &&& forall|id: u64|
                deletions_at(p, records, places).deleted.contains(id) ==> p.deleted.contains(id)
                    || exists|i: int|
                    0 <= i < places.len() && records[#[trigger] places[i]].id == id
        }),
    decreases places.len(),
{
    let before = steps_done(start, p.steps, fresh);
    if places.len() == 0 {
        assert(keys_at(before, endpoint).add(Multiset::empty()) =~= keys_at(before, endpoint));
    } else {
        let front = places.drop_last();
        lemma_front_distinct(places, records);
        assert forall|i: int| 0 <= i < front.len() implies {
            &&& has_once(before, records[#[trigger] front[i]])
            &&& !p.deleted.contains(records[front[i]].id)
        } by {
            assert(front[i] == places[i]);
        }
        lemma_deleted_done(start, p, front, records, endpoint, fresh);
        let q = deletions_at(p, records, front);
        let middle = steps_done(start, q.steps, fresh);
        let record = records[places.last()];
        assert(places[places.len() - 1] == places.last());
        assert(has_once(before, record));
        assert(has_once(middle, record));
        assert(!q.deleted.contains(record.id));
        let whole = deletions_at(p, records, places);
        assert(whole.steps.drop_last() =~= q.steps);
        let operation = OperationModel::Delete { zone: record.zone, id: record.id };
        lemma_delete_carried_out(middle, record, operation, endpoint, fresh);
        let listed = steps_done(start, whole.steps, fresh);
        lemma_keeps_others_push(before, middle, listed, places, records);
        let k = key_in(record, endpoint);
        let sum = sum_records(front, records, endpoint);
        assert(keys_at(listed, endpoint).add(sum.add(k)) =~= keys_at(listed, endpoint).add(k).add(
            sum,
        ));
        assert forall|id: u64| whole.deleted.contains(id) implies p.deleted.contains(id) || exists|
            i: int,
        |
            0 <= i < places.len() && records[#[trigger] places[i]].id == id by {
            if id == record.id {
                assert(records[places[places.len() - 1]].id == id);
            } else if !p.deleted.contains(id) {
                assert(q.deleted.contains(id));
                let i = choose|i: int|
                    0 <= i < front.len() && records[#[trigger] front[i]].id == id;
                assert(records[places[i]].id == id);
            }
        }
    }
}

// ---------------------------------------------------------------------------
// The records of an update
// ---------------------------------------------------------------------------

proof fn lemma_ids_at(records: Seq<RecordModel>, places: Seq<int>, i: int)
    requires
        0 <= i < places.len(),
    ensures
        ids_at(records, places).contains(records[places[i]].id),
    decreases places.len(),
{
    if i < places.len() - 1 {
        lemma_ids_at(records, places.drop_last(), i);
    }
}

/// No record is found twice.
proof fn lemma_found_distinct(
    endpoint: EndpointModel,
    n: int,
    records: Seq<RecordModel>,
    deleted: Set<u64>,
)
    requires
        0 <= n <= endpoint.targets.len(),
    ensures
        find_records(endpoint, n, records, deleted) matches Ok(places) ==> are_distinct(
            places,
            records,
        ),
    decreases n,
{
    if n > 0 {
        lemma_found_distinct(endpoint, n - 1, records, deleted);
        if let (Ok(before), Ok(places)) = (
            find_records(endpoint, n - 1, records, deleted),
            find_records(endpoint, n, records, deleted),
        ) {
            lemma_first_candidate(
                endpoint,
                endpoint.targets[n - 1],
                records,
                ids_at(records, before),
                deleted,
                0,
            );
            assert forall|i: int, j: int| 0 <= i < j < places.len() implies records[#[trigger] places[i]].id
                != records[#[trigger] places[j]].id by {
                assert(places[i] == before[i]);
                if j < before.len() {
                    assert(places[j] == before[j]);
                } else {
                    lemma_ids_at(records, before, i);
                }
            }
        }
    }
}

/// A place among the first `n`.
spec fn is_among(place: int, places: Seq<int>, n: int) -> bool {
    exists|k: int| 0 <= k < n && #[trigger] places[k] == place
}

/// The records of a pairing are different ones of those that were found.
spec fn is_apart(pairs: Pairing, records: Seq<RecordModel>, places: Seq<int>, n: int) -> bool {
    &&& are_distinct(kept_places(pairs), records)
    &&& are_distinct(pairs.changed, records)
    &&& forall|i: int, j: int|
        0 <= i < pairs.kept.len() && 0 <= j < pairs.changed.len()
            ==> records[(#[trigger] pairs.kept[i]).0].id != records[#[trigger] pairs.changed[j]].id
    &&& forall|i: int|
        0 <= i < pairs.kept.len() ==> is_among((#[trigger] pairs.kept[i]).0, places, n)
    &&& forall|i: int|
        0 <= i < pairs.changed.len() ==> is_among(#[trigger] pairs.changed[i], places, n)
}

proof fn lemma_pairing_is_apart(
    current: EndpointModel,
    desired: EndpointModel,
    records: Seq<RecordModel>,
    places: Seq<int>,
    n: int,
)
    requires
        0 <= n <= places.len(),
        are_distinct(places, records),
    ensures
        is_apart(pairing(current, desired, records, places, n), records, places, n),
    decreases n,
{
    let pairs = pairing(current, desired, records, places, n);
    if n == 0 {
        assert(kept_places(pairs) =~= Seq::empty());
    } else {
        lemma_pairing_is_apart(current, desired, records, places, n - 1);
        let before = pairing(current, desired, records, places, n - 1);
        let place = places[n - 1];
        assert(is_among(place, places, n));
        assert forall|other: int| is_among(other, places, n - 1) implies records[other].id
            != records[place].id && is_among(other, places, n) by {
            let k = choose|k: int| 0 <= k < n - 1 && #[trigger] places[k] == other;
            assert(records[places[k]].id != records[places[n - 1]].id);
            assert(places[k] == other);
        }
        let kept = kept_places(pairs);
        let kept_before = kept_places(before);
        assert forall|i: int| 0 <= i < kept_before.len() implies #[trigger] kept_before[i]
            == before.kept[i].0 by {}
        assert forall|i: int| 0 <= i < kept.len() implies #[trigger] kept[i]
            == pairs.kept[i].0 by {}
        assert forall|i: int| 0 <= i < pairs.kept.len() implies is_among(
            (#[trigger] pairs.kept[i]).0,
            places,
            n,
        ) by {
            if i < before.kept.len() {
                assert(pairs.kept[i] == before.kept[i]);
            }
        }
        assert forall|i: int| 0 <= i < pairs.changed.len() implies is_among(
            #[trigger] pairs.changed[i],
            places,
            n,
        ) by {
            if i < before.changed.len() {
                assert(pairs.changed[i] == before.changed[i]);
            }
        }
        assert forall|i: int, j: int| 0 <= i < j < kept.len() implies records[#[trigger] kept[i]].id
            != records[#[trigger] kept[j]].id by {
            assert(kept[i] == kept_before[i]);
            assert(before.kept[i].0 == kept_before[i]);
            if j < kept_before.len() {
                assert(kept[j] == kept_before[j]);
            }
        }
        assert forall|i: int, j: int| 0 <= i < j < pairs.changed.len() implies records[#[trigger] pairs.changed[i]].id
            != records[#[trigger] pairs.changed[j]].id by {
            assert(pairs.changed[i] == before.changed[i]);
            if j < before.changed.len() {
                assert(pairs.changed[j] == before.changed[j]);
            }
        }
        assert forall|i: int, j: int|
            0 <= i < pairs.kept.len() && 0 <= j < pairs.changed.len() implies records[(
        #[trigger] pairs.kept[i]).0].id != records[#[trigger] pairs.changed[j]].id by {
            if i < before.kept.len() {
                assert(pairs.kept[i] == before.kept[i]);
            }
            if j < before.changed.len() {
                assert(pairs.changed[j] == before.changed[j]);
            }
        }
    }
}

/// The targets that are kept and the new ones are those of the new endpoint.
spec fn is_drawn_from(pairs: Pairing, desired: EndpointModel) -> bool {
    &&& forall|i: int|
        0 <= i < pairs.kept.len() ==> desired.targets.contains((#[trigger] pairs.kept[i]).1)
    &&& forall|i: int|
        0 <= i < pairs.fresh.len() ==> desired.targets.contains(#[trigger] pairs.fresh[i])
}

proof fn lemma_pairing_sums(
    current: EndpointModel,
    desired: EndpointModel,
    records: Seq<RecordModel>,
    places: Seq<int>,
    n: int,
    endpoint: EndpointModel,
)
    requires
        0 <= n <= places.len(),
    ensures
        ({
            let pairs = pairing(current, desired, records, places, n);
            &&& sum_records(kept_places(pairs), records, endpoint).add(
                sum_records(pairs.changed, records, endpoint),
            ) == sum_records(places.take(n), records, endpoint)
            &&& sum_targets(kept_targets(pairs), desired, endpoint).add(
                sum_targets(pairs.fresh, desired, endpoint),
            ) == sum_targets(desired.targets, desired, endpoint)
            &&& is_drawn_from(pairs, desired)
        }),
    decreases n,
{
    let pairs = pairing(current, desired, records, places, n);
    if n == 0 {
        assert(kept_places(pairs) =~= Seq::empty());
        assert(kept_targets(pairs) =~= Seq::empty());
        assert(places.take(0) =~= Seq::empty());
        assert(sum_records(kept_places(pairs), records, endpoint).add(
            sum_records(pairs.changed, records, endpoint),
        ) =~= sum_records(places.take(n), records, endpoint));
        assert(sum_targets(kept_targets(pairs), desired, endpoint).add(
            sum_targets(pairs.fresh, desired, endpoint),
        ) =~= sum_targets(desired.targets, desired, endpoint));
    } else {
        lemma_pairing_sums(current, desired, records, places, n - 1, endpoint);
        let before = pairing(current, desired, records, places, n - 1);
        let place = places[n - 1];
        let found = canonical(current.record_type, records[place].endpoint.targets[0]);
        assert(places.take(n).drop_last() =~= places.take(n - 1));
        assert(places.take(n).last() == place);
        lemma_first_target(desired.record_type, before.fresh, found, 0);
        match first_target(desired.record_type, before.fresh, found, 0) {
            Some(i) => {
                let target = before.fresh[i];
                assert(kept_places(pairs).drop_last() =~= kept_places(before));
                assert(kept_targets(pairs).drop_last() =~= kept_targets(before));
                lemma_sum_targets_remove(before.fresh, i, desired, endpoint);
                assert(sum_records(kept_places(pairs), records, endpoint).add(
                    sum_records(pairs.changed, records, endpoint),
                ) =~= sum_records(places.take(n), records, endpoint));
                assert(sum_targets(kept_targets(pairs), desired, endpoint).add(
                    sum_targets(pairs.fresh, desired, endpoint),
                ) =~= sum_targets(kept_targets(before), desired, endpoint).add(
                    sum_targets(before.fresh, desired, endpoint),
                ));
                assert(desired.targets.contains(before.fresh[i]));
                assert forall|j: int| 0 <= j < pairs.kept.len() implies desired.targets.contains(
                    (#[trigger] pairs.kept[j]).1,
                ) by {
                    if j < before.kept.len() {
                        assert(pairs.kept[j] == before.kept[j]);
                    }
                }
                assert forall|j: int| 0 <= j < pairs.fresh.len() implies desired.targets.contains(
                    #[trigger] pairs.fresh[j],
                ) by {
                    if j < i {
                        assert(pairs.fresh[j] == before.fresh[j]);
                    } else {
                        assert(pairs.fresh[j] == before.fresh[j + 1]);
                    }
                }
            },
            None => {
                assert(pairs.changed.drop_last() =~= before.changed);
                assert(sum_records(kept_places(pairs), records, endpoint).add(
                    sum_records(pairs.changed, records, endpoint),
                ) =~= sum_records(places.take(n), records, endpoint));
            },
        }
    }
}

/// Records that keep their targets add what those targets add.
proof fn lemma_kept_sums(
    pairs: Pairing,
    n: int,
    desired: EndpointModel,
    records: Seq<RecordModel>,
    endpoint: EndpointModel,
)
    requires
        0 <= n <= pairs.kept.len(),
        forall|i: int|
            0 <= i < pairs.kept.len() ==> {
                &&& is_record_of(records[(#[trigger] pairs.kept[i]).0], desired)
                &&& canonical(desired.record_type, records[pairs.kept[i].0].endpoint.targets[0])
                    == canonical(desired.record_type, pairs.kept[i].1)
            },
    ensures
        sum_records(kept_places(pairs).take(n), records, endpoint) == sum_targets(
            kept_targets(pairs).take(n),
            desired,
            endpoint,
        ),
    decreases n,
{
    if n > 0 {
        lemma_kept_sums(pairs, n - 1, desired, records, endpoint);
        let (place, target) = pairs.kept[n - 1];
        assert(kept_places(pairs).take(n).drop_last() =~= kept_places(pairs).take(n - 1));
        assert(kept_targets(pairs).take(n).drop_last() =~= kept_targets(pairs).take(n - 1));
        assert(is_record_of(records[pairs.kept[n - 1].0], desired));
        lemma_record_key(records[place], desired, target, endpoint);
    } else {
        assert(kept_places(pairs).take(0) =~= Seq::empty());
        assert(kept_targets(pairs).take(0) =~= Seq::empty());
    }
}

/// The records that were found for an endpoint add its targets.
proof fn lemma_found_sums(
    current: EndpointModel,
    desired: EndpointModel,
    records: Seq<RecordModel>,
    places: Seq<int>,
    n: int,
)
    requires
        0 <= n <= places.len(),
        places.len() == current.targets.len(),
        same_identity(current, desired),
        forall|i: int|
            0 <= i < places.len() ==> {
                &&& same_identity(records[#[trigger] places[i]].endpoint, current)
                &&& records[places[i]].endpoint.targets.len() > 0
                &&& canonical(current.record_type, records[places[i]].endpoint.targets[0])
                    == canonical(current.record_type, current.targets[i])
            },
    ensures
        sum_records(places.take(n), records, desired) == canonical_targets(current).take(
            n,
        ).to_multiset(),
    decreases n,
{
    broadcast use vstd::seq_lib::group_to_multiset_ensures;

    let all = canonical_targets(current);
    if n == 0 {
        assert(all.take(0) =~= Seq::empty());
        assert(places.take(0) =~= Seq::empty());
        assert(all.take(0).to_multiset() =~= Multiset::empty());
    } else {
        lemma_found_sums(current, desired, records, places, n - 1);
        assert(places.take(n).drop_last() =~= places.take(n - 1));
        assert(places.take(n).last() == places[n - 1]);
        assert(all.take(n) =~= all.take(n - 1).push(all[n - 1]));
        let record = records[places[n - 1]];
        lemma_canonical_type(current, desired, record.endpoint.targets[0]);
        assert(key_in(record, desired) == Multiset::singleton(all[n - 1]));
        assert(sum_records(places.take(n), records, desired) =~= all.take(n).to_multiset());
    }
}

/// What is not of an endpoint adds nothing to it.
proof fn lemma_strangers_add_nothing(
    targets: Seq<Seq<char>>,
    places: Seq<int>,
    records: Seq<RecordModel>,
    desired: EndpointModel,
    other: EndpointModel,
)
    requires
        !same_identity(desired, other),
        forall|i: int|
            0 <= i < places.len() ==> same_identity(
                records[#[trigger] places[i]].endpoint,
                desired,
            ),
    ensures
        sum_targets(targets, desired, other) == Multiset::<Seq<char>>::empty(),
        sum_records(places, records, other) == Multiset::<Seq<char>>::empty(),
    decreases targets.len() + places.len(),
{
    if targets.len() > 0 {
        lemma_strangers_add_nothing(targets.drop_last(), places, records, desired, other);
        assert(sum_targets(targets, desired, other) =~= Multiset::<Seq<char>>::empty());
    } else if places.len() > 0 {
        let front = places.drop_last();
        assert forall|i: int| 0 <= i < front.len() implies same_identity(
            records[#[trigger] front[i]].endpoint,
            desired,
        ) by {
            assert(front[i] == places[i]);
        }
        lemma_strangers_add_nothing(targets, front, records, desired, other);
        assert(same_identity(records[places[places.len() - 1]].endpoint, desired));
        assert(sum_records(places, records, other) =~= Multiset::<Seq<char>>::empty());
    }
}

// ---------------------------------------------------------------------------
// Laws
// ---------------------------------------------------------------------------

/// The records of an endpoint can be changed into those of `desired`, and the API
/// can number new ones.
pub open spec fn can_be_updated(
    desired: EndpointModel,
    records: Seq<RecordModel>,
    fresh: spec_fn(Seq<RecordModel>) -> u64,
) -> bool {
    &&& is_readable(desired)
    &&& is_numbered(records)
    &&& numbers_afresh(fresh)
    &&& records.len() + desired.targets.len() <= u64::MAX
    &&& forall|i: int|
        0 <= i < records.len() && same_identity((#[trigger] records[i]).endpoint, desired)
            ==> lies_in(desired.dns_name, records[i].zone)
}

proof fn lemma_is_readable(endpoint: EndpointModel, target: Seq<char>)
    requires
        is_readable(endpoint),
        endpoint.targets.contains(target),
    ensures
        is_readable_target(endpoint, target),
{
    let i = choose|i: int| 0 <= i < endpoint.targets.len() && endpoint.targets[i] == target;
    assert(is_plainly_written(upper(trimmed(endpoint.record_type)), endpoint.targets[i]));
}

/// Where the steps of a pairing are without an error, so are its parts.
proof fn lemma_parts_without_error(
    p: Progress,
    pairs: Pairing,
    desired: EndpointModel,
    zone: Seq<char>,
    records: Seq<RecordModel>,
)
    requires
        are_ok(paired_steps(p, pairs, desired, zone, records).steps),
    ensures
        ({
            let n = shorter(pairs.changed.len(), pairs.fresh.len());
            &&& are_ok(kept_steps(pairs.kept, desired, zone, records))
            &&& are_ok(changed_steps(pairs, n, desired, zone, records))
            &&& are_ok(create_steps(desired, pairs.fresh.skip(n as int), zone))
        }),
{
    let n = shorter(pairs.changed.len(), pairs.fresh.len());
    let kept = kept_steps(pairs.kept, desired, zone, records);
    let changed = changed_steps(pairs, n, desired, zone, records);
    let created = create_steps(desired, pairs.fresh.skip(n as int), zone);
    let rest = pairs.changed.skip(n as int);
    let p3 = p.with_steps(kept).with_steps(changed).with_steps(created);
    let steps = paired_steps(p, pairs, desired, zone, records).steps;
    assert(steps == deletions_at(p3, records, rest).steps);
    lemma_deletions_at_extend(p3, records, rest);
    lemma_beginning_is_ok(p3.steps, steps);
    assert(p3.steps =~= ((p.steps + kept) + changed) + created);
    let m = p.steps.len();
    assert forall|i: int| 0 <= i < kept.len() implies (#[trigger] kept[i]) is Ok by {
        assert(p3.steps[m + i] == kept[i]);
    }
    assert forall|i: int| 0 <= i < changed.len() implies (#[trigger] changed[i]) is Ok by {
        assert(p3.steps[m + kept.len() + i] == changed[i]);
    }
    assert forall|i: int| 0 <= i < created.len() implies (#[trigger] created[i]) is Ok by {
        assert(p3.steps[m + kept.len() + changed.len() + i] == created[i]);
    }
}

/// What is kept but for some records is kept but for more.
proof fn lemma_keeps_others_more(
    before: Seq<RecordModel>,
    listed: Seq<RecordModel>,
    some: Seq<int>,
    places: Seq<int>,
    records: Seq<RecordModel>,
)
    requires
        keeps_others(before, listed, some, records),
        forall|i: int| 0 <= i < some.len() ==> is_among(#[trigger] some[i], places, places.len() as int),
    ensures
        keeps_others(before, listed, places, records),
{
    assert forall|record: RecordModel|
        #![trigger has_once(listed, record)]
        has_once(before, record) && (forall|i: int|
            0 <= i < places.len() ==> records[#[trigger] places[i]].id
                != record.id) implies has_once(listed, record) by {
        assert forall|i: int| 0 <= i < some.len() implies records[#[trigger] some[i]].id
            != record.id by {
            assert(is_among(some[i], places, places.len() as int));
            let k = choose|k: int| 0 <= k < places.len() && #[trigger] places[k] == some[i];
            assert(records[places[k]].id != record.id);
        }
    }
}

/// The records at some places are there, and belong to an endpoint.
spec fn are_there(
    p: Progress,
    places: Seq<int>,
    desired: EndpointModel,
    records: Seq<RecordModel>,
    fresh: spec_fn(Seq<RecordModel>) -> u64,
) -> bool {
    forall|i: int|
        0 <= i < places.len() ==> {
            &&& 0 <= (#[trigger] places[i]) < records.len()
            &&& is_record_of(records[places[i]], desired)
            &&& has_once(steps_done(records, p.steps, fresh), records[places[i]])
            &&& !p.deleted.contains(records[places[i]].id)
        }
}

/// An update that is carried out takes away the targets of the records that do not
/// keep theirs, and adds the new ones. It touches no records but those.
#[verifier::rlimit(60)]
#[verifier::spinoff_prover]
proof fn lemma_pairs_done(
    p: Progress,
    current: EndpointModel,
    desired: EndpointModel,
    records: Seq<RecordModel>,
    places: Seq<int>,
    zone: Seq<char>,
    fresh: spec_fn(Seq<RecordModel>) -> u64,
    endpoint: EndpointModel,
)
    requires
        is_readable(desired),
        numbers_afresh(fresh),
        steps_done(records, p.steps, fresh).len() + desired.targets.len() <= u64::MAX,
        same_identity(current, desired),
        lies_in(desired.dns_name, zone),
        are_distinct(places, records),
        are_there(p, places, desired, records, fresh),
        are_ok(
            paired_steps(
                p,
                pairing(current, desired, records, places, places.len() as int),
                desired,
                zone,
                records,
            ).steps,
        ),
    ensures
        ({
            let pairs = pairing(current, desired, records, places, places.len() as int);
            let q = paired_steps(p, pairs, desired, zone, records);
            let before = steps_done(records, p.steps, fresh);
            let listed = steps_done(records, q.steps, fresh);
            &&& keys_at(listed, endpoint).add(sum_records(pairs.changed, records, endpoint))
                == keys_at(before, endpoint).add(sum_targets(pairs.fresh, desired, endpoint))
            &&& keeps_others(before, listed, places, records)
            &&& listed.len() <= before.len() + desired.targets.len()
            &&& forall|id: u64| #[trigger]
                q.deleted.contains(id) ==> p.deleted.contains(id) || exists|i: int|
                    0 <= i < places.len() && records[#[trigger] places[i]].id == id
        }),
{
    let count = places.len() as int;
    let pairs = pairing(current, desired, records, places, count);
    let n = shorter(pairs.changed.len(), pairs.fresh.len());
    let kept = kept_steps(pairs.kept, desired, zone, records);
    let changed = changed_steps(pairs, n, desired, zone, records);
    let created = create_steps(desired, pairs.fresh.skip(n as int), zone);
    let rest = pairs.changed.skip(n as int);
    let p1 = p.with_steps(kept);
    let p2 = p1.with_steps(changed);
    let p3 = p2.with_steps(created);
    let q = deletions_at(p3, records, rest);
    let w0 = steps_done(records, p.steps, fresh);

    assert forall|i: int| 0 <= i < places.len() implies {
        &&& 0 <= (#[trigger] places[i]) < records.len()
        &&& same_identity(records[places[i]].endpoint, current)
        &&& records[places[i]].endpoint.targets.len() > 0
    } by {
        assert(is_record_of(records[places[i]], desired));
    }
    lemma_pairing_is_apart(current, desired, records, places, count);
    lemma_pairing_sums(current, desired, records, places, count, endpoint);
    law_update_leaves_the_targets_asked_for(current, desired, records, places, count);

    // The records that were found are records of the new endpoint.
    assert forall|place: int| is_among(place, places, count) implies {
        &&& has_once(w0, records[place])
        &&& is_record_of(records[place], desired)
        &&& !p.deleted.contains(records[place].id)
    } by {
        let k = choose|k: int| 0 <= k < count && #[trigger] places[k] == place;
        assert(0 <= places[k] < records.len());
    }

    lemma_parts_without_error(p, pairs, desired, zone, records);

    // What stays.
    let held = kept_places(pairs);
    assert forall|i: int| 0 <= i < pairs.kept.len() implies {
        &&& has_once(w0, records[(#[trigger] pairs.kept[i]).0])
        &&& is_record_of(records[pairs.kept[i].0], desired)
        &&& is_readable_target(desired, pairs.kept[i].1)
        &&& canonical(desired.record_type, records[pairs.kept[i].0].endpoint.targets[0])
            == canonical(desired.record_type, pairs.kept[i].1)
    } by {
        assert(is_among(pairs.kept[i].0, places, count));
        lemma_is_readable(desired, pairs.kept[i].1);
        lemma_canonical_type(
            current,
            desired,
            records[pairs.kept[i].0].endpoint.targets[0],
        );
    }
    assert forall|i: int| 0 <= i < pairs.kept.len() implies (#[trigger] pairs.kept[i]).0
        == held[i] by {}
    lemma_kept_done(w0, pairs.kept, held, desired, zone, records, endpoint, fresh);
    let w1 = steps_done(w0, kept, fresh);

    // What changes.
    assert forall|i: int| 0 <= i < pairs.changed.len() implies has_once(
        w1,
        records[#[trigger] pairs.changed[i]],
    ) && is_record_of(records[pairs.changed[i]], desired) by {
        let record = records[pairs.changed[i]];
        assert(is_among(pairs.changed[i], places, count));
        assert forall|j: int| 0 <= j < held.len() implies records[#[trigger] held[j]].id
            != record.id by {
            assert(held[j] == pairs.kept[j].0);
        }
        assert(has_once(w0, record));
    }
    assert forall|i: int| 0 <= i < n implies {
        &&& has_once(w1, records[#[trigger] pairs.changed[i]])
        &&& is_record_of(records[pairs.changed[i]], desired)
        &&& is_readable_target(desired, pairs.fresh[i])
    } by {
        assert(desired.targets.contains(pairs.fresh[i]));
        lemma_is_readable(desired, pairs.fresh[i]);
    }
    let first = pairs.changed.take(n as int);
    assert(are_distinct(first, records)) by {
        assert forall|i: int, j: int| 0 <= i < j < first.len() implies records[#[trigger] first[i]].id
            != records[#[trigger] first[j]].id by {
            assert(records[pairs.changed[i]].id != records[pairs.changed[j]].id);
        }
    }
    lemma_changed_done(w1, pairs, n, desired, zone, records, endpoint, fresh);
    let w2 = steps_done(w1, changed, fresh);

    // What comes.
    let more = pairs.fresh.skip(n as int);
    assert forall|i: int| 0 <= i < more.len() implies is_readable_target(
        desired,
        #[trigger] more[i],
    ) by {
        assert(more[i] == pairs.fresh[n + i]);
        assert(desired.targets.contains(pairs.fresh[n + i]));
        lemma_is_readable(desired, more[i]);
    }
    lemma_fresh_is_short(current, desired, records, places, count);
    lemma_created_done(w2, more, desired, zone, endpoint, fresh);
    let w3 = steps_done(w2, created, fresh);

    // What goes.
    lemma_steps_done_add(records, p.steps, kept, fresh);
    lemma_steps_done_add(records, p.steps + kept, changed, fresh);
    lemma_steps_done_add(records, (p.steps + kept) + changed, created, fresh);
    assert(p3.steps =~= ((p.steps + kept) + changed) + created);
    assert(steps_done(records, p3.steps, fresh) == w3);
    assert forall|i: int| 0 <= i < rest.len() implies {
        &&& has_once(w3, records[#[trigger] rest[i]])
        &&& !p3.deleted.contains(records[rest[i]].id)
    } by {
        let record = records[rest[i]];
        assert(rest[i] == pairs.changed[n + i]);
        assert(has_once(w1, records[pairs.changed[n + i]]));
        assert(is_among(pairs.changed[n + i], places, count));
        assert forall|j: int| 0 <= j < first.len() implies records[#[trigger] first[j]].id
            != record.id by {
            assert(first[j] == pairs.changed[j]);
            assert(records[pairs.changed[j]].id != records[pairs.changed[n + i]].id);
        }
        assert(has_once(w2, record));
    }
    assert(are_distinct(rest, records)) by {
        assert forall|i: int, j: int| 0 <= i < j < rest.len() implies records[#[trigger] rest[i]].id
            != records[#[trigger] rest[j]].id by {
            assert(records[pairs.changed[n + i]].id != records[pairs.changed[n + j]].id);
        }
    }
    lemma_deleted_done(records, p3, rest, records, endpoint, fresh);
    let w4 = steps_done(records, q.steps, fresh);

    // What is touched.
    assert forall|i: int| 0 <= i < held.len() implies is_among(#[trigger] held[i], places, count) by {
        assert(held[i] == pairs.kept[i].0);
    }
    assert forall|i: int| 0 <= i < first.len() implies is_among(
        #[trigger] first[i],
        places,
        count,
    ) by {
        assert(first[i] == pairs.changed[i]);
    }
    assert forall|i: int| 0 <= i < rest.len() implies is_among(#[trigger] rest[i], places, count) by {
        assert(rest[i] == pairs.changed[n + i]);
    }
    lemma_keeps_others_more(w0, w1, held, places, records);
    lemma_keeps_others_more(w1, w2, first, places, records);
    lemma_keeps_others_more(w3, w4, rest, places, records);
    assert(keeps_others(w0, w4, places, records)) by {
        assert forall|record: RecordModel|
            #![trigger has_once(w4, record)]
            has_once(w0, record) && (forall|i: int|
                0 <= i < places.len() ==> records[#[trigger] places[i]].id
                    != record.id) implies has_once(w4, record) by {
            assert(has_once(w1, record));
            assert(has_once(w2, record));
            assert(has_once(w3, record));
        }
    }
    assert forall|id: u64| #[trigger] q.deleted.contains(id) implies p.deleted.contains(id)
        || exists|i: int| 0 <= i < places.len() && records[#[trigger] places[i]].id == id by {
        if !p.deleted.contains(id) {
            let i = choose|i: int| 0 <= i < rest.len() && records[#[trigger] rest[i]].id == id;
            assert(is_among(rest[i], places, count));
            let k = choose|k: int| 0 <= k < count && #[trigger] places[k] == rest[i];
            assert(records[places[k]].id == id);
        }
    }

    // All together.
    lemma_sum_records_add(first, rest, records, endpoint);
    lemma_sum_targets_add(pairs.fresh.take(n as int), more, desired, endpoint);
    assert(first + rest =~= pairs.changed);
    assert(pairs.fresh.take(n as int) + more =~= pairs.fresh);
    let k0 = keys_at(w0, endpoint);
    let k2 = keys_at(w2, endpoint);
    let k4 = keys_at(w4, endpoint);
    let a = sum_records(first, records, endpoint);
    let b = sum_records(rest, records, endpoint);
    let c = sum_targets(pairs.fresh.take(n as int), desired, endpoint);
    let d = sum_targets(more, desired, endpoint);
    assert(k2.add(a) == k0.add(c));
    assert(k4.add(b) == k2.add(d));
    assert(k4.add(a.add(b)) =~= k4.add(b).add(a));
    assert(k2.add(d).add(a) =~= k2.add(a).add(d));
    assert(k0.add(c).add(d) =~= k0.add(c.add(d)));
}

/// There are no more new targets than the endpoint has targets.
proof fn lemma_fresh_is_short(
    current: EndpointModel,
    desired: EndpointModel,
    records: Seq<RecordModel>,
    places: Seq<int>,
    n: int,
)
    requires
        0 <= n,
    ensures
        pairing(current, desired, records, places, n).fresh.len() <= desired.targets.len(),
    decreases n,
{
    if n > 0 {
        lemma_fresh_is_short(current, desired, records, places, n - 1);
        let before = pairing(current, desired, records, places, n - 1);
        let found = canonical(current.record_type, records[places[n - 1]].endpoint.targets[0]);
        lemma_first_target(desired.record_type, before.fresh, found, 0);
    }
}

/// Nothing was done to an endpoint yet: the targets that are listed for it are those
/// from the start, and all of its records are there.
spec fn is_untouched(
    p: Progress,
    endpoint: EndpointModel,
    records: Seq<RecordModel>,
    fresh: spec_fn(Seq<RecordModel>) -> u64,
) -> bool {
    let listed = steps_done(records, p.steps, fresh);
    &&& keys_at(listed, endpoint) == keys_at(records, endpoint)
    &&& forall|i: int|
        0 <= i < records.len() && same_identity((#[trigger] records[i]).endpoint, endpoint) ==> {
            &&& has_once(listed, records[i])
            &&& !p.deleted.contains(records[i].id)
        }
}

proof fn lemma_untouched_at_start(
    endpoint: EndpointModel,
    records: Seq<RecordModel>,
    fresh: spec_fn(Seq<RecordModel>) -> u64,
)
    requires
        is_numbered(records),
    ensures
        is_untouched(Progress::start(), endpoint, records, fresh),
{
    assert forall|i: int| 0 <= i < records.len() implies has_once(
        records,
        #[trigger] records[i],
    ) by {
        assert(records.contains(records[i]));
    }
}

proof fn lemma_numbered_apart(records: Seq<RecordModel>, i: int, j: int)
    requires
        is_numbered(records),
        0 <= i < records.len(),
        0 <= j < records.len(),
        records[i].id == records[j].id,
    ensures
        i == j,
{
    if i < j {
        lemma_count_once(records, i, j);
    } else if j < i {
        lemma_count_once(records, j, i);
    }
}

/// What was done to the records of one endpoint leaves another untouched.
proof fn lemma_untouched_by_others(
    p: Progress,
    q: Progress,
    places: Seq<int>,
    desired: EndpointModel,
    other: EndpointModel,
    records: Seq<RecordModel>,
    fresh: spec_fn(Seq<RecordModel>) -> u64,
)
    requires
        is_numbered(records),
        !same_identity(desired, other),
        is_untouched(p, other, records, fresh),
        keys_at(steps_done(records, q.steps, fresh), other) == keys_at(
            steps_done(records, p.steps, fresh),
            other,
        ),
        keeps_others(
            steps_done(records, p.steps, fresh),
            steps_done(records, q.steps, fresh),
            places,
            records,
        ),
        forall|i: int|
            0 <= i < places.len() ==> {
                &&& 0 <= (#[trigger] places[i]) < records.len()
                &&& same_identity(records[places[i]].endpoint, desired)
            },
        forall|id: u64| #[trigger]
            q.deleted.contains(id) ==> p.deleted.contains(id) || exists|i: int|
                0 <= i < places.len() && records[#[trigger] places[i]].id == id,
    ensures
        is_untouched(q, other, records, fresh),
{
    let before = steps_done(records, p.steps, fresh);
    let listed = steps_done(records, q.steps, fresh);
    assert forall|i: int|
        0 <= i < records.len() && same_identity((#[trigger] records[i]).endpoint, other) implies {
        &&& has_once(listed, records[i])
        &&& !q.deleted.contains(records[i].id)
    } by {
        assert(has_once(before, records[i]));
        assert forall|k: int| 0 <= k < places.len() implies records[#[trigger] places[k]].id
            != records[i].id by {
            if records[places[k]].id == records[i].id {
                lemma_numbered_apart(records, places[k], i);
            }
        }
        assert(has_once(listed, records[i]));
    }
}

/// The targets of an endpoint after its update: those from before, with the ones
/// that the old endpoint names taken away and the ones that the new endpoint names
/// added.
pub open spec fn exchanges(
    earlier: Multiset<Seq<char>>,
    later: Multiset<Seq<char>>,
    current: EndpointModel,
    desired: EndpointModel,
) -> bool {
    later.add(canonical_targets(current).to_multiset()) == earlier.add(
        canonical_targets(desired).to_multiset(),
    )
}

/// Where the old endpoint names all the targets from before, those of the new one
/// are left.
proof fn lemma_exchanges_all(
    earlier: Multiset<Seq<char>>,
    later: Multiset<Seq<char>>,
    current: EndpointModel,
    desired: EndpointModel,
)
    requires
        exchanges(earlier, later, current, desired),
        earlier == canonical_targets(current).to_multiset(),
    ensures
        later == canonical_targets(desired).to_multiset(),
{
    let new = canonical_targets(desired).to_multiset();
    assert forall|x: Seq<char>| #[trigger] later.count(x) == new.count(x) by {
        assert(later.add(earlier).count(x) == earlier.add(new).count(x));
    }
    assert(later =~= new);
}

/// An update of an endpoint that is untouched.
#[verifier::spinoff_prover]
proof fn lemma_replacement_done(
    p: Progress,
    current: EndpointModel,
    desired: EndpointModel,
    state: StateModel,
    fresh: spec_fn(Seq<RecordModel>) -> u64,
    other: EndpointModel,
)
    requires
        are_ok(replacement(p, current, desired, state).steps),
        can_be_updated(desired, state.records, fresh),
        steps_done(state.records, p.steps, fresh).len() + desired.targets.len() <= u64::MAX,
        is_untouched(p, desired, state.records, fresh),
    ensures
        ({
            let q = replacement(p, current, desired, state);
            let before = steps_done(state.records, p.steps, fresh);
            let listed = steps_done(state.records, q.steps, fresh);
            &&& exchanges(keys_at(state.records, current), keys_at(listed, desired), current, desired)
            &&& listed.len() <= before.len() + desired.targets.len()
            &&& !same_identity(desired, other) ==> {
                &&& keys_at(listed, other) == keys_at(before, other)
                &&& is_untouched(p, other, state.records, fresh) ==> is_untouched(
                    q,
                    other,
                    state.records,
                    fresh,
                )
            }
        }),
{
    let records = state.records;
    let q = replacement(p, current, desired, state);
    let count = current.targets.len() as int;
    let found = find_records(current, count, records, p.deleted);
    let chosen = best_zone(state.zones, current.dns_name);
    if !(same_identity(current, desired) && chosen is Some && found is Ok) {
        assert(q.steps[p.steps.len() as int] is Err);
    }
    let places = found->Ok_0;
    let zone = chosen->0;
    let pairs = pairing(current, desired, records, places, places.len() as int);
    law_best_zone(state.zones, current.dns_name);
    law_normal_form_ignores_case(current.dns_name, desired.dns_name);
    lemma_find_records(current, count, records, p.deleted);
    lemma_found_distinct(current, count, records, p.deleted);
    assert forall|i: int| 0 <= i < places.len() implies {
        &&& 0 <= (#[trigger] places[i]) < records.len()
        &&& is_record_of(records[places[i]], desired)
        &&& canonical(current.record_type, records[places[i]].endpoint.targets[0]) == canonical(
            current.record_type,
            current.targets[i],
        )
    } by {
        assert(is_candidate(
            current,
            current.targets[i],
            records[places[i]],
            Set::empty(),
            p.deleted,
        ));
    }
    assert(q == paired_steps(p, pairs, desired, zone, records));

    // The endpoint itself.
    lemma_pairs_done(p, current, desired, records, places, zone, fresh, desired);
    lemma_pairing_is_apart(current, desired, records, places, places.len() as int);
    lemma_pairing_sums(current, desired, records, places, places.len() as int, desired);
    law_update_leaves_the_targets_asked_for(
        current,
        desired,
        records,
        places,
        places.len() as int,
    );
    lemma_found_sums(current, desired, records, places, places.len() as int);
    lemma_keys_same_identity(records, current, desired);
    lemma_sum_targets_is_all(desired, desired.targets.len() as int);
    assert forall|i: int| 0 <= i < pairs.kept.len() implies {
        &&& is_record_of(records[(#[trigger] pairs.kept[i]).0], desired)
        &&& canonical(desired.record_type, records[pairs.kept[i].0].endpoint.targets[0])
            == canonical(desired.record_type, pairs.kept[i].1)
    } by {
        assert(is_among(pairs.kept[i].0, places, places.len() as int));
        let k = choose|k: int|
            0 <= k < places.len() && #[trigger] places[k] == pairs.kept[i].0;
        assert(0 <= places[k] < records.len());
        lemma_canonical_type(
            current,
            desired,
            records[pairs.kept[i].0].endpoint.targets[0],
        );
    }
    lemma_kept_sums(pairs, pairs.kept.len() as int, desired, records, desired);
    assert(kept_places(pairs).take(pairs.kept.len() as int) =~= kept_places(pairs));
    assert(kept_targets(pairs).take(pairs.kept.len() as int) =~= kept_targets(pairs));
    assert(places.take(places.len() as int) =~= places);
    assert(canonical_targets(current).take(count) =~= canonical_targets(current));
    assert(desired.targets.take(desired.targets.len() as int) =~= desired.targets);
    assert(canonical_targets(desired).take(desired.targets.len() as int) =~= canonical_targets(
        desired,
    ));
    let before = steps_done(records, p.steps, fresh);
    let listed = steps_done(records, q.steps, fresh);
    let gone = sum_records(pairs.changed, records, desired);
    let kept = sum_targets(kept_targets(pairs), desired, desired);
    let new = sum_targets(pairs.fresh, desired, desired);
    let earlier = keys_at(records, current);
    assert(canonical_targets(current).to_multiset() == kept.add(gone));
    assert(canonical_targets(desired).to_multiset() == kept.add(new));
    assert(keys_at(listed, desired).add(gone) == earlier.add(new));
    assert(keys_at(listed, desired).add(kept.add(gone)) =~= keys_at(listed, desired).add(gone).add(
        kept,
    ));
    assert(earlier.add(new).add(kept) =~= earlier.add(kept.add(new)));

    // Every other endpoint.
    if !same_identity(desired, other) {
        lemma_pairs_done(p, current, desired, records, places, zone, fresh, other);
        assert forall|i: int| 0 <= i < pairs.changed.len() implies same_identity(
            records[#[trigger] pairs.changed[i]].endpoint,
            desired,
        ) by {
            assert(is_among(pairs.changed[i], places, places.len() as int));
            let k = choose|k: int| 0 <= k < places.len() && #[trigger] places[k] == pairs.changed[i];
            assert(is_record_of(records[places[k]], desired));
        }
        lemma_strangers_add_nothing(pairs.fresh, pairs.changed, records, desired, other);
        assert(keys_at(listed, other).add(Multiset::empty()) =~= keys_at(listed, other));
        assert(keys_at(before, other).add(Multiset::empty()) =~= keys_at(before, other));
        if is_untouched(p, other, records, fresh) {
            assert forall|i: int| 0 <= i < places.len() implies {
                &&& 0 <= (#[trigger] places[i]) < records.len()
                &&& same_identity(records[places[i]].endpoint, desired)
            } by {
                assert(is_record_of(records[places[i]], desired));
            }
            lemma_untouched_by_others(p, q, places, desired, other, records, fresh);
        }
    }
}

/// An update comes to what it asks for: after the plan for it was carried out, the
/// targets that the old endpoint names are taken away from those that are listed for
/// the endpoint, and the new ones are added. If the old endpoint names all that are
/// listed, then the new ones are left, no more and no fewer. The targets of every
/// other endpoint are as they were.
pub proof fn law_update_comes_to_what_it_asks_for(
    current: EndpointModel,
    desired: EndpointModel,
    state: StateModel,
    fresh: spec_fn(Seq<RecordModel>) -> u64,
    other: EndpointModel,
)
    requires
        outcome(replacement(Progress::start(), current, desired, state).steps).1 is None,
        can_be_updated(desired, state.records, fresh),
    ensures
        ({
            let operations = outcome(
                replacement(Progress::start(), current, desired, state).steps,
            ).0;
            let earlier = keys_at(state.records, current);
            let listed = after(state.records, operations, fresh);
            &&& exchanges(earlier, keys_at(listed, desired), current, desired)
            &&& earlier == canonical_targets(current).to_multiset() ==> keys_at(listed, desired)
                == canonical_targets(desired).to_multiset()
            &&& !same_identity(desired, other) ==> keys_at(listed, other) == keys_at(
                state.records,
                other,
            )
        }),
{
    let start = Progress::start();
    let steps = replacement(start, current, desired, state).steps;
    lemma_outcome_done(state.records, steps, fresh);
    lemma_untouched_at_start(desired, state.records, fresh);
    lemma_replacement_done(start, current, desired, state, fresh, other);
    let earlier = keys_at(state.records, current);
    if earlier == canonical_targets(current).to_multiset() {
        let listed = after(state.records, outcome(steps).0, fresh);
        lemma_exchanges_all(earlier, keys_at(listed, desired), current, desired);
    }
}

/// A creation of an endpoint.
proof fn lemma_creation_done(
    p: Progress,
    endpoint: EndpointModel,
    state: StateModel,
    fresh: spec_fn(Seq<RecordModel>) -> u64,
    other: EndpointModel,
)
    requires
        are_ok(creation(p, endpoint, state).steps),
        is_readable(endpoint),
        numbers_afresh(fresh),
        steps_done(state.records, p.steps, fresh).len() + endpoint.targets.len() <= u64::MAX,
    ensures
        ({
            let q = creation(p, endpoint, state);
            let before = steps_done(state.records, p.steps, fresh);
            let listed = steps_done(state.records, q.steps, fresh);
            &&& keys_at(listed, endpoint) == keys_at(before, endpoint).add(
                canonical_targets(endpoint).to_multiset(),
            )
            &&& listed.len() == before.len() + endpoint.targets.len()
            &&& !same_identity(endpoint, other) ==> keys_at(listed, other) == keys_at(
                before,
                other,
            )
        }),
{
    let records = state.records;
    let q = creation(p, endpoint, state);
    let before = steps_done(records, p.steps, fresh);
    let targets = endpoint.targets;
    law_best_zone(state.zones, endpoint.dns_name);
    match best_zone(state.zones, endpoint.dns_name) {
        None => {
            assert(q.steps[p.steps.len() as int] is Err);
        },
        Some(zone) => {
            let steps = create_steps(endpoint, targets, zone);
            lemma_steps_done_add(records, p.steps, steps, fresh);
            assert forall|i: int| 0 <= i < targets.len() implies (#[trigger] steps[i]) is Ok by {
                assert(q.steps[p.steps.len() + i] == steps[i]);
            }
            assert forall|i: int| 0 <= i < targets.len() implies is_readable_target(
                endpoint,
                #[trigger] targets[i],
            ) by {
                lemma_is_readable(endpoint, targets[i]);
            }
            lemma_created_done(before, targets, endpoint, zone, endpoint, fresh);
            lemma_sum_targets_is_all(endpoint, targets.len() as int);
            assert(targets.take(targets.len() as int) =~= targets);
            assert(canonical_targets(endpoint).take(targets.len() as int) =~= canonical_targets(
                endpoint,
            ));
            if !same_identity(endpoint, other) {
                lemma_created_done(before, targets, endpoint, zone, other, fresh);
                lemma_strangers_add_nothing(targets, Seq::empty(), records, endpoint, other);
                assert(keys_at(before, other).add(Multiset::empty()) =~= keys_at(before, other));
            }
        },
    }
}

/// A creation comes to what it asks for: after it was carried out the targets that
/// are listed for the endpoint are those from before and the new ones. Those of
/// every other endpoint are as they were.
pub proof fn law_creation_comes_to_what_it_asks_for(
    endpoint: EndpointModel,
    state: StateModel,
    fresh: spec_fn(Seq<RecordModel>) -> u64,
    other: EndpointModel,
)
    requires
        outcome(creation(Progress::start(), endpoint, state).steps).1 is None,
        is_readable(endpoint),
        numbers_afresh(fresh),
        state.records.len() + endpoint.targets.len() <= u64::MAX,
    ensures
        ({
            let operations = outcome(creation(Progress::start(), endpoint, state).steps).0;
            let listed = after(state.records, operations, fresh);
            &&& keys_at(listed, endpoint) == keys_at(state.records, endpoint).add(
                canonical_targets(endpoint).to_multiset(),
            )
            &&& !same_identity(endpoint, other) ==> keys_at(listed, other) == keys_at(
                state.records,
                other,
            )
        }),
{
    let start = Progress::start();
    lemma_outcome_done(state.records, creation(start, endpoint, state).steps, fresh);
    lemma_creation_done(start, endpoint, state, fresh, other);
}

proof fn lemma_filter_twice(
    list: Seq<RecordModel>,
    p: spec_fn(RecordModel) -> bool,
    q: spec_fn(RecordModel) -> bool,
)
    ensures
        list.filter(p).filter(q) == list.filter(|r: RecordModel| p(r) && q(r)),
    decreases list.len(),
{
    reveal(Seq::filter);
    if list.len() > 0 {
        let front = list.drop_last();
        lemma_filter_twice(front, p, q);
        if p(list.last()) {
            assert(front.filter(p).push(list.last()).drop_last() =~= front.filter(p));
        }
    }
}

proof fn lemma_filter_alike(
    list: Seq<RecordModel>,
    p: spec_fn(RecordModel) -> bool,
    q: spec_fn(RecordModel) -> bool,
)
    requires
        forall|i: int| 0 <= i < list.len() ==> p(#[trigger] list[i]) == q(list[i]),
    ensures
        list.filter(p) == list.filter(q),
    decreases list.len(),
{
    reveal(Seq::filter);
    if list.len() > 0 {
        let front = list.drop_last();
        assert forall|i: int| 0 <= i < front.len() implies p(#[trigger] front[i]) == q(
            front[i],
        ) by {
            assert(front[i] == list[i]);
        }
        lemma_filter_alike(front, p, q);
        assert(p(list[list.len() - 1]) == q(list[list.len() - 1]));
    }
}

/// The records that are left while the deletion of an endpoint goes through a list.
proof fn lemma_deletion_done(
    records: Seq<RecordModel>,
    endpoint: EndpointModel,
    list: Seq<RecordModel>,
    fresh: spec_fn(Seq<RecordModel>) -> u64,
)
    ensures
        ({
            let p = deletion(Progress::start(), endpoint, list);
            &&& steps_done(records, p.steps, fresh) == records.filter(
                |r: RecordModel| !p.deleted.contains(r.id),
            )
            &&& outcome(p.steps).1 is None
        }),
    decreases list.len(),
{
    let p = deletion(Progress::start(), endpoint, list);
    let left = |r: RecordModel| !p.deleted.contains(r.id);
    if list.len() == 0 {
        lemma_filter_alike(records, left, |r: RecordModel| true);
        lemma_filter_all(records);
    } else {
        let before = deletion(Progress::start(), endpoint, list.drop_last());
        let record = list.last();
        lemma_deletion_done(records, endpoint, list.drop_last(), fresh);
        if covered_by_deletion(endpoint, record) && !before.deleted.contains(record.id) {
            let earlier = |r: RecordModel| !before.deleted.contains(r.id);
            let this = |r: RecordModel| r.id != record.id;
            assert(p.steps.drop_last() =~= before.steps);
            lemma_filter_twice(records, earlier, this);
            lemma_filter_alike(records, |r: RecordModel| earlier(r) && this(r), left);
        }
    }
}

proof fn lemma_filter_all(list: Seq<RecordModel>)
    ensures
        list.filter(|r: RecordModel| true) == list,
    decreases list.len(),
{
    reveal(Seq::filter);
    if list.len() > 0 {
        lemma_filter_all(list.drop_last());
        assert(list =~= list.drop_last().push(list.last()));
    }
}

/// A deletion comes to what it asks for: after it was carried out the records that
/// it covers are gone, and all others are listed as they were.
pub proof fn law_deletion_comes_to_what_it_asks_for(
    endpoint: EndpointModel,
    records: Seq<RecordModel>,
    fresh: spec_fn(Seq<RecordModel>) -> u64,
)
    requires
        is_numbered(records),
    ensures
        outcome(deletion(Progress::start(), endpoint, records).steps).1 is None,
        after(
            records,
            outcome(deletion(Progress::start(), endpoint, records).steps).0,
            fresh,
        ) == records.filter(|r: RecordModel| !covered_by_deletion(endpoint, r)),
{
    let start = Progress::start();
    let p = deletion(start, endpoint, records);
    lemma_deletion_done(records, endpoint, records, fresh);
    lemma_outcome_done(records, p.steps, fresh);
    let left = |r: RecordModel| !p.deleted.contains(r.id);
    let uncovered = |r: RecordModel| !covered_by_deletion(endpoint, r);
    assert forall|i: int| 0 <= i < records.len() implies left(#[trigger] records[i]) == uncovered(
        records[i],
    ) by {
        law_deletion_is_complete(start, endpoint, records, records[i].id);
        if p.deleted.contains(records[i].id) {
            let k = choose|k: int|
                0 <= k < records.len() && (#[trigger] records[k]).id == records[i].id
                    && covered_by_deletion(endpoint, records[k]);
            if k < i {
                lemma_count_once(records, k, i);
            } else if i < k {
                lemma_count_once(records, i, k);
            }
        }
    }
    lemma_filter_alike(records, left, uncovered);
}

// ---------------------------------------------------------------------------
// A set of changes
// ---------------------------------------------------------------------------

/// The targets that are left to an endpoint that is deleted: those of its records
/// that the deletion does not cover.
pub open spec fn keys_left(records: Seq<RecordModel>, endpoint: EndpointModel) -> Multiset<
    Seq<char>,
> {
    keys_at(records.filter(|r: RecordModel| !covered_by_deletion(endpoint, r)), endpoint)
}

/// No two endpoints of a list have one identity.
pub open spec fn have_own_identities(list: Seq<EndpointModel>) -> bool {
    forall|i: int, j: int|
        0 <= i < j < list.len() ==> !same_identity(#[trigger] list[i], #[trigger] list[j])
}

/// An endpoint has the identity of none of a list.
pub open spec fn is_none_of(endpoint: EndpointModel, list: Seq<EndpointModel>) -> bool {
    forall|i: int| 0 <= i < list.len() ==> !same_identity(#[trigger] list[i], endpoint)
}

/// How many targets a list of endpoints has.
pub open spec fn count_targets(list: Seq<EndpointModel>) -> nat
    decreases list.len(),
{
    if list.len() == 0 {
        0
    } else {
        count_targets(list.drop_last()) + list.last().targets.len()
    }
}

proof fn lemma_front_has_own_identities(list: Seq<EndpointModel>)
    requires
        have_own_identities(list),
        list.len() > 0,
    ensures
        have_own_identities(list.drop_last()),
        is_none_of(list.last(), list.drop_last()),
        forall|i: int|
            0 <= i < list.len() - 1 ==> !same_identity(list.last(), #[trigger] list[i]),
{
    let front = list.drop_last();
    assert forall|i: int, j: int| 0 <= i < j < front.len() implies !same_identity(
        #[trigger] front[i],
        #[trigger] front[j],
    ) by {
        assert(!same_identity(list[i], list[j]));
    }
    assert forall|i: int| 0 <= i < front.len() implies !same_identity(
        #[trigger] front[i],
        list.last(),
    ) by {
        assert(!same_identity(list[i], list[list.len() - 1]));
    }
    assert forall|i: int| 0 <= i < list.len() - 1 implies !same_identity(
        list.last(),
        #[trigger] list[i],
    ) by {
        assert(!same_identity(list[i], list[list.len() - 1]));
    }
}

/// The records that a deletion covers, and those that it does not, make up the list.
proof fn lemma_keys_split(
    list: Seq<RecordModel>,
    p: spec_fn(RecordModel) -> bool,
    endpoint: EndpointModel,
)
    ensures
        keys_at(list.filter(p), endpoint).add(
            keys_at(list.filter(|r: RecordModel| !p(r)), endpoint),
        ) == keys_at(list, endpoint),
    decreases list.len(),
{
    reveal(Seq::filter);
    let q = |r: RecordModel| !p(r);
    if list.len() > 0 {
        let front = list.drop_last();
        let last = list.last();
        lemma_keys_split(front, p, endpoint);
        let a = keys_at(front.filter(p), endpoint);
        let b = keys_at(front.filter(q), endpoint);
        let k = key_in(last, endpoint);
        if p(last) {
            lemma_keys_push(front.filter(p), last, endpoint);
            assert(a.add(k).add(b) =~= a.add(b).add(k));
        } else {
            lemma_keys_push(front.filter(q), last, endpoint);
            assert(a.add(b.add(k)) =~= a.add(b).add(k));
        }
    } else {
        assert(Multiset::<Seq<char>>::empty().add(Multiset::empty()) =~= Multiset::empty());
    }
}

/// The places of the records that a deletion covers, among the first `n`.
spec fn covered_places(endpoint: EndpointModel, records: Seq<RecordModel>, n: int) -> Seq<int>
    decreases n,
{
    if n <= 0 {
        Seq::empty()
    } else if covered_by_deletion(endpoint, records[n - 1]) {
        covered_places(endpoint, records, n - 1).push(n - 1)
    } else {
        covered_places(endpoint, records, n - 1)
    }
}

/// A deletion deletes the records at the places that it covers.
proof fn lemma_deletion_places(p: Progress, endpoint: EndpointModel, records: Seq<RecordModel>, n: int)
    requires
        0 <= n <= records.len(),
    ensures
        deletion(p, endpoint, records.take(n)) == deletions_at(
            p,
            records,
            covered_places(endpoint, records, n),
        ),
        forall|i: int, j: int|
            0 <= i < j < covered_places(endpoint, records, n).len() ==> (
            #[trigger] covered_places(endpoint, records, n)[i]) < (
            #[trigger] covered_places(endpoint, records, n)[j]),
        forall|i: int|
            0 <= i < covered_places(endpoint, records, n).len() ==> {
                &&& 0 <= (#[trigger] covered_places(endpoint, records, n)[i]) < n
                &&& covered_by_deletion(
                    endpoint,
                    records[covered_places(endpoint, records, n)[i]],
                )
            },
    decreases n,
{
    let places = covered_places(endpoint, records, n);
    if n > 0 {
        lemma_deletion_places(p, endpoint, records, n - 1);
        assert(records.take(n).drop_last() =~= records.take(n - 1));
        assert(records.take(n).last() == records[n - 1]);
        if covered_by_deletion(endpoint, records[n - 1]) {
            assert(places.drop_last() =~= covered_places(endpoint, records, n - 1));
        }
    }
}

/// The records that a deletion covers add what those at their places add.
proof fn lemma_covered_sums(
    endpoint: EndpointModel,
    records: Seq<RecordModel>,
    n: int,
    other: EndpointModel,
)
    requires
        0 <= n <= records.len(),
    ensures
        sum_records(covered_places(endpoint, records, n), records, other) == keys_at(
            records.take(n).filter(|r: RecordModel| covered_by_deletion(endpoint, r)),
            other,
        ),
    decreases n,
{
    reveal(Seq::filter);
    let covered = |r: RecordModel| covered_by_deletion(endpoint, r);
    if n > 0 {
        lemma_covered_sums(endpoint, records, n - 1, other);
        assert(records.take(n).drop_last() =~= records.take(n - 1));
        assert(records.take(n).last() == records[n - 1]);
        if covered_by_deletion(endpoint, records[n - 1]) {
            lemma_keys_push(records.take(n - 1).filter(covered), records[n - 1], other);
            let places = covered_places(endpoint, records, n);
            assert(places.drop_last() =~= covered_places(endpoint, records, n - 1));
        }
    }
}

/// A deletion of an endpoint that is untouched.
proof fn lemma_deletion_of_untouched(
    p: Progress,
    endpoint: EndpointModel,
    records: Seq<RecordModel>,
    fresh: spec_fn(Seq<RecordModel>) -> u64,
    other: EndpointModel,
)
    requires
        is_numbered(records),
        is_untouched(p, endpoint, records, fresh),
    ensures
        ({
            let q = deletion(p, endpoint, records);
            let before = steps_done(records, p.steps, fresh);
            let listed = steps_done(records, q.steps, fresh);
            &&& keys_at(listed, endpoint) == keys_left(records, endpoint)
            &&& listed.len() <= before.len()
            &&& !same_identity(endpoint, other) ==> {
                &&& keys_at(listed, other) == keys_at(before, other)
                &&& is_untouched(p, other, records, fresh) ==> is_untouched(
                    q,
                    other,
                    records,
                    fresh,
                )
            }
        }),
{
    let n = records.len() as int;
    let q = deletion(p, endpoint, records);
    let before = steps_done(records, p.steps, fresh);
    let listed = steps_done(records, q.steps, fresh);
    let covered = |r: RecordModel| covered_by_deletion(endpoint, r);
    let places = covered_places(endpoint, records, n);
    assert(records.take(n) =~= records);
    lemma_deletion_places(p, endpoint, records, n);
    assert(are_distinct(places, records)) by {
        assert forall|i: int, j: int| 0 <= i < j < places.len() implies records[#[trigger] places[i]].id
            != records[#[trigger] places[j]].id by {
            if records[places[i]].id == records[places[j]].id {
                lemma_numbered_apart(records, places[i], places[j]);
            }
        }
    }
    assert forall|i: int| 0 <= i < places.len() implies {
        &&& has_once(before, records[#[trigger] places[i]])
        &&& !p.deleted.contains(records[places[i]].id)
        &&& same_identity(records[places[i]].endpoint, endpoint)
    } by {
        assert(covered_by_deletion(endpoint, records[places[i]]));
        assert(same_identity(records[places[i]].endpoint, endpoint));
    }

    // The endpoint itself.
    lemma_deleted_done(records, p, places, records, endpoint, fresh);
    lemma_covered_sums(endpoint, records, n, endpoint);
    lemma_keys_split(records, covered, endpoint);
    let gone = keys_at(records.filter(covered), endpoint);
    lemma_filter_alike(
        records,
        |r: RecordModel| !covered(r),
        |r: RecordModel| !covered_by_deletion(endpoint, r),
    );
    assert(keys_at(listed, endpoint).add(gone) == gone.add(keys_left(records, endpoint)));
    assert(keys_at(listed, endpoint) =~= keys_left(records, endpoint)) by {
        assert forall|x: Seq<char>| #[trigger] keys_at(listed, endpoint).count(x) == keys_left(
            records,
            endpoint,
        ).count(x) by {
            assert(keys_at(listed, endpoint).add(gone).count(x) == gone.add(
                keys_left(records, endpoint),
            ).count(x));
        }
    }

    // Every other endpoint.
    if !same_identity(endpoint, other) {
        lemma_deleted_done(records, p, places, records, other, fresh);
        lemma_strangers_add_nothing(Seq::empty(), places, records, endpoint, other);
        assert(keys_at(listed, other).add(Multiset::empty()) =~= keys_at(listed, other));
        if is_untouched(p, other, records, fresh) {
            lemma_untouched_by_others(p, q, places, endpoint, other, records, fresh);
        }
    }
}

/// The deletions of a set of changes.
proof fn lemma_all_deletions_done(
    list: Seq<EndpointModel>,
    records: Seq<RecordModel>,
    fresh: spec_fn(Seq<RecordModel>) -> u64,
    endpoint: EndpointModel,
)
    requires
        is_numbered(records),
        have_own_identities(list),
    ensures
        ({
            let q = all_deletions(Progress::start(), list, records);
            let listed = steps_done(records, q.steps, fresh);
            &&& listed.len() <= records.len()
            &&& is_none_of(endpoint, list) ==> is_untouched(q, endpoint, records, fresh)
            &&& list.contains(endpoint) ==> keys_at(listed, endpoint) == keys_left(
                records,
                endpoint,
            )
        }),
    decreases list.len(),
{
    let start = Progress::start();
    if list.len() == 0 {
        lemma_untouched_at_start(endpoint, records, fresh);
    } else {
        let front = list.drop_last();
        let last = list.last();
        lemma_front_has_own_identities(list);
        lemma_all_deletions_done(front, records, fresh, last);
        lemma_all_deletions_done(front, records, fresh, endpoint);
        lemma_deletion_of_untouched(
            all_deletions(start, front, records),
            last,
            records,
            fresh,
            endpoint,
        );
        if is_none_of(endpoint, list) {
            assert(!same_identity(list[list.len() - 1], endpoint));
            assert forall|i: int| 0 <= i < front.len() implies !same_identity(
                #[trigger] front[i],
                endpoint,
            ) by {
                assert(!same_identity(list[i], endpoint));
            }
        }
        if list.contains(endpoint) && endpoint != last {
            let i = choose|i: int| 0 <= i < list.len() && list[i] == endpoint;
            assert(front[i] == endpoint);
        }
    }
}

/// The first `n` updates of a set of changes.
proof fn lemma_all_replacements_done(
    p: Progress,
    current: Seq<EndpointModel>,
    desired: Seq<EndpointModel>,
    n: int,
    state: StateModel,
    fresh: spec_fn(Seq<RecordModel>) -> u64,
    endpoint: EndpointModel,
)
    requires
        0 <= n <= desired.len(),
        are_ok(all_replacements(p, current, desired, n, state).steps),
        have_own_identities(desired.take(n)),
        forall|i: int|
            0 <= i < n ==> {
                &&& can_be_updated(#[trigger] desired[i], state.records, fresh)
                &&& is_untouched(p, desired[i], state.records, fresh)
            },
        steps_done(state.records, p.steps, fresh).len() + count_targets(desired.take(n))
            <= u64::MAX,
    ensures
        ({
            let q = all_replacements(p, current, desired, n, state);
            let before = steps_done(state.records, p.steps, fresh);
            let listed = steps_done(state.records, q.steps, fresh);
            &&& listed.len() <= before.len() + count_targets(desired.take(n))
            &&& is_none_of(endpoint, desired.take(n)) ==> {
                &&& keys_at(listed, endpoint) == keys_at(before, endpoint)
                &&& is_untouched(p, endpoint, state.records, fresh) ==> is_untouched(
                    q,
                    endpoint,
                    state.records,
                    fresh,
                )
            }
            &&& forall|i: int|
                0 <= i < n && #[trigger] desired[i] == endpoint ==> exchanges(
                    keys_at(state.records, current[i]),
                    keys_at(listed, endpoint),
                    current[i],
                    endpoint,
                )
        }),
    decreases n,
{
    if n > 0 {
        let list = desired.take(n);
        let front = desired.take(n - 1);
        let last = desired[n - 1];
        let middle = all_replacements(p, current, desired, n - 1, state);
        assert(list.drop_last() =~= front);
        assert(list.last() == last);
        lemma_replacement_extends(middle, current[n - 1], last, state);
        lemma_beginning_is_ok(
            middle.steps,
            all_replacements(p, current, desired, n, state).steps,
        );
        lemma_front_has_own_identities(list);
        lemma_all_replacements_done(p, current, desired, n - 1, state, fresh, last);
        lemma_all_replacements_done(p, current, desired, n - 1, state, fresh, endpoint);
        assert(can_be_updated(last, state.records, fresh));
        lemma_replacement_done(middle, current[n - 1], last, state, fresh, endpoint);
        if is_none_of(endpoint, list) {
            assert(!same_identity(list[n - 1], endpoint));
            assert forall|i: int| 0 <= i < front.len() implies !same_identity(
                #[trigger] front[i],
                endpoint,
            ) by {
                assert(!same_identity(list[i], endpoint));
            }
        }
        let listed = steps_done(
            state.records,
            all_replacements(p, current, desired, n, state).steps,
            fresh,
        );
        assert forall|i: int| 0 <= i < n && #[trigger] desired[i] == endpoint implies exchanges(
            keys_at(state.records, current[i]),
            keys_at(listed, endpoint),
            current[i],
            endpoint,
        ) by {
            if i < n - 1 {
                assert(list[i] == endpoint);
                assert(!same_identity(last, list[i]));
            }
        }
    }
}

/// The creations of a set of changes.
proof fn lemma_all_creations_done(
    p: Progress,
    list: Seq<EndpointModel>,
    state: StateModel,
    fresh: spec_fn(Seq<RecordModel>) -> u64,
    endpoint: EndpointModel,
)
    requires
        are_ok(all_creations(p, list, state).steps),
        have_own_identities(list),
        numbers_afresh(fresh),
        forall|i: int| 0 <= i < list.len() ==> is_readable(#[trigger] list[i]),
        steps_done(state.records, p.steps, fresh).len() + count_targets(list) <= u64::MAX,
    ensures
        ({
            let q = all_creations(p, list, state);
            let before = steps_done(state.records, p.steps, fresh);
            let listed = steps_done(state.records, q.steps, fresh);
            &&& listed.len() == before.len() + count_targets(list)
            &&& is_none_of(endpoint, list) ==> keys_at(listed, endpoint) == keys_at(
                before,
                endpoint,
            )
            &&& list.contains(endpoint) ==> keys_at(listed, endpoint) == keys_at(
                before,
                endpoint,
            ).add(canonical_targets(endpoint).to_multiset())
        }),
    decreases list.len(),
{
    if list.len() > 0 {
        let front = list.drop_last();
        let last = list.last();
        let middle = all_creations(p, front, state);
        lemma_creation_extends(middle, last, state);
        lemma_beginning_is_ok(middle.steps, all_creations(p, list, state).steps);
        lemma_front_has_own_identities(list);
        assert forall|i: int| 0 <= i < front.len() implies is_readable(#[trigger] front[i]) by {
            assert(front[i] == list[i]);
        }
        lemma_all_creations_done(p, front, state, fresh, endpoint);
        assert(is_readable(list[list.len() - 1]));
        lemma_creation_done(middle, last, state, fresh, endpoint);
        if is_none_of(endpoint, list) {
            assert(!same_identity(list[list.len() - 1], endpoint));
            assert forall|i: int| 0 <= i < front.len() implies !same_identity(
                #[trigger] front[i],
                endpoint,
            ) by {
                assert(!same_identity(list[i], endpoint));
            }
        }
        if list.contains(endpoint) {
            let i = choose|i: int| 0 <= i < list.len() && list[i] == endpoint;
            if i < front.len() {
                assert(front[i] == endpoint);
                assert(!same_identity(last, list[i]));
            } else {
                assert(is_none_of(endpoint, front));
            }
        }
    }
}

/// The new endpoints of the updates of a set of changes.
pub open spec fn updated(changes: ChangesModel) -> Seq<EndpointModel> {
    changes.update_new.take(shorter(changes.update_old.len(), changes.update_new.len()) as int)
}

/// The endpoints of a set of changes: those that are deleted, updated and created.
pub open spec fn endpoints_of(changes: ChangesModel) -> Seq<EndpointModel> {
    changes.delete + updated(changes) + changes.create
}

/// A set of changes speaks of each endpoint once, and can be carried out: what it
/// writes can be read back, and the API can number new records.
pub open spec fn can_be_carried_out(
    changes: ChangesModel,
    records: Seq<RecordModel>,
    fresh: spec_fn(Seq<RecordModel>) -> u64,
) -> bool {
    &&& have_own_identities(endpoints_of(changes))
    &&& is_numbered(records)
    &&& numbers_afresh(fresh)
    &&& records.len() + count_targets(updated(changes)) + count_targets(changes.create) <= u64::MAX
    &&& forall|i: int|
        0 <= i < updated(changes).len() ==> can_be_updated(
            #[trigger] updated(changes)[i],
            records,
            fresh,
        )
    &&& forall|i: int| 0 <= i < changes.create.len() ==> is_readable(#[trigger] changes.create[i])
}

/// The endpoints of each kind of change differ from one another and from those of
/// the other kinds.
proof fn lemma_own_identities(changes: ChangesModel)
    requires
        have_own_identities(endpoints_of(changes)),
    ensures
        have_own_identities(changes.delete),
        have_own_identities(updated(changes)),
        have_own_identities(changes.create),
        forall|i: int|
            0 <= i < changes.delete.len() ==> {
                &&& is_none_of(#[trigger] changes.delete[i], updated(changes))
                &&& is_none_of(changes.delete[i], changes.create)
            },
        forall|i: int|
            0 <= i < updated(changes).len() ==> {
                &&& is_none_of(#[trigger] updated(changes)[i], changes.delete)
                &&& is_none_of(updated(changes)[i], changes.create)
            },
        forall|i: int|
            0 <= i < changes.create.len() ==> {
                &&& is_none_of(#[trigger] changes.create[i], changes.delete)
                &&& is_none_of(changes.create[i], updated(changes))
            },
{
    let all = endpoints_of(changes);
    let a = changes.delete;
    let b = updated(changes);
    let c = changes.create;
    assert forall|i: int| 0 <= i < a.len() implies #[trigger] a[i] == all[i] by {}
    assert forall|i: int| 0 <= i < b.len() implies #[trigger] b[i] == all[a.len() + i] by {}
    assert forall|i: int| 0 <= i < c.len() implies #[trigger] c[i] == all[a.len() + b.len() + i] by {}
    assert forall|i: int| 0 <= i < a.len() implies is_none_of(#[trigger] a[i], b) && is_none_of(
        a[i],
        c,
    ) by {
        assert forall|j: int| 0 <= j < b.len() implies !same_identity(#[trigger] b[j], a[i]) by {
            assert(!same_identity(all[i], all[a.len() + j]));
        }
        assert forall|j: int| 0 <= j < c.len() implies !same_identity(#[trigger] c[j], a[i]) by {
            assert(!same_identity(all[i], all[a.len() + b.len() + j]));
        }
    }
    assert forall|i: int| 0 <= i < b.len() implies is_none_of(#[trigger] b[i], a) && is_none_of(
        b[i],
        c,
    ) by {
        assert forall|j: int| 0 <= j < a.len() implies !same_identity(#[trigger] a[j], b[i]) by {
            assert(!same_identity(all[j], all[a.len() + i]));
        }
        assert forall|j: int| 0 <= j < c.len() implies !same_identity(#[trigger] c[j], b[i]) by {
            assert(!same_identity(all[a.len() + i], all[a.len() + b.len() + j]));
        }
    }
    assert forall|i: int| 0 <= i < c.len() implies is_none_of(#[trigger] c[i], a) && is_none_of(
        c[i],
        b,
    ) by {
        assert forall|j: int| 0 <= j < a.len() implies !same_identity(#[trigger] a[j], c[i]) by {
            assert(!same_identity(all[j], all[a.len() + b.len() + i]));
        }
        assert forall|j: int| 0 <= j < b.len() implies !same_identity(#[trigger] b[j], c[i]) by {
            assert(!same_identity(all[a.len() + j], all[a.len() + b.len() + i]));
        }
    }
    assert forall|i: int, j: int| 0 <= i < j < b.len() implies !same_identity(
        #[trigger] b[i],
        #[trigger] b[j],
    ) by {
        assert(!same_identity(all[a.len() + i], all[a.len() + j]));
    }
    assert forall|i: int, j: int| 0 <= i < j < c.len() implies !same_identity(
        #[trigger] c[i],
        #[trigger] c[j],
    ) by {
        assert(!same_identity(all[a.len() + b.len() + i], all[a.len() + b.len() + j]));
    }
}

/// What a set of changes comes to at one endpoint.
proof fn lemma_changes_done(
    changes: ChangesModel,
    state: StateModel,
    fresh: spec_fn(Seq<RecordModel>) -> u64,
    endpoint: EndpointModel,
)
    requires
        are_ok(all_steps(changes, state).steps),
        can_be_carried_out(changes, state.records, fresh),
    ensures
        ({
            let listed = steps_done(state.records, all_steps(changes, state).steps, fresh);
            let earlier = keys_at(state.records, endpoint);
            let named = canonical_targets(endpoint).to_multiset();
            &&& changes.delete.contains(endpoint) ==> keys_at(listed, endpoint) == keys_left(
                state.records,
                endpoint,
            )
            &&& forall|i: int|
                0 <= i < updated(changes).len() && #[trigger] updated(changes)[i] == endpoint
                    ==> exchanges(
                    keys_at(state.records, changes.update_old[i]),
                    keys_at(listed, endpoint),
                    changes.update_old[i],
                    endpoint,
                )
            &&& changes.create.contains(endpoint) ==> keys_at(listed, endpoint) == earlier.add(named)
            &&& is_none_of(endpoint, endpoints_of(changes)) ==> keys_at(listed, endpoint) == earlier
        }),
{
    let records = state.records;
    let n = shorter(changes.update_old.len(), changes.update_new.len()) as int;
    let new = updated(changes);
    let p1 = all_deletions(Progress::start(), changes.delete, records);
    let p2 = all_replacements(p1, changes.update_old, changes.update_new, n, state);
    let p3 = all_steps(changes, state);
    assert(p3 == all_creations(p2, changes.create, state));
    law_steps_are_in_order(changes, state);
    lemma_beginning_is_ok(p2.steps, p3.steps);
    lemma_own_identities(changes);

    lemma_all_deletions_done(changes.delete, records, fresh, endpoint);
    assert forall|i: int| 0 <= i < n implies {
        &&& can_be_updated(#[trigger] changes.update_new[i], records, fresh)
        &&& is_untouched(p1, changes.update_new[i], records, fresh)
    } by {
        assert(new[i] == changes.update_new[i]);
        lemma_all_deletions_done(changes.delete, records, fresh, new[i]);
    }
    lemma_all_replacements_done(
        p1,
        changes.update_old,
        changes.update_new,
        n,
        state,
        fresh,
        endpoint,
    );
    lemma_all_creations_done(p2, changes.create, state, fresh, endpoint);
    let listed = steps_done(records, p3.steps, fresh);
    assert forall|i: int| 0 <= i < new.len() && #[trigger] new[i] == endpoint implies exchanges(
        keys_at(records, changes.update_old[i]),
        keys_at(listed, endpoint),
        changes.update_old[i],
        endpoint,
    ) by {
        assert(changes.update_new[i] == endpoint);
    }

    if is_none_of(endpoint, endpoints_of(changes)) {
        let all = endpoints_of(changes);
        let a = changes.delete;
        assert forall|i: int| 0 <= i < a.len() implies !same_identity(#[trigger] a[i], endpoint) by {
            assert(a[i] == all[i]);
        }
        assert forall|i: int| 0 <= i < new.len() implies !same_identity(
            #[trigger] new[i],
            endpoint,
        ) by {
            assert(new[i] == all[a.len() + i]);
        }
        assert forall|i: int| 0 <= i < changes.create.len() implies !same_identity(
            #[trigger] changes.create[i],
            endpoint,
        ) by {
            assert(changes.create[i] == all[a.len() + new.len() + i]);
        }
    }
}

/// A set of changes comes to what it asks for. If the plan for it has no error, and
/// the set speaks of each endpoint once, then after the plan was carried out
/// - an endpoint that is deleted has the targets that the deletion does not cover,
/// - an endpoint that is updated has its new targets in place of those that its old
///   form names, and no others if that names all targets from before,
/// - an endpoint that is created has its targets beside those from before,
/// - every other endpoint has the targets from before.
pub proof fn law_changes_come_to_what_they_ask_for(
    changes: ChangesModel,
    state: StateModel,
    fresh: spec_fn(Seq<RecordModel>) -> u64,
)
    requires
        outcome(all_steps(changes, state).steps).1 is None,
        can_be_carried_out(changes, state.records, fresh),
    ensures
        ({
            let operations = outcome(all_steps(changes, state).steps).0;
            let listed = after(state.records, operations, fresh);
            &&& forall|i: int|
                0 <= i < changes.delete.len() ==> keys_at(listed, #[trigger] changes.delete[i])
                    == keys_left(state.records, changes.delete[i])
            &&& forall|i: int|
                0 <= i < updated(changes).len() ==> {
                    let before = changes.update_old[i];
                    let new = #[trigger] updated(changes)[i];
                    let earlier = keys_at(state.records, before);
                    &&& exchanges(earlier, keys_at(listed, new), before, new)
                    &&& earlier == canonical_targets(before).to_multiset() ==> keys_at(listed, new)
                        == canonical_targets(new).to_multiset()
                }
            &&& forall|i: int|
                0 <= i < changes.create.len() ==> keys_at(listed, #[trigger] changes.create[i])
                    == keys_at(state.records, changes.create[i]).add(
                    canonical_targets(changes.create[i]).to_multiset(),
                )
            &&& forall|other: EndpointModel| #[trigger]
                is_none_of(other, endpoints_of(changes)) ==> keys_at(listed, other) == keys_at(
                    state.records,
                    other,
                )
        }),
{
    let steps = all_steps(changes, state).steps;
    let listed = after(state.records, outcome(steps).0, fresh);
    lemma_outcome_done(state.records, steps, fresh);
    assert forall|i: int| 0 <= i < changes.delete.len() implies keys_at(
        listed,
        #[trigger] changes.delete[i],
    ) == keys_left(state.records, changes.delete[i]) by {
        lemma_changes_done(changes, state, fresh, changes.delete[i]);
    }
    assert forall|i: int| 0 <= i < updated(changes).len() implies {
        let before = changes.update_old[i];
        let new = #[trigger] updated(changes)[i];
        let earlier = keys_at(state.records, before);
        &&& exchanges(earlier, keys_at(listed, new), before, new)
        &&& earlier == canonical_targets(before).to_multiset() ==> keys_at(listed, new)
            == canonical_targets(new).to_multiset()
    } by {
        let before = changes.update_old[i];
        let new = updated(changes)[i];
        let earlier = keys_at(state.records, before);
        lemma_changes_done(changes, state, fresh, new);
        if earlier == canonical_targets(before).to_multiset() {
            lemma_exchanges_all(earlier, keys_at(listed, new), before, new);
        }
    }
    assert forall|i: int| 0 <= i < changes.create.len() implies keys_at(
        listed,
        #[trigger] changes.create[i],
    ) == keys_at(state.records, changes.create[i]).add(
        canonical_targets(changes.create[i]).to_multiset(),
    ) by {
        lemma_changes_done(changes, state, fresh, changes.create[i]);
    }
    assert forall|other: EndpointModel| #[trigger]
        is_none_of(other, endpoints_of(changes)) implies keys_at(listed, other) == keys_at(
        state.records,
        other,
    ) by {
        lemma_changes_done(changes, state, fresh, other);
    }
}

// ---------------------------------------------------------------------------
// TTLs
// ---------------------------------------------------------------------------

/// Whatever is listed was listed before, or it is a record of the endpoint, with the
/// TTL that the endpoint asks for if it asks for one.
pub open spec fn adds_only(
    before: Seq<RecordModel>,
    listed: Seq<RecordModel>,
    desired: EndpointModel,
) -> bool {
    forall|r: RecordModel| #[trigger]
        listed.contains(r) ==> before.contains(r) || (same_identity(r.endpoint, desired) && (
        desired.record_ttl > 0 ==> r.endpoint.record_ttl == desired.record_ttl))
}

/// A record of the endpoint has another TTL than the one that is asked for.
spec fn has_other_ttl(record: RecordModel, desired: EndpointModel) -> bool {
    desired.record_ttl > 0 && record.endpoint.record_ttl != desired.record_ttl
}

proof fn lemma_adds_only_chain(
    a: Seq<RecordModel>,
    b: Seq<RecordModel>,
    c: Seq<RecordModel>,
    desired: EndpointModel,
)
    requires
        adds_only(a, b, desired),
        adds_only(b, c, desired),
    ensures
        adds_only(a, c, desired),
{
    assert forall|r: RecordModel| #[trigger] c.contains(r) implies a.contains(r) || (same_identity(
        r.endpoint,
        desired,
    ) && (desired.record_ttl > 0 ==> r.endpoint.record_ttl == desired.record_ttl)) by {
        if b.contains(r) {
        }
    }
}

/// One change of a record: it is written with the TTL that is asked for.
proof fn lemma_update_adds(
    world: Seq<RecordModel>,
    record: RecordModel,
    desired: EndpointModel,
    target: Seq<char>,
    zone: Seq<char>,
    fresh: spec_fn(Seq<RecordModel>) -> u64,
)
    requires
        is_record_of(record, desired),
        is_readable_target(desired, target),
        update_step(record, desired, target, zone) is Ok,
    ensures
        ({
            let operation = update_step(record, desired, target, zone)->Ok_0;
            let listed = carried_out(world, operation, fresh);
            &&& adds_only(world, listed, desired)
            &&& has_other_ttl(record, desired) ==> !listed.contains(record)
            &&& listed.len() == world.len()
        }),
{
    let operation = update_step(record, desired, target, zone)->Ok_0;
    let listed = carried_out(world, operation, fresh);
    law_written_record_is_recognised(record.id, desired, target, zone, record.zone);
    let change = change_in(desired, target, zone, record.zone);
    let written = record_of(written_response(record.id, change), record.zone)->Ok_0;
    assert(operation == OperationModel::Update { zone: record.zone, id: record.id, change });
    assert forall|r: RecordModel| #[trigger] listed.contains(r) implies world.contains(r) || r
        == written by {
        let i = choose|i: int| 0 <= i < listed.len() && listed[i] == r;
        if world[i].id != record.id {
            assert(world[i] == r);
        }
    }
    if has_other_ttl(record, desired) && listed.contains(record) {
        let i = choose|i: int| 0 <= i < listed.len() && listed[i] == record;
        assert(listed[i] == written);
    }
}

/// Records that keep their target end up with the TTL that is asked for.
proof fn lemma_kept_adds(
    world: Seq<RecordModel>,
    kept: Seq<(int, Seq<char>)>,
    desired: EndpointModel,
    zone: Seq<char>,
    records: Seq<RecordModel>,
    fresh: spec_fn(Seq<RecordModel>) -> u64,
)
    requires
        forall|i: int|
            0 <= i < kept.len() ==> {
                &&& is_record_of(records[(#[trigger] kept[i]).0], desired)
                &&& is_readable_target(desired, kept[i].1)
            },
        are_ok(kept_steps(kept, desired, zone, records)),
    ensures
        ({
            let listed = steps_done(world, kept_steps(kept, desired, zone, records), fresh);
            &&& adds_only(world, listed, desired)
            &&& forall|i: int|
                0 <= i < kept.len() && has_other_ttl(records[(#[trigger] kept[i]).0], desired)
                    ==> !listed.contains(records[kept[i].0])
            &&& listed.len() == world.len()
        }),
    decreases kept.len(),
{
    if kept.len() > 0 {
        let front = kept.drop_last();
        let steps = kept_steps(kept, desired, zone, records);
        let before = kept_steps(front, desired, zone, records);
        assert forall|i: int| 0 <= i < front.len() implies {
            &&& is_record_of(records[(#[trigger] front[i]).0], desired)
            &&& is_readable_target(desired, front[i].1)
        } by {
            assert(front[i] == kept[i]);
        }
        assert forall|i: int| 0 <= i < before.len() implies (#[trigger] before[i]) is Ok by {
            assert(steps[i] == before[i]);
        }
        lemma_kept_adds(world, front, desired, zone, records, fresh);
        let middle = steps_done(world, before, fresh);
        let listed = steps_done(world, steps, fresh);
        let (place, target) = kept.last();
        let record = records[place];
        assert(is_record_of(records[kept[kept.len() - 1].0], desired));
        if wants_other_ttl(record.endpoint, desired) {
            assert(steps.drop_last() =~= before);
            assert(steps[steps.len() - 1] is Ok);
            lemma_update_adds(middle, record, desired, target, zone, fresh);
            lemma_adds_only_chain(world, middle, listed, desired);
        }
        assert forall|i: int|
            0 <= i < kept.len() && has_other_ttl(
                records[(#[trigger] kept[i]).0],
                desired,
            ) implies !listed.contains(records[kept[i].0]) by {
            if i < front.len() {
                assert(front[i] == kept[i]);
                assert(!middle.contains(records[front[i].0]));
            }
        }
    }
}

/// Records that get new targets end up with the TTL that is asked for.
proof fn lemma_changed_adds(
    world: Seq<RecordModel>,
    pairs: Pairing,
    n: nat,
    desired: EndpointModel,
    zone: Seq<char>,
    records: Seq<RecordModel>,
    fresh: spec_fn(Seq<RecordModel>) -> u64,
)
    requires
        n <= pairs.changed.len(),
        n <= pairs.fresh.len(),
        forall|i: int|
            0 <= i < n ==> {
                &&& is_record_of(records[#[trigger] pairs.changed[i]], desired)
                &&& is_readable_target(desired, pairs.fresh[i])
            },
        are_ok(changed_steps(pairs, n, desired, zone, records)),
    ensures
        ({
            let listed = steps_done(world, changed_steps(pairs, n, desired, zone, records), fresh);
            &&& adds_only(world, listed, desired)
            &&& forall|i: int|
                0 <= i < n && has_other_ttl(records[#[trigger] pairs.changed[i]], desired)
                    ==> !listed.contains(records[pairs.changed[i]])
            &&& listed.len() == world.len()
        }),
    decreases n,
{
    if n > 0 {
        let m = (n - 1) as nat;
        let steps = changed_steps(pairs, n, desired, zone, records);
        let before = changed_steps(pairs, m, desired, zone, records);
        assert(steps.drop_last() =~= before);
        assert forall|i: int| 0 <= i < before.len() implies (#[trigger] before[i]) is Ok by {
            assert(steps[i] == before[i]);
        }
        lemma_changed_adds(world, pairs, m, desired, zone, records, fresh);
        let middle = steps_done(world, before, fresh);
        let listed = steps_done(world, steps, fresh);
        let record = records[pairs.changed[n - 1]];
        assert(steps[n - 1] is Ok);
        lemma_update_adds(middle, record, desired, pairs.fresh[n - 1], zone, fresh);
        lemma_adds_only_chain(world, middle, listed, desired);
        assert forall|i: int|
            0 <= i < n && has_other_ttl(
                records[#[trigger] pairs.changed[i]],
                desired,
            ) implies !listed.contains(records[pairs.changed[i]]) by {
            if i < m {
                assert(!middle.contains(records[pairs.changed[i]]));
            }
        }
    }
}

/// New records have the TTL that is asked for.
proof fn lemma_created_adds(
    world: Seq<RecordModel>,
    targets: Seq<Seq<char>>,
    desired: EndpointModel,
    zone: Seq<char>,
    fresh: spec_fn(Seq<RecordModel>) -> u64,
)
    requires
        numbers_afresh(fresh),
        world.len() + targets.len() <= u64::MAX,
        lies_in(desired.dns_name, zone),
        forall|i: int|
            0 <= i < targets.len() ==> is_readable_target(desired, #[trigger] targets[i]),
        are_ok(create_steps(desired, targets, zone)),
    ensures
        ({
            let listed = steps_done(world, create_steps(desired, targets, zone), fresh);
            &&& adds_only(world, listed, desired)
            &&& listed.len() == world.len() + targets.len()
        }),
    decreases targets.len(),
{
    let steps = create_steps(desired, targets, zone);
    if targets.len() > 0 {
        let front = targets.drop_last();
        let before = create_steps(desired, front, zone);
        assert(steps.drop_last() =~= before);
        assert forall|i: int| 0 <= i < front.len() implies is_readable_target(
            desired,
            #[trigger] front[i],
        ) by {
            assert(front[i] == targets[i]);
        }
        assert forall|i: int| 0 <= i < before.len() implies (#[trigger] before[i]) is Ok by {
            assert(steps[i] == before[i]);
        }
        lemma_created_adds(world, front, desired, zone, fresh);
        let middle = steps_done(world, before, fresh);
        let listed = steps_done(world, steps, fresh);
        let target = targets[targets.len() - 1];
        assert(steps[targets.len() - 1] is Ok);
        let id = fresh(middle);
        law_written_record_is_recognised(id, desired, target, zone, zone);
        let change = change_of(desired, target, zone)->Ok_0;
        let written = record_of(written_response(id, change), zone)->Ok_0;
        let operation = OperationModel::Create { zone, change };
        assert(steps.last() == Ok::<OperationModel, ProviderErrorModel>(operation));
        assert(listed == middle.push(written));
        assert forall|r: RecordModel| #[trigger] listed.contains(r) implies middle.contains(r) || r
            == written by {
            let i = choose|i: int| 0 <= i < listed.len() && listed[i] == r;
            if i < middle.len() {
                assert(middle[i] == r);
            }
        }
        assert(adds_only(middle, listed, desired));
        lemma_adds_only_chain(world, middle, listed, desired);
    }
}

/// Deleted records are gone, and nothing comes.
proof fn lemma_deleted_adds(
    start: Seq<RecordModel>,
    p: Progress,
    places: Seq<int>,
    records: Seq<RecordModel>,
    fresh: spec_fn(Seq<RecordModel>) -> u64,
)
    requires
        are_distinct(places, records),
        forall|i: int|
            0 <= i < places.len() ==> !p.deleted.contains(records[#[trigger] places[i]].id),
    ensures
        ({
            let q = deletions_at(p, records, places);
            let before = steps_done(start, p.steps, fresh);
            let listed = steps_done(start, q.steps, fresh);
            &&& forall|r: RecordModel| #[trigger] listed.contains(r) ==> before.contains(r)
            &&& forall|i: int|
                0 <= i < places.len() ==> !listed.contains(records[#[trigger] places[i]])
            &&& forall|id: u64| #[trigger]
                q.deleted.contains(id) ==> p.deleted.contains(id) || exists|i: int|
                    0 <= i < places.len() && records[#[trigger] places[i]].id == id
        }),
    decreases places.len(),
{
    if places.len() > 0 {
        let front = places.drop_last();
        lemma_front_distinct(places, records);
        assert forall|i: int| 0 <= i < front.len() implies !p.deleted.contains(
            records[#[trigger] front[i]].id,
        ) by {
            assert(front[i] == places[i]);
        }
        lemma_deleted_adds(start, p, front, records, fresh);
        let q = deletions_at(p, records, front);
        let whole = deletions_at(p, records, places);
        let middle = steps_done(start, q.steps, fresh);
        let record = records[places.last()];
        assert(places[places.len() - 1] == places.last());
        assert(!q.deleted.contains(record.id));
        assert(whole.steps.drop_last() =~= q.steps);
        let listed = steps_done(start, whole.steps, fresh);
        let left = |r: RecordModel| r.id != record.id;
        assert(listed == middle.filter(left));
        assert forall|r: RecordModel| #[trigger] listed.contains(r) implies middle.contains(r)
            && r.id != record.id by {
            middle.lemma_filter_contains_rev(left, r);
            let i = choose|i: int| 0 <= i < listed.len() && listed[i] == r;
            middle.lemma_filter_pred(left, i);
        }
        assert forall|i: int| 0 <= i < places.len() implies !listed.contains(
            records[#[trigger] places[i]],
        ) by {
            if i < front.len() {
                assert(front[i] == places[i]);
            }
        }
        assert forall|id: u64| #[trigger] whole.deleted.contains(id) implies p.deleted.contains(id)
            || exists|i: int| 0 <= i < places.len() && records[#[trigger] places[i]].id == id by {
            if id == record.id {
                assert(records[places[places.len() - 1]].id == id);
            } else if !p.deleted.contains(id) {
                assert(q.deleted.contains(id));
                let i = choose|i: int|
                    0 <= i < front.len() && records[#[trigger] front[i]].id == id;
                assert(records[places[i]].id == id);
            }
        }
    }
}

/// The records that were found for an update end up with the TTL that is asked for,
/// or are gone.
#[verifier::rlimit(40)]
#[verifier::spinoff_prover]
proof fn lemma_pairs_add(
    p: Progress,
    current: EndpointModel,
    desired: EndpointModel,
    records: Seq<RecordModel>,
    places: Seq<int>,
    zone: Seq<char>,
    fresh: spec_fn(Seq<RecordModel>) -> u64,
)
    requires
        is_readable(desired),
        numbers_afresh(fresh),
        steps_done(records, p.steps, fresh).len() + desired.targets.len() <= u64::MAX,
        same_identity(current, desired),
        lies_in(desired.dns_name, zone),
        are_distinct(places, records),
        are_there(p, places, desired, records, fresh),
        are_ok(
            paired_steps(
                p,
                pairing(current, desired, records, places, places.len() as int),
                desired,
                zone,
                records,
            ).steps,
        ),
    ensures
        ({
            let pairs = pairing(current, desired, records, places, places.len() as int);
            let q = paired_steps(p, pairs, desired, zone, records);
            let before = steps_done(records, p.steps, fresh);
            let listed = steps_done(records, q.steps, fresh);
            &&& adds_only(before, listed, desired)
            &&& forall|i: int|
                0 <= i < places.len() && has_other_ttl(records[#[trigger] places[i]], desired)
                    ==> !listed.contains(records[places[i]])
        }),
{
    broadcast use vstd::seq_lib::group_to_multiset_ensures;

    let count = places.len() as int;
    let pairs = pairing(current, desired, records, places, count);
    let n = shorter(pairs.changed.len(), pairs.fresh.len());
    let kept = kept_steps(pairs.kept, desired, zone, records);
    let changed = changed_steps(pairs, n, desired, zone, records);
    let more = pairs.fresh.skip(n as int);
    let created = create_steps(desired, more, zone);
    let rest = pairs.changed.skip(n as int);
    let p3 = p.with_steps(kept).with_steps(changed).with_steps(created);
    let q = deletions_at(p3, records, rest);
    let w0 = steps_done(records, p.steps, fresh);
    let w1 = steps_done(w0, kept, fresh);
    let w2 = steps_done(w1, changed, fresh);
    let w3 = steps_done(w2, created, fresh);
    let w4 = steps_done(records, q.steps, fresh);

    assert forall|i: int| 0 <= i < places.len() implies {
        &&& 0 <= (#[trigger] places[i]) < records.len()
        &&& same_identity(records[places[i]].endpoint, current)
        &&& records[places[i]].endpoint.targets.len() > 0
    } by {
        assert(is_record_of(records[places[i]], desired));
    }
    lemma_pairing_is_apart(current, desired, records, places, count);
    law_update_leaves_the_targets_asked_for(current, desired, records, places, count);
    lemma_pairing_sums(current, desired, records, places, count, desired);
    lemma_fresh_is_short(current, desired, records, places, count);
    lemma_parts_without_error(p, pairs, desired, zone, records);
    assert forall|place: int| is_among(place, places, count) implies {
        &&& is_record_of(records[place], desired)
        &&& !p.deleted.contains(records[place].id)
    } by {
        let k = choose|k: int| 0 <= k < count && #[trigger] places[k] == place;
        assert(0 <= places[k] < records.len());
    }
    assert forall|i: int| 0 <= i < pairs.kept.len() implies {
        &&& is_record_of(records[(#[trigger] pairs.kept[i]).0], desired)
        &&& is_readable_target(desired, pairs.kept[i].1)
    } by {
        assert(is_among(pairs.kept[i].0, places, count));
        lemma_is_readable(desired, pairs.kept[i].1);
    }
    assert forall|i: int| 0 <= i < n implies {
        &&& is_record_of(records[#[trigger] pairs.changed[i]], desired)
        &&& is_readable_target(desired, pairs.fresh[i])
    } by {
        assert(is_among(pairs.changed[i], places, count));
        assert(desired.targets.contains(pairs.fresh[i]));
        lemma_is_readable(desired, pairs.fresh[i]);
    }
    assert forall|i: int| 0 <= i < more.len() implies is_readable_target(
        desired,
        #[trigger] more[i],
    ) by {
        assert(more[i] == pairs.fresh[n + i]);
        assert(desired.targets.contains(pairs.fresh[n + i]));
        lemma_is_readable(desired, more[i]);
    }
    lemma_kept_adds(w0, pairs.kept, desired, zone, records, fresh);
    lemma_changed_adds(w1, pairs, n, desired, zone, records, fresh);
    lemma_created_adds(w2, more, desired, zone, fresh);

    lemma_steps_done_add(records, p.steps, kept, fresh);
    lemma_steps_done_add(records, p.steps + kept, changed, fresh);
    lemma_steps_done_add(records, (p.steps + kept) + changed, created, fresh);
    assert(p3.steps =~= ((p.steps + kept) + changed) + created);
    assert(steps_done(records, p3.steps, fresh) == w3);
    assert(are_distinct(rest, records)) by {
        assert forall|i: int, j: int| 0 <= i < j < rest.len() implies records[#[trigger] rest[i]].id
            != records[#[trigger] rest[j]].id by {
            assert(records[pairs.changed[n + i]].id != records[pairs.changed[n + j]].id);
        }
    }
    assert forall|i: int| 0 <= i < rest.len() implies !p3.deleted.contains(
        records[#[trigger] rest[i]].id,
    ) by {
        assert(rest[i] == pairs.changed[n + i]);
        assert(is_among(pairs.changed[n + i], places, count));
    }
    lemma_deleted_adds(records, p3, rest, records, fresh);
    assert(adds_only(w3, w4, desired));
    lemma_adds_only_chain(w2, w3, w4, desired);
    lemma_adds_only_chain(w1, w2, w4, desired);
    lemma_adds_only_chain(w0, w1, w4, desired);

    assert forall|i: int|
        0 <= i < places.len() && has_other_ttl(
            records[#[trigger] places[i]],
            desired,
        ) implies !w4.contains(records[places[i]]) by {
        let place = places[i];
        assert(places.take(count) =~= places);
        assert(places.to_multiset().count(place) > 0) by {
            assert(places.contains(place));
        }
        let held = kept_places(pairs);
        if held.to_multiset().count(place) > 0 {
            assert(held.contains(place));
            let j = choose|j: int| 0 <= j < held.len() && held[j] == place;
            assert(pairs.kept[j].0 == place);
            assert(!w1.contains(records[pairs.kept[j].0]));
        } else {
            assert(pairs.changed.to_multiset().count(place) > 0);
            assert(pairs.changed.contains(place));
            let j = choose|j: int| 0 <= j < pairs.changed.len() && pairs.changed[j] == place;
            if j < n {
                assert(!w2.contains(records[pairs.changed[j]]));
            } else {
                assert(rest[j - n] == place);
            }
        }
    }
}

/// What an update leaves of the records that were listed.
#[verifier::spinoff_prover]
proof fn lemma_replacement_adds(
    p: Progress,
    current: EndpointModel,
    desired: EndpointModel,
    state: StateModel,
    fresh: spec_fn(Seq<RecordModel>) -> u64,
)
    requires
        are_ok(replacement(p, current, desired, state).steps),
        can_be_updated(desired, state.records, fresh),
        steps_done(state.records, p.steps, fresh).len() + desired.targets.len() <= u64::MAX,
        is_untouched(p, desired, state.records, fresh),
    ensures
        ({
            let q = replacement(p, current, desired, state);
            let before = steps_done(state.records, p.steps, fresh);
            let listed = steps_done(state.records, q.steps, fresh);
            let found = find_records(
                current,
                current.targets.len() as int,
                state.records,
                p.deleted,
            );
            &&& adds_only(before, listed, desired)
            &&& found is Ok
            &&& found->Ok_0.len() == current.targets.len()
            &&& same_identity(current, desired)
            &&& are_distinct(found->Ok_0, state.records)
            &&& are_there(p, found->Ok_0, desired, state.records, fresh)
            &&& forall|i: int|
                0 <= i < found->Ok_0.len() ==> {
                    let record = state.records[#[trigger] found->Ok_0[i]];
                    &&& canonical(current.record_type, record.endpoint.targets[0]) == canonical(
                        current.record_type,
                        current.targets[i],
                    )
                    &&& has_other_ttl(record, desired) ==> !listed.contains(record)
                }
        }),
{
    let records = state.records;
    let q = replacement(p, current, desired, state);
    let count = current.targets.len() as int;
    let found = find_records(current, count, records, p.deleted);
    let chosen = best_zone(state.zones, current.dns_name);
    if !(same_identity(current, desired) && chosen is Some && found is Ok) {
        assert(q.steps[p.steps.len() as int] is Err);
    }
    let places = found->Ok_0;
    let zone = chosen->0;
    let pairs = pairing(current, desired, records, places, places.len() as int);
    law_best_zone(state.zones, current.dns_name);
    law_normal_form_ignores_case(current.dns_name, desired.dns_name);
    lemma_find_records(current, count, records, p.deleted);
    lemma_found_distinct(current, count, records, p.deleted);
    assert forall|i: int| 0 <= i < places.len() implies {
        &&& 0 <= (#[trigger] places[i]) < records.len()
        &&& is_record_of(records[places[i]], desired)
        &&& canonical(current.record_type, records[places[i]].endpoint.targets[0]) == canonical(
            current.record_type,
            current.targets[i],
        )
    } by {
        assert(is_candidate(
            current,
            current.targets[i],
            records[places[i]],
            Set::empty(),
            p.deleted,
        ));
    }
    assert(q == paired_steps(p, pairs, desired, zone, records));
    lemma_pairs_add(p, current, desired, records, places, zone, fresh);
}

/// A record that is listed adds its target.
proof fn lemma_key_is_listed(records: Seq<RecordModel>, i: int, endpoint: EndpointModel)
    requires
        0 <= i < records.len(),
        same_identity(records[i].endpoint, endpoint),
        records[i].endpoint.targets.len() > 0,
    ensures
        keys_at(records, endpoint).count(
            canonical(endpoint.record_type, records[i].endpoint.targets[0]),
        ) > 0,
    decreases records.len(),
{
    if i < records.len() - 1 {
        lemma_key_is_listed(records.drop_last(), i, endpoint);
    }
}

/// Where an endpoint names all the targets that are listed for it, all of its records
/// are found.
proof fn lemma_all_are_found(
    p: Progress,
    current: EndpointModel,
    desired: EndpointModel,
    records: Seq<RecordModel>,
    places: Seq<int>,
    k: int,
    fresh: spec_fn(Seq<RecordModel>) -> u64,
)
    requires
        is_numbered(records),
        same_identity(current, desired),
        places.len() == current.targets.len(),
        are_distinct(places, records),
        forall|i: int|
            0 <= i < places.len() ==> {
                &&& 0 <= (#[trigger] places[i]) < records.len()
                &&& is_record_of(records[places[i]], desired)
                &&& canonical(current.record_type, records[places[i]].endpoint.targets[0])
                    == canonical(current.record_type, current.targets[i])
            },
        keys_at(records, current) == canonical_targets(current).to_multiset(),
        0 <= k < records.len(),
        same_identity(records[k].endpoint, desired),
        records[k].endpoint.targets.len() > 0,
    ensures
        exists|i: int| 0 <= i < places.len() && #[trigger] places[i] == k,
{
    if !(exists|i: int| 0 <= i < places.len() && #[trigger] places[i] == k) {
        let start = Progress::start();
        assert forall|i: int| 0 <= i < places.len() implies {
            &&& has_once(steps_done(records, start.steps, fresh), records[#[trigger] places[i]])
            &&& !start.deleted.contains(records[places[i]].id)
            &&& same_identity(records[places[i]].endpoint, current)
        } by {
            assert(is_record_of(records[places[i]], desired));
            assert(records.contains(records[places[i]]));
        }
        lemma_deleted_done(records, start, places, records, desired, fresh);
        let listed = steps_done(records, deletions_at(start, records, places).steps, fresh);
        lemma_found_sums(current, desired, records, places, places.len() as int);
        assert(places.take(places.len() as int) =~= places);
        assert(canonical_targets(current).take(places.len() as int) =~= canonical_targets(
            current,
        ));
        lemma_keys_same_identity(records, current, desired);
        let all = keys_at(records, desired);
        assert(keys_at(listed, desired).add(all) == all);
        let record = records[k];
        assert forall|i: int| 0 <= i < places.len() implies records[#[trigger] places[i]].id
            != record.id by {
            if records[places[i]].id == record.id {
                lemma_numbered_apart(records, places[i], k);
            }
        }
        assert(has_once(records, record)) by {
            assert(records.contains(record));
            assert(record.id > 0);
        }
        assert(has_once(listed, record));
        let j = choose|j: int| 0 <= j < listed.len() && listed[j] == record;
        lemma_key_is_listed(listed, j, desired);
        let x = canonical(desired.record_type, record.endpoint.targets[0]);
        assert(keys_at(listed, desired).add(all).count(x) == all.count(x));
    }
}

/// An endpoint names every target that is listed for it, and each of its records has
/// a target.
pub open spec fn names_all(current: EndpointModel, records: Seq<RecordModel>) -> bool {
    &&& keys_at(records, current) == canonical_targets(current).to_multiset()
    &&& forall|i: int|
        0 <= i < records.len() && same_identity((#[trigger] records[i]).endpoint, current)
            ==> records[i].endpoint.targets.len() > 0
}

/// The TTL of what an update leaves.
proof fn lemma_replacement_ttl(
    p: Progress,
    current: EndpointModel,
    desired: EndpointModel,
    state: StateModel,
    fresh: spec_fn(Seq<RecordModel>) -> u64,
)
    requires
        are_ok(replacement(p, current, desired, state).steps),
        can_be_updated(desired, state.records, fresh),
        steps_done(state.records, p.steps, fresh).len() + desired.targets.len() <= u64::MAX,
        is_untouched(p, desired, state.records, fresh),
        forall|r: RecordModel|
            #![trigger steps_done(state.records, p.steps, fresh).contains(r)]
            steps_done(state.records, p.steps, fresh).contains(r) && same_identity(
                r.endpoint,
                desired,
            ) ==> state.records.contains(r),
        desired.record_ttl > 0,
        names_all(current, state.records),
    ensures
        ({
            let listed = steps_done(
                state.records,
                replacement(p, current, desired, state).steps,
                fresh,
            );
            forall|r: RecordModel| #[trigger]
                listed.contains(r) && same_identity(r.endpoint, desired) ==> r.endpoint.record_ttl
                    == desired.record_ttl
        }),
{
    let records = state.records;
    let before = steps_done(records, p.steps, fresh);
    let listed = steps_done(records, replacement(p, current, desired, state).steps, fresh);
    lemma_replacement_adds(p, current, desired, state, fresh);
    let places = find_records(
        current,
        current.targets.len() as int,
        records,
        p.deleted,
    )->Ok_0;
    assert forall|r: RecordModel| #[trigger] listed.contains(r) && same_identity(
        r.endpoint,
        desired,
    ) implies r.endpoint.record_ttl == desired.record_ttl by {
        if r.endpoint.record_ttl != desired.record_ttl {
            assert(before.contains(r));
            assert(records.contains(r));
            let k = choose|k: int| 0 <= k < records.len() && records[k] == r;
            assert(same_identity(records[k].endpoint, current));
            lemma_all_are_found(p, current, desired, records, places, k, fresh);
            let i = choose|i: int| 0 <= i < places.len() && #[trigger] places[i] == k;
            assert(has_other_ttl(records[places[i]], desired));
            assert(!listed.contains(records[places[i]]));
        }
    }
}

/// An update sets the TTL that it asks for. After it was carried out
/// - whatever record of the endpoint has another TTL was listed just so before,
/// - a record that was found for a target of the old endpoint has the TTL that is
///   asked for, if it is still listed,
/// - every record of the endpoint has that TTL, if the old endpoint names all targets
///   that were listed.
pub proof fn law_update_sets_the_ttl(
    current: EndpointModel,
    desired: EndpointModel,
    state: StateModel,
    fresh: spec_fn(Seq<RecordModel>) -> u64,
)
    requires
        outcome(replacement(Progress::start(), current, desired, state).steps).1 is None,
        can_be_updated(desired, state.records, fresh),
        desired.record_ttl > 0,
    ensures
        ({
            let operations = outcome(
                replacement(Progress::start(), current, desired, state).steps,
            ).0;
            let listed = after(state.records, operations, fresh);
            let found = find_records(
                current,
                current.targets.len() as int,
                state.records,
                Set::empty(),
            );
            &&& forall|r: RecordModel| #[trigger]
                listed.contains(r) && same_identity(r.endpoint, desired) && r.endpoint.record_ttl
                    != desired.record_ttl ==> state.records.contains(r)
            &&& found is Ok && found->Ok_0.len() == current.targets.len()
            &&& forall|i: int, r: RecordModel|
                0 <= i < found->Ok_0.len() && #[trigger] listed.contains(r) && r.id
                    == state.records[#[trigger] found->Ok_0[i]].id && same_identity(
                    r.endpoint,
                    desired,
                ) ==> r.endpoint.record_ttl == desired.record_ttl
            &&& names_all(current, state.records) ==> forall|r: RecordModel| #[trigger]
                listed.contains(r) && same_identity(r.endpoint, desired) ==> r.endpoint.record_ttl
                    == desired.record_ttl
        }),
{
    let records = state.records;
    let start = Progress::start();
    let steps = replacement(start, current, desired, state).steps;
    let listed = after(records, outcome(steps).0, fresh);
    lemma_outcome_done(records, steps, fresh);
    lemma_untouched_at_start(desired, records, fresh);
    lemma_replacement_adds(start, current, desired, state, fresh);
    let places = find_records(
        current,
        current.targets.len() as int,
        records,
        Set::empty(),
    )->Ok_0;
    assert forall|i: int, r: RecordModel|
        0 <= i < places.len() && #[trigger] listed.contains(r) && r.id
            == records[#[trigger] places[i]].id && same_identity(
            r.endpoint,
            desired,
        ) implies r.endpoint.record_ttl == desired.record_ttl by {
        if r.endpoint.record_ttl != desired.record_ttl {
            assert(records.contains(r));
            let k = choose|k: int| 0 <= k < records.len() && records[k] == r;
            assert(0 <= places[i] < records.len());
            lemma_numbered_apart(records, places[i], k);
            assert(has_other_ttl(records[places[i]], desired));
        }
    }
    if names_all(current, records) {
        lemma_replacement_ttl(start, current, desired, state, fresh);
    }
}

/// A deletion takes nothing but records away.
proof fn lemma_deletion_only_removes(
    start: Seq<RecordModel>,
    p: Progress,
    endpoint: EndpointModel,
    list: Seq<RecordModel>,
    fresh: spec_fn(Seq<RecordModel>) -> u64,
)
    ensures
        ({
            let before = steps_done(start, p.steps, fresh);
            let listed = steps_done(start, deletion(p, endpoint, list).steps, fresh);
            forall|r: RecordModel| #[trigger] listed.contains(r) ==> before.contains(r)
        }),
    decreases list.len(),
{
    if list.len() > 0 {
        lemma_deletion_only_removes(start, p, endpoint, list.drop_last(), fresh);
        let q = deletion(p, endpoint, list.drop_last());
        let whole = deletion(p, endpoint, list);
        let record = list.last();
        if covered_by_deletion(endpoint, record) && !q.deleted.contains(record.id) {
            assert(whole.steps.drop_last() =~= q.steps);
            let middle = steps_done(start, q.steps, fresh);
            let listed = steps_done(start, whole.steps, fresh);
            let left = |r: RecordModel| r.id != record.id;
            assert(listed == middle.filter(left));
            assert forall|r: RecordModel| #[trigger] listed.contains(r) implies middle.contains(
                r,
            ) by {
                middle.lemma_filter_contains_rev(left, r);
            }
        }
    }
}

proof fn lemma_all_deletions_only_remove(
    list: Seq<EndpointModel>,
    records: Seq<RecordModel>,
    fresh: spec_fn(Seq<RecordModel>) -> u64,
)
    ensures
        ({
            let listed = steps_done(
                records,
                all_deletions(Progress::start(), list, records).steps,
                fresh,
            );
            forall|r: RecordModel| #[trigger] listed.contains(r) ==> records.contains(r)
        }),
    decreases list.len(),
{
    if list.len() > 0 {
        lemma_all_deletions_only_remove(list.drop_last(), records, fresh);
        lemma_deletion_only_removes(
            records,
            all_deletions(Progress::start(), list.drop_last(), records),
            list.last(),
            records,
            fresh,
        );
    }
}

/// The first `n` updates of a set of changes add nothing to another endpoint, and
/// each sets the TTL that it asks for.
proof fn lemma_all_replacements_ttl(
    p: Progress,
    current: Seq<EndpointModel>,
    desired: Seq<EndpointModel>,
    n: int,
    state: StateModel,
    fresh: spec_fn(Seq<RecordModel>) -> u64,
    endpoint: EndpointModel,
)
    requires
        0 <= n <= desired.len(),
        are_ok(all_replacements(p, current, desired, n, state).steps),
        have_own_identities(desired.take(n)),
        forall|i: int|
            0 <= i < n ==> {
                &&& can_be_updated(#[trigger] desired[i], state.records, fresh)
                &&& is_untouched(p, desired[i], state.records, fresh)
            },
        steps_done(state.records, p.steps, fresh).len() + count_targets(desired.take(n))
            <= u64::MAX,
        forall|r: RecordModel| #[trigger]
            steps_done(state.records, p.steps, fresh).contains(r) ==> state.records.contains(r),
    ensures
        ({
            let q = all_replacements(p, current, desired, n, state);
            let before = steps_done(state.records, p.steps, fresh);
            let listed = steps_done(state.records, q.steps, fresh);
            &&& is_none_of(endpoint, desired.take(n)) ==> forall|r: RecordModel| #[trigger]
                listed.contains(r) && same_identity(r.endpoint, endpoint) ==> before.contains(r)
            &&& forall|i: int|
                0 <= i < n && #[trigger] desired[i] == endpoint && endpoint.record_ttl > 0
                    && names_all(current[i], state.records) ==> forall|r: RecordModel| #[trigger]
                    listed.contains(r) && same_identity(r.endpoint, endpoint)
                        ==> r.endpoint.record_ttl == endpoint.record_ttl
        }),
    decreases n,
{
    if n > 0 {
        let list = desired.take(n);
        let front = desired.take(n - 1);
        let last = desired[n - 1];
        let middle = all_replacements(p, current, desired, n - 1, state);
        let q = all_replacements(p, current, desired, n, state);
        let w0 = steps_done(state.records, p.steps, fresh);
        let w1 = steps_done(state.records, middle.steps, fresh);
        let w2 = steps_done(state.records, q.steps, fresh);
        assert(list.drop_last() =~= front);
        assert(list.last() == last);
        lemma_replacement_extends(middle, current[n - 1], last, state);
        lemma_beginning_is_ok(middle.steps, q.steps);
        lemma_front_has_own_identities(list);
        lemma_all_replacements_done(p, current, desired, n - 1, state, fresh, last);
        lemma_all_replacements_ttl(p, current, desired, n - 1, state, fresh, last);
        lemma_all_replacements_ttl(p, current, desired, n - 1, state, fresh, endpoint);
        assert(can_be_updated(last, state.records, fresh));
        lemma_replacement_adds(middle, current[n - 1], last, state, fresh);
        if is_none_of(endpoint, list) {
            assert(!same_identity(list[n - 1], endpoint));
            assert forall|i: int| 0 <= i < front.len() implies !same_identity(
                #[trigger] front[i],
                endpoint,
            ) by {
                assert(!same_identity(list[i], endpoint));
            }
            assert forall|r: RecordModel| #[trigger] w2.contains(r) && same_identity(
                r.endpoint,
                endpoint,
            ) implies w0.contains(r) by {
                assert(w1.contains(r));
            }
        }
        assert forall|i: int|
            0 <= i < n && #[trigger] desired[i] == endpoint && endpoint.record_ttl > 0 && names_all(
                current[i],
                state.records,
            ) implies forall|r: RecordModel| #[trigger]
            w2.contains(r) && same_identity(r.endpoint, endpoint) ==> r.endpoint.record_ttl
                == endpoint.record_ttl by {
            if i < n - 1 {
                assert(list[i] == endpoint);
                assert(!same_identity(last, list[i]));
                assert forall|r: RecordModel| #[trigger] w2.contains(r) && same_identity(
                    r.endpoint,
                    endpoint,
                ) implies r.endpoint.record_ttl == endpoint.record_ttl by {
                    assert(w1.contains(r));
                }
            } else {
                assert forall|r: RecordModel|
                    #![trigger w1.contains(r)]
                    w1.contains(r) && same_identity(
                        r.endpoint,
                        last,
                    ) implies state.records.contains(r) by {
                    assert(w0.contains(r));
                }
                lemma_replacement_ttl(middle, current[n - 1], last, state, fresh);
            }
        }
    }
}

/// The creations of a set of changes add nothing to another endpoint.
proof fn lemma_all_creations_add(
    p: Progress,
    list: Seq<EndpointModel>,
    state: StateModel,
    fresh: spec_fn(Seq<RecordModel>) -> u64,
    endpoint: EndpointModel,
)
    requires
        are_ok(all_creations(p, list, state).steps),
        have_own_identities(list),
        numbers_afresh(fresh),
        forall|i: int| 0 <= i < list.len() ==> is_readable(#[trigger] list[i]),
        steps_done(state.records, p.steps, fresh).len() + count_targets(list) <= u64::MAX,
    ensures
        ({
            let before = steps_done(state.records, p.steps, fresh);
            let listed = steps_done(state.records, all_creations(p, list, state).steps, fresh);
            &&& is_none_of(endpoint, list) ==> forall|r: RecordModel| #[trigger]
                listed.contains(r) && same_identity(r.endpoint, endpoint) ==> before.contains(r)
            &&& list.contains(endpoint) ==> forall|r: RecordModel| #[trigger]
                listed.contains(r) && same_identity(r.endpoint, endpoint) ==> before.contains(r)
                    || endpoint.record_ttl <= 0 || r.endpoint.record_ttl == endpoint.record_ttl
        }),
    decreases list.len(),
{
    if list.len() > 0 {
        let front = list.drop_last();
        let last = list.last();
        let middle = all_creations(p, front, state);
        let q = all_creations(p, list, state);
        lemma_creation_extends(middle, last, state);
        lemma_beginning_is_ok(middle.steps, q.steps);
        lemma_front_has_own_identities(list);
        assert forall|i: int| 0 <= i < front.len() implies is_readable(#[trigger] front[i]) by {
            assert(front[i] == list[i]);
        }
        lemma_all_creations_add(p, front, state, fresh, endpoint);
        lemma_all_creations_done(p, front, state, fresh, endpoint);
        let w0 = steps_done(state.records, p.steps, fresh);
        let w1 = steps_done(state.records, middle.steps, fresh);
        let w2 = steps_done(state.records, q.steps, fresh);
        law_best_zone(state.zones, last.dns_name);
        match best_zone(state.zones, last.dns_name) {
            None => {
                assert(q.steps[middle.steps.len() as int] is Err);
            },
            Some(zone) => {
                let steps = create_steps(last, last.targets, zone);
                lemma_steps_done_add(state.records, middle.steps, steps, fresh);
                assert forall|i: int| 0 <= i < steps.len() implies (#[trigger] steps[i]) is Ok by {
                    assert(q.steps[middle.steps.len() + i] == steps[i]);
                }
                assert(is_readable(list[list.len() - 1]));
                assert forall|i: int| 0 <= i < last.targets.len() implies is_readable_target(
                    last,
                    #[trigger] last.targets[i],
                ) by {
                    lemma_is_readable(last, last.targets[i]);
                }
                lemma_created_adds(w1, last.targets, last, zone, fresh);
            },
        }
        assert(adds_only(w1, w2, last));
        if is_none_of(endpoint, list) {
            assert(!same_identity(list[list.len() - 1], endpoint));
            assert forall|i: int| 0 <= i < front.len() implies !same_identity(
                #[trigger] front[i],
                endpoint,
            ) by {
                assert(!same_identity(list[i], endpoint));
            }
            assert forall|r: RecordModel| #[trigger] w2.contains(r) && same_identity(
                r.endpoint,
                endpoint,
            ) implies w0.contains(r) by {
                assert(w1.contains(r));
            }
        }
        if list.contains(endpoint) {
            let i = choose|i: int| 0 <= i < list.len() && list[i] == endpoint;
            if i < front.len() {
                assert(front[i] == endpoint);
                assert(!same_identity(last, list[i]));
                assert forall|r: RecordModel| #[trigger] w2.contains(r) && same_identity(
                    r.endpoint,
                    endpoint,
                ) implies w0.contains(r) || endpoint.record_ttl <= 0 || r.endpoint.record_ttl
                    == endpoint.record_ttl by {
                    assert(w1.contains(r));
                }
            } else {
                assert(is_none_of(endpoint, front));
                assert forall|r: RecordModel| #[trigger] w2.contains(r) && same_identity(
                    r.endpoint,
                    endpoint,
                ) implies w0.contains(r) || endpoint.record_ttl <= 0 || r.endpoint.record_ttl
                    == endpoint.record_ttl by {
                    if w1.contains(r) {
                    }
                }
            }
        }
    }
}

/// The TTLs that a set of changes asks for are set. After the plan for it was carried
/// out
/// - every record of an updated endpoint has the TTL that is asked for, if the old
///   form names all targets that were listed,
/// - every record of a created endpoint has the TTL that is asked for, unless it was
///   listed before.
pub proof fn law_changes_set_the_ttls(
    changes: ChangesModel,
    state: StateModel,
    fresh: spec_fn(Seq<RecordModel>) -> u64,
    i: int,
    record: RecordModel,
)
    requires
        outcome(all_steps(changes, state).steps).1 is None,
        can_be_carried_out(changes, state.records, fresh),
        after(state.records, outcome(all_steps(changes, state).steps).0, fresh).contains(record),
    ensures
        0 <= i < updated(changes).len() && updated(changes)[i].record_ttl > 0 && names_all(
            changes.update_old[i],
            state.records,
        ) && same_identity(record.endpoint, updated(changes)[i]) ==> record.endpoint.record_ttl
            == updated(changes)[i].record_ttl,
        0 <= i < changes.create.len() && changes.create[i].record_ttl > 0 && same_identity(
            record.endpoint,
            changes.create[i],
        ) ==> state.records.contains(record) || record.endpoint.record_ttl
            == changes.create[i].record_ttl,
{
    let records = state.records;
    let steps = all_steps(changes, state).steps;
    let n = shorter(changes.update_old.len(), changes.update_new.len()) as int;
    let new = updated(changes);
    let p1 = all_deletions(Progress::start(), changes.delete, records);
    let p2 = all_replacements(p1, changes.update_old, changes.update_new, n, state);
    let w1 = steps_done(records, p1.steps, fresh);
    let w2 = steps_done(records, p2.steps, fresh);
    lemma_outcome_done(records, steps, fresh);
    assert(all_steps(changes, state) == all_creations(p2, changes.create, state));
    law_steps_are_in_order(changes, state);
    lemma_beginning_is_ok(p2.steps, steps);
    lemma_own_identities(changes);
    lemma_all_deletions_only_remove(changes.delete, records, fresh);
    lemma_all_deletions_done(changes.delete, records, fresh, record.endpoint);
    assert forall|k: int| 0 <= k < n implies {
        &&& can_be_updated(#[trigger] changes.update_new[k], records, fresh)
        &&& is_untouched(p1, changes.update_new[k], records, fresh)
    } by {
        assert(new[k] == changes.update_new[k]);
        lemma_all_deletions_done(changes.delete, records, fresh, new[k]);
    }
    lemma_all_replacements_done(
        p1,
        changes.update_old,
        changes.update_new,
        n,
        state,
        fresh,
        record.endpoint,
    );
    if 0 <= i < new.len() && same_identity(record.endpoint, new[i]) {
        assert(changes.update_new[i] == new[i]);
        lemma_all_replacements_ttl(
            p1,
            changes.update_old,
            changes.update_new,
            n,
            state,
            fresh,
            new[i],
        );
        lemma_all_creations_add(p2, changes.create, state, fresh, new[i]);
        assert(w2.contains(record));
    }
    if 0 <= i < changes.create.len() && same_identity(record.endpoint, changes.create[i]) {
        let endpoint = changes.create[i];
        lemma_all_replacements_ttl(
            p1,
            changes.update_old,
            changes.update_new,
            n,
            state,
            fresh,
            endpoint,
        );
        lemma_all_creations_add(p2, changes.create, state, fresh, endpoint);
        if w2.contains(record) {
            assert(w1.contains(record));
        }
    }
}

// ---------------------------------------------------------------------------
// What a deletion takes away
// ---------------------------------------------------------------------------

/// A deletion takes away what it names. After it was carried out
/// - no record of the endpoint is listed with a target that the endpoint names, each
///   of them compared in canonical form,
/// - no record of the endpoint is listed at all, if it names no target,
/// - every record that is gone is one of those,
/// - nothing is listed that was not listed before.
pub proof fn law_deletion_takes_away_what_it_names(
    endpoint: EndpointModel,
    records: Seq<RecordModel>,
    fresh: spec_fn(Seq<RecordModel>) -> u64,
)
    requires
        is_numbered(records),
    ensures
        ({
            let operations = outcome(deletion(Progress::start(), endpoint, records).steps).0;
            let listed = after(records, operations, fresh);
            let kind = endpoint.record_type;
            &&& forall|r: RecordModel, i: int|
                #[trigger] listed.contains(r) && same_identity(r.endpoint, endpoint)
                    && r.endpoint.targets.len() > 0 && 0 <= i < endpoint.targets.len()
                    ==> canonical(kind, r.endpoint.targets[0]) != canonical(
                    kind,
                    #[trigger] endpoint.targets[i],
                )
            &&& endpoint.targets.len() == 0 ==> forall|r: RecordModel| #[trigger]
                listed.contains(r) ==> !same_identity(r.endpoint, endpoint)
            &&& forall|r: RecordModel|
                #![trigger listed.contains(r)]
                records.contains(r) && !listed.contains(r) ==> same_identity(r.endpoint, endpoint)
                    && (endpoint.targets.len() == 0 || exists|i: int|
                    0 <= i < endpoint.targets.len() && r.endpoint.targets.len() > 0 && canonical(
                        kind,
                        #[trigger] endpoint.targets[i],
                    ) == canonical(kind, r.endpoint.targets[0]))
            &&& forall|r: RecordModel| #[trigger] listed.contains(r) ==> records.contains(r)
        }),
{
    law_deletion_comes_to_what_it_asks_for(endpoint, records, fresh);
    let operations = outcome(deletion(Progress::start(), endpoint, records).steps).0;
    let listed = after(records, operations, fresh);
    let kind = endpoint.record_type;
    let left = |r: RecordModel| !covered_by_deletion(endpoint, r);
    assert(listed == records.filter(left));
    assert forall|r: RecordModel| #[trigger] listed.contains(r) implies records.contains(r)
        && !covered_by_deletion(endpoint, r) by {
        records.lemma_filter_contains_rev(left, r);
        let i = choose|i: int| 0 <= i < listed.len() && listed[i] == r;
        records.lemma_filter_pred(left, i);
    }
    assert forall|r: RecordModel, i: int|
        #[trigger] listed.contains(r) && same_identity(r.endpoint, endpoint)
            && r.endpoint.targets.len() > 0 && 0 <= i < endpoint.targets.len() implies canonical(
        kind,
        r.endpoint.targets[0],
    ) != canonical(kind, #[trigger] endpoint.targets[i]) by {
        if canonical(kind, r.endpoint.targets[0]) == canonical(kind, endpoint.targets[i]) {
            assert(canonical_targets(endpoint)[i] == canonical(kind, r.endpoint.targets[0]));
        }
    }
    assert forall|r: RecordModel|
        #![trigger listed.contains(r)]
        records.contains(r) && !listed.contains(r) implies same_identity(r.endpoint, endpoint) && (
    endpoint.targets.len() == 0 || exists|i: int|
        0 <= i < endpoint.targets.len() && r.endpoint.targets.len() > 0 && canonical(
            kind,
            #[trigger] endpoint.targets[i],
        ) == canonical(kind, r.endpoint.targets[0])) by {
        let k = choose|k: int| 0 <= k < records.len() && records[k] == r;
        if left(r) {
            records.lemma_filter_contains(left, k);
        }
        assert(covered_by_deletion(endpoint, r));
        if endpoint.targets.len() > 0 {
            let all = canonical_targets(endpoint);
            let i = choose|i: int|
                0 <= i < all.len() && all[i] == canonical(kind, r.endpoint.targets[0]);
            assert(canonical(kind, endpoint.targets[i]) == canonical(kind, r.endpoint.targets[0]));
        }
    }
}

/// Among the targets that are left to a deleted endpoint are none of those that it
/// names, and all others.
proof fn lemma_keys_left(records: Seq<RecordModel>, endpoint: EndpointModel, key: Seq<char>)
    ensures
        endpoint.targets.len() == 0 ==> keys_left(records, endpoint).count(key) == 0,
        forall|i: int|
            0 <= i < endpoint.targets.len() && canonical(
                endpoint.record_type,
                #[trigger] endpoint.targets[i],
            ) == key ==> keys_left(records, endpoint).count(key) == 0,
        endpoint.targets.len() > 0 && (forall|i: int|
            0 <= i < endpoint.targets.len() ==> canonical(
                endpoint.record_type,
                #[trigger] endpoint.targets[i],
            ) != key) ==> keys_left(records, endpoint).count(key) == keys_at(
            records,
            endpoint,
        ).count(key),
    decreases records.len(),
{
    reveal(Seq::filter);
    let left = |r: RecordModel| !covered_by_deletion(endpoint, r);
    if records.len() > 0 {
        let front = records.drop_last();
        let last = records.last();
        lemma_keys_left(front, endpoint, key);
        assert(keys_left(front, endpoint) == keys_at(front.filter(left), endpoint));
        assert(keys_left(records, endpoint) == keys_at(records.filter(left), endpoint));
        if left(last) {
            lemma_keys_push(front.filter(left), last, endpoint);
        }
        let all = canonical_targets(endpoint);
        if same_identity(last.endpoint, endpoint) && last.endpoint.targets.len() > 0 {
            let own = canonical(endpoint.record_type, last.endpoint.targets[0]);
            if own == key {
                assert forall|i: int|
                    0 <= i < endpoint.targets.len() && canonical(
                        endpoint.record_type,
                        #[trigger] endpoint.targets[i],
                    ) == key implies !left(last) by {
                    assert(all[i] == key);
                }
                if !left(last) && endpoint.targets.len() > 0 {
                    let i = choose|i: int| 0 <= i < all.len() && all[i] == key;
                    assert(canonical(endpoint.record_type, endpoint.targets[i]) == key);
                }
            }
        }
    }
}

/// What a set of changes deletes is gone, and only that: after the plan for it was
/// carried out, no target that a deleted endpoint names is listed for it, none at all
/// if it names none, and every other target is listed as often as before.
pub proof fn law_changes_delete_what_they_name(
    changes: ChangesModel,
    state: StateModel,
    fresh: spec_fn(Seq<RecordModel>) -> u64,
    k: int,
    key: Seq<char>,
)
    requires
        outcome(all_steps(changes, state).steps).1 is None,
        can_be_carried_out(changes, state.records, fresh),
        0 <= k < changes.delete.len(),
    ensures
        ({
            let operations = outcome(all_steps(changes, state).steps).0;
            let listed = after(state.records, operations, fresh);
            let endpoint = changes.delete[k];
            &&& endpoint.targets.len() == 0 ==> keys_at(listed, endpoint).count(key) == 0
            &&& forall|i: int|
                0 <= i < endpoint.targets.len() && canonical(
                    endpoint.record_type,
                    #[trigger] endpoint.targets[i],
                ) == key ==> keys_at(listed, endpoint).count(key) == 0
            &&& endpoint.targets.len() > 0 && (forall|i: int|
                0 <= i < endpoint.targets.len() ==> canonical(
                    endpoint.record_type,
                    #[trigger] endpoint.targets[i],
                ) != key) ==> keys_at(listed, endpoint).count(key) == keys_at(
                state.records,
                endpoint,
            ).count(key)
        }),
{
    law_changes_come_to_what_they_ask_for(changes, state, fresh);
    lemma_keys_left(state.records, changes.delete[k], key);
}

// ---------------------------------------------------------------------------
// When a plan has no error
// ---------------------------------------------------------------------------

proof fn lemma_ok_has_no_failure(steps: Seq<Step>)
    requires
        are_ok(steps),
    ensures
        outcome(steps).1 is None,
    decreases steps.len(),
{
    if steps.len() > 0 {
        let front = steps.drop_last();
        assert forall|i: int| 0 <= i < front.len() implies (#[trigger] front[i]) is Ok by {
            assert(front[i] == steps[i]);
        }
        lemma_ok_has_no_failure(front);
        assert(steps[steps.len() - 1] is Ok);
    }
}

proof fn lemma_ok_and_ok(a: Seq<Step>, b: Seq<Step>)
    requires
        are_ok(a),
        are_ok(b),
    ensures
        are_ok(a + b),
{
    let whole = a + b;
    assert forall|i: int| 0 <= i < whole.len() implies (#[trigger] whole[i]) is Ok by {
        if i < a.len() {
            assert(whole[i] == a[i]);
        } else {
            assert(whole[i] == b[i - a.len()]);
        }
    }
}

proof fn lemma_deletion_is_ok(p: Progress, endpoint: EndpointModel, list: Seq<RecordModel>)
    requires
        are_ok(p.steps),
    ensures
        are_ok(deletion(p, endpoint, list).steps),
    decreases list.len(),
{
    if list.len() > 0 {
        lemma_deletion_is_ok(p, endpoint, list.drop_last());
    }
}

proof fn lemma_all_deletions_are_ok(
    p: Progress,
    list: Seq<EndpointModel>,
    records: Seq<RecordModel>,
)
    requires
        are_ok(p.steps),
    ensures
        are_ok(all_deletions(p, list, records).steps),
    decreases list.len(),
{
    if list.len() > 0 {
        lemma_all_deletions_are_ok(p, list.drop_last(), records);
        lemma_deletion_is_ok(all_deletions(p, list.drop_last(), records), list.last(), records);
    }
}

proof fn lemma_deletions_at_are_ok(p: Progress, records: Seq<RecordModel>, places: Seq<int>)
    requires
        are_ok(p.steps),
    ensures
        are_ok(deletions_at(p, records, places).steps),
    decreases places.len(),
{
    if places.len() > 0 {
        lemma_deletions_at_are_ok(p, records, places.drop_last());
    }
}

/// A target that is listed is that of a record.
proof fn lemma_key_comes_from(records: Seq<RecordModel>, endpoint: EndpointModel, key: Seq<char>)
    requires
        keys_at(records, endpoint).count(key) > 0,
    ensures
        exists|i: int|
            0 <= i < records.len() && same_identity((#[trigger] records[i]).endpoint, endpoint)
                && records[i].endpoint.targets.len() > 0 && canonical(
                endpoint.record_type,
                records[i].endpoint.targets[0],
            ) == key,
    decreases records.len(),
{
    if records.len() > 0 {
        let front = records.drop_last();
        let last = records.last();
        assert(records[records.len() - 1] == last);
        if keys_at(front, endpoint).count(key) > 0 {
            lemma_key_comes_from(front, endpoint, key);
            let i = choose|i: int|
                0 <= i < front.len() && same_identity((#[trigger] front[i]).endpoint, endpoint)
                    && front[i].endpoint.targets.len() > 0 && canonical(
                    endpoint.record_type,
                    front[i].endpoint.targets[0],
                ) == key;
            assert(records[i] == front[i]);
        } else {
            assert(key_in(last, endpoint).count(key) > 0);
        }
    }
}

/// An endpoint names no target more often than it is listed for it.
pub open spec fn names_listed(current: EndpointModel, records: Seq<RecordModel>) -> bool {
    forall|key: Seq<char>|
        (#[trigger] canonical_targets(current).to_multiset().count(key)) <= keys_at(
            records,
            current,
        ).count(key)
}

/// The targets of an endpoint that are left beside the records that were found.
proof fn lemma_beside_the_found(
    current: EndpointModel,
    n: int,
    records: Seq<RecordModel>,
    deleted: Set<u64>,
    fresh: spec_fn(Seq<RecordModel>) -> u64,
)
    requires
        0 <= n <= current.targets.len(),
        is_numbered(records),
        find_records(current, n, records, deleted) is Ok,
    ensures
        ({
            let places = find_records(current, n, records, deleted)->Ok_0;
            let left = steps_done(
                records,
                deletions_at(Progress::start(), records, places).steps,
                fresh,
            );
            &&& keys_at(left, current).add(canonical_targets(current).take(n).to_multiset())
                == keys_at(records, current)
            &&& forall|r: RecordModel| #[trigger] left.contains(r) ==> records.contains(r)
            &&& forall|i: int|
                0 <= i < places.len() ==> !left.contains(records[#[trigger] places[i]])
            &&& places.len() == n
            &&& forall|i: int| 0 <= i < n ==> 0 <= (#[trigger] places[i]) < records.len()
        }),
{
    let places = find_records(current, n, records, deleted)->Ok_0;
    let start = Progress::start();
    lemma_find_records(current, n, records, deleted);
    lemma_found_distinct(current, n, records, deleted);
    assert forall|i: int| 0 <= i < places.len() implies {
        &&& has_once(steps_done(records, start.steps, fresh), records[#[trigger] places[i]])
        &&& !start.deleted.contains(records[places[i]].id)
        &&& same_identity(records[places[i]].endpoint, current)
        &&& records[places[i]].endpoint.targets.len() > 0
        &&& canonical(current.record_type, records[places[i]].endpoint.targets[0]) == canonical(
            current.record_type,
            current.targets[i],
        )
    } by {
        assert(is_candidate(
            current,
            current.targets[i],
            records[places[i]],
            Set::empty(),
            deleted,
        ));
        assert(records.contains(records[places[i]]));
        assert(records[places[i]].id > 0);
    }
    lemma_deleted_done(records, start, places, records, current, fresh);
    lemma_deleted_adds(records, start, places, records, fresh);
    let named = EndpointModel { targets: current.targets.take(n), ..current };
    assert forall|i: int| 0 <= i < places.len() implies {
        &&& same_identity(records[#[trigger] places[i]].endpoint, named)
        &&& records[places[i]].endpoint.targets.len() > 0
        &&& canonical(named.record_type, records[places[i]].endpoint.targets[0]) == canonical(
            named.record_type,
            named.targets[i],
        )
    } by {
        assert(same_identity(records[places[i]].endpoint, current));
    }
    lemma_found_sums(named, current, records, places, n);
    assert(places.take(n) =~= places);
    assert(canonical_targets(named).take(n) =~= canonical_targets(current).take(n));
}

/// Where an endpoint names only what is listed, a record is found for each target.
proof fn lemma_records_are_found(
    current: EndpointModel,
    n: int,
    records: Seq<RecordModel>,
    deleted: Set<u64>,
    fresh: spec_fn(Seq<RecordModel>) -> u64,
)
    requires
        0 <= n <= current.targets.len(),
        is_numbered(records),
        names_listed(current, records),
        forall|i: int|
            0 <= i < records.len() && same_identity((#[trigger] records[i]).endpoint, current)
                ==> !deleted.contains(records[i].id),
    ensures
        find_records(current, n, records, deleted) is Ok,
    decreases n,
{
    broadcast use vstd::seq_lib::group_to_multiset_ensures;

    if n > 0 {
        lemma_records_are_found(current, n - 1, records, deleted, fresh);
        lemma_beside_the_found(current, n - 1, records, deleted, fresh);
        let places = find_records(current, n - 1, records, deleted)->Ok_0;
        let left = steps_done(
            records,
            deletions_at(Progress::start(), records, places).steps,
            fresh,
        );
        let all = canonical_targets(current);
        let key = all[n - 1];
        assert(all.take(n) =~= all.take(n - 1).push(key));
        assert(all =~= all.take(n) + all.skip(n));
        vstd::seq_lib::lemma_multiset_commutative(all.take(n), all.skip(n));
        assert(all.to_multiset().count(key) >= all.take(n).to_multiset().count(key));
        assert(all.take(n).to_multiset().count(key) == all.take(n - 1).to_multiset().count(key)
            + 1);
        assert(keys_at(records, current).count(key) == keys_at(left, current).count(key)
            + all.take(n - 1).to_multiset().count(key));
        lemma_key_comes_from(left, current, key);
        let j = choose|j: int|
            0 <= j < left.len() && same_identity((#[trigger] left[j]).endpoint, current)
                && left[j].endpoint.targets.len() > 0 && canonical(
                current.record_type,
                left[j].endpoint.targets[0],
            ) == key;
        let record = left[j];
        assert(left.contains(record));
        assert(records.contains(record));
        let k = choose|k: int| 0 <= k < records.len() && records[k] == record;
        let used = ids_at(records, places);
        if used.contains(record.id) {
            lemma_ids_come_from(records, places, record.id);
            let i = choose|i: int|
                0 <= i < places.len() && records[#[trigger] places[i]].id == record.id;
            lemma_numbered_apart(records, places[i], k);
            assert(!left.contains(records[places[i]]));
        }
        assert(same_identity(records[k].endpoint, current));
        assert(is_candidate(current, current.targets[n - 1], records[k], used, deleted));
        lemma_first_candidate(current, current.targets[n - 1], records, used, deleted, 0);
    }
}

proof fn lemma_ids_come_from(records: Seq<RecordModel>, places: Seq<int>, id: u64)
    requires
        ids_at(records, places).contains(id),
    ensures
        exists|i: int| 0 <= i < places.len() && records[#[trigger] places[i]].id == id,
    decreases places.len(),
{
    let front = places.drop_last();
    if records[places.last()].id == id {
        assert(records[places[places.len() - 1]].id == id);
    } else {
        lemma_ids_come_from(records, front, id);
        let i = choose|i: int| 0 <= i < front.len() && records[#[trigger] front[i]].id == id;
        assert(places[i] == front[i]);
    }
}

/// Every target of an endpoint can be written in a zone.
pub open spec fn can_be_written(endpoint: EndpointModel, zone: Seq<char>) -> bool {
    forall|i: int|
        0 <= i < endpoint.targets.len() ==> change_of(
            endpoint,
            #[trigger] endpoint.targets[i],
            zone,
        ) is Ok
}

proof fn lemma_kept_steps_are_ok(
    kept: Seq<(int, Seq<char>)>,
    desired: EndpointModel,
    zone: Seq<char>,
    records: Seq<RecordModel>,
)
    requires
        forall|i: int|
            0 <= i < kept.len() ==> change_of(desired, (#[trigger] kept[i]).1, zone) is Ok,
    ensures
        are_ok(kept_steps(kept, desired, zone, records)),
    decreases kept.len(),
{
    if kept.len() > 0 {
        let front = kept.drop_last();
        assert forall|i: int| 0 <= i < front.len() implies change_of(
            desired,
            (#[trigger] front[i]).1,
            zone,
        ) is Ok by {
            assert(front[i] == kept[i]);
        }
        lemma_kept_steps_are_ok(front, desired, zone, records);
        assert(change_of(desired, kept[kept.len() - 1].1, zone) is Ok);
    }
}

/// An update of an endpoint that is untouched has no error, if it names only what is
/// listed and its new targets can be written.
proof fn lemma_replacement_is_ok(
    p: Progress,
    current: EndpointModel,
    desired: EndpointModel,
    state: StateModel,
    fresh: spec_fn(Seq<RecordModel>) -> u64,
)
    requires
        are_ok(p.steps),
        is_numbered(state.records),
        same_identity(current, desired),
        best_zone(state.zones, current.dns_name) is Some,
        names_listed(current, state.records),
        forall|i: int|
            0 <= i < state.records.len() && same_identity(
                (#[trigger] state.records[i]).endpoint,
                current,
            ) ==> !p.deleted.contains(state.records[i].id),
        can_be_written(desired, best_zone(state.zones, current.dns_name)->0),
    ensures
        are_ok(replacement(p, current, desired, state).steps),
{
    broadcast use vstd::seq_lib::group_to_multiset_ensures;

    let records = state.records;
    let zone = best_zone(state.zones, current.dns_name)->0;
    let count = current.targets.len() as int;
    lemma_records_are_found(current, count, records, p.deleted, fresh);
    let places = find_records(current, count, records, p.deleted)->Ok_0;
    let pairs = pairing(current, desired, records, places, places.len() as int);
    law_update_leaves_the_targets_asked_for(
        current,
        desired,
        records,
        places,
        places.len() as int,
    );
    assert forall|t: Seq<char>|
        pairs.fresh.to_multiset().count(t) > 0 || kept_targets(pairs).to_multiset().count(
            t,
        ) > 0 implies #[trigger] change_of(desired, t, zone) is Ok by {
        assert(desired.targets.to_multiset().count(t) > 0);
        assert(desired.targets.contains(t));
        let i = choose|i: int| 0 <= i < desired.targets.len() && desired.targets[i] == t;
        assert(change_of(desired, desired.targets[i], zone) is Ok);
    }
    let n = shorter(pairs.changed.len(), pairs.fresh.len());
    let kept = kept_steps(pairs.kept, desired, zone, records);
    let changed = changed_steps(pairs, n, desired, zone, records);
    let more = pairs.fresh.skip(n as int);
    let created = create_steps(desired, more, zone);
    assert forall|i: int| 0 <= i < pairs.kept.len() implies change_of(
        desired,
        (#[trigger] pairs.kept[i]).1,
        zone,
    ) is Ok by {
        assert(kept_targets(pairs)[i] == pairs.kept[i].1);
        assert(kept_targets(pairs).contains(pairs.kept[i].1));
    }
    lemma_kept_steps_are_ok(pairs.kept, desired, zone, records);
    assert forall|i: int| 0 <= i < changed.len() implies (#[trigger] changed[i]) is Ok by {
        assert(pairs.fresh.contains(pairs.fresh[i]));
    }
    assert forall|i: int| 0 <= i < created.len() implies (#[trigger] created[i]) is Ok by {
        assert(more[i] == pairs.fresh[n + i]);
        assert(pairs.fresh.contains(pairs.fresh[n + i]));
    }
    lemma_ok_and_ok(p.steps, kept);
    lemma_ok_and_ok(p.steps + kept, changed);
    lemma_ok_and_ok(p.steps + kept + changed, created);
    let p3 = p.with_steps(kept).with_steps(changed).with_steps(created);
    assert(p3.steps =~= p.steps + kept + changed + created);
    lemma_deletions_at_are_ok(p3, records, pairs.changed.skip(n as int));
}

/// An update succeeds if both forms of the endpoint name the same records, its name
/// lies in a zone, the old form names no target more often than it is listed, and
/// every new target can be written.
pub proof fn law_update_succeeds(
    current: EndpointModel,
    desired: EndpointModel,
    state: StateModel,
    fresh: spec_fn(Seq<RecordModel>) -> u64,
)
    requires
        is_numbered(state.records),
        same_identity(current, desired),
        best_zone(state.zones, current.dns_name) is Some,
        names_listed(current, state.records),
        can_be_written(desired, best_zone(state.zones, current.dns_name)->0),
    ensures
        outcome(replacement(Progress::start(), current, desired, state).steps).1 is None,
{
    let start = Progress::start();
    lemma_replacement_is_ok(start, current, desired, state, fresh);
    lemma_ok_has_no_failure(replacement(start, current, desired, state).steps);
}

/// An update fails, and does nothing, if the two forms of the endpoint name different
/// records, if its name lies in no zone, and if the old form names a target more often
/// than it is listed. In the last case it says that the records are not as assumed,
/// and for which of the targets.
pub proof fn law_update_fails(
    current: EndpointModel,
    desired: EndpointModel,
    state: StateModel,
    fresh: spec_fn(Seq<RecordModel>) -> u64,
)
    requires
        is_numbered(state.records),
    ensures
        ({
            let (operations, failure) = outcome(
                replacement(Progress::start(), current, desired, state).steps,
            );
            &&& !same_identity(current, desired) ==> operations.len() == 0 && failure is Some
                && failure->0 is InvalidEndpoint
            &&& same_identity(current, desired) && best_zone(state.zones, current.dns_name) is None
                ==> operations.len() == 0 && failure is Some && failure->0 is InvalidEndpoint
            &&& same_identity(current, desired) && best_zone(state.zones, current.dns_name) is Some
                && !names_listed(current, state.records) ==> operations.len() == 0 && (
            failure matches Some(
                ProviderErrorModel::StateMismatch { dns_name, record_type, target },
            ) && dns_name == current.dns_name && record_type == current.record_type
                && current.targets.contains(target))
        }),
{
    broadcast use vstd::seq_lib::group_to_multiset_ensures;

    let start = Progress::start();
    let records = state.records;
    let count = current.targets.len() as int;
    let steps = replacement(start, current, desired, state).steps;
    let found = find_records(current, count, records, start.deleted);
    if same_identity(current, desired) && best_zone(state.zones, current.dns_name) is Some
        && !names_listed(current, records) {
        if found is Ok {
            lemma_beside_the_found(current, count, records, start.deleted, fresh);
            let all = canonical_targets(current);
            assert(all.take(count) =~= all);
            let left = steps_done(
                records,
                deletions_at(start, records, found->Ok_0).steps,
                fresh,
            );
            assert forall|key: Seq<char>|
                (#[trigger] all.to_multiset().count(key)) <= keys_at(records, current).count(
                    key,
                ) by {
                assert(keys_at(left, current).add(all.to_multiset()).count(key) == keys_at(
                    records,
                    current,
                ).count(key));
            }
        }
        lemma_missing_target(current, count, records, start.deleted);
    }
    if steps.len() == 1 {
        assert(steps.drop_last() =~= Seq::empty());
        assert(outcome(steps.drop_last()).0 =~= Seq::empty());
    }
}

/// A target for which no record is found is one of those of the endpoint.
proof fn lemma_missing_target(
    current: EndpointModel,
    n: int,
    records: Seq<RecordModel>,
    deleted: Set<u64>,
)
    requires
        0 <= n <= current.targets.len(),
    ensures
        find_records(current, n, records, deleted) matches Err(target)
            ==> current.targets.contains(target),
    decreases n,
{
    if n > 0 {
        lemma_missing_target(current, n - 1, records, deleted);
        assert(current.targets.contains(current.targets[n - 1]));
    }
}

/// A creation writes every target of the endpoint, in order, into the zone that is
/// found for its name. It stops at the first target that cannot be written, and does
/// nothing if the name lies in no zone.
pub proof fn law_creation_writes_every_target(
    endpoint: EndpointModel,
    state: StateModel,
    zone: Seq<char>,
    n: int,
)
    requires
        0 <= n <= endpoint.targets.len(),
        forall|i: int|
            0 <= i < n ==> change_of(endpoint, #[trigger] endpoint.targets[i], zone) is Ok,
    ensures
        ({
            let (operations, failure) = outcome(
                creation(Progress::start(), endpoint, state).steps,
            );
            &&& best_zone(state.zones, endpoint.dns_name) is None ==> operations.len() == 0
                && failure is Some && failure->0 is InvalidEndpoint
            &&& best_zone(state.zones, endpoint.dns_name) == Some(zone) ==> {
                &&& operations.len() >= n
                &&& forall|i: int|
                    0 <= i < n ==> #[trigger] operations[i] == (OperationModel::Create {
                        zone,
                        change: change_of(endpoint, endpoint.targets[i], zone)->Ok_0,
                    })
                &&& n == endpoint.targets.len() ==> operations.len() == n && failure is None
                &&& n < endpoint.targets.len() ==> (change_of(
                    endpoint,
                    endpoint.targets[n],
                    zone,
                ) matches Err(message) ==> operations.len() == n && failure == Some(
                    ProviderErrorModel::InvalidEndpoint(message),
                ))
            }
        }),
{
    let steps = creation(Progress::start(), endpoint, state).steps;
    match best_zone(state.zones, endpoint.dns_name) {
        None => {
            assert(steps.drop_last() =~= Seq::empty());
            assert(outcome(steps.drop_last()).0 =~= Seq::empty());
        },
        Some(found) => {
            if found == zone {
                let whole = create_steps(endpoint, endpoint.targets, zone);
                assert(steps =~= whole);
                let first = whole.take(n);
                assert forall|i: int| 0 <= i < n implies (#[trigger] first[i]) == Ok::<
                    OperationModel,
                    ProviderErrorModel,
                >(
                    OperationModel::Create {
                        zone,
                        change: change_of(endpoint, endpoint.targets[i], zone)->Ok_0,
                    },
                ) by {
                    assert(change_of(endpoint, endpoint.targets[i], zone) is Ok);
                }
                lemma_first_operations(whole, n);
                assert(outcome(whole).0.len() >= n);
                assert forall|i: int| 0 <= i < n implies #[trigger] outcome(whole).0[i] == (
                OperationModel::Create {
                    zone,
                    change: change_of(endpoint, endpoint.targets[i], zone)->Ok_0,
                }) by {
                    assert(whole[i] == first[i]);
                }
            }
        },
    }
}

/// Steps come to the operations in front of the first error.
proof fn lemma_first_operations(steps: Seq<Step>, n: int)
    requires
        0 <= n <= steps.len(),
        forall|i: int| 0 <= i < n ==> (#[trigger] steps[i]) is Ok,
    ensures
        outcome(steps).0.len() >= n,
        forall|i: int|
            0 <= i < n ==> steps[i] == Ok::<OperationModel, ProviderErrorModel>(
                #[trigger] outcome(steps).0[i],
            ),
        n == steps.len() ==> outcome(steps).0.len() == n && outcome(steps).1 is None,
        n < steps.len() && steps[n] is Err ==> outcome(steps).0.len() == n && outcome(steps).1
            == Some(steps[n]->Err_0),
    decreases steps.len(),
{
    if steps.len() > 0 {
        let front = steps.drop_last();
        let m = if n < steps.len() {
            n
        } else {
            n - 1
        };
        assert forall|i: int| 0 <= i < m implies (#[trigger] front[i]) is Ok by {
            assert(front[i] == steps[i]);
        }
        lemma_first_operations(front, m);
        let before = outcome(front);
        assert(forall|i: int| 0 <= i < front.len() ==> #[trigger] front[i] == steps[i]);
        if n == steps.len() {
            assert(steps[n - 1] is Ok);
        }
        assert forall|i: int| 0 <= i < n implies steps[i] == Ok::<
            OperationModel,
            ProviderErrorModel,
        >(#[trigger] outcome(steps).0[i]) by {
            if i < m {
                assert(before.0[i] == outcome(steps).0[i]);
                assert(front[i] == steps[i]);
            }
        }
    }
}

/// A plan is what stands in front of its first error: every operation up to there,
/// none behind it, and that error.
pub proof fn law_a_plan_ends_with_its_first_error(steps: Seq<Step>, n: int)
    requires
        0 <= n <= steps.len(),
        forall|i: int| 0 <= i < n ==> (#[trigger] steps[i]) is Ok,
        n < steps.len() ==> steps[n] is Err,
    ensures
        outcome(steps).0.len() == n,
        forall|i: int|
            0 <= i < n ==> steps[i] == Ok::<OperationModel, ProviderErrorModel>(
                #[trigger] outcome(steps).0[i],
            ),
        n == steps.len() ==> outcome(steps).1 is None,
        n < steps.len() ==> outcome(steps).1 == Some(steps[n]->Err_0),
{
    lemma_first_operations(steps, n);
}

proof fn lemma_all_replacements_are_ok(
    p: Progress,
    current: Seq<EndpointModel>,
    desired: Seq<EndpointModel>,
    n: int,
    state: StateModel,
    fresh: spec_fn(Seq<RecordModel>) -> u64,
)
    requires
        0 <= n <= desired.len(),
        are_ok(p.steps),
        have_own_identities(desired.take(n)),
        is_numbered(state.records),
        forall|i: int|
            0 <= i < n ==> {
                &&& can_be_updated(#[trigger] desired[i], state.records, fresh)
                &&& is_untouched(p, desired[i], state.records, fresh)
                &&& same_identity(current[i], desired[i])
                &&& best_zone(state.zones, current[i].dns_name) is Some
                &&& names_listed(current[i], state.records)
                &&& can_be_written(desired[i], best_zone(state.zones, current[i].dns_name)->0)
            },
        steps_done(state.records, p.steps, fresh).len() + count_targets(desired.take(n))
            <= u64::MAX,
    ensures
        are_ok(all_replacements(p, current, desired, n, state).steps),
    decreases n,
{
    if n > 0 {
        let list = desired.take(n);
        let front = desired.take(n - 1);
        let last = desired[n - 1];
        assert(list.drop_last() =~= front);
        assert(list.last() == last);
        lemma_front_has_own_identities(list);
        lemma_all_replacements_are_ok(p, current, desired, n - 1, state, fresh);
        lemma_all_replacements_done(p, current, desired, n - 1, state, fresh, last);
        let middle = all_replacements(p, current, desired, n - 1, state);
        assert(can_be_updated(last, state.records, fresh));
        assert forall|i: int|
            0 <= i < state.records.len() && same_identity(
                (#[trigger] state.records[i]).endpoint,
                current[n - 1],
            ) implies !middle.deleted.contains(state.records[i].id) by {
            assert(same_identity(state.records[i].endpoint, last));
        }
        lemma_replacement_is_ok(middle, current[n - 1], last, state, fresh);
    }
}

proof fn lemma_all_creations_are_ok(p: Progress, list: Seq<EndpointModel>, state: StateModel)
    requires
        are_ok(p.steps),
        forall|i: int|
            0 <= i < list.len() ==> {
                &&& best_zone(state.zones, (#[trigger] list[i]).dns_name) is Some
                &&& can_be_written(list[i], best_zone(state.zones, list[i].dns_name)->0)
            },
    ensures
        are_ok(all_creations(p, list, state).steps),
    decreases list.len(),
{
    if list.len() > 0 {
        let front = list.drop_last();
        let last = list.last();
        assert forall|i: int| 0 <= i < front.len() implies {
            &&& best_zone(state.zones, (#[trigger] front[i]).dns_name) is Some
            &&& can_be_written(front[i], best_zone(state.zones, front[i].dns_name)->0)
        } by {
            assert(front[i] == list[i]);
        }
        lemma_all_creations_are_ok(p, front, state);
        assert(best_zone(state.zones, list[list.len() - 1].dns_name) is Some);
        let zone = best_zone(state.zones, last.dns_name)->0;
        let steps = create_steps(last, last.targets, zone);
        assert forall|i: int| 0 <= i < steps.len() implies (#[trigger] steps[i]) is Ok by {
            assert(change_of(last, last.targets[i], zone) is Ok);
        }
        lemma_ok_and_ok(all_creations(p, front, state).steps, steps);
    }
}

/// A set of changes succeeds as a whole if it can be carried out, every name that is
/// updated or created lies in a zone, the old forms name no target more often than it
/// is listed, and every new target can be written.
pub proof fn law_changes_succeed(
    changes: ChangesModel,
    state: StateModel,
    fresh: spec_fn(Seq<RecordModel>) -> u64,
)
    requires
        can_be_carried_out(changes, state.records, fresh),
        forall|i: int|
            0 <= i < updated(changes).len() ==> {
                let before = changes.update_old[i];
                let zone = best_zone(state.zones, before.dns_name);
                &&& same_identity(before, #[trigger] updated(changes)[i])
                &&& zone is Some
                &&& names_listed(before, state.records)
                &&& can_be_written(updated(changes)[i], zone->0)
            },
        forall|i: int|
            0 <= i < changes.create.len() ==> {
                let zone = best_zone(state.zones, (#[trigger] changes.create[i]).dns_name);
                &&& zone is Some
                &&& can_be_written(changes.create[i], zone->0)
            },
    ensures
        outcome(all_steps(changes, state).steps).1 is None,
{
    let records = state.records;
    let start = Progress::start();
    let n = shorter(changes.update_old.len(), changes.update_new.len()) as int;
    let new = updated(changes);
    let p1 = all_deletions(start, changes.delete, records);
    lemma_own_identities(changes);
    lemma_all_deletions_are_ok(start, changes.delete, records);
    assert(new =~= changes.update_new.take(n));
    assert forall|i: int| 0 <= i < n implies {
        &&& can_be_updated(#[trigger] changes.update_new[i], records, fresh)
        &&& is_untouched(p1, changes.update_new[i], records, fresh)
        &&& same_identity(changes.update_old[i], changes.update_new[i])
        &&& best_zone(state.zones, changes.update_old[i].dns_name) is Some
        &&& names_listed(changes.update_old[i], records)
        &&& can_be_written(
            changes.update_new[i],
            best_zone(state.zones, changes.update_old[i].dns_name)->0,
        )
    } by {
        assert(new[i] == changes.update_new[i]);
        lemma_all_deletions_done(changes.delete, records, fresh, new[i]);
    }
    if n > 0 {
        lemma_all_deletions_done(changes.delete, records, fresh, new[0]);
    } else {
        lemma_all_deletions_done(changes.delete, records, fresh, changes.update_new[0]);
    }
    lemma_all_replacements_are_ok(
        p1,
        changes.update_old,
        changes.update_new,
        n,
        state,
        fresh,
    );
    let p2 = all_replacements(p1, changes.update_old, changes.update_new, n, state);
    lemma_all_creations_are_ok(p2, changes.create, state);
    lemma_ok_has_no_failure(all_steps(changes, state).steps);
}

/// An update to the targets that there are, in any order and but for case and for dots
/// at the end, does nothing if it asks for no TTL, or for the one that the records of
/// the endpoint have.
pub proof fn law_an_update_without_a_difference_does_nothing(
    current: EndpointModel,
    desired: EndpointModel,
    state: StateModel,
    fresh: spec_fn(Seq<RecordModel>) -> u64,
)
    requires
        is_numbered(state.records),
        same_identity(current, desired),
        best_zone(state.zones, current.dns_name) is Some,
        names_listed(current, state.records),
        canonical_targets(current).to_multiset() == canonical_targets(desired).to_multiset(),
        desired.record_ttl <= 0 || forall|i: int|
            0 <= i < state.records.len() && same_identity(
                (#[trigger] state.records[i]).endpoint,
                current,
            ) ==> state.records[i].endpoint.record_ttl == desired.record_ttl,
    ensures
        outcome(replacement(Progress::start(), current, desired, state).steps).0.len() == 0,
        outcome(replacement(Progress::start(), current, desired, state).steps).1 is None,
{
    let start = Progress::start();
    lemma_records_are_found(
        current,
        current.targets.len() as int,
        state.records,
        start.deleted,
        fresh,
    );
    law_update_to_the_same_does_nothing(start, current, desired, state);
}

} // verus!
