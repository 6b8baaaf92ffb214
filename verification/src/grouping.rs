//! Grouping: the records of one name and type become one endpoint.
use crate::model::{endpoints, Endpoint, EndpointModel};
use crate::order::{
    comes_before, is_sorted, lemma_precedes_irreflexive, lemma_precedes_total, lemma_precedes_transitive,
    sort_texts,
};
use crate::text::{list_has, precedes};
use crate::timeweb::{record_models, RecordModel, RemoteRecord};
use vstd::prelude::*;
use vstd::seq_lib::*;

verus! {

/// What endpoints are grouped by: the name and the type.
pub open spec fn key_of(endpoint: EndpointModel) -> (Seq<char>, Seq<char>) {
    (endpoint.dns_name, endpoint.record_type)
}

/// The order of keys: by name, then by type.
pub open spec fn key_precedes(a: (Seq<char>, Seq<char>), b: (Seq<char>, Seq<char>)) -> bool {
    precedes(a.0, b.0) || (a.0 == b.0 && precedes(a.1, b.1))
}

/// The endpoints of the records with a given key, in the order of the records.
pub open spec fn group(records: Seq<RecordModel>, key: (Seq<char>, Seq<char>)) -> Seq<EndpointModel>
    decreases records.len(),
{
    if records.len() == 0 {
        Seq::empty()
    } else {
        let before = group(records.drop_last(), key);
        if key_of(records.last().endpoint) == key {
            before.push(records.last().endpoint)
        } else {
            before
        }
    }
}

/// One endpoint that takes in another: the other's first target is added unless
/// it is there, and a TTL on which they disagree becomes zero.
pub open spec fn absorb(endpoint: EndpointModel, other: EndpointModel) -> EndpointModel {
    EndpointModel {
        targets: if other.targets.len() > 0 && !endpoint.targets.contains(other.targets[0]) {
            endpoint.targets.push(other.targets[0])
        } else {
            endpoint.targets
        },
        record_ttl: if endpoint.record_ttl != other.record_ttl {
            0
        } else {
            endpoint.record_ttl
        },
        ..endpoint
    }
}

/// The first endpoint of a group that has taken in the others, in order.
pub open spec fn merged(group: Seq<EndpointModel>) -> EndpointModel
    decreases group.len(),
{
    if group.len() <= 1 {
        group[0]
    } else {
        absorb(merged(group.drop_last()), group.last())
    }
}

/// `endpoint` is `plain` with its targets sorted.
pub open spec fn is_sorted_form(endpoint: EndpointModel, plain: EndpointModel) -> bool {
    &&& is_sorted(endpoint.targets)
    &&& endpoint.targets.to_multiset() == plain.targets.to_multiset()
    &&& endpoint == (EndpointModel { targets: endpoint.targets, ..plain })
}

/// The keys of a list of endpoints are in order and no two are the same.
pub open spec fn keys_sorted(list: Seq<EndpointModel>) -> bool {
    forall|i: int, j: int|
        0 <= i < j < list.len() ==> key_precedes(
            key_of(#[trigger] list[i]),
            key_of(#[trigger] list[j]),
        )
}

/// `list` holds one endpoint for each key of the records, in the order of the
/// keys, each the merged group of its key.
pub open spec fn is_grouping(list: Seq<EndpointModel>, records: Seq<RecordModel>) -> bool {
    &&& keys_sorted(list)
    &&& forall|i: int|
        0 <= i < list.len() ==> group(records, key_of(#[trigger] list[i])).len() > 0 && list[i]
            == merged(group(records, key_of(list[i])))
    &&& forall|k: int|
        0 <= k < records.len() ==> has_key(list, key_of(#[trigger] records[k].endpoint))
}

/// `list` holds one endpoint for each key of the records, in the order of the
/// keys, each the merged group of its key with the targets sorted.
pub open spec fn is_sorted_grouping(list: Seq<EndpointModel>, records: Seq<RecordModel>) -> bool {
    &&& keys_sorted(list)
    &&& forall|i: int|
        0 <= i < list.len() ==> group(records, key_of(#[trigger] list[i])).len() > 0
            && is_sorted_form(list[i], merged(group(records, key_of(list[i]))))
    &&& forall|k: int|
        0 <= k < records.len() ==> has_key(list, key_of(#[trigger] records[k].endpoint))
}

/// Some endpoint of the list has the key.
pub open spec fn has_key(list: Seq<EndpointModel>, key: (Seq<char>, Seq<char>)) -> bool {
    exists|i: int| 0 <= i < list.len() && key_of(#[trigger] list[i]) == key
}

proof fn lemma_key_precedes_transitive(
    a: (Seq<char>, Seq<char>),
    b: (Seq<char>, Seq<char>),
    c: (Seq<char>, Seq<char>),
)
    requires
        key_precedes(a, b),
        key_precedes(b, c),
    ensures
        key_precedes(a, c),
{
    if precedes(a.0, b.0) && precedes(b.0, c.0) {
        lemma_precedes_transitive(a.0, b.0, c.0);
    } else if a.0 == b.0 && b.0 == c.0 {
        if precedes(a.1, b.1) && precedes(b.1, c.1) {
            lemma_precedes_transitive(a.1, b.1, c.1);
        } else {
            lemma_precedes_irreflexive(a.0);
        }
    }
}

proof fn lemma_key_precedes_irreflexive(a: (Seq<char>, Seq<char>))
    ensures
        !key_precedes(a, a),
{
    lemma_precedes_irreflexive(a.0);
    lemma_precedes_irreflexive(a.1);
}

/// Takes `other` into `endpoint`.
fn take_in(endpoint: &mut Endpoint, other: &Endpoint)
    ensures
        final(endpoint)@ == absorb(old(endpoint)@, other@),
{
    if !other.targets.is_empty() {
        assert(other@.targets[0] == other.targets@[0]@);
        let target = other.targets[0].as_str();
        if !list_has(&endpoint.targets, target) {
            let ghost before = endpoint@.targets;
            endpoint.targets.push(target.to_owned());
            assert(endpoint@.targets =~= before.push(target@));
        }
    }
    if endpoint.record_ttl != other.record_ttl {
        endpoint.record_ttl = 0;
    }
}

/// Whether the key of `a` comes before that of `b`.
fn key_before(a: &Endpoint, b: &Endpoint) -> (r: bool)
    ensures
        r == key_precedes(key_of(a@), key_of(b@)),
{
    comes_before(a.dns_name.as_str(), b.dns_name.as_str()) || (a.dns_name == b.dns_name
        && comes_before(a.record_type.as_str(), b.record_type.as_str()))
}

/// Adds one record to a grouping of those before it.
fn add_record(list: &mut Vec<Endpoint>, endpoint: Endpoint, Ghost(records): Ghost<Seq<RecordModel>>)
    requires
        records.len() > 0,
        endpoint@ == records.last().endpoint,
        is_grouping(endpoints(old(list)@), records.drop_last()),
    ensures
        is_grouping(endpoints(final(list)@), records),
{
    let ghost before = endpoints(list@);
    let ghost earlier = records.drop_last();
    let ghost key = key_of(endpoint@);
    let mut at: usize = 0;
    while at < list.len() && key_before(&list[at], &endpoint)
        invariant
            at <= list.len(),
            before == endpoints(list@),
            key == key_of(endpoint@),
            forall|i: int| 0 <= i < at ==> key_precedes(key_of(#[trigger] before[i]), key),
        decreases list.len() - at,
    {
        assert(before[at as int] == list@[at as int]@);
        at += 1;
    }
    proof {
        if at < list.len() {
            assert(before[at as int] == list@[at as int]@);
            lemma_precedes_total(key_of(before[at as int]).0, key.0);
            lemma_precedes_total(key_of(before[at as int]).1, key.1);
        }
        assert forall|k: (Seq<char>, Seq<char>)| k != key implies #[trigger] group(records, k)
            == group(earlier, k) by {}
        assert(group(records, key) == group(earlier, key).push(endpoint@));
        assert(group(records, key).drop_last() =~= group(earlier, key));
        assert forall|k: int| 0 <= k < earlier.len() implies #[trigger] records[k] == earlier[k] by {}
    }
    if at < list.len() && list[at].dns_name == endpoint.dns_name && list[at].record_type
        == endpoint.record_type {
        let mut current = list.remove(at);
        take_in(&mut current, &endpoint);
        list.insert(at, current);
        proof {
            let after = endpoints(list@);
            assert(after =~= before.update(at as int, absorb(before[at as int], endpoint@)));
            assert forall|i: int| 0 <= i < after.len() implies key_of(#[trigger] after[i]) == key_of(
                before[i],
            ) by {}
            assert forall|i: int| 0 <= i < after.len() implies group(
                records,
                key_of(#[trigger] after[i]),
            ).len() > 0 && after[i] == merged(group(records, key_of(after[i]))) by {
                assert(key_of(before[i]) == key_of(after[i]));
                if i < at {
                    lemma_key_precedes_irreflexive(key);
                    assert(key_of(before[i]) != key);
                } else if i > at {
                    assert(key_precedes(key_of(before[at as int]), key_of(before[i])));
                    lemma_key_precedes_irreflexive(key);
                    assert(key_of(before[i]) != key);
                } else {
                    assert(group(earlier, key).len() > 0);
                }
            }
            assert forall|k: int| 0 <= k < records.len() implies has_key(
                after,
                key_of(#[trigger] records[k].endpoint),
            ) by {
                if k < earlier.len() {
                    assert(has_key(before, key_of(earlier[k].endpoint)));
                    let i = choose|i: int|
                        0 <= i < before.len() && key_of(#[trigger] before[i]) == key_of(
                            earlier[k].endpoint,
                        );
                    assert(key_of(after[i]) == key_of(earlier[k].endpoint));
                } else {
                    assert(key_of(after[at as int]) == key);
                }
            }
        }
    } else {
        proof {
            if at < list.len() {
                assert(key_precedes(key, key_of(before[at as int])));
            }
            // No group of the key exists yet.
            if group(earlier, key).len() > 0 {
                lemma_group_member(earlier, key);
                let k = choose|k: int|
                    0 <= k < earlier.len() && key_of(#[trigger] earlier[k].endpoint) == key;
                assert(has_key(before, key_of(earlier[k].endpoint)));
                let i = choose|i: int| 0 <= i < before.len() && key_of(#[trigger] before[i]) == key;
                lemma_key_precedes_irreflexive(key);
                if i > at {
                    assert(key_precedes(key_of(before[at as int]), key_of(before[i])));
                    lemma_key_precedes_transitive(key, key_of(before[at as int]), key);
                }
            }
            assert(group(records, key) =~= seq![endpoint@]);
        }
        list.insert(at, endpoint);
        proof {
            let after = endpoints(list@);
            assert(after =~= before.insert(at as int, endpoint@));
            assert forall|i: int, j: int| 0 <= i < j < after.len() implies key_precedes(
                key_of(#[trigger] after[i]),
                key_of(#[trigger] after[j]),
            ) by {
                let bi = if i < at { i } else { i - 1 };
                let bj = if j < at { j } else { j - 1 };
                if i != at && j != at {
                    assert(after[i] == before[bi] && after[j] == before[bj]);
                } else if i == at && j - 1 > at {
                    assert(key_precedes(key_of(before[at as int]), key_of(before[j - 1])));
                    lemma_key_precedes_transitive(
                        key,
                        key_of(before[at as int]),
                        key_of(before[j - 1]),
                    );
                }
            }
            assert forall|i: int| 0 <= i < after.len() implies group(
                records,
                key_of(#[trigger] after[i]),
            ).len() > 0 && after[i] == merged(group(records, key_of(after[i]))) by {
                if i != at {
                    let bi = if i < at { i } else { i - 1 };
                    assert(after[i] == before[bi]);
                    lemma_key_precedes_irreflexive(key);
                    if i < at {
                        assert(key_precedes(key_of(after[i]), key_of(after[at as int])));
                    } else {
                        assert(key_precedes(key_of(after[at as int]), key_of(after[i])));
                    }
                    assert(key_of(before[bi]) != key);
                }
            }
            assert forall|k: int| 0 <= k < records.len() implies has_key(
                after,
                key_of(#[trigger] records[k].endpoint),
            ) by {
                if k < earlier.len() {
                    assert(has_key(before, key_of(earlier[k].endpoint)));
                    let i = choose|i: int|
                        0 <= i < before.len() && key_of(#[trigger] before[i]) == key_of(
                            earlier[k].endpoint,
                        );
                    let m = if i < at { i } else { i + 1 };
                    assert(after[m] == before[i]);
                } else {
                    assert(after[at as int] == endpoint@);
                }
            }
        }
    }
}

/// A group with a member has a record of its key.
proof fn lemma_group_member(records: Seq<RecordModel>, key: (Seq<char>, Seq<char>))
    requires
        group(records, key).len() > 0,
    ensures
        exists|k: int| 0 <= k < records.len() && key_of(#[trigger] records[k].endpoint) == key,
    decreases records.len(),
{
    if key_of(records.last().endpoint) == key {
        assert(key_of(records[records.len() - 1].endpoint) == key);
    } else {
        lemma_group_member(records.drop_last(), key);
        let k = choose|k: int|
            0 <= k < records.drop_last().len() && key_of(
                #[trigger] records.drop_last()[k].endpoint,
            ) == key;
        assert(key_of(records[k].endpoint) == key);
    }
}

/// One endpoint for each name and type among the records, in order, with its
/// targets sorted.
pub fn group_records(records: Vec<RemoteRecord>) -> (r: Vec<Endpoint>)
    ensures
        is_sorted_grouping(endpoints(r@), record_models(records@)),
{
    let ghost model = record_models(records@);
    let mut list: Vec<Endpoint> = Vec::new();
    for record in iter: records
        invariant
            iter.seq() == records@,
            model == record_models(records@),
            is_grouping(endpoints(list@), model.take(iter.index() as int)),
    {
        proof {
            assert(model.take(iter.index() + 1).drop_last() =~= model.take(iter.index() as int));
            assert(model.take(iter.index() + 1).last() == record@);
        }
        add_record(
            &mut list,
            record.endpoint,
            Ghost(model.take(iter.index() + 1)),
        );
    }
    assert(model.take(model.len() as int) =~= model);
    let ghost plain = endpoints(list@);
    let mut r: Vec<Endpoint> = Vec::new();
    for endpoint in iter: list
        invariant
            iter.seq() == list@,
            plain == endpoints(list@),
            r@.len() == iter.index(),
            forall|i: int|
                0 <= i < r@.len() ==> is_sorted_form((#[trigger] endpoints(r@)[i]), plain[i]),
    {
        let ghost before = endpoints(r@);
        let mut endpoint = endpoint;
        sort_texts(&mut endpoint.targets);
        r.push(endpoint);
        assert(endpoints(r@) =~= before.push(endpoint@));
        assert(is_sorted_form(endpoint@, plain[before.len() as int]));
    }
    proof {
        let out = endpoints(r@);
        assert forall|i: int| 0 <= i < out.len() implies key_of(#[trigger] out[i]) == key_of(
            plain[i],
        ) by {
            assert(is_sorted_form(out[i], plain[i]));
        }
        assert forall|i: int| 0 <= i < out.len() implies group(model, key_of(#[trigger] out[i])).len()
            > 0 && is_sorted_form(out[i], merged(group(model, key_of(out[i])))) by {
            assert(is_sorted_form(out[i], plain[i]));
            assert(key_of(plain[i]) == key_of(out[i]));
        }
        assert forall|i: int, j: int| 0 <= i < j < out.len() implies key_precedes(
            key_of(#[trigger] out[i]),
            key_of(#[trigger] out[j]),
        ) by {
            assert(key_precedes(key_of(plain[i]), key_of(plain[j])));
        }
        assert forall|k: int| 0 <= k < model.len() implies has_key(
            out,
            key_of(#[trigger] model[k].endpoint),
        ) by {
            let key = key_of(model[k].endpoint);
            assert(has_key(plain, key));
            let i = choose|i: int| 0 <= i < plain.len() && key_of(#[trigger] plain[i]) == key;
            assert(key_of(out[i]) == key);
        }
    }
    r
}

// ---------------------------------------------------------------------------
// Laws
// ---------------------------------------------------------------------------

/// A record with the key is a member of the group.
proof fn lemma_record_in_group(records: Seq<RecordModel>, k: int)
    requires
        0 <= k < records.len(),
    ensures
        group(records, key_of(records[k].endpoint)).contains(records[k].endpoint),
    decreases records.len(),
{
    let key = key_of(records[k].endpoint);
    let g = group(records, key);
    if k == records.len() - 1 {
        assert(g.last() == records[k].endpoint);
    } else {
        let before = group(records.drop_last(), key);
        lemma_record_in_group(records.drop_last(), k);
        assert(before.contains(records[k].endpoint));
        let j = choose|j: int| 0 <= j < before.len() && before[j] == records[k].endpoint;
        assert(g[j] == records[k].endpoint);
    }
}

/// A member of a group is the endpoint of a record with its key.
proof fn lemma_group_from_records(records: Seq<RecordModel>, key: (Seq<char>, Seq<char>), j: int)
    requires
        0 <= j < group(records, key).len(),
    ensures
        exists|k: int|
            0 <= k < records.len() && #[trigger] records[k].endpoint == group(records, key)[j]
                && key_of(records[k].endpoint) == key,
    decreases records.len(),
{
    let before = group(records.drop_last(), key);
    if j < before.len() {
        lemma_group_from_records(records.drop_last(), key, j);
        let k = choose|k: int|
            0 <= k < records.drop_last().len() && #[trigger] records.drop_last()[k].endpoint
                == before[j] && key_of(records.drop_last()[k].endpoint) == key;
        assert(records[k].endpoint == group(records, key)[j]);
    } else {
        assert(records[records.len() - 1].endpoint == group(records, key)[j]);
    }
}

/// The first target of every member is among the merged targets.
proof fn lemma_merged_keeps(g: Seq<EndpointModel>, j: int)
    requires
        0 <= j < g.len(),
        g[j].targets.len() > 0,
    ensures
        merged(g).targets.contains(g[j].targets[0]),
    decreases g.len(),
{
    let target = g[j].targets[0];
    if g.len() > 1 {
        let before = merged(g.drop_last());
        if j < g.len() - 1 {
            lemma_merged_keeps(g.drop_last(), j);
            let m = choose|m: int| 0 <= m < before.targets.len() && before.targets[m] == target;
            assert(merged(g).targets[m] == target);
        } else if before.targets.contains(target) {
            assert(merged(g).targets == before.targets);
        } else {
            assert(merged(g).targets.last() == target);
        }
    }
}

/// Every merged target is a target of some member.
proof fn lemma_merged_from(g: Seq<EndpointModel>, target: Seq<char>)
    requires
        g.len() > 0,
        merged(g).targets.contains(target),
    ensures
        exists|j: int| 0 <= j < g.len() && (#[trigger] g[j]).targets.contains(target),
    decreases g.len(),
{
    if g.len() == 1 {
        assert(g[0].targets.contains(target));
    } else {
        let before = merged(g.drop_last());
        let m = choose|m: int| 0 <= m < merged(g).targets.len() && merged(g).targets[m] == target;
        if m < before.targets.len() {
            assert(before.targets[m] == target);
            lemma_merged_from(g.drop_last(), target);
            let j = choose|j: int|
                0 <= j < g.drop_last().len() && (#[trigger] g.drop_last()[j]).targets.contains(
                    target,
                );
            assert(g[j].targets.contains(target));
        } else {
            assert(g.last().targets[0] == target);
            assert(g[g.len() - 1].targets.contains(target));
        }
    }
}

/// The members of a group agree on a TTL.
pub open spec fn same_ttl(g: Seq<EndpointModel>) -> bool {
    forall|j: int| 0 <= j < g.len() ==> (#[trigger] g[j]).record_ttl == g[0].record_ttl
}

proof fn lemma_merged_ttl(g: Seq<EndpointModel>)
    requires
        g.len() > 0,
    ensures
        merged(g).record_ttl == if same_ttl(g) {
            g[0].record_ttl
        } else {
            0
        },
    decreases g.len(),
{
    if g.len() > 1 {
        let before = g.drop_last();
        lemma_merged_ttl(before);
        assert(before[0] == g[0]);
        if same_ttl(before) {
            if g.last().record_ttl == g[0].record_ttl {
                assert forall|j: int| 0 <= j < g.len() implies (#[trigger] g[j]).record_ttl
                    == g[0].record_ttl by {
                    if j < before.len() {
                        assert(before[j].record_ttl == before[0].record_ttl);
                    }
                }
            } else {
                assert(g[g.len() - 1].record_ttl != g[0].record_ttl);
            }
        } else {
            let j = choose|j: int|
                0 <= j < before.len() && (#[trigger] before[j]).record_ttl != before[0].record_ttl;
            assert(g[j].record_ttl != g[0].record_ttl);
        }
    }
}

/// Grouping loses no target: the target of every record is among those of the
/// endpoint with the record's name and type.
pub proof fn law_grouping_keeps_targets(
    list: Seq<EndpointModel>,
    records: Seq<RecordModel>,
    k: int,
)
    requires
        is_sorted_grouping(list, records),
        0 <= k < records.len(),
        records[k].endpoint.targets.len() > 0,
    ensures
        exists|i: int|
            0 <= i < list.len() && key_of(#[trigger] list[i]) == key_of(records[k].endpoint)
                && list[i].targets.contains(records[k].endpoint.targets[0]),
{
    broadcast use group_to_multiset_ensures;

    let key = key_of(records[k].endpoint);
    let target = records[k].endpoint.targets[0];
    assert(has_key(list, key_of(records[k].endpoint)));
    let i = choose|i: int| 0 <= i < list.len() && key_of(#[trigger] list[i]) == key;
    let g = group(records, key);
    lemma_record_in_group(records, k);
    let j = choose|j: int| 0 <= j < g.len() && g[j] == records[k].endpoint;
    lemma_merged_keeps(g, j);
    assert(is_sorted_form(list[i], merged(g)));
    assert(merged(g).targets.to_multiset().count(target) > 0);
    assert(list[i].targets.to_multiset().count(target) > 0);
    assert(list[i].targets.contains(target));
}

/// Grouping invents no target: every target of an endpoint is a target of some
/// record with its name and type.
pub proof fn law_grouping_invents_no_target(
    list: Seq<EndpointModel>,
    records: Seq<RecordModel>,
    i: int,
    target: Seq<char>,
)
    requires
        is_sorted_grouping(list, records),
        0 <= i < list.len(),
        list[i].targets.contains(target),
    ensures
        exists|k: int|
            0 <= k < records.len() && key_of(#[trigger] records[k].endpoint) == key_of(list[i])
                && records[k].endpoint.targets.contains(target),
{
    broadcast use group_to_multiset_ensures;

    let g = group(records, key_of(list[i]));
    assert(is_sorted_form(list[i], merged(g)));
    assert(list[i].targets.to_multiset().count(target) > 0);
    assert(merged(g).targets.to_multiset().count(target) > 0);
    assert(merged(g).targets.contains(target));
    lemma_merged_from(g, target);
    let j = choose|j: int| 0 <= j < g.len() && (#[trigger] g[j]).targets.contains(target);
    lemma_group_from_records(records, key_of(list[i]), j);
    let k = choose|k: int|
        0 <= k < records.len() && #[trigger] records[k].endpoint == g[j] && key_of(
            records[k].endpoint,
        ) == key_of(list[i]);
    assert(records[k].endpoint.targets.contains(target));
}

/// The TTL of an endpoint is the one that all its records have, or zero where
/// they disagree.
pub proof fn law_grouping_ttl(list: Seq<EndpointModel>, records: Seq<RecordModel>, i: int)
    requires
        is_sorted_grouping(list, records),
        0 <= i < list.len(),
    ensures
        ({
            let g = group(records, key_of(list[i]));
            list[i].record_ttl == if same_ttl(g) {
                g[0].record_ttl
            } else {
                0
            }
        }),
{
    let g = group(records, key_of(list[i]));
    assert(is_sorted_form(list[i], merged(g)));
    lemma_merged_ttl(g);
}

/// No two endpoints of a grouping have the same name and type.
pub proof fn law_grouping_unique(list: Seq<EndpointModel>, records: Seq<RecordModel>, i: int, j: int)
    requires
        is_sorted_grouping(list, records),
        0 <= i < j < list.len(),
    ensures
        key_of(list[i]) != key_of(list[j]),
{
    assert(key_precedes(key_of(list[i]), key_of(list[j])));
    lemma_key_precedes_irreflexive(key_of(list[i]));
}

/// A record belongs to an endpoint: they have the same name and the same type.
pub open spec fn belongs_to(record: RecordModel, endpoint: EndpointModel) -> bool {
    record.endpoint.dns_name == endpoint.dns_name && record.endpoint.record_type
        == endpoint.record_type
}

/// There is one endpoint for each name and type that a record has, and no other; they
/// are in the order of names, and of types for one name.
pub proof fn law_grouping_is_by_name_and_type(
    list: Seq<EndpointModel>,
    records: Seq<RecordModel>,
    i: int,
    j: int,
    k: int,
)
    requires
        is_sorted_grouping(list, records),
    ensures
        0 <= k < records.len() ==> exists|m: int|
            0 <= m < list.len() && belongs_to(records[k], #[trigger] list[m]),
        0 <= i < list.len() ==> exists|m: int|
            0 <= m < records.len() && belongs_to(#[trigger] records[m], list[i]),
        0 <= i < j < list.len() ==> precedes(list[i].dns_name, list[j].dns_name) || (
        list[i].dns_name == list[j].dns_name && precedes(
            list[i].record_type,
            list[j].record_type,
        )),
{
    if 0 <= k < records.len() {
        assert(has_key(list, key_of(records[k].endpoint)));
        let m = choose|m: int|
            0 <= m < list.len() && key_of(#[trigger] list[m]) == key_of(records[k].endpoint);
        assert(belongs_to(records[k], list[m]));
    }
    if 0 <= i < list.len() {
        let g = group(records, key_of(list[i]));
        assert(g.len() > 0);
        lemma_group_from_records(records, key_of(list[i]), 0);
        let m = choose|m: int|
            0 <= m < records.len() && #[trigger] records[m].endpoint == g[0] && key_of(
                records[m].endpoint,
            ) == key_of(list[i]);
        assert(belongs_to(records[m], list[i]));
    }
    if 0 <= i < j < list.len() {
        assert(key_precedes(key_of(list[i]), key_of(list[j])));
    }
}

/// The targets of an endpoint are those of the records that belong to it, each once
/// where every record has one, and in order.
pub proof fn law_grouping_collects_targets(
    list: Seq<EndpointModel>,
    records: Seq<RecordModel>,
    i: int,
    target: Seq<char>,
)
    requires
        is_sorted_grouping(list, records),
        0 <= i < list.len(),
        forall|k: int| 0 <= k < records.len() ==> (#[trigger] records[k]).endpoint.targets.len() == 1,
    ensures
        list[i].targets.contains(target) <==> exists|k: int|
            0 <= k < records.len() && belongs_to(#[trigger] records[k], list[i])
                && records[k].endpoint.targets[0] == target,
        forall|a: int, b: int|
            0 <= a < b < list[i].targets.len() ==> precedes(
                #[trigger] list[i].targets[a],
                #[trigger] list[i].targets[b],
            ),
{
    broadcast use group_to_multiset_ensures;

    let endpoint = list[i];
    let g = group(records, key_of(endpoint));
    if exists|k: int|
        0 <= k < records.len() && belongs_to(#[trigger] records[k], endpoint)
            && records[k].endpoint.targets[0] == target {
        let k = choose|k: int|
            0 <= k < records.len() && belongs_to(#[trigger] records[k], endpoint)
                && records[k].endpoint.targets[0] == target;
        law_grouping_keeps_targets(list, records, k);
        let m = choose|m: int|
            0 <= m < list.len() && key_of(#[trigger] list[m]) == key_of(records[k].endpoint)
                && list[m].targets.contains(records[k].endpoint.targets[0]);
        if m < i {
            law_grouping_unique(list, records, m, i);
        } else if i < m {
            law_grouping_unique(list, records, i, m);
        }
    }
    if endpoint.targets.contains(target) {
        law_grouping_invents_no_target(list, records, i, target);
        let k = choose|k: int|
            0 <= k < records.len() && key_of(#[trigger] records[k].endpoint) == key_of(endpoint)
                && records[k].endpoint.targets.contains(target);
        assert(records[k].endpoint.targets[0] == target);
        assert(belongs_to(records[k], endpoint));
    }
    assert(is_sorted_form(endpoint, merged(g)));
    assert forall|j: int| 0 <= j < g.len() implies (#[trigger] g[j]).targets.len() == 1 by {
        lemma_group_from_records(records, key_of(endpoint), j);
    }
    lemma_merged_once(g);
    assert forall|a: int, b: int| 0 <= a < b < endpoint.targets.len() implies precedes(
        #[trigger] endpoint.targets[a],
        #[trigger] endpoint.targets[b],
    ) by {
        let x = endpoint.targets[a];
        let y = endpoint.targets[b];
        assert(!precedes(y, x));
        lemma_precedes_total(x, y);
        if x == y {
            lemma_counted_twice(endpoint.targets, a, b);
            assert(merged(g).targets.to_multiset().count(x) <= 1);
        }
    }
}

proof fn lemma_counted_twice(list: Seq<Seq<char>>, a: int, b: int)
    requires
        0 <= a < b < list.len(),
        list[a] == list[b],
    ensures
        list.to_multiset().count(list[a]) >= 2,
{
    broadcast use group_to_multiset_ensures;

    let rest = list.remove(b);
    assert(rest[a] == list[a]);
    assert(rest.contains(list[a]));
    assert(rest.to_multiset().count(list[a]) >= 1);
    assert(rest.to_multiset() == list.to_multiset().remove(list[b]));
}

proof fn lemma_merged_once(g: Seq<EndpointModel>)
    requires
        g.len() > 0,
        forall|j: int| 0 <= j < g.len() ==> (#[trigger] g[j]).targets.len() == 1,
    ensures
        forall|x: Seq<char>| #[trigger] merged(g).targets.to_multiset().count(x) <= 1,
    decreases g.len(),
{
    broadcast use group_to_multiset_ensures;

    if g.len() == 1 {
        assert(g[0].targets.len() == 1);
        let one = g[0].targets;
        assert(one =~= Seq::empty().push(one[0]));
        assert forall|x: Seq<char>| #[trigger] merged(g).targets.to_multiset().count(x) <= 1 by {
            assert(Seq::<Seq<char>>::empty().to_multiset().count(x) == 0);
        }
    } else {
        let front = g.drop_last();
        assert forall|j: int| 0 <= j < front.len() implies (#[trigger] front[j]).targets.len()
            == 1 by {
            assert(front[j] == g[j]);
        }
        lemma_merged_once(front);
        let before = merged(front).targets;
        assert(g[g.len() - 1].targets.len() == 1);
        let target = g.last().targets[0];
        assert forall|x: Seq<char>| #[trigger] merged(g).targets.to_multiset().count(x) <= 1 by {
            assert(before.to_multiset().count(x) <= 1);
            if !before.contains(target) {
                assert(before.to_multiset().count(target) == 0);
            }
        }
    }
}

/// The TTL of an endpoint is that of its records if they all have the same one, and
/// zero if two of them differ.
pub proof fn law_grouping_agrees_on_a_ttl(
    list: Seq<EndpointModel>,
    records: Seq<RecordModel>,
    i: int,
    a: int,
    b: int,
)
    requires
        is_sorted_grouping(list, records),
        0 <= i < list.len(),
        0 <= a < records.len(),
        0 <= b < records.len(),
        belongs_to(records[a], list[i]),
        belongs_to(records[b], list[i]),
    ensures
        records[a].endpoint.record_ttl != records[b].endpoint.record_ttl ==> list[i].record_ttl
            == 0,
        (forall|k: int|
            0 <= k < records.len() && belongs_to(#[trigger] records[k], list[i])
                ==> records[k].endpoint.record_ttl == records[a].endpoint.record_ttl)
            ==> list[i].record_ttl == records[a].endpoint.record_ttl,
{
    let g = group(records, key_of(list[i]));
    law_grouping_ttl(list, records, i);
    lemma_record_in_group(records, a);
    lemma_record_in_group(records, b);
    let x = choose|x: int| 0 <= x < g.len() && g[x] == records[a].endpoint;
    let y = choose|y: int| 0 <= y < g.len() && g[y] == records[b].endpoint;
    if same_ttl(g) {
        assert(g[x].record_ttl == g[0].record_ttl);
        assert(g[y].record_ttl == g[0].record_ttl);
    } else {
        let j = choose|j: int|
            0 <= j < g.len() && (#[trigger] g[j]).record_ttl != g[0].record_ttl;
        lemma_group_from_records(records, key_of(list[i]), j);
        lemma_group_from_records(records, key_of(list[i]), 0);
        let m = choose|m: int|
            0 <= m < records.len() && #[trigger] records[m].endpoint == g[j] && key_of(
                records[m].endpoint,
            ) == key_of(list[i]);
        let n = choose|n: int|
            0 <= n < records.len() && #[trigger] records[n].endpoint == g[0] && key_of(
                records[n].endpoint,
            ) == key_of(list[i]);
        assert(belongs_to(records[m], list[i]));
        assert(belongs_to(records[n], list[i]));
    }
}

/// The first record with a key comes first in its group.
proof fn lemma_first_of_group(records: Seq<RecordModel>, k: int)
    requires
        0 <= k < records.len(),
        forall|m: int|
            0 <= m < k ==> key_of((#[trigger] records[m]).endpoint) != key_of(records[k].endpoint),
    ensures
        group(records, key_of(records[k].endpoint)).len() > 0,
        group(records, key_of(records[k].endpoint))[0] == records[k].endpoint,
    decreases records.len(),
{
    let key = key_of(records[k].endpoint);
    let front = records.drop_last();
    if k < front.len() {
        assert(front[k] == records[k]);
        assert forall|m: int| 0 <= m < k implies key_of((#[trigger] front[m]).endpoint)
            != key_of(front[k].endpoint) by {
            assert(front[m] == records[m]);
        }
        lemma_first_of_group(front, k);
    } else {
        if group(front, key).len() > 0 {
            lemma_group_from_records(front, key, 0);
            let m = choose|m: int|
                0 <= m < front.len() && #[trigger] front[m].endpoint == group(front, key)[0]
                    && key_of(front[m].endpoint) == key;
            assert(records[m] == front[m]);
        }
    }
}

proof fn lemma_merged_is_the_first(g: Seq<EndpointModel>)
    requires
        g.len() > 0,
    ensures
        merged(g) == (EndpointModel {
            targets: merged(g).targets,
            record_ttl: merged(g).record_ttl,
            ..g[0]
        }),
    decreases g.len(),
{
    if g.len() > 1 {
        lemma_merged_is_the_first(g.drop_last());
        assert(g.drop_last()[0] == g[0]);
    }
}

/// Besides its targets and its TTL, an endpoint is the first of the records that belong
/// to it.
pub proof fn law_grouping_keeps_the_first(
    list: Seq<EndpointModel>,
    records: Seq<RecordModel>,
    i: int,
    k: int,
)
    requires
        is_sorted_grouping(list, records),
        0 <= i < list.len(),
        0 <= k < records.len(),
        belongs_to(records[k], list[i]),
        forall|m: int| 0 <= m < k ==> !belongs_to(#[trigger] records[m], list[i]),
    ensures
        list[i].dns_name == records[k].endpoint.dns_name,
        list[i].record_type == records[k].endpoint.record_type,
        list[i].set_identifier == records[k].endpoint.set_identifier,
        list[i].labels == records[k].endpoint.labels,
        list[i].provider_specific == records[k].endpoint.provider_specific,
{
    let g = group(records, key_of(list[i]));
    assert forall|m: int| 0 <= m < k implies key_of((#[trigger] records[m]).endpoint) != key_of(
        records[k].endpoint,
    ) by {
        assert(!belongs_to(records[m], list[i]));
    }
    lemma_first_of_group(records, k);
    lemma_merged_is_the_first(g);
    assert(is_sorted_form(list[i], merged(g)));
}

} // verus!
