//! The order of texts, and the sorted lists that rest on it.
use crate::text::{precedes, texts, to_chars};
use vstd::prelude::*;
use vstd::seq_lib::*;

verus! {

/// No text of the list comes before one that stands left of it.
pub open spec fn is_sorted(list: Seq<Seq<char>>) -> bool {
    forall|i: int, j: int| 0 <= i < j < list.len() ==> !precedes(#[trigger] list[j], #[trigger] list[i])
}

/// Each text of the list comes before all that stand right of it: the list is
/// sorted and holds no text twice.
pub open spec fn is_strictly_sorted(list: Seq<Seq<char>>) -> bool {
    forall|i: int, j: int| 0 <= i < j < list.len() ==> precedes(#[trigger] list[i], #[trigger] list[j])
}

/// No text comes before itself.
pub proof fn lemma_precedes_irreflexive(a: Seq<char>)
    ensures
        !precedes(a, a),
    decreases a.len(),
{
    if a.len() > 0 {
        lemma_precedes_irreflexive(a.drop_first());
    }
}

/// The order is transitive.
pub proof fn lemma_precedes_transitive(a: Seq<char>, b: Seq<char>, c: Seq<char>)
    requires
        precedes(a, b),
        precedes(b, c),
    ensures
        precedes(a, c),
    decreases a.len(),
{
    if a.len() > 0 && a[0] == b[0] && b[0] == c[0] {
        lemma_precedes_transitive(a.drop_first(), b.drop_first(), c.drop_first());
    }
}

/// Of two different texts one comes before the other.
pub proof fn lemma_precedes_total(a: Seq<char>, b: Seq<char>)
    ensures
        a == b || precedes(a, b) || precedes(b, a),
    decreases a.len(),
{
    if a.len() == 0 || b.len() == 0 {
        if a.len() == b.len() {
            assert(a =~= b);
        }
    } else if a[0] == b[0] {
        lemma_precedes_total(a.drop_first(), b.drop_first());
        if a.drop_first() == b.drop_first() {
            assert(a =~= seq![a[0]] + a.drop_first());
            assert(b =~= seq![b[0]] + b.drop_first());
        }
    } else {
        assert(a[0] < b[0] || b[0] < a[0]);
    }
}

/// Whether `a` comes before `b`.
pub fn comes_before(a: &str, b: &str) -> (r: bool)
    ensures
        r == precedes(a@, b@),
{
    let left = to_chars(a);
    let right = to_chars(b);
    let mut i: usize = 0;
    assert(a@.skip(0) =~= a@);
    assert(b@.skip(0) =~= b@);
    while i < left.len() && i < right.len() && left[i] == right[i]
        invariant
            left@ == a@,
            right@ == b@,
            i <= left.len(),
            i <= right.len(),
            precedes(a@, b@) == precedes(a@.skip(i as int), b@.skip(i as int)),
        decreases left.len() - i,
    {
        assert(a@.skip(i as int).drop_first() =~= a@.skip(i + 1));
        assert(b@.skip(i as int).drop_first() =~= b@.skip(i + 1));
        i += 1;
    }
    if i >= right.len() {
        false
    } else if i >= left.len() {
        true
    } else {
        left[i] < right[i]
    }
}

/// Puts `item` into a sorted list, behind what it does not come before.
fn insert_sorted(list: &mut Vec<String>, item: String)
    requires
        is_sorted(texts(old(list)@)),
    ensures
        is_sorted(texts(final(list)@)),
        texts(final(list)@).to_multiset() == texts(old(list)@).to_multiset().insert(item@),
{
    let ghost before = texts(list@);
    let mut at: usize = 0;
    while at < list.len() && !comes_before(item.as_str(), list[at].as_str())
        invariant
            at <= list.len(),
            before == texts(list@),
            forall|i: int| 0 <= i < at ==> !precedes(item@, #[trigger] before[i]),
        decreases list.len() - at,
    {
        at += 1;
    }
    list.insert(at, item);
    proof {
        broadcast use group_to_multiset_ensures;

        let after = texts(list@);
        assert(after =~= before.insert(at as int, item@));
        assert forall|i: int, j: int| 0 <= i < j < after.len() implies !precedes(
            #[trigger] after[j],
            #[trigger] after[i],
        ) by {
            let bi = if i < at { i } else { i - 1 };
            let bj = if j < at { j } else { j - 1 };
            if i != at && j != at {
                assert(after[i] == before[bi] && after[j] == before[bj]);
            } else if i == at {
                if j - 1 > at {
                    if precedes(before[j - 1], item@) {
                        lemma_precedes_transitive(before[j - 1], item@, before[at as int]);
                    }
                } else {
                    lemma_precedes_irreflexive(item@);
                    if precedes(before[j - 1], item@) {
                        lemma_precedes_transitive(item@, before[at as int], item@);
                    }
                }
            }
        }
    }
}

/// Sorts a list of texts.
pub fn sort_texts(list: &mut Vec<String>)
    ensures
        is_sorted(texts(final(list)@)),
        texts(final(list)@).to_multiset() == texts(old(list)@).to_multiset(),
{
    let mut sorted: Vec<String> = Vec::new();
    let ghost whole = texts(list@);
    let mut i: usize = 0;
    assert(texts(sorted@) =~= whole.take(0));
    while i < list.len()
        invariant
            i <= list.len(),
            whole == texts(list@),
            is_sorted(texts(sorted@)),
            texts(sorted@).to_multiset() =~= whole.take(i as int).to_multiset(),
        decreases list.len() - i,
    {
        insert_sorted(&mut sorted, list[i].clone());
        proof {
            broadcast use group_to_multiset_ensures;

            assert(whole.take(i + 1) =~= whole.take(i as int).push(whole[i as int]));
        }
        i += 1;
    }
    assert(whole.take(whole.len() as int) =~= whole);
    *list = sorted;
}

/// Adds `item` to a strictly sorted list unless the list holds it.
pub fn insert_unique(list: &mut Vec<String>, item: String)
    requires
        is_strictly_sorted(texts(old(list)@)),
    ensures
        is_strictly_sorted(texts(final(list)@)),
        texts(final(list)@).to_set() == texts(old(list)@).to_set().insert(item@),
{
    let ghost before = texts(list@);
    let mut at: usize = 0;
    while at < list.len() && comes_before(list[at].as_str(), item.as_str())
        invariant
            at <= list.len(),
            before == texts(list@),
            forall|i: int| 0 <= i < at ==> precedes(#[trigger] before[i], item@),
        decreases list.len() - at,
    {
        at += 1;
    }
    if at < list.len() && !comes_before(item.as_str(), list[at].as_str()) {
        proof {
            lemma_precedes_total(before[at as int], item@);
            assert(before.contains(item@));
            assert(before.to_set().insert(item@) =~= before.to_set());
        }
        return;
    }
    list.insert(at, item);
    proof {
        let after = texts(list@);
        assert(after =~= before.insert(at as int, item@));
        assert forall|i: int, j: int| 0 <= i < j < after.len() implies precedes(
            #[trigger] after[i],
            #[trigger] after[j],
        ) by {
            let bi = if i < at { i } else { i - 1 };
            let bj = if j < at { j } else { j - 1 };
            if i != at && j != at {
                assert(after[i] == before[bi] && after[j] == before[bj]);
            } else if i == at && j - 1 > at {
                lemma_precedes_transitive(item@, before[at as int], before[j - 1]);
            }
        }
        assert(after.to_set() =~= before.to_set().insert(item@)) by {
            assert forall|x: Seq<char>| after.contains(x) == (before.contains(x) || x == item@) by {
                if before.contains(x) {
                    let k = choose|k: int| 0 <= k < before.len() && before[k] == x;
                    let m = if k < at { k } else { k + 1 };
                    assert(after[m] == x);
                }
                if x == item@ {
                    assert(after[at as int] == x);
                }
                if after.contains(x) && x != item@ {
                    let k = choose|k: int| 0 <= k < after.len() && after[k] == x;
                    let m = if k < at { k } else { k - 1 };
                    assert(before[m] == x);
                }
            }
        }
    }
}

/// A list that is strictly sorted is fixed by what it holds.
pub proof fn law_sorted_lists_are_unique(a: Seq<Seq<char>>, b: Seq<Seq<char>>)
    requires
        is_strictly_sorted(a),
        is_strictly_sorted(b),
        a.to_set() == b.to_set(),
    ensures
        a == b,
    decreases a.len(),
{
    if a.len() == 0 || b.len() == 0 {
        if a.len() > 0 {
            assert(a.to_set().contains(a[0]));
            assert(b.contains(a[0]));
        }
        if b.len() > 0 {
            assert(b.to_set().contains(b[0]));
            assert(a.contains(b[0]));
        }
        assert(a =~= b);
    } else {
        let x = a.last();
        let y = b.last();
        assert(x == y) by {
            assert(a.to_set().contains(x));
            assert(b.contains(x));
            assert(b.to_set().contains(y));
            assert(a.contains(y));
            let i = choose|i: int| 0 <= i < b.len() && b[i] == x;
            let j = choose|j: int| 0 <= j < a.len() && a[j] == y;
            if i < b.len() - 1 && j < a.len() - 1 {
                assert(precedes(b[i], b[b.len() - 1]));
                assert(precedes(a[j], a[a.len() - 1]));
                lemma_precedes_transitive(x, y, x);
                lemma_precedes_irreflexive(x);
            }
        }
        let front = a.drop_last();
        let other = b.drop_last();
        assert(is_strictly_sorted(front)) by {
            assert forall|i: int, j: int| 0 <= i < j < front.len() implies precedes(
                #[trigger] front[i],
                #[trigger] front[j],
            ) by {
                assert(precedes(a[i], a[j]));
            }
        }
        assert(is_strictly_sorted(other)) by {
            assert forall|i: int, j: int| 0 <= i < j < other.len() implies precedes(
                #[trigger] other[i],
                #[trigger] other[j],
            ) by {
                assert(precedes(b[i], b[j]));
            }
        }
        assert(front.to_set() =~= other.to_set()) by {
            assert forall|t: Seq<char>| front.to_set().contains(t) implies other.to_set().contains(
                t,
            ) by {
                lemma_front_has(a, b, t);
            }
            assert forall|t: Seq<char>| other.to_set().contains(t) implies front.to_set().contains(
                t,
            ) by {
                lemma_front_has(b, a, t);
            }
        }
        law_sorted_lists_are_unique(front, other);
        assert(a =~= front.push(x));
        assert(b =~= other.push(y));
    }
}

/// What stands in front of the last text of one list stands in front of the last
/// text of the other.
proof fn lemma_front_has(a: Seq<Seq<char>>, b: Seq<Seq<char>>, t: Seq<char>)
    requires
        is_strictly_sorted(a),
        a.to_set() == b.to_set(),
        a.len() > 0,
        b.len() > 0,
        a.last() == b.last(),
        a.drop_last().contains(t),
    ensures
        b.drop_last().contains(t),
{
    let i = choose|i: int| 0 <= i < a.drop_last().len() && a.drop_last()[i] == t;
    assert(a[i] == t);
    assert(a.to_set().contains(t));
    assert(b.contains(t));
    let j = choose|j: int| 0 <= j < b.len() && b[j] == t;
    if j == b.len() - 1 {
        assert(precedes(a[i], a[a.len() - 1]));
        lemma_precedes_irreflexive(t);
    }
    assert(b.drop_last()[j] == t);
}

} // verus!
