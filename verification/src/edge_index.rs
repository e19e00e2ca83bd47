//! A map from edges to lists, filled by appending.

use std::collections::HashMap;
use vstd::prelude::*;
use crate::graph::Edge;

verus! {

/// Some entry of `entries` is keyed by `edge`.
pub open spec fn has_entry<T>(entries: Seq<(Edge, T)>, edge: Edge) -> bool {
    exists|i: int| 0 <= i < entries.len() && (#[trigger] entries[i]).0 == edge
}

/// The test that an entry is keyed by `edge`.
pub open spec fn keyed_by<T>(edge: Edge) -> spec_fn((Edge, T)) -> bool {
    |entry: (Edge, T)| entry.0 == edge
}

/// The value of an entry.
pub open spec fn entry_value<T>() -> spec_fn((Edge, T)) -> T {
    |entry: (Edge, T)| entry.1
}

/// The values that `entries` holds under `edge`, in the order of the entries.
pub open spec fn values_of<T>(entries: Seq<(Edge, T)>, edge: Edge) -> Seq<T> {
    entries.filter(keyed_by(edge)).map_values(entry_value())
}

/// The entries grouped by edge: every edge that keys an entry is mapped to
/// the values of its entries, in their order.
pub open spec fn grouped<T>(entries: Seq<(Edge, T)>) -> Map<Edge, Seq<T>> {
    Map::new(
        |edge: Edge| has_entry(entries, edge),
        |edge: Edge| values_of(entries, edge),
    )
}

/// An edge that keys no entry has no values.
pub proof fn lemma_values_of_absent<T>(entries: Seq<(Edge, T)>, edge: Edge)
    requires
        !has_entry(entries, edge),
    ensures
        values_of(entries, edge) == Seq::<T>::empty(),
{
    let kept = entries.filter(keyed_by(edge));
    if kept.len() > 0 {
        entries.lemma_filter_pred(keyed_by(edge), 0);
        assert(kept.contains(kept[0]));
        entries.lemma_filter_contains_rev(keyed_by(edge), kept[0]);
        let i = choose|i: int| 0 <= i < entries.len() && entries[i] == kept[0];
        assert(entries[i].0 == edge);
    }
    assert(values_of(entries, edge) =~= Seq::<T>::empty());
}

/// One more entry adds its value at the end of the list of its edge and
/// leaves the other lists alone.
pub proof fn lemma_grouped_push<T>(entries: Seq<(Edge, T)>, edge: Edge, value: T)
    ensures
        grouped(entries.push((edge, value))) == grouped(entries).insert(
            edge,
            values_of(entries, edge).push(value),
        ),
{
    let longer = entries.push((edge, value));
    let target = grouped(entries).insert(edge, values_of(entries, edge).push(value));
    assert forall|other: Edge| has_entry(longer, other) <==> (other == edge || has_entry(
        entries,
        other,
    )) by {
        if has_entry(longer, other) && other != edge {
            let i = choose|i: int| 0 <= i < longer.len() && (#[trigger] longer[i]).0 == other;
            assert(entries[i].0 == other);
        }
        if has_entry(entries, other) {
            let i = choose|i: int| 0 <= i < entries.len() && (#[trigger] entries[i]).0 == other;
            assert(longer[i].0 == other);
        }
        if other == edge {
            assert(longer[entries.len() as int].0 == edge);
        }
    }
    assert forall|other: Edge| has_entry(longer, other) implies values_of(longer, other)
        == target[other] by {
        entries.lemma_filter_push((edge, value), keyed_by(other));
        if other == edge {
            entries.filter(keyed_by(other)).lemma_push_map_commute(entry_value(), (edge, value));
        }
    }
    assert(grouped(longer) =~= target);
}

/// No entries, no groups.
pub proof fn lemma_grouped_empty<T>()
    ensures
        grouped(Seq::<(Edge, T)>::empty()) == Map::<Edge, Seq<T>>::empty(),
{
    assert(grouped(Seq::<(Edge, T)>::empty()) =~= Map::<Edge, Seq<T>>::empty());
}

/// The key under which an edge is stored: its first vertex in the high half,
/// its second in the low half.
spec fn slot_key(edge: Edge) -> u128 {
    (edge.0 as u128 * 0x1_0000_0000_0000_0000 + edge.1 as u128) as u128
}

/// Two edges have two keys.
proof fn lemma_slot_key_injective(a: Edge, b: Edge)
    requires
        slot_key(a) == slot_key(b),
    ensures
        a == b,
{
}

/// The key of `edge`.
fn key_of(edge: Edge) -> (key: u128)
    ensures
        key == slot_key(edge),
{
    let high: u128 = edge.0 as u128;
    let low: u128 = edge.1 as u128;
    high * 0x1_0000_0000_0000_0000u128 + low
}

/// A map from edges to lists of `T`. The edge `(u, v)` and the edge `(v, u)`
/// are two keys.
#[derive(Debug)]
pub struct EdgeIndex<T> {
    slots: HashMap<u128, Vec<T>>,
}

impl<T> View for EdgeIndex<T> {
    type V = Map<Edge, Seq<T>>;

    /// The lists, by edge.
    closed spec fn view(&self) -> Map<Edge, Seq<T>> {
        Map::new(
            |edge: Edge| self.slots@.contains_key(slot_key(edge)),
            |edge: Edge| self.slots@[slot_key(edge)]@,
        )
    }
}

impl<T> EdgeIndex<T> {
    /// The list of `edge`; empty where the edge has no entry.
    pub open spec fn list(&self, edge: Edge) -> Seq<T> {
        if self@.contains_key(edge) {
            self@[edge]
        } else {
            Seq::empty()
        }
    }

    /// The index without entries.
    pub fn new() -> (index: Self)
        ensures
            index@ == Map::<Edge, Seq<T>>::empty(),
    {
        let index = EdgeIndex { slots: HashMap::new() };
        assert(index@ =~= Map::<Edge, Seq<T>>::empty());
        index
    }

    /// Whether `edge` has an entry.
    pub fn contains_edge(&self, edge: Edge) -> (found: bool)
        ensures
            found == self@.contains_key(edge),
    {
        broadcast use vstd::std_specs::hash::group_hash_axioms;

        let key: u128 = key_of(edge);
        self.slots.contains_key(&key)
    }

    /// The list of `edge`, if it has an entry.
    pub fn get(&self, edge: Edge) -> (found: Option<&Vec<T>>)
        ensures
            match found {
                Some(list) => self@.contains_key(edge) && list@ == self@[edge],
                None => !self@.contains_key(edge),
            },
    {
        broadcast use vstd::std_specs::hash::group_hash_axioms;

        let key: u128 = key_of(edge);
        self.slots.get(&key)
    }

    /// Adds `value` at the end of the list of `edge`, which begins empty.
    pub fn append(&mut self, edge: Edge, value: T)
        ensures
            final(self)@ == old(self)@.insert(edge, old(self).list(edge).push(value)),
    {
        broadcast use vstd::std_specs::hash::group_hash_axioms;

        let key: u128 = key_of(edge);
        let mut list: Vec<T> = match self.slots.remove(&key) {
            Some(list) => list,
            None => Vec::new(),
        };
        list.push(value);
        self.slots.insert(key, list);
        proof {
            assert forall|other: Edge| other != edge implies slot_key(other) != key by {
                if slot_key(other) == key {
                    lemma_slot_key_injective(other, edge);
                }
            }
            assert(self@ =~= old(self)@.insert(edge, old(self).list(edge).push(value)));
        }
    }

    /// Makes `values` the list of `edge`, in place of any it had.
    pub fn insert(&mut self, edge: Edge, values: Vec<T>)
        ensures
            final(self)@ == old(self)@.insert(edge, values@),
    {
        broadcast use vstd::std_specs::hash::group_hash_axioms;

        let key: u128 = key_of(edge);
        self.slots.insert(key, values);
        proof {
            assert forall|other: Edge| other != edge implies slot_key(other) != key by {
                if slot_key(other) == key {
                    lemma_slot_key_injective(other, edge);
                }
            }
            assert(self@ =~= old(self)@.insert(edge, values@));
        }
    }
}

} // verus!
