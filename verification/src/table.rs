//! The store seen as a table keyed by identity.
//!
//! Where the `==` of the entity type compares an identity that each entity
//! carries, a projection is an ordered way to write down a table from
//! identities to entities, and each event does to the projection what the
//! plain table operation of its kind does to the table.
use vstd::prelude::*;
use vstd::std_specs::cmp::PartialEqSpec;
use crate::event::Event;
use crate::laws::law_latest_is_full_replay;
use crate::projection::{applied, holds, lemma_position_of, matches_at, position_of, replayed};
use crate::chain::{all_events, is_consistent};
use crate::segment::SegmentView;

verus! {

/// Two entities are the same entity exactly if `key` gives them the same
/// identity.
pub open spec fn identifies<T: PartialEq, K>(key: spec_fn(T) -> K) -> bool {
    forall|a: T, b: T| #[trigger] a.eq_spec(&b) <==> key(a) == key(b)
}

/// The identity of the entity at index `i` of `s`.
pub open spec fn key_at<T, K>(s: Seq<T>, key: spec_fn(T) -> K, i: int) -> K {
    key(s[i])
}

/// No two entities of `s` have the same identity.
pub open spec fn has_distinct_keys<T, K>(s: Seq<T>, key: spec_fn(T) -> K) -> bool {
    forall|i: int, j: int|
        0 <= i < j < s.len() ==> #[trigger] key_at(s, key, i) != #[trigger] key_at(s, key, j)
}

/// The identity `k` is that of the entity at index `i` of `s`.
pub open spec fn is_entry<T, K>(s: Seq<T>, key: spec_fn(T) -> K, k: K, i: int) -> bool {
    0 <= i < s.len() && key_at(s, key, i) == k
}

/// The table that the projection `s` writes down: each identity that occurs
/// in `s`, with the entity that has it.
pub open spec fn table_of<T, K>(s: Seq<T>, key: spec_fn(T) -> K) -> Map<K, T> {
    Map::new(
        |k: K| exists|i: int| is_entry(s, key, k, i),
        |k: K| s[choose|i: int| is_entry(s, key, k, i)],
    )
}

/// The table after one event, or `None` if the event does not apply: a
/// create inserts under an identity that is free, an update overwrites and
/// a delete removes under an identity that is taken.
pub open spec fn table_applied<T, K>(
    table: Map<K, T>,
    e: Event<T>,
    key: spec_fn(T) -> K,
) -> Option<Map<K, T>> {
    let k = key(e.payload());
    match e {
        Event::Create(c) => if table.dom().contains(k) {
            None
        } else {
            Some(table.insert(k, c.data))
        },
        Event::Update(c) => if table.dom().contains(k) {
            Some(table.insert(k, c.data))
        } else {
            None
        },
        Event::Delete(_) => if table.dom().contains(k) {
            Some(table.remove(k))
        } else {
            None
        },
    }
}

/// The table after all of `events`, applied in order; `None` if one of them
/// does not apply.
pub open spec fn table_replayed<T, K>(
    table: Map<K, T>,
    events: Seq<Event<T>>,
    key: spec_fn(T) -> K,
) -> Option<Map<K, T>>
    decreases events.len(),
{
    if events.len() == 0 {
        Some(table)
    } else {
        match table_replayed(table, events.drop_last(), key) {
            Some(before) => table_applied(before, events.last(), key),
            None => None,
        }
    }
}

/// In a projection without repeated identities, the table holds each entity
/// under its identity.
pub proof fn lemma_table_entry<T, K>(s: Seq<T>, key: spec_fn(T) -> K, i: int)
    requires
        has_distinct_keys(s, key),
        0 <= i < s.len(),
    ensures
        table_of(s, key).dom().contains(key(s[i])),
        table_of(s, key)[key(s[i])] == s[i],
{
    let k = key(s[i]);
    assert(is_entry(s, key, k, i));
    let c = choose|c: int| is_entry(s, key, k, c);
    if c < i {
        assert(key_at(s, key, c) != key_at(s, key, i));
    }
    if i < c {
        assert(key_at(s, key, i) != key_at(s, key, c));
    }
}

/// A projection holds an entity exactly if its table has the identity of
/// that entity.
pub proof fn lemma_holds_is_in_table<T: PartialEq, K>(s: Seq<T>, key: spec_fn(T) -> K, x: T)
    requires
        identifies::<T, K>(key),
    ensures
        holds(s, x) <==> table_of(s, key).dom().contains(key(x)),
{
    let k = key(x);
    if holds(s, x) {
        let i = choose|i: int| matches_at(s, x, i);
        assert(s[i].eq_spec(&x));
        assert(is_entry(s, key, k, i));
    }
    if table_of(s, key).dom().contains(k) {
        let i = choose|i: int| is_entry(s, key, k, i);
        assert(s[i].eq_spec(&x) <==> key(s[i]) == key(x));
        assert(matches_at(s, x, i));
    }
}

/// One event does to a projection what the table operation of its kind does
/// to the table of the projection, and is refused exactly if that operation
/// does not apply.
pub proof fn law_event_acts_on_table<T: PartialEq, K>(
    s: Seq<T>,
    e: Event<T>,
    key: spec_fn(T) -> K,
)
    requires
        identifies::<T, K>(key),
        has_distinct_keys(s, key),
    ensures
        match applied(s, e) {
            Ok(after) => has_distinct_keys(after, key) && table_applied(table_of(s, key), e, key)
                == Some(table_of(after, key)),
            Err(_) => table_applied(table_of(s, key), e, key) is None,
        },
{
    let x = e.payload();
    let k = key(x);
    let table = table_of(s, key);
    lemma_holds_is_in_table(s, key, x);
    lemma_position_of(s, x);
    match applied(s, e) {
        Err(_) => {},
        Ok(after) => {
            match e {
                Event::Create(_) => {
                    assert(after == s.push(x));
                    assert forall|i: int, j: int|
                        0 <= i < j < after.len() implies #[trigger] key_at(after, key, i)
                        != #[trigger] key_at(after, key, j) by {
                        if j < s.len() {
                            assert(key_at(s, key, i) != key_at(s, key, j));
                        } else {
                            if key(s[i]) == k {
                                assert(is_entry(s, key, k, i));
                            }
                        }
                    }
                    assert forall|q: K| #[trigger]
                        table_of(after, key).dom().contains(q) <==> table.insert(
                            k,
                            x,
                        ).dom().contains(q) by {
                        if table_of(after, key).dom().contains(q) {
                            let i = choose|i: int| is_entry(after, key, q, i);
                            if i < s.len() {
                                assert(is_entry(s, key, q, i));
                            }
                        }
                        if table.dom().contains(q) {
                            let i = choose|i: int| is_entry(s, key, q, i);
                            assert(is_entry(after, key, q, i));
                        }
                        if q == k {
                            assert(is_entry(after, key, q, s.len() as int));
                        }
                    }
                    assert forall|q: K| #[trigger]
                        table_of(after, key).dom().contains(q) implies table_of(after, key)[q]
                        == table.insert(k, x)[q] by {
                        let i = choose|i: int| is_entry(after, key, q, i);
                        lemma_table_entry(after, key, i);
                        if i < s.len() {
                            lemma_table_entry(s, key, i);
                        }
                    }
                    assert(table_of(after, key) =~= table.insert(k, x));
                },
                Event::Update(_) => {
                    let p = position_of(s, x).unwrap();
                    assert(s[p].eq_spec(&x));
                    assert(key(s[p]) == k);
                    assert(after == s.update(p, x));
                    assert forall|i: int| 0 <= i < s.len() implies key_at(after, key, i)
                        == key_at(s, key, i) by {}
                    assert forall|i: int, j: int|
                        0 <= i < j < after.len() implies #[trigger] key_at(after, key, i)
                        != #[trigger] key_at(after, key, j) by {
                        assert(key_at(s, key, i) != key_at(s, key, j));
                    }
                    assert forall|q: K| #[trigger]
                        table_of(after, key).dom().contains(q) <==> table.insert(
                            k,
                            x,
                        ).dom().contains(q) by {
                        if table_of(after, key).dom().contains(q) {
                            let i = choose|i: int| is_entry(after, key, q, i);
                            assert(key_at(after, key, i) == key_at(s, key, i));
                            assert(is_entry(s, key, q, i));
                        }
                        if table.dom().contains(q) {
                            let i = choose|i: int| is_entry(s, key, q, i);
                            assert(key_at(after, key, i) == key_at(s, key, i));
                            assert(is_entry(after, key, q, i));
                        }
                    }
                    assert forall|q: K| #[trigger]
                        table_of(after, key).dom().contains(q) implies table_of(after, key)[q]
                        == table.insert(k, x)[q] by {
                        let i = choose|i: int| is_entry(after, key, q, i);
                        assert(key_at(after, key, i) == key_at(s, key, i));
                        lemma_table_entry(after, key, i);
                        lemma_table_entry(s, key, i);
                        if i != p {
                            if q == k {
                                if i < p {
                                    assert(key_at(s, key, i) != key_at(s, key, p));
                                } else {
                                    assert(key_at(s, key, p) != key_at(s, key, i));
                                }
                            }
                        }
                    }
                    assert(table_of(after, key) =~= table.insert(k, x));
                },
                Event::Delete(_) => {
                    let p = position_of(s, x).unwrap();
                    assert(s[p].eq_spec(&x));
                    assert(key(s[p]) == k);
                    assert(after == s.remove(p));
                    let from = |i: int| if i < p { i } else { i + 1 };
                    assert forall|i: int| 0 <= i < after.len() implies key_at(after, key, i)
                        == key_at(s, key, from(i)) by {}
                    assert forall|i: int, j: int|
                        0 <= i < j < after.len() implies #[trigger] key_at(after, key, i)
                        != #[trigger] key_at(after, key, j) by {
                        assert(key_at(after, key, i) == key_at(s, key, from(i)));
                        assert(key_at(after, key, j) == key_at(s, key, from(j)));
                        assert(key_at(s, key, from(i)) != key_at(s, key, from(j)));
                    }
                    assert forall|q: K| #[trigger]
                        table_of(after, key).dom().contains(q) <==> table.remove(k).dom().contains(
                            q,
                        ) by {
                        if table_of(after, key).dom().contains(q) {
                            let i = choose|i: int| is_entry(after, key, q, i);
                            assert(key_at(after, key, i) == key_at(s, key, from(i)));
                            assert(is_entry(s, key, q, from(i)));
                            if from(i) < p {
                                assert(key_at(s, key, from(i)) != key_at(s, key, p));
                            } else {
                                assert(key_at(s, key, p) != key_at(s, key, from(i)));
                            }
                        }
                        if table.remove(k).dom().contains(q) {
                            let i = choose|i: int| is_entry(s, key, q, i);
                            assert(i != p);
                            let back = if i < p {
                                i
                            } else {
                                i - 1
                            };
                            assert(key_at(after, key, back) == key_at(s, key, from(back)));
                            assert(is_entry(after, key, q, back));
                        }
                    }
                    assert forall|q: K| #[trigger]
                        table_of(after, key).dom().contains(q) implies table_of(after, key)[q]
                        == table.remove(k)[q] by {
                        let i = choose|i: int| is_entry(after, key, q, i);
                        assert(key_at(after, key, i) == key_at(s, key, from(i)));
                        lemma_table_entry(after, key, i);
                        lemma_table_entry(s, key, from(i));
                    }
                    assert(table_of(after, key) =~= table.remove(k));
                },
            }
        },
    }
}

/// Replaying a log on a projection does to its table what replaying the
/// same log on the table does, and fails exactly if that fails.
pub proof fn law_replay_acts_on_table<T: PartialEq, K>(
    s: Seq<T>,
    events: Seq<Event<T>>,
    key: spec_fn(T) -> K,
)
    requires
        identifies::<T, K>(key),
        has_distinct_keys(s, key),
    ensures
        match replayed(s, events) {
            Some(after) => has_distinct_keys(after, key) && table_replayed(
                table_of(s, key),
                events,
                key,
            ) == Some(table_of(after, key)),
            None => table_replayed(table_of(s, key), events, key) is None,
        },
    decreases events.len(),
{
    if events.len() > 0 {
        law_replay_acts_on_table(s, events.drop_last(), key);
        match replayed(s, events.drop_last()) {
            Some(before) => {
                law_event_acts_on_table(before, events.last(), key);
            },
            None => {},
        }
    }
}

/// The latest projection of a consistent chain is the table that comes of
/// applying every event of the chain, in order, to an empty table keyed by
/// identity.
pub proof fn law_latest_is_table<T: PartialEq, K>(
    segments: Seq<SegmentView<T>>,
    key: spec_fn(T) -> K,
)
    requires
        identifies::<T, K>(key),
        is_consistent(segments),
        segments.len() > 0,
    ensures
        has_distinct_keys(segments.last().snapshot, key),
        table_replayed(Map::<K, T>::empty(), all_events(segments), key) == Some(
            table_of(segments.last().snapshot, key),
        ),
{
    law_latest_is_full_replay(segments);
    law_replay_acts_on_table(Seq::<T>::empty(), all_events(segments), key);
    assert(table_of(Seq::<T>::empty(), key) =~= Map::<K, T>::empty());
}

} // verus!
