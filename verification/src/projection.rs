//! What a projection is: the sequence of entities that a run of events
//! leaves behind.
//!
//! Entities are told apart by their `==`. What the executable functions of
//! the crate promise of the entities they compare holds where `==` on the
//! entity type follows its specification (`T::obeys_eq_spec()`), and what
//! they promise of the entities they copy holds where a clone is equal to
//! the entity it was made of ([`exact_clone`]). No function asks either of
//! its caller:
//! with an entity type that keeps neither, every function still runs to its
//! end.
use vstd::prelude::*;
use vstd::std_specs::cmp::PartialEqSpec;
use crate::error::StoreError;
use crate::event::Event;
use crate::timestamp::Timestamp;

verus! {

/// Cloning an entity yields an entity equal to it in every respect.
pub open spec fn exact_clone<T: Clone>() -> bool {
    forall|a: T, b: T| #[trigger] cloned(a, b) ==> a == b
}

/// The entity at index `i` of `s` is the same entity as `x`.
pub open spec fn matches_at<T: PartialEq>(s: Seq<T>, x: T, i: int) -> bool {
    0 <= i < s.len() && s[i].eq_spec(&x)
}

/// The projection `s` holds the entity `x`.
pub open spec fn holds<T: PartialEq>(s: Seq<T>, x: T) -> bool {
    exists|i: int| matches_at(s, x, i)
}

/// Index `i` is the first place in `s` that holds the entity `x`.
pub open spec fn is_position_of<T: PartialEq>(s: Seq<T>, x: T, i: int) -> bool {
    matches_at(s, x, i) && forall|j: int| 0 <= j < i ==> !matches_at(s, x, j)
}

/// The first place in `s` that holds the entity `x`, if any does.
pub open spec fn position_of<T: PartialEq>(s: Seq<T>, x: T) -> Option<int> {
    if holds(s, x) {
        Some(choose|i: int| is_position_of(s, x, i))
    } else {
        None
    }
}

/// The projection after one event, or the reason the event does not apply.
///
/// A create appends its entity and is refused if the entity is there
/// already. An update puts its entity in the place of the one it matches, a
/// delete takes that one out, and both are refused if there is none.
pub open spec fn applied<T: PartialEq>(s: Seq<T>, e: Event<T>) -> Result<Seq<T>, StoreError> {
    match (e, position_of(s, e.payload())) {
        (Event::Create(c), None) => Ok(s.push(c.data)),
        (Event::Create(_), Some(_)) => Err(StoreError::DuplicateCreate),
        (Event::Update(c), Some(i)) => Ok(s.update(i, c.data)),
        (Event::Delete(_), Some(i)) => Ok(s.remove(i)),
        (_, None) => Err(StoreError::MissingEntity),
    }
}

/// The projection after all of `events`, applied in order to `s`; `None` if
/// one of them does not apply.
pub open spec fn replayed<T: PartialEq>(s: Seq<T>, events: Seq<Event<T>>) -> Option<Seq<T>>
    decreases events.len(),
{
    if events.len() == 0 {
        Some(s)
    } else {
        match replayed(s, events.drop_last()) {
            Some(before) => match applied(before, events.last()) {
                Ok(after) => Some(after),
                Err(_) => None,
            },
            None => None,
        }
    }
}

/// The first `n` events all occurred at or before `t`, and the next one, if
/// there is one, occurred after `t`.
pub open spec fn is_due_count<T>(events: Seq<Event<T>>, t: Timestamp, n: int) -> bool {
    &&& 0 <= n <= events.len()
    &&& forall|i: int| 0 <= i < n ==> (#[trigger] events[i]).time()@ <= t@
    &&& n < events.len() ==> events[n].time()@ > t@
}

/// How many events stand before the first one that occurred after `t`.
pub open spec fn due_count<T>(events: Seq<Event<T>>, t: Timestamp) -> int {
    choose|n: int| is_due_count(events, t, n)
}

/// The projection as of instant `t`: `s` after the events that stand before
/// the first one that occurred after `t`.
pub open spec fn replayed_until<T: PartialEq>(
    s: Seq<T>,
    events: Seq<Event<T>>,
    t: Timestamp,
) -> Option<Seq<T>> {
    replayed(s, events.take(due_count(events, t)))
}

/// A first place is the place that `position_of` names.
pub proof fn lemma_position_of_first<T: PartialEq>(s: Seq<T>, x: T, i: int)
    requires
        is_position_of(s, x, i),
    ensures
        position_of(s, x) == Some(i),
{
    assert(matches_at(s, x, i));
    let k = choose|k: int| is_position_of(s, x, k);
    if k < i {
        assert(!matches_at(s, x, k));
    }
    if i < k {
        assert(!matches_at(s, x, i));
    }
}

/// Where the entity is held, `position_of` names its first place; where it
/// is not, no place matches.
pub proof fn lemma_position_of<T: PartialEq>(s: Seq<T>, x: T)
    ensures
        match position_of(s, x) {
            Some(i) => is_position_of(s, x, i),
            None => forall|j: int| !matches_at(s, x, j),
        },
{
    if holds(s, x) {
        let w = choose|i: int| matches_at(s, x, i);
        lemma_first_match_exists(s, x, w);
    }
}

proof fn lemma_first_match_exists<T: PartialEq>(s: Seq<T>, x: T, w: int)
    requires
        matches_at(s, x, w),
    ensures
        exists|i: int| is_position_of(s, x, i),
    decreases w,
{
    if exists|j: int| 0 <= j < w && matches_at(s, x, j) {
        let j = choose|j: int| 0 <= j < w && matches_at(s, x, j);
        lemma_first_match_exists(s, x, j);
    } else {
        assert(is_position_of(s, x, w));
    }
}

/// Every log has a due count, and `due_count` names it.
pub proof fn lemma_due_count<T>(events: Seq<Event<T>>, t: Timestamp)
    ensures
        is_due_count(events, t, due_count(events, t)),
    decreases events.len(),
{
    if events.len() == 0 {
        assert(is_due_count(events, t, 0));
    } else {
        let front = events.drop_last();
        lemma_due_count(front, t);
        let n = due_count(front, t);
        if n < front.len() {
            assert(front[n] == events[n]);
            assert forall|i: int| 0 <= i < n implies (#[trigger] events[i]).time()@ <= t@ by {
                assert(front[i] == events[i]);
            }
            assert(is_due_count(events, t, n));
        } else if events.last().time()@ <= t@ {
            assert forall|i: int| 0 <= i < events.len() implies (#[trigger] events[i]).time()@
                <= t@ by {
                if i < front.len() {
                    assert(front[i] == events[i]);
                }
            }
            assert(is_due_count(events, t, events.len() as int));
        } else {
            assert forall|i: int| 0 <= i < n implies (#[trigger] events[i]).time()@ <= t@ by {
                assert(front[i] == events[i]);
            }
            assert(is_due_count(events, t, n));
        }
    }
}

/// A log has one due count only.
pub proof fn lemma_due_count_unique<T>(events: Seq<Event<T>>, t: Timestamp, n: int)
    requires
        is_due_count(events, t, n),
    ensures
        due_count(events, t) == n,
{
    let m = due_count(events, t);
    if m < n {
        assert(events[m].time()@ <= t@);
    }
    if n < m {
        assert(events[n].time()@ <= t@);
    }
}

/// Where every event of `first` is due at `t`, the due events of the joined
/// log are all of `first` and the due events of `second`.
pub proof fn lemma_due_count_after_due<T>(
    first: Seq<Event<T>>,
    second: Seq<Event<T>>,
    t: Timestamp,
)
    requires
        forall|i: int| 0 <= i < first.len() ==> (#[trigger] first[i]).time()@ <= t@,
    ensures
        due_count(first + second, t) == first.len() + due_count(second, t),
{
    lemma_due_count(second, t);
    let n = due_count(second, t);
    let joined = first + second;
    assert forall|i: int| 0 <= i < first.len() + n implies (#[trigger] joined[i]).time()@
        <= t@ by {
        if i < first.len() {
            assert(joined[i] == first[i]);
        } else {
            assert(joined[i] == second[i - first.len()]);
        }
    }
    if n < second.len() {
        assert(joined[first.len() + n] == second[n]);
    }
    lemma_due_count_unique(joined, t, first.len() + n);
}

/// Where no event of `second` is due at `t`, the due events of the joined
/// log are those of `first`.
pub proof fn lemma_due_count_before_late<T>(
    first: Seq<Event<T>>,
    second: Seq<Event<T>>,
    t: Timestamp,
)
    requires
        forall|i: int| 0 <= i < second.len() ==> (#[trigger] second[i]).time()@ > t@,
    ensures
        due_count(first + second, t) == due_count(first, t),
{
    lemma_due_count(first, t);
    let n = due_count(first, t);
    let joined = first + second;
    assert forall|i: int| 0 <= i < n implies (#[trigger] joined[i]).time()@ <= t@ by {
        assert(joined[i] == first[i]);
    }
    if n < joined.len() {
        if n < first.len() {
            assert(joined[n] == first[n]);
        } else {
            assert(joined[n] == second[n - first.len()]);
        }
    }
    lemma_due_count_unique(joined, t, n);
}

/// Replaying one more event is replaying the others and then applying it.
pub proof fn lemma_replayed_push<T: PartialEq>(s: Seq<T>, events: Seq<Event<T>>, e: Event<T>)
    ensures
        replayed(s, events.push(e)) == match replayed(s, events) {
            Some(before) => match applied(before, e) {
                Ok(after) => Some(after),
                Err(_) => None,
            },
            None => None,
        },
{
    assert(events.push(e).drop_last() =~= events);
}

/// Replaying two logs one after the other is replaying them joined.
pub proof fn lemma_replayed_concat<T: PartialEq>(
    s: Seq<T>,
    first: Seq<Event<T>>,
    second: Seq<Event<T>>,
)
    ensures
        replayed(s, first + second) == match replayed(s, first) {
            Some(middle) => replayed(middle, second),
            None => None,
        },
    decreases second.len(),
{
    if second.len() == 0 {
        assert(first + second =~= first);
    } else {
        lemma_replayed_concat(s, first, second.drop_last());
        assert((first + second).drop_last() =~= first + second.drop_last());
        assert((first + second).last() == second.last());
    }
}

/// Replaying up to `t` a log that lies between events that are all due at
/// `t` and events that are all later than `t` is replaying the events
/// before it and then the log itself up to `t`.
pub proof fn lemma_replayed_until_between<T: PartialEq>(
    s: Seq<T>,
    older: Seq<Event<T>>,
    events: Seq<Event<T>>,
    newer: Seq<Event<T>>,
    t: Timestamp,
)
    requires
        forall|i: int| 0 <= i < older.len() ==> (#[trigger] older[i]).time()@ <= t@,
        forall|i: int| 0 <= i < newer.len() ==> (#[trigger] newer[i]).time()@ > t@,
    ensures
        replayed_until(s, older + (events + newer), t) == match replayed(s, older) {
            Some(middle) => replayed_until(middle, events, t),
            None => None,
        },
{
    lemma_due_count_after_due(older, events + newer, t);
    lemma_due_count_before_late(events, newer, t);
    lemma_due_count(events, t);
    let due = due_count(events, t);
    assert((older + (events + newer)).take(older.len() + due) =~= older + events.take(due));
    lemma_replayed_concat(s, older, events.take(due));
}

/// Once a log fails to replay, no longer log that begins with it replays.
pub proof fn lemma_replayed_prefix_fails<T: PartialEq>(
    s: Seq<T>,
    events: Seq<Event<T>>,
    i: int,
    j: int,
)
    requires
        0 <= i <= j <= events.len(),
        replayed(s, events.take(i)) is None,
    ensures
        replayed(s, events.take(j)) is None,
{
    lemma_replayed_concat(s, events.take(i), events.subrange(i, j));
    assert(events.take(i) + events.subrange(i, j) =~= events.take(j));
}

/// Finds the first place in `snapshot` that holds `entity`.
pub fn find_position<T: PartialEq>(snapshot: &Vec<T>, entity: &T) -> (r: Option<usize>)
    ensures
        r matches Some(i) ==> i < snapshot.len(),
        T::obeys_eq_spec() ==> match position_of(snapshot@, *entity) {
            Some(i) => r is Some && r.unwrap() == i,
            None => r is None,
        },
{
    let mut i: usize = 0;
    while i < snapshot.len()
        invariant
            i <= snapshot.len(),
            T::obeys_eq_spec() ==> forall|j: int|
                0 <= j < i ==> !matches_at(snapshot@, *entity, j),
        decreases snapshot.len() - i,
    {
        if snapshot[i] == *entity {
            proof {
                if T::obeys_eq_spec() {
                    lemma_position_of_first(snapshot@, *entity, i as int);
                }
            }
            return Some(i);
        }
        i += 1;
    }
    proof {
        lemma_position_of(snapshot@, *entity);
    }
    None
}

} // verus!
