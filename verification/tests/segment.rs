use chrono::Utc;
use libocc::{Event, EventContent, Segment, StoreError, Timestamp, CRUD};

/// A small entity whose identity is its `id`.
#[derive(Debug, Clone)]
struct Entry {
    id: u64,
    v: u64,
}

impl PartialEq for Entry {
    fn eq(&self, other: &Self) -> bool {
        self.id == other.id
    }
}

fn entry(id: u64, v: u64) -> Entry {
    Entry { id, v }
}

fn at(secs: i64) -> Timestamp {
    Timestamp::new(secs, 0)
}

fn create(secs: i64, id: u64, v: u64) -> Event<Entry> {
    Event::Create(EventContent::new(at(secs), entry(id, v)))
}

fn update(secs: i64, id: u64, v: u64) -> Event<Entry> {
    Event::Update(EventContent::new(at(secs), entry(id, v)))
}

fn delete(secs: i64, id: u64) -> Event<Entry> {
    Event::Delete(EventContent::new(at(secs), entry(id, 0)))
}

fn rows(projection: &[Entry]) -> Vec<(u64, u64)> {
    projection.iter().map(|i| (i.id, i.v)).collect()
}

fn times(s: &Segment<Entry>) -> Vec<i64> {
    s.get_events().iter().map(|e| e.get_time().secs).collect()
}

fn clock() -> Timestamp {
    let now = Utc::now();
    Timestamp::new(now.timestamp(), now.timestamp_subsec_nanos())
}

#[test]
fn new_segment_is_empty_and_starts_now() {
    let before = clock();
    let s = Segment::<Entry>::new();
    let after = clock();
    assert!(s.get_projection().is_empty());
    assert!(s.get_events().is_empty());
    assert!(before <= *s.get_time() && *s.get_time() <= after);
}

#[test]
fn from_projection_keeps_what_it_is_given() {
    let before = clock();
    let s = Segment::from_projection(vec![entry(1, 2), entry(3, 4)], vec![create(7, 3, 4)]);
    let after = clock();
    assert_eq!(rows(s.get_projection()), vec![(1, 2), (3, 4)]);
    assert_eq!(times(&s), vec![7]);
    assert!(before <= *s.get_time() && *s.get_time() <= after);
}

#[test]
fn from_parts_keeps_what_it_is_given() {
    let s = Segment::from_parts(
        Timestamp::new(-5, 17),
        vec![entry(1, 2)],
        vec![create(7, 1, 2)],
    );
    assert_eq!(*s.get_time(), Timestamp::new(-5, 17));
    assert_eq!(s.get_time().secs, -5);
    assert_eq!(s.get_time().nanos, 17);
    assert_eq!(rows(s.get_projection()), vec![(1, 2)]);
    assert_eq!(times(&s), vec![7]);
}

#[test]
fn apply_create_appends() {
    let mut snapshot = vec![entry(1, 10)];
    assert_eq!(Segment::apply_event_to(&mut snapshot, create(0, 2, 20)), Ok(()));
    assert_eq!(rows(&snapshot), vec![(1, 10), (2, 20)]);
    assert_eq!(
        Segment::apply_event_to(&mut snapshot, create(0, 1, 99)),
        Err(StoreError::DuplicateCreate)
    );
    assert_eq!(rows(&snapshot), vec![(1, 10), (2, 20)]);
}

#[test]
fn apply_update_replaces_in_place() {
    let mut snapshot = vec![entry(1, 10), entry(2, 20), entry(3, 30)];
    assert_eq!(Segment::apply_event_to(&mut snapshot, update(0, 2, 21)), Ok(()));
    assert_eq!(rows(&snapshot), vec![(1, 10), (2, 21), (3, 30)]);
    assert_eq!(
        Segment::apply_event_to(&mut snapshot, update(0, 4, 40)),
        Err(StoreError::MissingEntity)
    );
    assert_eq!(rows(&snapshot), vec![(1, 10), (2, 21), (3, 30)]);
}

#[test]
fn apply_delete_removes() {
    let mut snapshot = vec![entry(1, 10), entry(2, 20), entry(3, 30)];
    assert_eq!(Segment::apply_event_to(&mut snapshot, delete(0, 2)), Ok(()));
    assert_eq!(rows(&snapshot), vec![(1, 10), (3, 30)]);
    assert_eq!(
        Segment::apply_event_to(&mut snapshot, delete(0, 2)),
        Err(StoreError::MissingEntity)
    );
    assert_eq!(rows(&snapshot), vec![(1, 10), (3, 30)]);
    assert_eq!(Segment::apply_event_to(&mut snapshot, delete(0, 1)), Ok(()));
    assert_eq!(Segment::apply_event_to(&mut snapshot, delete(0, 3)), Ok(()));
    assert!(snapshot.is_empty());
    assert_eq!(
        Segment::apply_event_to(&mut snapshot, update(0, 3, 1)),
        Err(StoreError::MissingEntity)
    );
}

#[test]
fn apply_touches_the_first_match_only() {
    // A snapshot handed in from outside may hold an entity twice.
    let mut snapshot = vec![entry(1, 10), entry(2, 20), entry(1, 11)];
    assert_eq!(Segment::apply_event_to(&mut snapshot, update(0, 1, 12)), Ok(()));
    assert_eq!(rows(&snapshot), vec![(1, 12), (2, 20), (1, 11)]);
    assert_eq!(Segment::apply_event_to(&mut snapshot, delete(0, 1)), Ok(()));
    assert_eq!(rows(&snapshot), vec![(2, 20), (1, 11)]);
}

#[test]
fn push_applies_and_logs() {
    let mut s = Segment::from_parts(at(10), vec![], vec![]);
    assert_eq!(s.push(create(10, 1, 42)), Ok(()));
    assert_eq!(s.push(update(12, 1, 43)), Ok(()));
    assert_eq!(s.push(create(12, 2, 7)), Ok(()));
    assert_eq!(rows(s.get_projection()), vec![(1, 43), (2, 7)]);
    assert_eq!(times(&s), vec![10, 12, 12]);
    assert_eq!(s.get_events()[1].operation(), CRUD::Update);
    assert_eq!(s.get_events()[1].borrow().v, 43);
}

#[test]
fn push_refuses_events_out_of_order() {
    let mut s = Segment::from_parts(at(10), vec![], vec![]);
    assert_eq!(s.push(create(9, 1, 42)), Err(StoreError::OutOfOrderEvent));
    assert!(s.get_events().is_empty());
    assert!(s.get_projection().is_empty());
    assert_eq!(s.push(create(15, 1, 42)), Ok(()));
    assert_eq!(s.push(create(14, 2, 7)), Err(StoreError::OutOfOrderEvent));
    assert_eq!(s.push(update(14, 1, 1)), Err(StoreError::OutOfOrderEvent));
    assert_eq!(rows(s.get_projection()), vec![(1, 42)]);
    assert_eq!(times(&s), vec![15]);
    // Order is checked before the event itself.
    assert_eq!(s.push(create(14, 1, 42)), Err(StoreError::OutOfOrderEvent));
    assert_eq!(s.push(create(15, 1, 42)), Err(StoreError::DuplicateCreate));
    assert_eq!(times(&s), vec![15]);
}

#[test]
fn push_refuses_misplaced_events() {
    let mut s = Segment::from_parts(at(0), vec![], vec![]);
    assert_eq!(s.push(update(1, 1, 42)), Err(StoreError::MissingEntity));
    assert_eq!(s.push(delete(1, 1)), Err(StoreError::MissingEntity));
    assert_eq!(s.push(create(1, 1, 42)), Ok(()));
    assert_eq!(s.push(create(2, 1, 43)), Err(StoreError::DuplicateCreate));
    assert_eq!(rows(s.get_projection()), vec![(1, 42)]);
    assert_eq!(times(&s), vec![1]);
}

#[test]
fn project_onto_replays_up_to_the_instant() {
    let mut s = Segment::from_parts(at(10), vec![], vec![]);
    s.push(create(10, 1, 1)).unwrap();
    s.push(create(20, 2, 2)).unwrap();
    s.push(update(30, 1, 3)).unwrap();
    s.push(delete(40, 2)).unwrap();
    assert!(s.project_at_onto(&at(9), vec![]).is_none());
    assert_eq!(rows(&s.project_at_onto(&at(10), vec![]).unwrap()), vec![(1, 1)]);
    assert_eq!(rows(&s.project_at_onto(&at(19), vec![]).unwrap()), vec![(1, 1)]);
    assert_eq!(
        rows(&s.project_at_onto(&at(20), vec![]).unwrap()),
        vec![(1, 1), (2, 2)]
    );
    assert_eq!(
        rows(&s.project_at_onto(&at(30), vec![]).unwrap()),
        vec![(1, 3), (2, 2)]
    );
    assert_eq!(rows(&s.project_at_onto(&at(40), vec![]).unwrap()), vec![(1, 3)]);
    assert_eq!(rows(&s.project_at_onto(&at(99), vec![]).unwrap()), vec![(1, 3)]);
    // The segment itself is not changed by a projection.
    assert_eq!(rows(s.get_projection()), vec![(1, 3)]);
    assert_eq!(times(&s), vec![10, 20, 30, 40]);
}

#[test]
fn project_onto_starts_from_the_given_snapshot() {
    let s = Segment::from_parts(
        at(10),
        vec![entry(7, 70), entry(1, 2)],
        vec![update(11, 7, 71), create(12, 1, 2)],
    );
    assert_eq!(
        rows(&s.project_at_onto(&at(10), vec![entry(7, 70)]).unwrap()),
        vec![(7, 70)]
    );
    assert_eq!(
        rows(&s.project_at_onto(&at(11), vec![entry(7, 70)]).unwrap()),
        vec![(7, 71)]
    );
    assert_eq!(
        rows(&s.project_at_onto(&at(12), vec![entry(7, 70)]).unwrap()),
        vec![(7, 71), (1, 2)]
    );
}

#[test]
fn project_onto_fails_if_an_event_does_not_replay() {
    let s = Segment::from_parts(
        at(10),
        vec![],
        vec![update(11, 7, 71), create(12, 1, 2)],
    );
    // Nothing to update in an empty starting snapshot.
    assert!(s.project_at_onto(&at(11), vec![]).is_none());
    assert!(s.project_at_onto(&at(50), vec![]).is_none());
    // Before the failing event all is well.
    assert_eq!(
        rows(&s.project_at_onto(&at(10), vec![]).unwrap()),
        Vec::<(u64, u64)>::new()
    );
}

#[test]
fn project_onto_stops_at_the_first_later_event() {
    // A log handed in from outside may be out of order: replay stops at the
    // first event after the instant, whatever follows.
    let s = Segment::from_parts(
        at(0),
        vec![],
        vec![create(1, 1, 1), create(9, 2, 2), create(3, 3, 3)],
    );
    assert_eq!(rows(&s.project_at_onto(&at(5), vec![]).unwrap()), vec![(1, 1)]);
}

#[test]
fn prepend_joins_histories() {
    let mut earlier = Segment::from_parts(at(0), vec![], vec![]);
    earlier.push(create(1, 1, 1)).unwrap();
    earlier.push(create(5, 2, 2)).unwrap();
    let mut later = Segment::from_parts(at(5), vec![entry(1, 1), entry(2, 2)], vec![]);
    later.push(update(6, 1, 9)).unwrap();
    assert_eq!(later.prepend(earlier), Ok(()));
    assert_eq!(*later.get_time(), at(0));
    assert_eq!(times(&later), vec![1, 5, 6]);
    assert_eq!(rows(later.get_projection()), vec![(1, 9), (2, 2)]);
}

#[test]
fn prepend_refuses_an_overlap() {
    let mut earlier = Segment::from_parts(at(0), vec![], vec![]);
    earlier.push(create(6, 1, 1)).unwrap();
    let mut later = Segment::from_parts(at(5), vec![entry(1, 1)], vec![]);
    later.push(update(7, 1, 9)).unwrap();
    assert_eq!(later.check_prepend(&earlier), Err(StoreError::OverlappingSegments));
    assert_eq!(later.prepend(earlier), Err(StoreError::OverlappingSegments));
    assert_eq!(*later.get_time(), at(5));
    assert_eq!(times(&later), vec![7]);
    assert_eq!(rows(later.get_projection()), vec![(1, 9)]);
}

#[test]
fn prepend_compares_with_the_start_of_an_empty_predecessor() {
    let earlier = Segment::<Entry>::from_parts(at(6), vec![], vec![]);
    let mut later = Segment::<Entry>::from_parts(at(5), vec![], vec![]);
    assert_eq!(later.prepend(earlier), Err(StoreError::OverlappingSegments));
    let earlier = Segment::<Entry>::from_parts(at(5), vec![], vec![]);
    assert_eq!(later.check_prepend(&earlier), Ok(()));
    assert_eq!(later.prepend(earlier), Ok(()));
    assert_eq!(*later.get_time(), at(5));
}

#[test]
fn prepend_unchecked_joins_whatever_the_order() {
    let mut earlier = Segment::from_parts(at(8), vec![], vec![]);
    earlier.push(create(9, 1, 1)).unwrap();
    let mut later = Segment::from_parts(at(5), vec![entry(4, 4)], vec![]);
    later.push(create(7, 2, 2)).unwrap();
    later.prepend_unchecked(earlier);
    assert_eq!(*later.get_time(), at(8));
    assert_eq!(times(&later), vec![9, 7]);
    assert_eq!(rows(later.get_projection()), vec![(4, 4), (2, 2)]);
}

#[test]
fn cloned_segment_holds_the_same() {
    let mut s = Segment::from_parts(at(10), vec![], vec![]);
    s.push(create(10, 1, 42)).unwrap();
    let c = s.clone();
    s.push(update(11, 1, 43)).unwrap();
    assert_eq!(*c.get_time(), at(10));
    assert_eq!(rows(c.get_projection()), vec![(1, 42)]);
    assert_eq!(times(&c), vec![10]);
}

#[test]
fn find_position_names_the_first_match() {
    let snapshot = vec![entry(1, 10), entry(2, 20), entry(1, 11), entry(3, 30)];
    assert_eq!(libocc::projection::find_position(&snapshot, &entry(1, 0)), Some(0));
    assert_eq!(libocc::projection::find_position(&snapshot, &entry(2, 0)), Some(1));
    assert_eq!(libocc::projection::find_position(&snapshot, &entry(3, 0)), Some(3));
    assert_eq!(libocc::projection::find_position(&snapshot, &entry(4, 0)), None);
    assert_eq!(libocc::projection::find_position(&Vec::new(), &entry(1, 0)), None);
}
