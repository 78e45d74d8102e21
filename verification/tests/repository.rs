use chrono::Utc;
use libocc::{Event, EventContent, Repository, Segment, StoreError, Timestamp, CRUD};

/// A small entity whose identity is its `id`.
#[derive(Debug, Clone)]
struct Note {
    id: u64,
    text: String,
}

impl PartialEq for Note {
    fn eq(&self, other: &Self) -> bool {
        self.id == other.id
    }
}

fn note(id: u64, text: &str) -> Note {
    Note {
        id,
        text: String::from(text),
    }
}

fn at(secs: i64) -> Timestamp {
    Timestamp::new(secs, 0)
}

fn create(secs: i64, id: u64, text: &str) -> Event<Note> {
    Event::Create(EventContent::new(at(secs), note(id, text)))
}

fn update(secs: i64, id: u64, text: &str) -> Event<Note> {
    Event::Update(EventContent::new(at(secs), note(id, text)))
}

fn delete(secs: i64, id: u64) -> Event<Note> {
    Event::Delete(EventContent::new(at(secs), note(id, "")))
}

fn rows(projection: &[Note]) -> Vec<(u64, String)> {
    projection.iter().map(|n| (n.id, n.text.clone())).collect()
}

fn row(id: u64, text: &str) -> (u64, String) {
    (id, String::from(text))
}

fn clock() -> Timestamp {
    let now = Utc::now();
    Timestamp::new(now.timestamp(), now.timestamp_subsec_nanos())
}

/// Waits until the clock has moved on by at least a millisecond.
fn pause() {
    let start = Utc::now();
    while (Utc::now() - start).num_milliseconds() < 1 {
        std::hint::spin_loop();
    }
}

fn segment_shape(s: &Segment<Note>) -> (Timestamp, Vec<(u64, String)>, Vec<(i64, CRUD, u64)>) {
    (
        *s.get_time(),
        rows(s.get_projection()),
        s.get_events()
            .iter()
            .map(|e| (e.get_time().secs, e.operation(), e.borrow().id))
            .collect(),
    )
}

#[test]
fn empty_repository_starts_now() {
    let before = clock();
    let mut r = Repository::<Note>::new(vec![]).unwrap();
    let after = clock();
    assert!(r.get_projection().is_empty());
    let shapes = r.persist_data(|segments: &Vec<Segment<Note>>| {
        segments.iter().map(segment_shape).collect::<Vec<_>>()
    });
    assert_eq!(shapes.len(), 1);
    assert!(before <= shapes[0].0 && shapes[0].0 <= after);
    assert!(shapes[0].1.is_empty());
    assert!(shapes[0].2.is_empty());
}

#[test]
fn repository_replays_a_given_log() {
    let mut r = Repository::new(vec![
        create(10, 1, "a"),
        create(11, 2, "b"),
        update(12, 1, "c"),
        delete(13, 2),
    ])
    .unwrap();
    assert_eq!(rows(r.get_projection()), vec![row(1, "c")]);
    assert!(r.project_at(&at(9)).is_none());
    assert_eq!(rows(&r.project_at(&at(10)).unwrap()), vec![row(1, "a")]);
    assert_eq!(
        rows(&r.project_at(&at(11)).unwrap()),
        vec![row(1, "a"), row(2, "b")]
    );
    assert_eq!(
        rows(&r.project_at(&at(12)).unwrap()),
        vec![row(1, "c"), row(2, "b")]
    );
    assert_eq!(rows(&r.project_at(&at(13)).unwrap()), vec![row(1, "c")]);
    let shapes = r.persist_data(|segments: &Vec<Segment<Note>>| {
        segments.iter().map(segment_shape).collect::<Vec<_>>()
    });
    assert_eq!(
        shapes,
        vec![(
            at(10),
            vec![row(1, "c")],
            vec![
                (10, CRUD::Create, 1),
                (11, CRUD::Create, 2),
                (12, CRUD::Update, 1),
                (13, CRUD::Delete, 2),
            ]
        )]
    );
}

#[test]
fn repository_refuses_a_log_that_does_not_replay() {
    assert_eq!(
        Repository::new(vec![create(10, 1, "a"), create(9, 2, "b")]).err(),
        Some(StoreError::OutOfOrderEvent)
    );
    assert_eq!(
        Repository::new(vec![create(10, 1, "a"), create(11, 1, "b")]).err(),
        Some(StoreError::DuplicateCreate)
    );
    assert_eq!(
        Repository::new(vec![update(10, 1, "a")]).err(),
        Some(StoreError::MissingEntity)
    );
    assert_eq!(
        Repository::new(vec![create(10, 1, "a"), delete(11, 2), create(5, 3, "c")]).err(),
        Some(StoreError::MissingEntity)
    );
}

#[test]
fn repository_create_update_delete() {
    let mut r = Repository::<Note>::new(vec![]).unwrap();
    assert_eq!(r.create(note(1, "first")), Ok(()));
    assert_eq!(rows(r.get_projection()), vec![row(1, "first")]);
    let old_date = clock();
    pause();
    assert_eq!(r.update(note(1, "second")), Ok(()));
    assert_eq!(r.create(note(2, "other")), Ok(()));
    assert_eq!(
        rows(r.get_projection()),
        vec![row(1, "second"), row(2, "other")]
    );
    assert_eq!(rows(&r.project_at(&old_date).unwrap()), vec![row(1, "first")]);
    pause();
    let later = clock();
    pause();
    assert_eq!(r.delete(note(1, "")), Ok(()));
    assert_eq!(rows(r.get_projection()), vec![row(2, "other")]);
    assert_eq!(
        rows(&r.project_at(&later).unwrap()),
        vec![row(1, "second"), row(2, "other")]
    );
    let kinds = r.persist_data(|segments: &Vec<Segment<Note>>| {
        segments[0]
            .get_events()
            .iter()
            .map(|e| (e.operation(), e.borrow().id))
            .collect::<Vec<_>>()
    });
    assert_eq!(
        kinds,
        vec![
            (CRUD::Create, 1),
            (CRUD::Update, 1),
            (CRUD::Create, 2),
            (CRUD::Delete, 1),
        ]
    );
}

#[test]
fn repository_refuses_misplaced_changes() {
    let mut r = Repository::<Note>::new(vec![]).unwrap();
    assert_eq!(r.update(note(1, "x")), Err(StoreError::MissingEntity));
    assert_eq!(r.delete(note(1, "x")), Err(StoreError::MissingEntity));
    assert_eq!(r.create(note(1, "x")), Ok(()));
    assert_eq!(r.create(note(1, "y")), Err(StoreError::DuplicateCreate));
    assert_eq!(rows(r.get_projection()), vec![row(1, "x")]);
    let count = r.persist_data(|segments: &Vec<Segment<Note>>| segments[0].get_events().len());
    assert_eq!(count, 1);
}

#[test]
fn repository_refuses_changes_older_than_its_log() {
    // The log ends in the far future, so whatever the clock reads now is
    // older than its newest event.
    let mut r = Repository::new(vec![create(i64::MAX, 1, "a")]).unwrap();
    assert_eq!(r.update(note(1, "b")), Err(StoreError::OutOfOrderEvent));
    assert_eq!(r.create(note(2, "b")), Err(StoreError::OutOfOrderEvent));
    assert_eq!(r.delete(note(1, "b")), Err(StoreError::OutOfOrderEvent));
    assert_eq!(rows(r.get_projection()), vec![row(1, "a")]);
}
